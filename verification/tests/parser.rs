use hithit::error::{Error, Parse};
use hithit::formatter::{Formatter, HoleIdent, Token};
use hithit::kind::FormatKind;
use hithit::kind_set::KindSet;
use hithit::parser::curly::parse as parse_curly_runs;
use hithit::parser::naive::parse as parse_naive_runs;
use hithit::parser::{parse_curly, parse_naive, Parser};
use hithit::segments::{Segment, Segments};

fn set_of(kinds: Vec<FormatKind>) -> KindSet {
    let mut set = KindSet::new();
    for kind in kinds {
        set.insert(kind);
    }
    set
}

fn plain(text: &str) -> Segment {
    Segment { kind: KindSet::new(), text: text.to_string() }
}

fn bold(text: &str) -> Segment {
    Segment { kind: set_of(vec![FormatKind::Bold]), text: text.to_string() }
}

fn template(items: Vec<Segment>) -> Segments {
    Segments::from(items)
}

fn lit(segment: Segment) -> Token {
    Token::Segment(segment)
}

fn hole(ident: HoleIdent) -> Token {
    Token::Hole { kind: KindSet::new(), ident }
}

fn bold_hole(ident: HoleIdent) -> Token {
    Token::Hole { kind: set_of(vec![FormatKind::Bold]), ident }
}

fn named(name: &str) -> HoleIdent {
    HoleIdent::Named(name.to_string())
}

fn tokens_of(text: &str) -> Result<Vec<Token>, Parse> {
    parse_curly_runs(&template(vec![plain(text)])).map(|f| f.data)
}

fn counters(f: &Formatter) -> (usize, usize) {
    (f.indexed_holes(), f.named_holes().len())
}

#[test]
fn curly_reads_plain_text_as_one_literal() {
    assert_eq!(tokens_of("hello"), Ok(vec![lit(plain("hello"))]));
}

#[test]
fn curly_reads_nothing_from_empty_text() {
    assert_eq!(tokens_of(""), Ok(vec![]));
    let f = parse_curly_runs(&template(vec![])).unwrap();
    assert_eq!(f.data, vec![]);
    assert_eq!(counters(&f), (0, 0));
}

#[test]
fn curly_reads_the_three_kinds_of_holes() {
    assert_eq!(
        tokens_of("Hi {0}, meet {receiver}{}!"),
        Ok(vec![
            lit(plain("Hi ")),
            hole(HoleIdent::Indexed(0)),
            lit(plain(", meet ")),
            hole(named("receiver")),
            hole(HoleIdent::Anonymous),
            lit(plain("!")),
        ])
    );
}

#[test]
fn curly_reads_doubled_braces_as_braces() {
    assert_eq!(tokens_of("a{{b}}c"), Ok(vec![lit(plain("a{b}c"))]));
    assert_eq!(tokens_of("{{}}"), Ok(vec![lit(plain("{}"))]));
    assert_eq!(tokens_of("{{{}}}"), Ok(vec![lit(plain("{")), hole(HoleIdent::Anonymous), lit(plain("}"))]));
}

#[test]
fn curly_reads_a_hole_then_a_doubled_brace() {
    assert_eq!(tokens_of("{}}}"), Ok(vec![hole(HoleIdent::Anonymous), lit(plain("}"))]));
}

#[test]
fn curly_tells_where_a_brace_is_wrong() {
    assert_eq!(tokens_of("abc}"), Err(Parse { segment: 0, position: 3 }));
    assert_eq!(tokens_of("ab{cd"), Err(Parse { segment: 0, position: 2 }));
    assert_eq!(tokens_of("{"), Err(Parse { segment: 0, position: 0 }));
    assert_eq!(tokens_of("a{b{c}"), Err(Parse { segment: 0, position: 1 }));
    assert_eq!(tokens_of("{{}"), Err(Parse { segment: 0, position: 2 }));
    assert_eq!(tokens_of("{}}"), Err(Parse { segment: 0, position: 2 }));
    assert_eq!(tokens_of("\u{1F600}}"), Err(Parse { segment: 0, position: 1 }));
}

#[test]
fn curly_tells_in_which_run_a_brace_is_wrong() {
    let r = parse_curly_runs(&template(vec![plain("ok {}"), bold("no }")]));
    assert_eq!(r.err(), Some(Parse { segment: 1, position: 3 }));
    let first = parse_curly_runs(&template(vec![plain("{"), bold("}")]));
    assert_eq!(first.err(), Some(Parse { segment: 0, position: 0 }));
}

#[test]
fn curly_reads_each_run_on_its_own_with_its_kinds() {
    let f = parse_curly_runs(&template(vec![plain("a{}"), bold("{x}b")])).unwrap();
    assert_eq!(
        f.data,
        vec![
            lit(plain("a")),
            hole(HoleIdent::Anonymous),
            bold_hole(named("x")),
            lit(bold("b")),
        ]
    );
    assert_eq!(counters(&f), (1, 1));
    assert!(f.named_holes().contains("x"));
}

#[test]
fn curly_reads_numbers_as_indexes() {
    assert_eq!(tokens_of("{7}"), Ok(vec![hole(HoleIdent::Indexed(7))]));
    assert_eq!(tokens_of("{007}"), Ok(vec![hole(HoleIdent::Indexed(7))]));
    assert_eq!(tokens_of("{+7}"), Ok(vec![hole(HoleIdent::Indexed(7))]));
}

#[test]
fn curly_reads_other_identifiers_as_names() {
    assert_eq!(tokens_of("{-7}"), Ok(vec![hole(named("-7"))]));
    assert_eq!(tokens_of("{+}"), Ok(vec![hole(named("+"))]));
    assert_eq!(tokens_of("{7a}"), Ok(vec![hole(named("7a"))]));
    assert_eq!(tokens_of("{ 7}"), Ok(vec![hole(named(" 7"))]));
    assert_eq!(tokens_of("{ }"), Ok(vec![hole(named(" "))]));
    assert_eq!(tokens_of("{\u{FF11}}"), Ok(vec![hole(named("\u{FF11}"))]));
    assert_eq!(
        tokens_of("{99999999999999999999999999999999999999999}"),
        Ok(vec![hole(named("99999999999999999999999999999999999999999"))])
    );
}

#[test]
fn curly_reads_the_greatest_index_that_fits() {
    let text = format!("{{{}}}", usize::MAX);
    let f = parse_curly_runs(&template(vec![plain(&text)])).unwrap();
    assert_eq!(f.data, vec![hole(HoleIdent::Indexed(usize::MAX))]);
    assert_eq!(f.indexed_holes(), usize::MAX);
}

#[test]
fn curly_counts_what_the_program_asks_for() {
    let f = parse_curly_runs(&template(vec![plain("{}{}{a}{b}{a}")])).unwrap();
    assert_eq!(counters(&f), (2, 2));
    let g = parse_curly_runs(&template(vec![plain("{}{4}{1}")])).unwrap();
    assert_eq!(counters(&g), (5, 0));
    let h = parse_curly_runs(&template(vec![plain("{0}{}{}{}")])).unwrap();
    assert_eq!(counters(&h), (3, 0));
    let none = parse_curly_runs(&template(vec![plain("no holes {{}}")])).unwrap();
    assert_eq!(counters(&none), (0, 0));
}

#[test]
fn curly_is_reached_under_both_names() {
    let t = template(vec![plain("{}")]);
    assert_eq!(parse_curly(&t).unwrap().data, parse_curly_runs(&t).unwrap().data);
    assert_eq!(parse_naive(&t).data, parse_naive_runs(&t).data);
}

#[test]
fn naive_puts_the_receiver_at_the_first_white_space() {
    let f = parse_naive_runs(&template(vec![bold("hit with"), plain(" a hammer")]));
    assert_eq!(
        f.data,
        vec![
            lit(bold("hit ")),
            bold_hole(HoleIdent::Indexed(1)),
            lit(bold(" with")),
            lit(plain(" a hammer")),
        ]
    );
    assert_eq!(counters(&f), (1, 0));
}

#[test]
fn naive_looks_for_white_space_in_later_runs() {
    let f = parse_naive_runs(&template(vec![plain("hit"), bold("hard\tnow")]));
    assert_eq!(
        f.data,
        vec![
            lit(plain("hit")),
            lit(bold("hard ")),
            bold_hole(HoleIdent::Indexed(1)),
            lit(bold(" now")),
        ]
    );
    assert_eq!(counters(&f), (1, 0));
}

#[test]
fn naive_cuts_at_leading_and_trailing_white_space() {
    let lead = parse_naive_runs(&template(vec![plain(" x")]));
    assert_eq!(
        lead.data,
        vec![lit(plain(" ")), hole(HoleIdent::Indexed(1)), lit(plain(" x"))]
    );
    let trail = parse_naive_runs(&template(vec![plain("x\u{3000}")]));
    assert_eq!(
        trail.data,
        vec![lit(plain("x ")), hole(HoleIdent::Indexed(1)), lit(plain(" "))]
    );
}

#[test]
fn naive_appends_particle_and_receiver_without_white_space() {
    let f = parse_naive_runs(&template(vec![bold("hit")]));
    assert_eq!(
        f.data,
        vec![lit(bold("hit")), lit(plain("\u{4E86} ")), hole(HoleIdent::Indexed(1))]
    );
    assert_eq!(counters(&f), (0, 0));
}

#[test]
fn naive_does_not_repeat_the_particle() {
    let f = parse_naive_runs(&template(vec![plain("\u{6253}\u{4E86}")]));
    assert_eq!(
        f.data,
        vec![lit(plain("\u{6253}\u{4E86}")), lit(plain(" ")), hole(HoleIdent::Indexed(1))]
    );
    assert_eq!(counters(&f), (0, 0));
}

#[test]
fn naive_of_no_run_is_particle_and_receiver() {
    let f = parse_naive_runs(&template(vec![]));
    assert_eq!(f.data, vec![lit(plain("\u{4E86} ")), hole(HoleIdent::Indexed(1))]);
    assert_eq!(counters(&f), (0, 0));
}

#[test]
fn parser_takes_a_template_with_holes_as_written() {
    let with_index = Parser::new(template(vec![plain("{1} wins")]), true).try_as_formatter().unwrap();
    assert_eq!(with_index.data, vec![hole(HoleIdent::Indexed(1)), lit(plain(" wins"))]);
    let with_name = Parser::new(template(vec![plain("{me} wins")]), false).try_as_formatter().unwrap();
    assert_eq!(with_name.data, vec![hole(named("me")), lit(plain(" wins"))]);
    assert_eq!(counters(&with_name), (0, 1));
}

#[test]
fn parser_falls_back_where_allowed() {
    let f = Parser::new(template(vec![plain("hit")]), true).try_as_formatter().unwrap();
    assert_eq!(
        f.data,
        vec![lit(plain("hit")), lit(plain("\u{4E86} ")), hole(HoleIdent::Indexed(1))]
    );
}

#[test]
fn parser_declines_without_holes_and_without_fallback() {
    let r = Parser::new(template(vec![plain("hit")]), false).try_as_formatter();
    assert_eq!(r.err(), Some(Error::ShouldNotHandle));
}

#[test]
fn parser_hands_parse_errors_on() {
    let r = Parser::new(template(vec![plain("hit }")]), true).try_as_formatter();
    assert_eq!(r.err(), Some(Error::Parse(Parse { segment: 0, position: 4 })));
}
