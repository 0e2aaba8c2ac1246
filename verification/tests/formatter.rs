use hithit::error::Format;
use hithit::formatter::{
    add_exclaim_mark, end_with_marks, FormatContext, Formatter, FormatError, HoleIdent, Token,
};
use hithit::kind::FormatKind;
use hithit::kind_set::KindSet;
use hithit::parser::curly::parse as read_curly;
use hithit::parser::naive::parse as read_naive;
use hithit::segments::{Segment, Segments};
use hithit::user::User;

fn kinds(items: Vec<FormatKind>) -> KindSet {
    let mut set = KindSet::new();
    for kind in items {
        set.insert(kind);
    }
    set
}

fn text_run(items: Vec<FormatKind>, text: &str) -> Segment {
    Segment { kind: kinds(items), text: text.to_string() }
}

fn person(id: u64, first: &str) -> User {
    User {
        id,
        is_bot: false,
        first_name: first.to_string(),
        last_name: None,
        username: None,
        language_code: None,
        is_premium: false,
        added_to_attachment_menu: false,
    }
}

fn mention_of(user: &User) -> FormatKind {
    FormatKind::TextMention { user: user.clone() }
}

fn program(text: &str) -> Formatter {
    read_curly(&Segments::from(vec![text_run(vec![], text)])).unwrap()
}

fn usual_context() -> (FormatContext, User, User) {
    let ann = person(1, "Ann");
    let bob = person(2, "Bob");
    let ctx = FormatContext::new(
        Segment::from_user(ann.clone()),
        Segment::from_user(bob.clone()),
        Segment::from_user_with_name(ann.clone(), "myself".to_string()),
    );
    (ctx, ann, bob)
}

#[test]
fn format_fills_indexed_and_named_holes() {
    let (ctx, ann, bob) = usual_context();
    let out = program("Hi {0}, meet {receiver}!").format(&ctx).unwrap();
    assert_eq!(out.text(), "Hi Ann, meet Bob!");
    assert_eq!(
        out,
        Segments::from(vec![
            text_run(vec![], "Hi "),
            text_run(vec![mention_of(&ann)], "Ann"),
            text_run(vec![], ", meet "),
            text_run(vec![mention_of(&bob)], "Bob"),
            text_run(vec![], "!"),
        ])
    );
}

#[test]
fn format_with_given_arguments() {
    let sender = text_run(vec![FormatKind::Italic], "S");
    let receiver = text_run(vec![FormatKind::Code], "R");
    let ctx = FormatContext::with_args(
        vec![sender.clone(), receiver.clone()],
        vec![("receiver".to_string(), receiver.clone())],
    );
    let out = program("Hi {0}, meet {receiver}!").format(&ctx).unwrap();
    assert_eq!(
        out,
        Segments::from(vec![
            text_run(vec![], "Hi "),
            sender,
            text_run(vec![], ", meet "),
            receiver,
            text_run(vec![], "!"),
        ])
    );
}

#[test]
fn format_second_anonymous_hole_needs_a_second_argument() {
    let ctx = FormatContext::with_args(vec![text_run(vec![], "A")], vec![]);
    assert_eq!(program("{}").format(&ctx).unwrap().text(), "A\u{FF01}");
    assert_eq!(program("{}{}").format(&ctx).err(), Some(Format::InvalidIndex(1)));
}

#[test]
fn format_anonymous_holes_count_on_their_own() {
    let (ctx, _, _) = usual_context();
    assert_eq!(program("{}{1}{}.").format(&ctx).unwrap().text(), "AnnBobBob.");
    assert_eq!(program("{1}{}{0}.").format(&ctx).unwrap().text(), "BobAnnAnn.");
    assert_eq!(program("{}{}{}").format(&ctx).err(), Some(Format::InvalidIndex(2)));
}

#[test]
fn format_reports_a_missing_index() {
    let (ctx, _, _) = usual_context();
    assert_eq!(program("{2}").format(&ctx).err(), Some(Format::InvalidIndex(2)));
}

#[test]
fn format_reports_a_missing_name() {
    let (ctx, _, _) = usual_context();
    assert_eq!(
        program("{nobody}").format(&ctx).err(),
        Some(Format::InvalidKey("nobody".to_string()))
    );
}

#[test]
fn format_reports_the_first_hole_that_fails() {
    let (ctx, _, _) = usual_context();
    assert_eq!(
        program("{x}{9}").format(&ctx).err(),
        Some(Format::InvalidKey("x".to_string()))
    );
    assert_eq!(program("{9}{x}").format(&ctx).err(), Some(Format::InvalidIndex(9)));
}

#[test]
fn format_knows_the_names_of_the_context() {
    let (ctx, _, _) = usual_context();
    let out = program("{sender}|{receiver}|{penetrator}|{self}|{me}|{this}.").format(&ctx).unwrap();
    assert_eq!(out.text(), "Ann|Bob|Ann|myself|myself|myself.");
}

#[test]
fn format_unites_the_kinds_of_hole_and_value() {
    let (ctx, ann, _) = usual_context();
    let template = Segments::from(vec![text_run(vec![FormatKind::Bold], "{0}!")]);
    let out = read_curly(&template).unwrap().format(&ctx).unwrap();
    assert_eq!(
        out,
        Segments::from(vec![
            text_run(vec![FormatKind::Bold, mention_of(&ann)], "Ann"),
            text_run(vec![FormatKind::Bold], "!"),
        ])
    );
}

#[test]
fn format_trims_and_closes_with_a_mark() {
    let (ctx, ann, _) = usual_context();
    let out = program("  hello {0}  ").format(&ctx).unwrap();
    assert_eq!(
        out,
        Segments::from(vec![
            text_run(vec![], "hello "),
            text_run(vec![mention_of(&ann)], "Ann"),
            text_run(vec![], "\u{FF01}"),
        ])
    );
}

#[test]
fn format_of_an_empty_program_gives_nothing() {
    let (ctx, _, _) = usual_context();
    let f = Formatter { data: vec![], indexed: 0, named: program("").named };
    assert_eq!(f.format(&ctx).unwrap(), Segments::from(vec![]));
}

#[test]
fn format_of_a_literal_program_needs_no_context() {
    let ctx = FormatContext::with_args(vec![], vec![]);
    let f = Formatter {
        data: vec![Token::Segment(text_run(vec![FormatKind::Bold], " done? "))],
        indexed: 0,
        named: program("").named,
    };
    assert_eq!(
        f.format(&ctx).unwrap(),
        Segments::from(vec![text_run(vec![FormatKind::Bold], "done?")])
    );
}

#[test]
fn format_of_later_name_wins_in_given_arguments() {
    let ctx = FormatContext::with_args(
        vec![],
        vec![
            ("x".to_string(), text_run(vec![], "first")),
            ("x".to_string(), text_run(vec![], "second")),
        ],
    );
    assert_eq!(program("{x}.").format(&ctx).unwrap().text(), "second.");
}

#[test]
fn naive_then_format_never_fails() {
    let (ctx, _, _) = usual_context();
    let with_space = Segments::from(vec![text_run(vec![], "hit with a hammer")]);
    assert_eq!(
        read_naive(&with_space).format(&ctx).unwrap().text(),
        "hit Bob with a hammer\u{FF01}"
    );
    let without = Segments::from(vec![text_run(vec![], "hit")]);
    assert_eq!(read_naive(&without).format(&ctx).unwrap().text(), "hit\u{4E86} Bob\u{FF01}");
    let nothing = Segments::from(vec![]);
    assert_eq!(read_naive(&nothing).format(&ctx).unwrap().text(), "\u{4E86} Bob\u{FF01}");
    let braces = Segments::from(vec![text_run(vec![], "{a} }{")]);
    assert_eq!(read_naive(&braces).format(&ctx).unwrap().text(), "{a} Bob }{\u{FF01}");
}

#[test]
fn naive_then_format_fails_without_a_receiver() {
    let ctx = FormatContext::with_args(vec![text_run(vec![], "A")], vec![]);
    let t = Segments::from(vec![text_run(vec![], "hit")]);
    assert_eq!(read_naive(&t).format(&ctx).err(), Some(FormatError::InvalidIndex(1)));
}

#[test]
fn exclaim_mark_after_a_bare_letter() {
    let out = add_exclaim_mark(Segments::from(vec![text_run(vec![FormatKind::Bold], "done")]));
    assert_eq!(
        out,
        Segments::from(vec![text_run(vec![FormatKind::Bold], "done"), text_run(vec![], "\u{FF01}")])
    );
}

#[test]
fn no_exclaim_mark_after_a_question_mark() {
    let given = Segments::from(vec![text_run(vec![], "done?")]);
    assert_eq!(add_exclaim_mark(given.clone()), given);
}

#[test]
fn no_exclaim_mark_without_runs() {
    assert_eq!(add_exclaim_mark(Segments::from(vec![])), Segments::from(vec![]));
}

#[test]
fn exclaim_mark_after_an_empty_last_run() {
    let out = add_exclaim_mark(Segments::from(vec![text_run(vec![], "a."), text_run(vec![], "")]));
    assert_eq!(out.len(), 3);
    assert_eq!(out.text(), "a.\u{FF01}");
}

#[test]
fn end_with_marks_knows_every_mark() {
    for mark in ["。", "，", "！", "？", "；", "、", ".", ",", "!", "?", ";"] {
        assert!(end_with_marks(&format!("x{}", mark)));
        assert!(end_with_marks(mark));
    }
}

#[test]
fn end_with_marks_knows_what_is_no_mark() {
    assert!(!end_with_marks(""));
    assert!(!end_with_marks("x"));
    assert!(!end_with_marks("!x"));
    assert!(!end_with_marks("x "));
    assert!(!end_with_marks("x:"));
    assert!(!end_with_marks("x\u{FF1A}"));
}

#[test]
fn context_new_holds_sender_and_receiver_by_position() {
    let (ctx, _, _) = usual_context();
    assert_eq!(program("{0}{1}.").format(&ctx).unwrap().text(), "AnnBob.");
    assert_eq!(program("{}{}.").format(&ctx).unwrap().text(), "AnnBob.");
}

#[test]
fn hole_ident_clones() {
    assert_eq!(HoleIdent::Indexed(3).clone(), HoleIdent::Indexed(3));
    assert_eq!(HoleIdent::Named("n".to_string()).clone(), HoleIdent::Named("n".to_string()));
    assert_eq!(HoleIdent::Anonymous.clone(), HoleIdent::Anonymous);
}

#[test]
fn default_program_asks_for_nothing() {
    let f = Formatter::default();
    assert_eq!(f.data, vec![]);
    assert_eq!(f.indexed_holes(), 0);
    assert!(f.named_holes().is_empty());
    let ctx = FormatContext::with_args(vec![], vec![]);
    assert_eq!(f.format(&ctx).unwrap(), Segments::from(vec![]));
}
