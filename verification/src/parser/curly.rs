//! The curly-brace template grammar.
//!
//! The text of each run is read on its own. A character other than a brace
//! stands for itself, a doubled brace stands for one brace, and `{`, an
//! identifier without braces and `}` make a hole. Anything else is an error.
//! An empty identifier makes an anonymous hole, a number an indexed hole, and
//! any other text a named hole.

use crate::error::Parse;
use crate::formatter::{Formatter, FormatterView, HoleIdent, IdentView, Token, TokenView, token_views};
use crate::kind::KindView;
use crate::kind_set::KindSet;
use crate::segments::{Segment, SegmentView, Segments};
use vstd::hash_set::StringHashSet;
use vstd::prelude::*;

verus! {

pub open spec fn is_brace(c: char) -> bool {
    c == '{' || c == '}'
}

pub open spec fn is_digit(c: char) -> bool {
    48 <= c as int <= 57
}

/// The number that decimal digits write.
pub open spec fn digits_value(d: Seq<char>) -> int
    decreases d.len(),
{
    if d.len() == 0 {
        0
    } else {
        digits_value(d.drop_last()) * 10 + (d.last() as int - 48)
    }
}

/// The identifier without a leading plus sign.
pub open spec fn unsigned_part(name: Seq<char>) -> Seq<char> {
    if name.len() > 0 && name[0] == '+' {
        name.skip(1)
    } else {
        name
    }
}

/// The index that an identifier writes, if it writes one: decimal digits,
/// at least one, with or without a plus sign before them, of a value that a
/// `usize` can hold.
pub open spec fn index_value(name: Seq<char>) -> Option<int> {
    let d = unsigned_part(name);
    if d.len() > 0 && (forall|i: int| 0 <= i < d.len() ==> is_digit(d[i])) && digits_value(d)
        <= usize::MAX {
        Some(digits_value(d))
    } else {
        None
    }
}

/// How a hole with this identifier finds its value.
pub open spec fn ident_of(name: Seq<char>) -> IdentView {
    if name.len() == 0 {
        IdentView::Anonymous
    } else {
        match index_value(name) {
            Some(v) => IdentView::Indexed(v),
            None => IdentView::Named(name),
        }
    }
}

/// The first place from `from` on at which a brace stands, or the length of
/// the text where none does.
pub open spec fn ident_end(s: Seq<char>, from: int) -> int
    decreases s.len() - from,
{
    if 0 <= from < s.len() && !is_brace(s[from]) {
        ident_end(s, from + 1)
    } else {
        from
    }
}

/// The literal token of the characters read, if there are any.
pub open spec fn flush(kind: Set<KindView>, buffer: Seq<char>) -> Seq<TokenView> {
    if buffer.len() == 0 {
        Seq::empty()
    } else {
        seq![TokenView::Segment(SegmentView { kind, text: buffer })]
    }
}

/// `first`, then what `rest` gives, unless `rest` failed.
pub open spec fn then_tokens(first: Seq<TokenView>, rest: Result<Seq<TokenView>, int>) -> Result<
    Seq<TokenView>,
    int,
> {
    match rest {
        Ok(tokens) => Ok(first + tokens),
        Err(p) => Err(p),
    }
}

/// The tokens of the text of one run from place `i` on, when `buffer` holds
/// the literal characters read since the last hole; or the place at which the
/// text leaves the grammar.
pub open spec fn run_tokens(s: Seq<char>, kind: Set<KindView>, i: int, buffer: Seq<char>) -> Result<
    Seq<TokenView>,
    int,
>
    decreases s.len() - i,
{
    if i < 0 || i >= s.len() {
        Ok(flush(kind, buffer))
    } else if !is_brace(s[i]) {
        run_tokens(s, kind, i + 1, buffer.push(s[i]))
    } else if i + 1 < s.len() && s[i + 1] == s[i] {
        run_tokens(s, kind, i + 2, buffer.push(s[i]))
    } else if s[i] == '{' && i < ident_end(s, i + 1) < s.len() && s[ident_end(s, i + 1)] == '}' {
        then_tokens(
            flush(kind, buffer).push(
                TokenView::Hole { kind, ident: ident_of(s.subrange(i + 1, ident_end(s, i + 1))) },
            ),
            run_tokens(s, kind, ident_end(s, i + 1) + 1, Seq::empty()),
        )
    } else {
        Err(i)
    }
}

/// The tokens of a template, run by run; or the first place at which a run
/// leaves the grammar.
pub open spec fn template_tokens(segs: Seq<SegmentView>) -> Result<Seq<TokenView>, Parse>
    decreases segs.len(),
{
    if segs.len() == 0 {
        Ok(Seq::empty())
    } else {
        match template_tokens(segs.drop_last()) {
            Err(e) => Err(e),
            Ok(front) => match run_tokens(segs.last().text, segs.last().kind, 0, Seq::empty()) {
                Ok(tokens) => Ok(front + tokens),
                Err(p) => Err(Parse { segment: (segs.len() - 1) as usize, position: p as usize }),
            },
        }
    }
}

/// Number of anonymous holes.
pub open spec fn anonymous_holes(tokens: Seq<TokenView>) -> int
    decreases tokens.len(),
{
    if tokens.len() == 0 {
        0
    } else {
        anonymous_holes(tokens.drop_last()) + if tokens.last() matches TokenView::Hole {
            ident: IdentView::Anonymous,
            ..
        } {
            1int
        } else {
            0int
        }
    }
}

/// One more than the greatest index of an indexed hole, or 0 without one.
pub open spec fn index_reach(tokens: Seq<TokenView>) -> int
    decreases tokens.len(),
{
    if tokens.len() == 0 {
        0
    } else {
        let before = index_reach(tokens.drop_last());
        match tokens.last() {
            TokenView::Hole { ident: IdentView::Indexed(i), .. } => if before < i + 1 {
                i + 1
            } else {
                before
            },
            _ => before,
        }
    }
}

/// The names of the named holes.
pub open spec fn hole_names(tokens: Seq<TokenView>) -> Set<Seq<char>>
    decreases tokens.len(),
{
    if tokens.len() == 0 {
        Set::empty()
    } else {
        match tokens.last() {
            TokenView::Hole { ident: IdentView::Named(n), .. } => hole_names(
                tokens.drop_last(),
            ).insert(n),
            _ => hole_names(tokens.drop_last()),
        }
    }
}

/// How many positional arguments the tokens ask for: as many as there are
/// anonymous holes, and enough for the greatest index; at most `usize::MAX`.
pub open spec fn positions_asked(tokens: Seq<TokenView>) -> int {
    let asked = if anonymous_holes(tokens) < index_reach(tokens) {
        index_reach(tokens)
    } else {
        anonymous_holes(tokens)
    };
    if asked < usize::MAX {
        asked
    } else {
        usize::MAX as int
    }
}

/// The program of a sequence of tokens.
pub open spec fn program_of(tokens: Seq<TokenView>) -> FormatterView {
    FormatterView { data: tokens, indexed: positions_asked(tokens), named: hole_names(tokens) }
}

/// The program that a template writes, or where it leaves the grammar.
pub open spec fn curly(segs: Seq<SegmentView>) -> Result<FormatterView, Parse> {
    match template_tokens(segs) {
        Ok(tokens) => Ok(program_of(tokens)),
        Err(e) => Err(e),
    }
}

/// The value of what `parse` returns.
pub open spec fn parsed(r: Result<Formatter, Parse>) -> Result<FormatterView, Parse> {
    match r {
        Ok(f) => Ok(f@),
        Err(e) => Err(e),
    }
}

/// Digits write no less than their first `k` do.
proof fn lemma_digits_grow(d: Seq<char>, k: int)
    requires
        0 <= k <= d.len(),
        forall|i: int| 0 <= i < d.len() ==> is_digit(d[i]),
    ensures
        0 <= digits_value(d.take(k)) <= digits_value(d),
    decreases d.len(),
{
    if d.len() == 0 {
        assert(d.take(k) =~= d);
    } else if k == d.len() {
        assert(d.take(k) =~= d);
        lemma_digits_grow(d.drop_last(), k - 1);
        assert(d.drop_last().take(k - 1) =~= d.drop_last());
    } else {
        lemma_digits_grow(d.drop_last(), k);
        assert(d.drop_last().take(k) =~= d.take(k));
        assert(is_digit(d.last()));
    }
}

/// The index that the identifier writes, if it writes one.
fn parse_index(name: &str) -> (r: Option<usize>)
    ensures
        match r {
            Some(v) => index_value(name@) == Some(v as int),
            None => index_value(name@) is None,
        },
{
    let n = name.unicode_len();
    if n == 0 {
        return None;
    }
    let start: usize = if name.get_char(0) == '+' {
        1
    } else {
        0
    };
    let ghost d = unsigned_part(name@);
    if start == n {
        return None;
    }
    let mut value: usize = 0;
    let mut i: usize = start;
    proof {
        assert(d.take(0) =~= Seq::<char>::empty());
    }
    while i < n
        invariant
            start <= i <= n,
            n == name@.len(),
            d == name@.skip(start as int),
            d == unsigned_part(name@),
            forall|j: int| 0 <= j < i - start ==> is_digit(d[j]),
            value == digits_value(d.take(i - start)),
        decreases n - i,
    {
        let c = name.get_char(i);
        let v = c as u32;
        proof {
            assert(d[i - start] == c);
            assert(d.take(i - start + 1).drop_last() =~= d.take(i - start));
        }
        if v < 48 || v > 57 {
            return None;
        }
        let digit = (v - 48) as usize;
        let next = match value.checked_mul(10) {
            Some(tens) => tens.checked_add(digit),
            None => None,
        };
        match next {
            Some(x) => {
                value = x;
            },
            None => {
                proof {
                    if forall|j: int| 0 <= j < d.len() ==> is_digit(d[j]) {
                        lemma_digits_grow(d, i - start + 1);
                    }
                }
                return None;
            },
        }
        i += 1;
    }
    proof {
        assert(d.take(n - start) =~= d);
    }
    Some(value)
}

/// How a hole with the identifier `name` finds its value.
fn classify(name: &str) -> (r: HoleIdent)
    ensures
        r@ == ident_of(name@),
{
    if name.unicode_len() == 0 {
        HoleIdent::Anonymous
    } else {
        match parse_index(name) {
            Some(idx) => HoleIdent::Indexed(idx),
            None => HoleIdent::Named(String::from_str(name)),
        }
    }
}

proof fn lemma_then_then(
    a: Seq<TokenView>,
    b: Seq<TokenView>,
    rest: Result<Seq<TokenView>, int>,
)
    ensures
        then_tokens(a, then_tokens(b, rest)) == then_tokens(a + b, rest),
{
    match rest {
        Ok(tokens) => {
            assert(a + (b + tokens) =~= (a + b) + tokens);
        },
        Err(_) => {},
    }
}

/// `ident_end` is no place before `from`, no place behind the end of the
/// text, and no brace stands between `from` and it.
proof fn lemma_ident_end(s: Seq<char>, from: int)
    requires
        0 <= from <= s.len(),
    ensures
        from <= ident_end(s, from) <= s.len(),
        forall|j: int| from <= j < ident_end(s, from) ==> !is_brace(s[j]),
        ident_end(s, from) < s.len() ==> is_brace(s[ident_end(s, from)]),
    decreases s.len() - from,
{
    if from < s.len() && !is_brace(s[from]) {
        lemma_ident_end(s, from + 1);
    }
}

/// A template leaves the grammar where one of its first runs does.
proof fn lemma_first_error(segs: Seq<SegmentView>, j: int)
    requires
        0 <= j <= segs.len(),
        template_tokens(segs.take(j)) is Err,
    ensures
        template_tokens(segs) == template_tokens(segs.take(j)),
    decreases segs.len(),
{
    if j == segs.len() {
        assert(segs.take(j) =~= segs);
    } else {
        assert(segs.drop_last().take(j) =~= segs.take(j));
        lemma_first_error(segs.drop_last(), j);
    }
}

/// Puts the literal characters read, if there are any, behind the tokens.
fn push_literal(ast: &mut Vec<Token>, kind: &KindSet, buffer: String)
    ensures
        token_views(final(ast)@) == token_views(old(ast)@) + flush(kind@, buffer@),
{
    let ghost before = token_views(ast@);
    if !buffer.as_str().is_empty() {
        ast.push(Token::Segment(Segment { kind: kind.clone(), text: buffer }));
        proof {
            assert(token_views(ast@) =~= before + flush(kind@, buffer@));
        }
    } else {
        proof {
            assert(before + flush(kind@, buffer@) =~= before);
        }
    }
}

/// The tokens of the text of one run, put behind those of the runs before
/// it; or the place at which the text leaves the grammar.
fn parse_run(ast: &mut Vec<Token>, segment: &Segment) -> (r: Result<(), usize>)
    ensures
        match r {
            Ok(_) => run_tokens(segment@.text, segment@.kind, 0, Seq::empty()) == Ok::<
                Seq<TokenView>,
                int,
            >(token_views(final(ast)@).skip(old(ast)@.len() as int)) && token_views(
                final(ast)@,
            ).take(old(ast)@.len() as int) == token_views(old(ast)@) && final(ast)@.len() >= old(
                ast,
            )@.len(),
            Err(p) => run_tokens(segment@.text, segment@.kind, 0, Seq::empty()) == Err::<
                Seq<TokenView>,
                int,
            >(p as int),
        },
{
    let text = segment.text.as_str();
    let n = text.unicode_len();
    let ghost s = segment.text@;
    let ghost kind = segment.kind@;
    let ghost front = token_views(ast@);
    let ghost mut local: Seq<TokenView> = Seq::empty();
    let mut buffer = String::new();
    let mut i: usize = 0;
    proof {
        assert(front + local =~= front);
        assert(then_tokens(local, run_tokens(s, kind, 0, Seq::empty())) == run_tokens(
            s,
            kind,
            0,
            Seq::empty(),
        )) by {
            lemma_then_empty(run_tokens(s, kind, 0, Seq::empty()));
        }
    }
    while i < n
        invariant
            i <= n,
            n == s.len(),
            s == segment.text@,
            s == text@,
            kind == segment.kind@,
            token_views(ast@) == front + local,
            run_tokens(s, kind, 0, Seq::empty()) == then_tokens(
                local,
                run_tokens(s, kind, i as int, buffer@),
            ),
        decreases n - i,
    {
        let c = text.get_char(i);
        let ghost prev = buffer@;
        if c != '{' && c != '}' {
            buffer.append(text.substring_char(i, i + 1));
            proof {
                assert(s.subrange(i as int, i + 1) =~= seq![s[i as int]]);
                assert(buffer@ =~= prev.push(s[i as int]));
            }
            i += 1;
        } else if i + 1 < n && text.get_char(i + 1) == c {
            buffer.append(text.substring_char(i, i + 1));
            proof {
                assert(s.subrange(i as int, i + 1) =~= seq![s[i as int]]);
                assert(buffer@ =~= prev.push(s[i as int]));
            }
            i += 2;
        } else if c == '{' {
            let mut e: usize = i + 1;
            while e < n && text.get_char(e) != '{' && text.get_char(e) != '}'
                invariant
                    i + 1 <= e <= n,
                    n == s.len(),
                    s == text@,
                    ident_end(s, i + 1) == ident_end(s, e as int),
                decreases n - e,
            {
                e += 1;
            }
            proof {
                lemma_ident_end(s, e as int);
            }
            if e < n && text.get_char(e) == '}' {
                let ghost was = token_views(ast@);
                let ghost read = buffer@;
                push_literal(ast, &segment.kind, buffer);
                buffer = String::new();
                let ghost mid = token_views(ast@);
                let ident = classify(text.substring_char(i + 1, e));
                let token = Token::Hole { kind: segment.kind.clone(), ident };
                proof {
                    assert(token@ == TokenView::Hole {
                        kind,
                        ident: ident_of(s.subrange(i + 1, e as int)),
                    });
                }
                ast.push(token);
                proof {
                    assert(token_views(ast@) =~= mid.push(token@));
                    assert(mid.push(token@) =~= was + flush(kind, read).push(token@));
                    let hole = TokenView::Hole {
                        kind,
                        ident: ident_of(s.subrange(i + 1, e as int)),
                    };
                    let more = flush(kind, read).push(hole);
                    assert(token_views(ast@) =~= was + more);
                    lemma_then_then(local, more, run_tokens(s, kind, e + 1, Seq::empty()));
                    assert(front + local + more =~= front + (local + more));
                    local = local + more;
                }
                i = e + 1;
            } else {
                return Err(i);
            }
        } else {
            return Err(i);
        }
    }
    let ghost was = token_views(ast@);
    let ghost read = buffer@;
    push_literal(ast, &segment.kind, buffer);
    proof {
        let all = token_views(ast@);
        assert(all =~= front + (local + flush(kind, read)));
        assert(all.skip(front.len() as int) =~= local + flush(kind, read));
        assert(all.take(front.len() as int) =~= front);
    }
    Ok(())
}

proof fn lemma_then_empty(rest: Result<Seq<TokenView>, int>)
    ensures
        then_tokens(Seq::empty(), rest) == rest,
{
    match rest {
        Ok(tokens) => {
            assert(Seq::<TokenView>::empty() + tokens =~= tokens);
        },
        Err(_) => {},
    }
}

/// The program of the tokens.
fn program(tokens: Vec<Token>) -> (r: Formatter)
    ensures
        r@ == program_of(token_views(tokens@)),
{
    let ghost all = token_views(tokens@);
    let mut anonymous_counter: usize = 0;
    let mut max_indexed: usize = 0;
    let mut named = StringHashSet::new();
    let mut i: usize = 0;
    proof {
        assert(all.take(0) =~= Seq::<TokenView>::empty());
    }
    while i < tokens.len()
        invariant
            i <= tokens.len(),
            all == token_views(tokens@),
            anonymous_counter == anonymous_holes(all.take(i as int)),
            anonymous_counter <= i,
            max_indexed == if index_reach(all.take(i as int)) < usize::MAX {
                index_reach(all.take(i as int))
            } else {
                usize::MAX as int
            },
            index_reach(all.take(i as int)) >= 0,
            named@ == hole_names(all.take(i as int)),
        decreases tokens.len() - i,
    {
        proof {
            assert(all.take(i + 1).drop_last() =~= all.take(i as int));
            assert(all.take(i + 1).last() == tokens@[i as int]@);
        }
        match &tokens[i] {
            Token::Hole { ident, .. } => match ident {
                HoleIdent::Anonymous => {
                    anonymous_counter += 1;
                },
                HoleIdent::Indexed(idx) => {
                    let reach = if *idx < usize::MAX {
                        *idx + 1
                    } else {
                        usize::MAX
                    };
                    if max_indexed < reach {
                        max_indexed = reach;
                    }
                },
                HoleIdent::Named(name) => {
                    named.insert(name.clone());
                },
            },
            Token::Segment(_) => {},
        }
        i += 1;
    }
    proof {
        assert(all.take(tokens.len() as int) =~= all);
    }
    let indexed = if anonymous_counter < max_indexed {
        max_indexed
    } else {
        anonymous_counter
    };
    Formatter { data: tokens, indexed, named }
}

/// Reads the template that the runs write.
pub fn parse(segments: &Segments) -> (r: Result<Formatter, Parse>)
    ensures
        parsed(r) == curly(segments@),
{
    let ghost segs = segments@;
    let mut ast: Vec<Token> = Vec::new();
    let mut j: usize = 0;
    proof {
        assert(segs.take(0) =~= Seq::<SegmentView>::empty());
        assert(token_views(ast@) =~= Seq::<TokenView>::empty());
    }
    while j < segments.len()
        invariant
            j <= segs.len(),
            segs == segments@,
            template_tokens(segs.take(j as int)) == Ok::<Seq<TokenView>, Parse>(token_views(ast@)),
        decreases segs.len() - j,
    {
        let ghost front = token_views(ast@);
        proof {
            assert(segs.take(j + 1).drop_last() =~= segs.take(j as int));
            assert(segs.take(j + 1).last() == segs[j as int]);
        }
        match parse_run(&mut ast, segments.get(j)) {
            Ok(_) => {
                proof {
                    let all = token_views(ast@);
                    assert(all =~= all.take(front.len() as int) + all.skip(front.len() as int));
                }
            },
            Err(position) => {
                proof {
                    lemma_first_error(segs, j + 1);
                }
                return Err(Parse { segment: j, position });
            },
        }
        j += 1;
    }
    proof {
        assert(segs.take(segs.len() as int) =~= segs);
    }
    Ok(program(ast))
}

} // verus!
