//! The fallback for a template without holes.
//!
//! The receiver is put where the first white space stands. Where there is
//! none, a particle and the receiver are put at the end, and the program
//! asks for no positional argument.

use crate::formatter::{
    fill, formatted, token_views, ContextView, Formatter, FormatterView, HoleIdent, IdentView, Token,
    TokenView,
};
use crate::kind::KindView;
use crate::kind_set::KindSet;
use crate::segments::{Segment, SegmentView, Segments};
use crate::text::{is_whitespace, white_space};
use vstd::hash_set::StringHashSet;
use vstd::prelude::*;

verus! {

/// Number of characters before the first white space of a text.
pub open spec fn before_ws(t: Seq<char>) -> nat
    decreases t.len(),
{
    if t.len() > 0 && !white_space(t[0]) {
        1 + before_ws(t.skip(1))
    } else {
        0
    }
}

/// Whether the text holds white space.
pub open spec fn has_ws(t: Seq<char>) -> bool {
    before_ws(t) < t.len()
}

/// Number of runs before the first one that holds white space.
pub open spec fn runs_before_ws(segs: Seq<SegmentView>) -> nat
    decreases segs.len(),
{
    if segs.len() > 0 && !has_ws(segs[0].text) {
        1 + runs_before_ws(segs.skip(1))
    } else {
        0
    }
}

/// Each run as a literal token.
pub open spec fn literal_tokens(segs: Seq<SegmentView>) -> Seq<TokenView> {
    segs.map_values(|s: SegmentView| TokenView::Segment(s))
}

/// The hole for the receiver.
pub open spec fn receiver_hole(kind: Set<KindView>) -> TokenView {
    TokenView::Hole { kind, ident: IdentView::Indexed(1) }
}

/// A run cut at its first white space: what stands before it and a space,
/// the receiver, a space and what stands behind it.
pub open spec fn split_tokens(seg: SegmentView) -> Seq<TokenView> {
    let at = before_ws(seg.text) as int;
    seq![
        TokenView::Segment(SegmentView { kind: seg.kind, text: seg.text.take(at).push(' ') }),
        receiver_hole(seg.kind),
        TokenView::Segment(SegmentView { kind: seg.kind, text: seq![' '] + seg.text.skip(at + 1) }),
    ]
}

/// What is put before a receiver at the end: a space where the template
/// ends with the particle already, else the particle and a space.
pub open spec fn particle(segs: Seq<SegmentView>) -> Seq<char> {
    if segs.len() > 0 && segs.last().text.len() > 0 && segs.last().text.last() == '了' {
        seq![' ']
    } else {
        seq!['了', ' ']
    }
}

/// The program that the fallback reads from a template.
pub open spec fn naive(segs: Seq<SegmentView>) -> FormatterView {
    let at = runs_before_ws(segs) as int;
    if at < segs.len() {
        FormatterView {
            data: literal_tokens(segs.take(at)) + split_tokens(segs[at]) + literal_tokens(
                segs.skip(at + 1),
            ),
            indexed: 1,
            named: Set::empty(),
        }
    } else {
        FormatterView {
            data: literal_tokens(segs) + seq![
                TokenView::Segment(SegmentView { kind: Set::empty(), text: particle(segs) }),
                receiver_hole(Set::empty()),
            ],
            indexed: 0,
            named: Set::empty(),
        }
    }
}

/// `before_ws` is the place of the first white space.
pub proof fn lemma_before_ws_is(t: Seq<char>, n: int)
    requires
        0 <= n <= t.len(),
        forall|i: int| 0 <= i < n ==> !white_space(t[i]),
        n < t.len() ==> white_space(t[n]),
    ensures
        before_ws(t) == n,
    decreases t.len(),
{
    if n > 0 {
        assert(!white_space(t[0]));
        assert forall|i: int| 0 <= i < n - 1 implies !white_space(t.skip(1)[i]) by {
            assert(t.skip(1)[i] == t[i + 1]);
        }
        lemma_before_ws_is(t.skip(1), n - 1);
    }
}

/// `runs_before_ws` is the place of the first run that holds white space.
pub proof fn lemma_runs_before_ws_is(segs: Seq<SegmentView>, n: int)
    requires
        0 <= n <= segs.len(),
        forall|i: int| 0 <= i < n ==> !has_ws(segs[i].text),
        n < segs.len() ==> has_ws(segs[n].text),
    ensures
        runs_before_ws(segs) == n,
    decreases segs.len(),
{
    if n > 0 {
        assert(!has_ws(segs[0].text));
        assert forall|i: int| 0 <= i < n - 1 implies !has_ws(segs.skip(1)[i].text) by {
            assert(segs.skip(1)[i] == segs[i + 1]);
        }
        lemma_runs_before_ws_is(segs.skip(1), n - 1);
    }
}

/// The place of the first white space of `text`, if it holds any.
fn find_ws(text: &str) -> (r: Option<usize>)
    ensures
        match r {
            Some(at) => has_ws(text@) && at == before_ws(text@),
            None => !has_ws(text@),
        },
{
    let n = text.unicode_len();
    let mut i: usize = 0;
    while i < n && !is_whitespace(text.get_char(i))
        invariant
            i <= n,
            n == text@.len(),
            forall|j: int| 0 <= j < i ==> !white_space(text@[j]),
        decreases n - i,
    {
        i += 1;
    }
    proof {
        lemma_before_ws_is(text@, i as int);
    }
    if i < n {
        Some(i)
    } else {
        None
    }
}

/// Reads the runs as a template without holes.
pub fn parse(segments: &Segments) -> (r: Formatter)
    ensures
        r@ == naive(segments@),
{
    let ghost segs = segments@;
    let mut data: Vec<Token> = Vec::new();
    let mut bypass = false;
    let ghost mut cut: int = 0;
    let mut j: usize = 0;
    proof {
        assert(token_views(data@) =~= literal_tokens(segs.take(0)));
    }
    while j < segments.len()
        invariant
            j <= segs.len(),
            segs == segments@,
            !bypass ==> token_views(data@) == literal_tokens(segs.take(j as int)) && forall|i: int|
                0 <= i < j ==> !has_ws(segs[i].text),
            bypass ==> 0 <= cut < j && runs_before_ws(segs) == cut && token_views(data@)
                == literal_tokens(segs.take(cut)) + split_tokens(segs[cut]) + literal_tokens(
                segs.subrange(cut + 1, j as int),
            ),
        decreases segs.len() - j,
    {
        let ghost before = token_views(data@);
        let segment = segments.get(j);
        let found = if bypass {
            None
        } else {
            find_ws(segment.text.as_str())
        };
        match found {
            Some(offset) => {
                let text = segment.text.as_str();
                let n = text.unicode_len();
                let mut head = String::from_str(text.substring_char(0, offset));
                head.append(" ");
                let mut tail = String::from_str(" ");
                tail.append(text.substring_char(offset + 1, n));
                data.push(Token::Segment(Segment { kind: segment.kind.clone(), text: head }));
                data.push(
                    Token::Hole { kind: segment.kind.clone(), ident: HoleIdent::Indexed(1) },
                );
                data.push(Token::Segment(Segment { kind: segment.kind.clone(), text: tail }));
                bypass = true;
                proof {
                    reveal_strlit(" ");
                    assert(" "@ =~= seq![' ']);
                    cut = j as int;
                    lemma_runs_before_ws_is(segs, cut);
                    let s = segs[cut];
                    assert(head@ =~= s.text.take(offset as int).push(' '));
                    assert(tail@ =~= seq![' '] + s.text.skip(offset + 1));
                    assert(token_views(data@) =~= before + split_tokens(s));
                    assert(segs.subrange(cut + 1, j + 1) =~= Seq::<SegmentView>::empty());
                    assert(before + split_tokens(s) =~= literal_tokens(segs.take(cut))
                        + split_tokens(s) + literal_tokens(segs.subrange(cut + 1, j + 1)));
                }
            },
            None => {
                data.push(Token::Segment(segment.clone()));
                proof {
                    assert(token_views(data@) =~= before.push(TokenView::Segment(segs[j as int])));
                    if bypass {
                        assert(segs.subrange(cut + 1, j + 1) =~= segs.subrange(
                            cut + 1,
                            j as int,
                        ).push(segs[j as int]));
                        assert(token_views(data@) =~= literal_tokens(segs.take(cut))
                            + split_tokens(segs[cut]) + literal_tokens(
                            segs.subrange(cut + 1, j + 1),
                        ));
                    } else {
                        assert(segs.take(j + 1) =~= segs.take(j as int).push(segs[j as int]));
                        assert(token_views(data@) =~= literal_tokens(segs.take(j + 1)));
                    }
                }
            },
        }
        j += 1;
    }
    if bypass {
        proof {
            assert(segs.subrange(cut + 1, segs.len() as int) =~= segs.skip(cut + 1));
        }
        Formatter { data, indexed: 1, named: StringHashSet::new() }
    } else {
        let ends_with_particle = match segments.back() {
            Some(segment) => {
                let text = segment.text.as_str();
                let n = text.unicode_len();
                n > 0 && text.get_char(n - 1) == '了'
            },
            None => false,
        };
        let ghost before = token_views(data@);
        let text = if ends_with_particle {
            String::from_str(" ")
        } else {
            String::from_str("了 ")
        };
        proof {
            reveal_strlit(" ");
            reveal_strlit("了 ");
            assert(" "@ =~= seq![' ']);
            assert("了 "@ =~= seq!['了', ' ']);
            assert(text@ == particle(segs));
            lemma_runs_before_ws_is(segs, segs.len() as int);
            assert(segs.take(segs.len() as int) =~= segs);
        }
        data.push(Token::Segment(Segment { text, kind: KindSet::new() }));
        data.push(Token::Hole { kind: KindSet::new(), ident: HoleIdent::Indexed(1) });
        proof {
            assert(token_views(data@) =~= before + seq![
                TokenView::Segment(SegmentView { kind: Set::empty(), text: particle(segs) }),
                receiver_hole(Set::empty()),
            ]);
        }
        Formatter { data, indexed: 0, named: StringHashSet::new() }
    }
}

/// The token is literal text or the hole for the receiver.
pub open spec fn plain(t: TokenView) -> bool {
    match t {
        TokenView::Segment(_) => true,
        TokenView::Hole { ident, .. } => ident == IdentView::Indexed(1),
    }
}

/// Tokens that ask for the receiver at most are filled by every context that
/// holds a sender and a receiver.
pub proof fn lemma_plain_fills(tokens: Seq<TokenView>, ctx: ContextView, next: int)
    requires
        forall|i: int| 0 <= i < tokens.len() ==> plain(tokens[i]),
        ctx.indexed.len() >= 2,
    ensures
        fill(tokens, ctx, next) is Ok,
    decreases tokens.len(),
{
    if tokens.len() > 0 {
        assert(plain(tokens[0]));
        assert forall|i: int| 0 <= i < tokens.skip(1).len() implies plain(tokens.skip(1)[i]) by {
            assert(tokens.skip(1)[i] == tokens[i + 1]);
        }
        lemma_plain_fills(tokens.skip(1), ctx, next);
    }
}

/// The program that the fallback reads asks for the receiver at most.
pub proof fn lemma_naive_plain(segs: Seq<SegmentView>)
    ensures
        forall|i: int| 0 <= i < naive(segs).data.len() ==> plain(naive(segs).data[i]),
{
    let at = runs_before_ws(segs) as int;
    let data = naive(segs).data;
    assert forall|i: int| 0 <= i < data.len() implies plain(data[i]) by {
        if at < segs.len() {
            let a = literal_tokens(segs.take(at));
            let b = split_tokens(segs[at]);
            let c = literal_tokens(segs.skip(at + 1));
            assert(data == a + b + c);
            if i < a.len() {
                assert(data[i] == a[i]);
            } else if i < a.len() + b.len() {
                assert(data[i] == b[i - a.len()]);
            } else {
                assert(data[i] == c[i - a.len() - b.len()]);
            }
        } else {
            let a = literal_tokens(segs);
            if i < a.len() {
                assert(data[i] == a[i]);
            }
        }
    }
}

/// A template read by the fallback is filled without error by every context
/// that holds a sender and a receiver.
pub proof fn law_naive_always_formats(segs: Seq<SegmentView>, ctx: ContextView)
    requires
        ctx.indexed.len() >= 2,
    ensures
        formatted(naive(segs), ctx) is Ok,
{
    lemma_naive_plain(segs);
    lemma_plain_fills(naive(segs).data, ctx, 0);
}

} // verus!
