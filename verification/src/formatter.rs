//! Template programs and how they are filled with values.

use crate::error::{Format, FormatView};
use crate::kind::KindView;
use crate::kind_set::KindSet;
use crate::segments::{segment_views, trim_runs, Segment, SegmentView, Segments};
use std::collections::VecDeque;
use vstd::hash_map::StringHashMap;
use vstd::hash_set::StringHashSet;
use vstd::prelude::*;

verus! {

pub use crate::error::Format as FormatError;

/// How a hole names the value that fills it.
#[derive(Debug, PartialEq, Eq)]
pub enum HoleIdent {
    /// The next position that no anonymous hole has used yet.
    Anonymous,
    /// The position given.
    Indexed(usize),
    /// The name given.
    Named(String),
}

/// Mathematical value of a [`HoleIdent`].
pub enum IdentView {
    Anonymous,
    Indexed(int),
    Named(Seq<char>),
}

impl View for HoleIdent {
    type V = IdentView;

    open spec fn view(&self) -> IdentView {
        match *self {
            HoleIdent::Anonymous => IdentView::Anonymous,
            HoleIdent::Indexed(i) => IdentView::Indexed(i as int),
            HoleIdent::Named(n) => IdentView::Named(n@),
        }
    }
}

impl Clone for HoleIdent {
    fn clone(&self) -> (r: Self)
        ensures
            r == *self,
    {
        match self {
            HoleIdent::Anonymous => HoleIdent::Anonymous,
            HoleIdent::Indexed(i) => HoleIdent::Indexed(*i),
            HoleIdent::Named(n) => HoleIdent::Named(n.clone()),
        }
    }
}

/// One step of a template program: literal text, or a hole to fill.
#[derive(Debug, PartialEq, Eq)]
pub enum Token {
    Segment(Segment),
    Hole { kind: KindSet, ident: HoleIdent },
}

/// Mathematical value of a [`Token`].
pub enum TokenView {
    Segment(SegmentView),
    Hole { kind: Set<KindView>, ident: IdentView },
}

impl View for Token {
    type V = TokenView;

    open spec fn view(&self) -> TokenView {
        match *self {
            Token::Segment(s) => TokenView::Segment(s@),
            Token::Hole { kind, ident } => TokenView::Hole { kind: kind@, ident: ident@ },
        }
    }
}

impl Clone for Token {
    fn clone(&self) -> (r: Self)
        ensures
            r@ == self@,
    {
        match self {
            Token::Segment(s) => Token::Segment(s.clone()),
            Token::Hole { kind, ident } => Token::Hole { kind: kind.clone(), ident: ident.clone() },
        }
    }
}

/// The values of a sequence of tokens.
pub open spec fn token_views(tokens: Seq<Token>) -> Seq<TokenView> {
    tokens.map_values(|t: Token| t@)
}

/// The values that fill the holes of a template: those found by position
/// and those found by name.
pub struct FormatContext {
    indexed_args: Vec<Segment>,
    named_args: StringHashMap<Segment>,
}

/// Mathematical value of a [`FormatContext`].
pub struct ContextView {
    pub indexed: Seq<SegmentView>,
    pub named: Map<Seq<char>, SegmentView>,
}

impl View for FormatContext {
    type V = ContextView;

    closed spec fn view(&self) -> ContextView {
        ContextView {
            indexed: segment_views(self.indexed_args@),
            named: self.named_args@.map_values(|s: Segment| s@),
        }
    }
}

/// The context of a message from `sender` to `receiver`, read by `me`:
/// sender and receiver by position, and each of the three under its names.
pub open spec fn context_of(sender: SegmentView, receiver: SegmentView, me: SegmentView) -> ContextView {
    ContextView {
        indexed: seq![sender, receiver],
        named: Map::<Seq<char>, SegmentView>::empty().insert("sender"@, sender).insert(
            "receiver"@,
            receiver,
        ).insert("penetrator"@, sender).insert("self"@, me).insert("me"@, me).insert("this"@, me),
    }
}

impl FormatContext {
    /// The context of a message from `sender` to `receiver`, read by `me`.
    pub fn new(sender: Segment, receiver: Segment, me: Segment) -> (r: Self)
        ensures
            r@ == context_of(sender@, receiver@, me@),
            r@.indexed.len() == 2,
    {
        let mut indexed_args: Vec<Segment> = Vec::new();
        indexed_args.push(sender.clone());
        indexed_args.push(receiver.clone());
        let mut named_args: StringHashMap<Segment> = StringHashMap::new();
        let ghost m0 = named_args@.map_values(|s: Segment| s@);
        named_args.insert(String::from_str("sender"), sender.clone());
        let ghost m1 = named_args@.map_values(|s: Segment| s@);
        named_args.insert(String::from_str("receiver"), receiver);
        let ghost m2 = named_args@.map_values(|s: Segment| s@);
        named_args.insert(String::from_str("penetrator"), sender);
        let ghost m3 = named_args@.map_values(|s: Segment| s@);
        named_args.insert(String::from_str("self"), me.clone());
        let ghost m4 = named_args@.map_values(|s: Segment| s@);
        named_args.insert(String::from_str("me"), me.clone());
        let ghost m5 = named_args@.map_values(|s: Segment| s@);
        named_args.insert(String::from_str("this"), me);
        let ghost m6 = named_args@.map_values(|s: Segment| s@);
        let r = FormatContext { indexed_args, named_args };
        proof {
            assert(m0 =~= Map::<Seq<char>, SegmentView>::empty());
            assert(m1 =~= m0.insert("sender"@, sender@));
            assert(m2 =~= m1.insert("receiver"@, receiver@));
            assert(m3 =~= m2.insert("penetrator"@, sender@));
            assert(m4 =~= m3.insert("self"@, me@));
            assert(m5 =~= m4.insert("me"@, me@));
            assert(m6 =~= m5.insert("this"@, me@));
            assert(segment_views(r.indexed_args@) =~= seq![sender@, receiver@]);
        }
        r
    }

    /// The context that holds `indexed` by position and each value of
    /// `named` under its name; of two values under one name the later stays.
    pub fn with_args(indexed: Vec<Segment>, named: Vec<(String, Segment)>) -> (r: Self)
        ensures
            r@.indexed == segment_views(indexed@),
            r@.named == named_map(named@),
    {
        let mut named_args: StringHashMap<Segment> = StringHashMap::new();
        let mut i: usize = 0;
        proof {
            assert(named@.take(0) =~= Seq::<(String, Segment)>::empty());
            assert(named_args@.map_values(|s: Segment| s@) =~= named_map(named@.take(0)));
        }
        while i < named.len()
            invariant
                i <= named.len(),
                named_args@.map_values(|s: Segment| s@) == named_map(named@.take(i as int)),
            decreases named.len() - i,
        {
            let ghost before = named_args@.map_values(|s: Segment| s@);
            named_args.insert(named[i].0.clone(), named[i].1.clone());
            proof {
                assert(named@.take(i + 1).drop_last() =~= named@.take(i as int));
                assert(named_args@.map_values(|s: Segment| s@) =~= before.insert(
                    named@[i as int].0@,
                    named@[i as int].1@,
                ));
            }
            i += 1;
        }
        proof {
            assert(named@.take(named.len() as int) =~= named@);
        }
        FormatContext { indexed_args: indexed, named_args }
    }
}

/// The map from each name to the value given with it last.
pub open spec fn named_map(named: Seq<(String, Segment)>) -> Map<Seq<char>, SegmentView>
    decreases named.len(),
{
    if named.len() == 0 {
        Map::empty()
    } else {
        named_map(named.drop_last()).insert(named.last().0@, named.last().1@)
    }
}

/// A template program: its tokens, how many positional arguments it asks
/// for, and the names it asks for.
pub struct Formatter {
    pub data: Vec<Token>,
    pub indexed: usize,
    pub named: StringHashSet,
}

/// Mathematical value of a [`Formatter`].
pub struct FormatterView {
    pub data: Seq<TokenView>,
    pub indexed: int,
    pub named: Set<Seq<char>>,
}

impl View for Formatter {
    type V = FormatterView;

    open spec fn view(&self) -> FormatterView {
        FormatterView {
            data: token_views(self.data@),
            indexed: self.indexed as int,
            named: self.named@,
        }
    }
}

impl Default for Formatter {
    /// The program without tokens, which asks for nothing.
    fn default() -> (r: Self)
        ensures
            r@ == (FormatterView { data: Seq::empty(), indexed: 0, named: Set::empty() }),
    {
        let r = Formatter { data: Vec::new(), indexed: 0, named: StringHashSet::new() };
        proof {
            assert(token_views(r.data@) =~= Seq::<TokenView>::empty());
        }
        r
    }
}

/// The run that fills a hole: the text of the value, formatted with the kinds
/// of the hole and those of the value.
pub open spec fn filled(kind: Set<KindView>, value: SegmentView) -> SegmentView {
    SegmentView { kind: kind.union(value.kind), text: value.text }
}

/// `first`, then what `rest` gives, unless `rest` failed.
pub open spec fn after(
    first: Seq<SegmentView>,
    rest: Result<Seq<SegmentView>, FormatView>,
) -> Result<Seq<SegmentView>, FormatView> {
    match rest {
        Ok(runs) => Ok(first + runs),
        Err(e) => Err(e),
    }
}

/// The run that one token gives when `next` is the position that the next
/// anonymous hole takes, and that position afterwards; or the error where
/// the context lacks the value that the token asks for.
pub open spec fn fill_one(token: TokenView, ctx: ContextView, next: int) -> Result<
    (SegmentView, int),
    FormatView,
> {
    match token {
        TokenView::Segment(s) => Ok((s, next)),
        TokenView::Hole { kind, ident: IdentView::Anonymous } => if 0 <= next < ctx.indexed.len() {
            Ok((filled(kind, ctx.indexed[next]), next + 1))
        } else {
            Err(FormatView::InvalidIndex(next))
        },
        TokenView::Hole { kind, ident: IdentView::Indexed(i) } => if 0 <= i < ctx.indexed.len() {
            Ok((filled(kind, ctx.indexed[i]), next))
        } else {
            Err(FormatView::InvalidIndex(i))
        },
        TokenView::Hole { kind, ident: IdentView::Named(name) } => if ctx.named.contains_key(name) {
            Ok((filled(kind, ctx.named[name]), next))
        } else {
            Err(FormatView::InvalidKey(name))
        },
    }
}

/// The runs that the tokens give, from left to right, when `next` is the
/// position that the next anonymous hole takes. The first hole whose value
/// is missing decides the error.
pub open spec fn fill(tokens: Seq<TokenView>, ctx: ContextView, next: int) -> Result<
    Seq<SegmentView>,
    FormatView,
>
    decreases tokens.len(),
{
    if tokens.len() == 0 {
        Ok(Seq::empty())
    } else {
        match fill_one(tokens[0], ctx, next) {
            Ok((run, then)) => after(seq![run], fill(tokens.skip(1), ctx, then)),
            Err(e) => Err(e),
        }
    }
}

/// Whether `c` ends a sentence.
pub open spec fn is_mark(c: char) -> bool {
    c == '。' || c == '，' || c == '！' || c == '？' || c == '；' || c == '、' || c == '.' || c == ','
        || c == '!' || c == '?' || c == ';'
}

/// Whether the text ends with a mark that ends a sentence.
pub open spec fn ends_with_mark(t: Seq<char>) -> bool {
    t.len() > 0 && is_mark(t.last())
}

/// The unformatted run of one exclamation mark.
pub open spec fn exclaim() -> SegmentView {
    SegmentView { kind: Set::empty(), text: seq!['！'] }
}

/// The runs, followed by an exclamation mark unless there is no run or the
/// last run ends a sentence.
pub open spec fn with_mark(runs: Seq<SegmentView>) -> Seq<SegmentView> {
    if runs.len() > 0 && !ends_with_mark(runs.last().text) {
        runs.push(exclaim())
    } else {
        runs
    }
}

/// What formatting gives: the filled runs without white space at either end
/// and closed by a mark, or the error of the first hole that cannot be filled.
pub open spec fn formatted(program: FormatterView, ctx: ContextView) -> Result<
    Seq<SegmentView>,
    FormatView,
> {
    match fill(program.data, ctx, 0) {
        Ok(runs) => Ok(with_mark(trim_runs(runs))),
        Err(e) => Err(e),
    }
}

/// The value of what `format` returns.
pub open spec fn outcome(r: Result<Segments, Format>) -> Result<Seq<SegmentView>, FormatView> {
    match r {
        Ok(s) => Ok(s@),
        Err(e) => Err(e@),
    }
}

/// Whether `input` ends with a mark that ends a sentence.
pub fn end_with_marks(input: &str) -> (r: bool)
    ensures
        r == ends_with_mark(input@),
{
    let n = input.unicode_len();
    if n == 0 {
        return false;
    }
    let c = input.get_char(n - 1);
    c == '。' || c == '，' || c == '！' || c == '？' || c == '；' || c == '、' || c == '.' || c == ','
        || c == '!' || c == '?' || c == ';'
}

/// Closes the runs with an exclamation mark unless they end a sentence.
pub fn add_exclaim_mark(input: Segments) -> (r: Segments)
    ensures
        r@ == with_mark(input@),
{
    let mut input = input;
    let add = match input.back() {
        Some(segment) => !end_with_marks(segment.text.as_str()),
        None => false,
    };
    if add {
        proof {
            reveal_strlit("！");
            assert("！"@ =~= seq!['！']);
        }
        input.push_back(Segment { text: String::from_str("！"), kind: KindSet::new() });
    }
    input
}

/// The run that `token` gives: a literal as it is, a hole filled with the
/// value that it asks for. `implicit_idx` is the position that the next
/// anonymous hole takes; an anonymous hole that is filled moves it on.
fn fill_placeholder(ctx: &FormatContext, implicit_idx: &mut usize, token: &Token) -> (r: Result<
    Segment,
    Format,
>)
    ensures
        match fill_one(token@, ctx@, *old(implicit_idx) as int) {
            Ok((run, then)) => r is Ok && r->Ok_0@ == run && *final(implicit_idx) == then,
            Err(e) => r is Err && r->Err_0@ == e && *final(implicit_idx) == *old(implicit_idx),
        },
{
    match token {
        Token::Segment(segment) => Ok(segment.clone()),
        Token::Hole { kind, ident } => {
            let value = match ident {
                HoleIdent::Anonymous => {
                    if *implicit_idx < ctx.indexed_args.len() {
                        let v = &ctx.indexed_args[*implicit_idx];
                        *implicit_idx += 1;
                        v
                    } else {
                        return Err(Format::InvalidIndex(*implicit_idx));
                    }
                },
                HoleIdent::Indexed(idx) => {
                    if *idx < ctx.indexed_args.len() {
                        &ctx.indexed_args[*idx]
                    } else {
                        return Err(Format::InvalidIndex(*idx));
                    }
                },
                HoleIdent::Named(name) => {
                    match ctx.named_args.get(name.as_str()) {
                        Some(v) => v,
                        None => {
                            return Err(Format::InvalidKey(name.clone()));
                        },
                    }
                },
            };
            Ok(Segment { kind: kind.union(&value.kind), text: value.text.clone() })
        },
    }
}

impl Formatter {
    /// How many positional arguments the program asks for.
    pub fn indexed_holes(&self) -> (n: usize)
        ensures
            n == self.indexed,
    {
        self.indexed
    }

    /// The names that the program asks for.
    pub fn named_holes(&self) -> (names: &StringHashSet)
        ensures
            names@ == self.named@,
    {
        &self.named
    }

    /// Fills the holes of the program from `ctx`. Nothing is given unless
    /// every hole can be filled.
    pub fn format(&self, ctx: &FormatContext) -> (r: Result<Segments, Format>)
        ensures
            outcome(r) == formatted(self@, ctx@),
    {
        let ghost tokens = token_views(self.data@);
        let mut implicit_idx: usize = 0;
        let mut out: VecDeque<Segment> = VecDeque::new();
        let mut i: usize = 0;
        proof {
            assert(tokens.skip(0) =~= tokens);
            assert(segment_views(out@) =~= Seq::<SegmentView>::empty());
            lemma_after_empty(fill(tokens, ctx@, 0));
        }
        while i < self.data.len()
            invariant
                i <= self.data.len(),
                tokens == token_views(self.data@),
                fill(tokens, ctx@, 0) == after(
                    segment_views(out@),
                    fill(tokens.skip(i as int), ctx@, implicit_idx as int),
                ),
            decreases self.data.len() - i,
        {
            let ghost done = segment_views(out@);
            let ghost rest = tokens.skip(i as int);
            let ghost before = implicit_idx as int;
            proof {
                assert(rest[0] == self.data@[i as int]@);
                assert(rest.skip(1) =~= tokens.skip(i + 1));
            }
            let segment = match fill_placeholder(ctx, &mut implicit_idx, &self.data[i]) {
                Ok(segment) => segment,
                Err(e) => {
                    return Err(e);
                },
            };
            proof {
                let tail = fill(tokens.skip(i + 1), ctx@, implicit_idx as int);
                assert(fill(rest, ctx@, before) == after(seq![segment@], tail));
                lemma_after_after(done, seq![segment@], tail);
                assert(done + seq![segment@] =~= done.push(segment@));
            }
            out.push_back(segment);
            proof {
                assert(segment_views(out@) =~= done.push(segment@));
            }
            i += 1;
        }
        proof {
            assert(tokens.skip(self.data.len() as int) =~= Seq::<TokenView>::empty());
            assert(segment_views(out@) + Seq::<SegmentView>::empty() =~= segment_views(out@));
        }
        Ok(add_exclaim_mark(Segments::new(out).trim()))
    }
}

proof fn lemma_after_empty(rest: Result<Seq<SegmentView>, FormatView>)
    ensures
        after(Seq::empty(), rest) == rest,
{
    match rest {
        Ok(runs) => {
            assert(Seq::<SegmentView>::empty() + runs =~= runs);
        },
        Err(_) => {},
    }
}

proof fn lemma_after_after(
    a: Seq<SegmentView>,
    b: Seq<SegmentView>,
    rest: Result<Seq<SegmentView>, FormatView>,
)
    ensures
        after(a, after(b, rest)) == after(a + b, rest),
{
    match rest {
        Ok(runs) => {
            assert(a + (b + runs) =~= (a + b) + runs);
        },
        Err(_) => {},
    }
}

} // verus!
