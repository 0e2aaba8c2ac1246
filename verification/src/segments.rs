//! Runs of uniformly formatted text.

use crate::kind::{FormatKind, KindView};
use crate::kind_set::KindSet;
use crate::text::{
    lemma_leading_ws, lemma_leading_ws_is, lemma_trailing_ws, lemma_trailing_ws_is, trim_end,
    trim_end_text, trim_start, trim_start_text, white_space,
};
use crate::user::{full_name, User};
use std::collections::VecDeque;
use vstd::prelude::*;

verus! {

/// A run of text that carries one set of formatting kinds.
#[derive(Debug, PartialEq, Eq)]
pub struct Segment {
    pub kind: KindSet,
    pub text: String,
}

/// Mathematical value of a [`Segment`].
pub struct SegmentView {
    pub kind: Set<KindView>,
    pub text: Seq<char>,
}

impl View for Segment {
    type V = SegmentView;

    open spec fn view(&self) -> SegmentView {
        SegmentView { kind: self.kind@, text: self.text@ }
    }
}

impl Clone for Segment {
    fn clone(&self) -> (r: Self)
        ensures
            r@ == self@,
    {
        Segment { kind: self.kind.clone(), text: self.text.clone() }
    }
}

impl Default for Segment {
    fn default() -> (r: Self)
        ensures
            r@ == (SegmentView { kind: Set::empty(), text: Seq::empty() }),
    {
        Segment { kind: KindSet::new(), text: String::new() }
    }
}

impl Segment {
    /// The unformatted run of one space.
    pub fn empty() -> (r: Self)
        ensures
            r@ == (SegmentView { kind: Set::empty(), text: seq![' '] }),
    {
        proof {
            reveal_strlit(" ");
            assert(" "@ =~= seq![' ']);
        }
        Segment { kind: KindSet::new(), text: String::from_str(" ") }
    }

    /// The run that shows `name` and mentions `user`.
    pub fn from_user_with_name(user: User, name: String) -> (r: Self)
        ensures
            r@ == (SegmentView {
                kind: set![KindView::TextMention { user: user@ }],
                text: name@,
            }),
    {
        let mut kind = KindSet::new();
        kind.insert(FormatKind::TextMention { user });
        Segment { kind, text: name }
    }

    /// The run that shows the display name of `user` and mentions them.
    pub fn from_user(user: User) -> (r: Self)
        ensures
            r@ == (SegmentView {
                kind: set![KindView::TextMention { user: user@ }],
                text: full_name(user@),
            }),
    {
        let name = user.full_name();
        Segment::from_user_with_name(user, name)
    }
}

/// The run that shows the display name of the user and mentions them.
impl From<User> for Segment {
    fn from(user: User) -> (r: Self)
        ensures
            r@ == (SegmentView {
                kind: set![KindView::TextMention { user: user@ }],
                text: full_name(user@),
            }),
    {
        Segment::from_user(user)
    }
}

impl vstd::std_specs::convert::FromSpecImpl<User> for Segment {
    open spec fn obeys_from_spec() -> bool {
        false
    }

    open spec fn from_spec(user: User) -> Segment {
        arbitrary()
    }
}

/// The run that shows the display name of the user and mentions them.
impl From<&User> for Segment {
    fn from(user: &User) -> (r: Self)
        ensures
            r@ == (SegmentView {
                kind: set![KindView::TextMention { user: user@ }],
                text: full_name(user@),
            }),
    {
        Segment::from_user(user.clone())
    }
}

impl vstd::std_specs::convert::FromSpecImpl<&User> for Segment {
    open spec fn obeys_from_spec() -> bool {
        false
    }

    open spec fn from_spec(user: &User) -> Segment {
        arbitrary()
    }
}

/// The runs of one message, in order.
#[derive(Debug, PartialEq, Eq)]
pub struct Segments {
    data: VecDeque<Segment>,
}

/// The values of a sequence of runs.
pub open spec fn segment_views(data: Seq<Segment>) -> Seq<SegmentView> {
    data.map_values(|s: Segment| s@)
}

/// The texts of the runs, one after the other.
pub open spec fn flatten(segs: Seq<SegmentView>) -> Seq<char>
    decreases segs.len(),
{
    if segs.len() == 0 {
        Seq::empty()
    } else {
        flatten(segs.drop_last()) + segs.last().text
    }
}

/// What is left when leading white space is taken off: runs that hold
/// nothing else are dropped, and the first run that holds more loses its
/// leading white space.
pub open spec fn trim_start_runs(segs: Seq<SegmentView>) -> Seq<SegmentView>
    decreases segs.len(),
{
    if segs.len() == 0 {
        segs
    } else if trim_start_text(segs[0].text).len() == 0 {
        trim_start_runs(segs.skip(1))
    } else {
        segs.update(0, SegmentView { kind: segs[0].kind, text: trim_start_text(segs[0].text) })
    }
}

/// What is left when trailing white space is taken off: runs that hold
/// nothing else are dropped, and the last run that holds more loses its
/// trailing white space.
pub open spec fn trim_end_runs(segs: Seq<SegmentView>) -> Seq<SegmentView>
    decreases segs.len(),
{
    if segs.len() == 0 {
        segs
    } else if trim_end_text(segs.last().text).len() == 0 {
        trim_end_runs(segs.drop_last())
    } else {
        segs.update(
            segs.len() - 1,
            SegmentView { kind: segs.last().kind, text: trim_end_text(segs.last().text) },
        )
    }
}

/// White space taken off both ends.
pub open spec fn trim_runs(segs: Seq<SegmentView>) -> Seq<SegmentView> {
    trim_end_runs(trim_start_runs(segs))
}

/// What is left when the first `n` characters are taken off, if there are
/// that many. A run all of whose characters are taken is dropped, except
/// the run in which the count ends, which stays even when nothing of it is
/// left.
pub open spec fn drain_runs(segs: Seq<SegmentView>, n: nat) -> Option<Seq<SegmentView>>
    decreases segs.len(),
{
    if n == 0 {
        Some(segs)
    } else if segs.len() == 0 {
        None
    } else if segs[0].text.len() >= n {
        Some(segs.update(0, SegmentView { kind: segs[0].kind, text: segs[0].text.skip(n as int) }))
    } else {
        drain_runs(segs.skip(1), (n - segs[0].text.len()) as nat)
    }
}

impl View for Segments {
    type V = Seq<SegmentView>;

    closed spec fn view(&self) -> Seq<SegmentView> {
        segment_views(self.data@)
    }
}

impl Clone for Segments {
    fn clone(&self) -> (r: Self)
        ensures
            r@ == self@,
    {
        let mut data: VecDeque<Segment> = VecDeque::new();
        let mut i: usize = 0;
        while i < self.data.len()
            invariant
                i <= self.data.len(),
                segment_views(data@) == self@.take(i as int),
            decreases self.data.len() - i,
        {
            data.push_back(self.data[i].clone());
            proof {
                assert(segment_views(data@) =~= self@.take(i as int).push(self.data@[i as int]@));
                assert(self@.take(i as int).push(self.data@[i as int]@) =~= self@.take(i + 1));
            }
            i += 1;
        }
        proof {
            assert(self@.take(self.data.len() as int) =~= self@);
        }
        Segments { data }
    }
}

impl Default for Segments {
    fn default() -> (r: Self)
        ensures
            r@ == Seq::<SegmentView>::empty(),
    {
        let r = Segments { data: VecDeque::new() };
        proof {
            assert(r@ =~= Seq::<SegmentView>::empty());
        }
        r
    }
}

/// The runs of `data`, in order.
impl From<Vec<Segment>> for Segments {
    fn from(data: Vec<Segment>) -> (r: Self)
        ensures
            r@ == segment_views(data@),
    {
        Segments::from(data)
    }
}

impl vstd::std_specs::convert::FromSpecImpl<Vec<Segment>> for Segments {
    open spec fn obeys_from_spec() -> bool {
        false
    }

    open spec fn from_spec(data: Vec<Segment>) -> Segments {
        arbitrary()
    }
}

impl core::ops::Deref for Segments {
    type Target = VecDeque<Segment>;

    fn deref(&self) -> (r: &VecDeque<Segment>)
        ensures
            segment_views(r@) == self@,
    {
        &self.data
    }
}

impl core::ops::DerefMut for Segments {
    fn deref_mut(&mut self) -> (r: &mut VecDeque<Segment>)
        ensures
            segment_views(r@) == old(self)@,
            final(self)@ == segment_views(final(r)@),
    {
        &mut self.data
    }
}

impl Segments {
    /// The runs of `data`, in order.
    pub fn new(data: VecDeque<Segment>) -> (r: Self)
        ensures
            r@ == segment_views(data@),
    {
        Segments { data }
    }

    /// The runs of `data`, in order.
    pub fn from(data: Vec<Segment>) -> (r: Self)
        ensures
            r@ == segment_views(data@),
    {
        let mut data = data;
        let ghost all = segment_views(data@);
        let mut out: VecDeque<Segment> = VecDeque::new();
        while data.len() > 0
            invariant
                segment_views(data@) + segment_views(out@) == all,
            decreases data.len(),
        {
            let ghost a = segment_views(data@);
            let ghost b = segment_views(out@);
            let last = data.pop().unwrap();
            out.push_front(last);
            proof {
                assert(segment_views(data@) =~= a.drop_last());
                assert(segment_views(out@) =~= seq![a.last()] + b);
                assert(a.drop_last() + (seq![a.last()] + b) =~= a + b);
            }
        }
        let r = Segments { data: out };
        proof {
            assert(segment_views(data@) + segment_views(out@) =~= segment_views(out@));
        }
        r
    }

    /// Number of runs.
    pub fn len(&self) -> (n: usize)
        ensures
            n == self@.len(),
    {
        self.data.len()
    }

    /// Whether there is no run.
    pub fn is_empty(&self) -> (r: bool)
        ensures
            r == (self@.len() == 0),
    {
        self.data.len() == 0
    }

    /// The run at place `i`.
    pub fn get(&self, i: usize) -> (s: &Segment)
        requires
            i < self@.len(),
        ensures
            s@ == self@[i as int],
    {
        &self.data[i]
    }

    /// The last run, if there is one.
    pub fn back(&self) -> (s: Option<&Segment>)
        ensures
            self@.len() == 0 ==> s is None,
            self@.len() > 0 ==> s is Some && s->0@ == self@.last(),
    {
        if self.data.len() == 0 {
            None
        } else {
            Some(&self.data[self.data.len() - 1])
        }
    }

    /// Puts `segment` after the last run.
    pub fn push_back(&mut self, segment: Segment)
        ensures
            final(self)@ == old(self)@.push(segment@),
    {
        self.data.push_back(segment);
        proof {
            assert(self@ =~= old(self)@.push(segment@));
        }
    }

    /// Puts `segment` before the first run.
    pub fn push_front(&mut self, segment: Segment)
        ensures
            final(self)@ == seq![segment@] + old(self)@,
    {
        self.data.push_front(segment);
        proof {
            assert(self@ =~= seq![segment@] + old(self)@);
        }
    }

    /// Takes the first `length` characters off, or gives nothing when the
    /// runs hold fewer.
    pub fn drain_head(self, length: usize) -> (r: Option<Self>)
        ensures
            drain_runs(self@, length as nat) is Some <==> r is Some,
            r is Some ==> r->0@ == drain_runs(self@, length as nat)->0,
    {
        let mut me = self;
        let mut to_drain: usize = length;
        while to_drain > 0 && me.data.len() > 0
            invariant
                drain_runs(self@, length as nat) == drain_runs(me@, to_drain as nat),
            decreases me.data.len(),
        {
            let ghost before = me@;
            let front = me.data.pop_front().unwrap();
            let data_len = front.text.as_str().unicode_len();
            if data_len >= to_drain {
                let rest = String::from_str(
                    front.text.as_str().substring_char(to_drain, data_len),
                );
                me.data.push_front(Segment { kind: front.kind, text: rest });
                proof {
                    assert(me@ =~= before.update(
                        0,
                        SegmentView {
                            kind: before[0].kind,
                            text: before[0].text.skip(to_drain as int),
                        },
                    ));
                }
                return Some(me);
            } else {
                proof {
                    assert(me@ =~= before.skip(1));
                }
                to_drain -= data_len;
            }
        }
        if to_drain == 0 {
            Some(me)
        } else {
            None
        }
    }

    /// Takes leading white space off.
    pub fn trim_start(self) -> (r: Self)
        ensures
            r@ == trim_start_runs(self@),
    {
        let mut me = self;
        while me.data.len() > 0
            invariant
                trim_start_runs(self@) == trim_start_runs(me@),
            decreases me.data.len(),
        {
            let ghost before = me@;
            let front = me.data.pop_front().unwrap();
            let trimmed = trim_start(front.text.as_str());
            if trimmed.as_str().unicode_len() == 0 {
                proof {
                    assert(me@ =~= before.skip(1));
                }
            } else {
                me.data.push_front(Segment { kind: front.kind, text: trimmed });
                proof {
                    assert(me@ =~= before.update(
                        0,
                        SegmentView { kind: before[0].kind, text: trim_start_text(before[0].text) },
                    ));
                }
                return me;
            }
        }
        me
    }

    /// Takes trailing white space off.
    pub fn trim_end(self) -> (r: Self)
        ensures
            r@ == trim_end_runs(self@),
    {
        let mut me = self;
        while me.data.len() > 0
            invariant
                trim_end_runs(self@) == trim_end_runs(me@),
            decreases me.data.len(),
        {
            let ghost before = me@;
            let back = me.data.pop_back().unwrap();
            let trimmed = trim_end(back.text.as_str());
            if trimmed.as_str().unicode_len() == 0 {
                proof {
                    assert(me@ =~= before.drop_last());
                }
            } else {
                me.data.push_back(Segment { kind: back.kind, text: trimmed });
                proof {
                    assert(me@ =~= before.update(
                        before.len() - 1,
                        SegmentView {
                            kind: before.last().kind,
                            text: trim_end_text(before.last().text),
                        },
                    ));
                }
                return me;
            }
        }
        me
    }

    /// Takes white space off both ends.
    pub fn trim(self) -> (r: Self)
        ensures
            r@ == trim_runs(self@),
    {
        self.trim_start().trim_end()
    }

    /// The texts of the runs, one after the other.
    pub fn text(&self) -> (r: String)
        ensures
            r@ == flatten(self@),
    {
        let mut base = String::new();
        let mut i: usize = 0;
        while i < self.data.len()
            invariant
                i <= self.data.len(),
                base@ == flatten(self@.take(i as int)),
            decreases self.data.len() - i,
        {
            base.append(self.data[i].text.as_str());
            proof {
                assert(self@.take(i + 1).drop_last() =~= self@.take(i as int));
            }
            i += 1;
        }
        proof {
            assert(self@.take(self.data.len() as int) =~= self@);
        }
        base
    }
}

/// There is no run, or the first run begins with a character that is not
/// white space.
pub open spec fn starts_clean(segs: Seq<SegmentView>) -> bool {
    segs.len() == 0 || (segs[0].text.len() > 0 && !white_space(segs[0].text[0]))
}

/// There is no run, or the last run ends with a character that is not white
/// space.
pub open spec fn ends_clean(segs: Seq<SegmentView>) -> bool {
    segs.len() == 0 || (segs.last().text.len() > 0 && !white_space(segs.last().text.last()))
}

/// What `trim_start_runs` gives begins with no white space.
pub proof fn lemma_trim_start_cleans(segs: Seq<SegmentView>)
    ensures
        starts_clean(trim_start_runs(segs)),
    decreases segs.len(),
{
    if segs.len() > 0 {
        lemma_leading_ws(segs[0].text);
        if trim_start_text(segs[0].text).len() == 0 {
            lemma_trim_start_cleans(segs.skip(1));
        }
    }
}

/// What `trim_end_runs` gives ends with no white space.
pub proof fn lemma_trim_end_cleans(segs: Seq<SegmentView>)
    ensures
        ends_clean(trim_end_runs(segs)),
    decreases segs.len(),
{
    if segs.len() > 0 {
        lemma_trailing_ws(segs.last().text);
        if trim_end_text(segs.last().text).len() == 0 {
            lemma_trim_end_cleans(segs.drop_last());
        }
    }
}

/// Runs that begin with no white space lose nothing at the start.
pub proof fn lemma_trim_start_of_clean(segs: Seq<SegmentView>)
    requires
        starts_clean(segs),
    ensures
        trim_start_runs(segs) == segs,
{
    if segs.len() > 0 {
        lemma_leading_ws_is(segs[0].text, 0);
        assert(segs[0].text.skip(0) =~= segs[0].text);
        assert(segs.update(0, segs[0]) =~= segs);
    }
}

/// Runs that end with no white space lose nothing at the end.
pub proof fn lemma_trim_end_of_clean(segs: Seq<SegmentView>)
    requires
        ends_clean(segs),
    ensures
        trim_end_runs(segs) == segs,
{
    if segs.len() > 0 {
        let t = segs.last().text;
        lemma_trailing_ws_is(t, 0);
        assert(t.take(t.len() as int) =~= t);
        assert(segs.update(segs.len() - 1, segs.last()) =~= segs);
    }
}

/// Taking white space off the end leaves the start as it is.
pub proof fn lemma_trim_end_keeps_start(segs: Seq<SegmentView>)
    requires
        starts_clean(segs),
    ensures
        starts_clean(trim_end_runs(segs)),
    decreases segs.len(),
{
    if segs.len() > 0 {
        let t = segs.last().text;
        lemma_trailing_ws(t);
        if trim_end_text(t).len() == 0 {
            if segs.len() == 1 {
                // the only run begins with a character that is not white space
                assert(white_space(t[0]));
            } else {
                assert(segs.drop_last()[0] == segs[0]);
                lemma_trim_end_keeps_start(segs.drop_last());
            }
        } else if segs.len() == 1 {
            assert(trim_end_text(t)[0] == t[0]);
        }
    }
}

/// Taking white space off both ends a second time changes nothing.
pub proof fn law_trim_idempotent(segs: Seq<SegmentView>)
    ensures
        trim_runs(trim_runs(segs)) == trim_runs(segs),
{
    let a = trim_start_runs(segs);
    lemma_trim_start_cleans(segs);
    let b = trim_end_runs(a);
    lemma_trim_end_cleans(a);
    lemma_trim_end_keeps_start(a);
    lemma_trim_start_of_clean(b);
    lemma_trim_end_of_clean(b);
}

} // verus!
