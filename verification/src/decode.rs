//! From a text and its formatting ranges to runs.
//!
//! Ranges are given in UTF-16 code units and may nest or overlap. They are
//! taken in order of their start, the wider first among those that start
//! together, and swept with a stack of the ranges that are open: the text
//! between two events of the sweep becomes one run, formatted with the kinds
//! of every range on the stack.

use crate::kind::{FormatKind, KindView};
use crate::kind_set::KindSet;
use crate::segments::{Segment, SegmentView, Segments};
use crate::text::{decode_lossy, encode_utf16, from_utf16_lossy, lemma_units_len, utf16_len, utf16_units};
use std::collections::VecDeque;
use vstd::prelude::*;
use vstd::slice::slice_subrange;

verus! {

/// A formatting range: `length` code units from `offset` on are of `kind`.
#[derive(Debug, PartialEq, Eq)]
pub struct MessageEntity {
    pub kind: FormatKind,
    pub offset: usize,
    pub length: usize,
}

/// Mathematical value of a [`MessageEntity`].
pub struct EntityView {
    pub kind: KindView,
    pub offset: nat,
    pub length: nat,
}

impl View for MessageEntity {
    type V = EntityView;

    open spec fn view(&self) -> EntityView {
        EntityView { kind: self.kind@, offset: self.offset as nat, length: self.length as nat }
    }
}

impl Clone for MessageEntity {
    fn clone(&self) -> (r: Self)
        ensures
            r == *self,
    {
        MessageEntity { kind: self.kind.clone(), offset: self.offset, length: self.length }
    }
}

impl MessageEntity {
    pub fn new(kind: FormatKind, offset: usize, length: usize) -> (r: Self)
        ensures
            r == (MessageEntity { kind, offset, length }),
    {
        MessageEntity { kind, offset, length }
    }
}

/// The values of a sequence of formatting ranges.
pub open spec fn entity_views(entities: Seq<MessageEntity>) -> Seq<EntityView> {
    entities.map_values(|e: MessageEntity| e@)
}

/// A range of the sweep, from `start` up to, not including, `end`. The range
/// without a kind is the whole text, the bottom of the stack.
pub struct RangeView {
    pub kind: Option<KindView>,
    pub start: int,
    pub end: int,
}

/// The range that an entity formats.
pub open spec fn range_of(e: EntityView) -> RangeView {
    RangeView { kind: Some(e.kind), start: e.offset as int, end: (e.offset + e.length) as int }
}

/// The ranges of the entities, in their order.
pub open spec fn entity_ranges(entities: Seq<EntityView>) -> Seq<RangeView> {
    entities.map_values(|e: EntityView| range_of(e))
}

/// Every range ends within `len` code units.
pub open spec fn within(entities: Seq<EntityView>, len: int) -> bool {
    forall|i: int| 0 <= i < entities.len() ==> (#[trigger] entities[i]).offset + entities[i].length <= len
}

/// Whether `a` is opened before `b`: it starts earlier, or starts with `b`
/// and ends later.
pub open spec fn opens_before(a: RangeView, b: RangeView) -> bool {
    a.start < b.start || (a.start == b.start && a.end > b.end)
}

/// Two sequences of ranges as one: the head that is opened first goes first,
/// that of `a` where neither is opened before the other.
pub open spec fn merged(a: Seq<RangeView>, b: Seq<RangeView>) -> Seq<RangeView>
    decreases a.len() + b.len(),
{
    if a.len() == 0 {
        b
    } else if b.len() == 0 {
        a
    } else if opens_before(b[0], a[0]) {
        seq![b[0]] + merged(a, b.skip(1))
    } else {
        seq![a[0]] + merged(a.skip(1), b)
    }
}

/// The ranges in the order in which the sweep opens them: by start, the
/// wider first, and in the given order where both agree. The two halves of
/// the ranges are put in order and merged.
pub open spec fn sweep_order(ranges: Seq<RangeView>) -> Seq<RangeView>
    decreases ranges.len(),
{
    if ranges.len() <= 1 {
        ranges
    } else {
        merged(
            sweep_order(ranges.take(ranges.len() as int / 2)),
            sweep_order(ranges.skip(ranges.len() as int / 2)),
        )
    }
}

/// A stretch of the text between two events of the sweep, with the kinds
/// that were open over it.
pub struct Piece {
    pub start: int,
    pub end: int,
    pub kinds: Set<KindView>,
}

/// The kinds of the ranges on the stack.
pub open spec fn stack_kinds(stack: Seq<RangeView>) -> Set<KindView> {
    Set::new(|k: KindView| exists|j: int| 0 <= j < stack.len() && (#[trigger] stack[j]).kind == Some(k))
}

pub open spec fn later(a: int, b: int) -> int {
    if a < b {
        b
    } else {
        a
    }
}

/// The pieces that the sweep gives from the state in which the first `i`
/// ranges have been opened, `stack` holds those still open and the text up to
/// `cursor` has been given out.
///
/// While a range is pending that starts before the top of the stack ends, it
/// is opened: the text up to its start is given out. Otherwise the top of the
/// stack is closed: the text up to its end is given out. A stretch that is
/// empty is not given out, and the cursor never moves back.
pub open spec fn sweep(ranges: Seq<RangeView>, i: int, stack: Seq<RangeView>, cursor: int) -> Seq<Piece>
    decreases ranges.len() - i, stack.len(),
{
    if stack.len() == 0 {
        Seq::empty()
    } else if 0 <= i < ranges.len() && ranges[i].start < stack.last().end {
        let rest = sweep(ranges, i + 1, stack.push(ranges[i]), later(cursor, ranges[i].start));
        if cursor < ranges[i].start {
            seq![Piece { start: cursor, end: ranges[i].start, kinds: stack_kinds(stack) }] + rest
        } else {
            rest
        }
    } else {
        let rest = sweep(ranges, i, stack.drop_last(), later(cursor, stack.last().end));
        if cursor < stack.last().end {
            seq![Piece { start: cursor, end: stack.last().end, kinds: stack_kinds(stack) }] + rest
        } else {
            rest
        }
    }
}

/// The pieces into which the ranges cut a text of `len` code units.
pub open spec fn pieces(len: int, ranges: Seq<RangeView>) -> Seq<Piece> {
    sweep(sweep_order(ranges), 0, seq![RangeView { kind: None, start: 0, end: len }], 0)
}

/// The run of a piece: its kinds, and the text that its code units decode to.
pub open spec fn piece_run(units: Seq<u16>, p: Piece) -> SegmentView {
    SegmentView { kind: p.kinds, text: decode_lossy(units.subrange(p.start, p.end)) }
}

/// The runs of a sequence of pieces.
pub open spec fn piece_runs(units: Seq<u16>, ps: Seq<Piece>) -> Seq<SegmentView> {
    ps.map_values(|p: Piece| piece_run(units, p))
}

/// The runs into which the entities cut a text.
pub open spec fn decoded(text: Seq<char>, entities: Seq<EntityView>) -> Seq<SegmentView> {
    piece_runs(utf16_units(text), pieces(utf16_len(text) as int, entity_ranges(entities)))
}

struct EntityRange {
    kind: Option<FormatKind>,
    start: usize,
    end: usize,
}

impl View for EntityRange {
    type V = RangeView;

    closed spec fn view(&self) -> RangeView {
        RangeView {
            kind: match self.kind {
                Some(k) => Some(k@),
                None => None,
            },
            start: self.start as int,
            end: self.end as int,
        }
    }
}

impl Clone for EntityRange {
    fn clone(&self) -> (r: Self)
        ensures
            r == *self,
    {
        EntityRange {
            kind: match &self.kind {
                Some(k) => Some(k.clone()),
                None => None,
            },
            start: self.start,
            end: self.end,
        }
    }
}

spec fn range_views(ranges: Seq<EntityRange>) -> Seq<RangeView> {
    ranges.map_values(|r: EntityRange| r@)
}

/// Two sequences of ranges as one, the head that is opened first going
/// first.
fn merge(a: &Vec<EntityRange>, b: &Vec<EntityRange>) -> (v: Vec<EntityRange>)
    ensures
        range_views(v@) == merged(range_views(a@), range_views(b@)),
{
    let ghost av = range_views(a@);
    let ghost bv = range_views(b@);
    let mut out: Vec<EntityRange> = Vec::new();
    let mut i: usize = 0;
    let mut j: usize = 0;
    proof {
        assert(av.skip(0) =~= av);
        assert(bv.skip(0) =~= bv);
        assert(range_views(out@) + merged(av, bv) =~= merged(av, bv));
    }
    while i < a.len() || j < b.len()
        invariant
            i <= a.len(),
            j <= b.len(),
            av == range_views(a@),
            bv == range_views(b@),
            range_views(out@) + merged(av.skip(i as int), bv.skip(j as int)) == merged(av, bv),
        decreases a.len() - i + b.len() - j,
    {
        let ghost done = range_views(out@);
        let ghost x = av.skip(i as int);
        let ghost y = bv.skip(j as int);
        let from_b = if i == a.len() {
            true
        } else if j == b.len() {
            false
        } else {
            b[j].start < a[i].start || (b[j].start == a[i].start && b[j].end > a[i].end)
        };
        if from_b {
            out.push(b[j].clone());
            proof {
                assert(y[0] == bv[j as int]);
                assert(y.skip(1) =~= bv.skip(j + 1));
                assert(merged(x, y) =~= seq![y[0]] + merged(x, y.skip(1)));
                assert(range_views(out@) =~= done.push(y[0]));
                assert(done.push(y[0]) + merged(x, y.skip(1)) =~= done + (seq![y[0]] + merged(
                    x,
                    y.skip(1),
                )));
            }
            j += 1;
        } else {
            out.push(a[i].clone());
            proof {
                assert(x[0] == av[i as int]);
                assert(x.skip(1) =~= av.skip(i + 1));
                assert(merged(x, y) =~= seq![x[0]] + merged(x.skip(1), y));
                assert(range_views(out@) =~= done.push(x[0]));
                assert(done.push(x[0]) + merged(x.skip(1), y) =~= done + (seq![x[0]] + merged(
                    x.skip(1),
                    y,
                )));
            }
            i += 1;
        }
    }
    proof {
        assert(range_views(out@) + merged(av.skip(i as int), bv.skip(j as int)) =~= range_views(
            out@,
        ));
    }
    out
}

/// The ranges in the order of the sweep.
fn sort(ranges: Vec<EntityRange>) -> (v: Vec<EntityRange>)
    ensures
        range_views(v@) == sweep_order(range_views(ranges@)),
    decreases ranges@.len(),
{
    if ranges.len() <= 1 {
        return ranges;
    }
    let ghost all = range_views(ranges@);
    let mid = ranges.len() / 2;
    let mut left = ranges;
    let right = left.split_off(mid);
    proof {
        assert(range_views(left@) =~= all.take(mid as int));
        assert(range_views(right@) =~= all.skip(mid as int));
    }
    let left = sort(left);
    let right = sort(right);
    merge(&left, &right)
}

/// The ranges of the entities in the order of the sweep.
fn sorted_ranges(entities: &[MessageEntity]) -> (v: Vec<EntityRange>)
    requires
        forall|i: int|
            0 <= i < entities@.len() ==> (#[trigger] entities@[i]).offset + entities@[i].length
                <= usize::MAX,
    ensures
        range_views(v@) == sweep_order(entity_ranges(entity_views(entities@))),
{
    let ghost all = entity_ranges(entity_views(entities@));
    let mut v: Vec<EntityRange> = Vec::new();
    let mut i: usize = 0;
    proof {
        assert(range_views(v@) =~= all.take(0));
    }
    while i < entities.len()
        invariant
            i <= entities.len(),
            all == entity_ranges(entity_views(entities@)),
            range_views(v@) == all.take(i as int),
            forall|i: int|
                0 <= i < entities@.len() ==> (#[trigger] entities@[i]).offset + entities@[i].length
                    <= usize::MAX,
        decreases entities.len() - i,
    {
        let entity = &entities[i];
        let ghost before = range_views(v@);
        v.push(
            EntityRange {
                kind: Some(entity.kind.clone()),
                start: entity.offset,
                end: entity.offset + entity.length,
            },
        );
        proof {
            assert(range_views(v@) =~= before.push(all[i as int]));
            assert(all.take(i + 1) =~= all.take(i as int).push(all[i as int]));
        }
        i += 1;
    }
    proof {
        assert(all.take(entities.len() as int) =~= all);
    }
    sort(v)
}

/// The kinds of the ranges on the stack.
fn kinds(stack: &Vec<EntityRange>) -> (r: KindSet)
    ensures
        r@ == stack_kinds(range_views(stack@)),
{
    let mut r = KindSet::new();
    let mut i: usize = 0;
    proof {
        assert(stack_kinds(range_views(stack@).take(0)) =~= Set::<KindView>::empty());
    }
    while i < stack.len()
        invariant
            i <= stack.len(),
            r@ == stack_kinds(range_views(stack@).take(i as int)),
        decreases stack.len() - i,
    {
        let ghost seen = range_views(stack@).take(i as int);
        let ghost next = range_views(stack@).take(i + 1);
        proof {
            assert(next =~= seen.push(stack@[i as int]@));
        }
        match &stack[i].kind {
            Some(k) => {
                r.insert(k.clone());
                proof {
                    assert(stack_kinds(next) =~= stack_kinds(seen).insert(k@)) by {
                        assert forall|x: KindView| stack_kinds(next).contains(x) implies stack_kinds(
                            seen,
                        ).insert(k@).contains(x) by {
                            let j = choose|j: int|
                                0 <= j < next.len() && (#[trigger] next[j]).kind == Some(x);
                            if j < i {
                                assert(seen[j].kind == Some(x));
                            }
                        }
                        assert forall|x: KindView|
                            stack_kinds(seen).insert(k@).contains(x) implies stack_kinds(
                            next,
                        ).contains(x) by {
                            if x == k@ {
                                assert(next[i as int].kind == Some(x));
                            } else {
                                let j = choose|j: int|
                                    0 <= j < seen.len() && (#[trigger] seen[j]).kind == Some(x);
                                assert(next[j].kind == Some(x));
                            }
                        }
                    }
                }
            },
            None => {
                proof {
                    assert(stack_kinds(next) =~= stack_kinds(seen)) by {
                        assert forall|x: KindView| stack_kinds(next).contains(x) implies stack_kinds(
                            seen,
                        ).contains(x) by {
                            let j = choose|j: int|
                                0 <= j < next.len() && (#[trigger] next[j]).kind == Some(x);
                            assert(seen[j].kind == Some(x));
                        }
                        assert forall|x: KindView| stack_kinds(seen).contains(x) implies stack_kinds(
                            next,
                        ).contains(x) by {
                            let j = choose|j: int|
                                0 <= j < seen.len() && (#[trigger] seen[j]).kind == Some(x);
                            assert(next[j].kind == Some(x));
                        }
                    }
                }
            },
        }
        i += 1;
    }
    proof {
        assert(range_views(stack@).take(stack.len() as int) =~= range_views(stack@));
    }
    r
}

/// Every range lies within `len` code units and does not end before it
/// starts.
pub open spec fn bounded(ranges: Seq<RangeView>, len: int) -> bool {
    forall|i: int| 0 <= i < ranges.len() ==> 0 <= (#[trigger] ranges[i]).start <= ranges[i].end <= len
}

/// Merging keeps the ranges of both sequences, each as often as it stands
/// in them.
pub proof fn lemma_merged_same(a: Seq<RangeView>, b: Seq<RangeView>)
    ensures
        merged(a, b).to_multiset() == a.to_multiset().add(b.to_multiset()),
    decreases a.len() + b.len(),
{
    broadcast use vstd::seq_lib::group_to_multiset_ensures;

    if a.len() == 0 {
        assert(a.to_multiset() =~= vstd::multiset::Multiset::<RangeView>::empty());
        assert(a.to_multiset().add(b.to_multiset()) =~= b.to_multiset());
    } else if b.len() == 0 {
        assert(b.to_multiset() =~= vstd::multiset::Multiset::<RangeView>::empty());
        assert(a.to_multiset().add(b.to_multiset()) =~= a.to_multiset());
    } else if opens_before(b[0], a[0]) {
        lemma_merged_same(a, b.skip(1));
        vstd::seq_lib::lemma_multiset_commutative(seq![b[0]], merged(a, b.skip(1)));
        vstd::seq_lib::lemma_multiset_commutative(seq![b[0]], b.skip(1));
        assert(seq![b[0]] + b.skip(1) =~= b);
        assert(seq![b[0]].to_multiset().add(a.to_multiset().add(b.skip(1).to_multiset()))
            =~= a.to_multiset().add(seq![b[0]].to_multiset().add(b.skip(1).to_multiset())));
    } else {
        lemma_merged_same(a.skip(1), b);
        vstd::seq_lib::lemma_multiset_commutative(seq![a[0]], merged(a.skip(1), b));
        vstd::seq_lib::lemma_multiset_commutative(seq![a[0]], a.skip(1));
        assert(seq![a[0]] + a.skip(1) =~= a);
        assert(seq![a[0]].to_multiset().add(a.skip(1).to_multiset().add(b.to_multiset()))
            =~= seq![a[0]].to_multiset().add(a.skip(1).to_multiset()).add(b.to_multiset()));
    }
}

/// The order of the sweep holds the given ranges, each as often as given.
pub proof fn lemma_sweep_order_same(ranges: Seq<RangeView>)
    ensures
        sweep_order(ranges).to_multiset() == ranges.to_multiset(),
        sweep_order(ranges).len() == ranges.len(),
        forall|r: RangeView| sweep_order(ranges).contains(r) <==> ranges.contains(r),
    decreases ranges.len(),
{
    broadcast use vstd::seq_lib::group_to_multiset_ensures;

    if ranges.len() > 1 {
        let mid = ranges.len() as int / 2;
        lemma_sweep_order_same(ranges.take(mid));
        lemma_sweep_order_same(ranges.skip(mid));
        lemma_merged_same(sweep_order(ranges.take(mid)), sweep_order(ranges.skip(mid)));
        vstd::seq_lib::lemma_multiset_commutative(ranges.take(mid), ranges.skip(mid));
        assert(ranges.take(mid) + ranges.skip(mid) =~= ranges);
    }
    sweep_order(ranges).to_multiset_ensures();
    ranges.to_multiset_ensures();
    assert forall|r: RangeView| sweep_order(ranges).contains(r) <==> ranges.contains(r) by {
        assert(sweep_order(ranges).contains(r) <==> sweep_order(ranges).to_multiset().count(r) > 0);
        assert(ranges.contains(r) <==> ranges.to_multiset().count(r) > 0);
    }
}

/// Ordering the ranges for the sweep keeps them within their bounds.
pub proof fn lemma_sweep_order_bounded(ranges: Seq<RangeView>, len: int)
    requires
        bounded(ranges, len),
    ensures
        bounded(sweep_order(ranges), len),
{
    lemma_sweep_order_same(ranges);
    let sorted = sweep_order(ranges);
    assert forall|i: int| 0 <= i < sorted.len() implies 0 <= (#[trigger] sorted[i]).start
        <= sorted[i].end <= len by {
        assert(sorted.contains(sorted[i]));
        assert(ranges.contains(sorted[i]));
        let j = choose|j: int| 0 <= j < ranges.len() && ranges[j] == sorted[i];
        assert(0 <= ranges[j].start);
    }
}

impl Segments {
    /// Cuts `text` into runs along the formatting ranges `entities`, which
    /// are measured in UTF-16 code units and may nest or overlap.
    pub fn build(text: &str, entities: &[MessageEntity]) -> (r: Segments)
        requires
            within(entity_views(entities@), utf16_len(text@) as int),
        ensures
            r@ == decoded(text@, entity_views(entities@)),
    {
        let text_utf16 = encode_utf16(text);
        let len = text_utf16.len();
        let ghost units = text_utf16@;
        let ghost given = entity_ranges(entity_views(entities@));
        proof {
            lemma_units_len(text@);
            assert forall|i: int| 0 <= i < entities@.len() implies (#[trigger] entities@[i]).offset
                + entities@[i].length <= usize::MAX by {
                assert(entity_views(entities@)[i].offset + entity_views(entities@)[i].length
                    <= len);
            }
            assert(bounded(given, len as int)) by {
                assert forall|i: int| 0 <= i < given.len() implies 0 <= (#[trigger] given[i]).start
                    <= given[i].end <= len by {
                    assert(entity_views(entities@)[i].offset + entity_views(entities@)[i].length
                        <= len);
                }
            }
            lemma_sweep_order_bounded(given, len as int);
        }
        let ranges = sorted_ranges(entities);
        let ghost sorted = range_views(ranges@);
        let ghost total = pieces(len as int, given);
        let mut segments: VecDeque<Segment> = VecDeque::new();
        let mut stack: Vec<EntityRange> = Vec::new();
        stack.push(EntityRange { kind: None, start: 0, end: len });
        let mut offset: usize = 0;
        let mut i: usize = 0;
        let ghost mut done: Seq<Piece> = Seq::empty();
        proof {
            assert(range_views(stack@) =~= seq![RangeView { kind: None, start: 0, end: len as int }]);
            assert(done + sweep(sorted, 0, range_views(stack@), 0) =~= total);
            assert(crate::segments::segment_views(segments@) =~= piece_runs(units, done));
        }
        while stack.len() > 0
            invariant
                i <= ranges.len(),
                sorted == range_views(ranges@),
                units == text_utf16@,
                len == units.len(),
                offset <= len,
                bounded(sorted, len as int),
                forall|j: int| 0 <= j < stack.len() ==> (#[trigger] range_views(stack@)[j]).end <= len,
                total == done + sweep(sorted, i as int, range_views(stack@), offset as int),
                crate::segments::segment_views(segments@) == piece_runs(units, done),
            decreases ranges.len() - i, stack.len(),
        {
            let ghost open = range_views(stack@);
            let top_end = stack[stack.len() - 1].end;
            proof {
                assert(open.last().end == top_end);
                assert(open[stack.len() - 1].end <= len);
            }
            let opening = i < ranges.len() && ranges[i].start < top_end;
            let upto = if opening {
                ranges[i].start
            } else {
                top_end
            };
            proof {
                if opening {
                    assert(sorted[i as int].start == upto);
                }
            }
            if offset < upto {
                let kind = kinds(&stack);
                let text = from_utf16_lossy(slice_subrange(text_utf16.as_slice(), offset, upto));
                let ghost piece = Piece { start: offset as int, end: upto as int, kinds: kind@ };
                let ghost runs = crate::segments::segment_views(segments@);
                let segment = Segment { kind, text };
                proof {
                    assert(segment@ == piece_run(units, piece));
                }
                segments.push_back(segment);
                proof {
                    assert(crate::segments::segment_views(segments@) =~= runs.push(segment@));
                    let rest = if opening {
                        sweep(sorted, i + 1, open.push(sorted[i as int]), upto as int)
                    } else {
                        sweep(sorted, i as int, open.drop_last(), upto as int)
                    };
                    assert(sweep(sorted, i as int, open, offset as int) == seq![piece] + rest);
                    assert(done + (seq![piece] + rest) =~= done.push(piece) + rest);
                    assert(crate::segments::segment_views(segments@) =~= piece_runs(
                        units,
                        done.push(piece),
                    ));
                    done = done.push(piece);
                }
                offset = upto;
            }
            if opening {
                stack.push(ranges[i].clone());
                proof {
                    assert(range_views(stack@) =~= open.push(sorted[i as int]));
                }
                i += 1;
            } else {
                stack.pop();
                proof {
                    assert(range_views(stack@) =~= open.drop_last());
                }
            }
        }
        proof {
            assert(total =~= done);
        }
        Segments::new(segments)
    }
}

impl Segments {
    /// Whether every one of `entities` lies within `text`, so that `build`
    /// can cut the text along them.
    pub fn can_build(text: &str, entities: &[MessageEntity]) -> (r: bool)
        ensures
            r == within(entity_views(entities@), utf16_len(text@) as int),
    {
        let len = encode_utf16(text).len();
        proof {
            lemma_units_len(text@);
        }
        let ghost es = entity_views(entities@);
        let mut i: usize = 0;
        while i < entities.len()
            invariant
                i <= entities.len(),
                es == entity_views(entities@),
                len == utf16_len(text@),
                forall|j: int| 0 <= j < i ==> (#[trigger] es[j]).offset + es[j].length <= len,
            decreases entities.len() - i,
        {
            let fits = match entities[i].offset.checked_add(entities[i].length) {
                Some(end) => end <= len,
                None => false,
            };
            if !fits {
                proof {
                    assert(es[i as int].offset + es[i as int].length > len);
                }
                return false;
            }
            i += 1;
        }
        true
    }
}

} // verus!
