//! From runs back to formatting ranges.
//!
//! The runs are walked with a running offset in UTF-16 code units. For each
//! kind the stretches of the runs that carry it are gathered in a set of
//! positions, which merges stretches that touch; each maximal run of a
//! kind's positions then becomes one range.

use crate::decode::{entity_views, EntityView, MessageEntity};
use crate::intervals::{
    covered, lower_of, ranges_insert, ranges_new, ranges_runs, runs_of, span, upper_of, Bound,
    PositionSet,
};
use crate::kind::{kind_order, lemma_kind_order, FormatKind, KindView};
use crate::segments::{flatten, SegmentView, Segments};
use crate::text::{encode_utf16, lemma_units_concat, lemma_units_len, utf16_len};
use vstd::prelude::*;

verus! {

/// Offset, in code units, at which run `j` starts.
pub open spec fn run_start(segs: Seq<SegmentView>, j: int) -> int {
    utf16_len(flatten(segs.take(j))) as int
}

/// Whether the run that holds position `p` carries kind `k`.
pub open spec fn kind_at(segs: Seq<SegmentView>, k: KindView, p: int) -> bool {
    exists|j: int|
        0 <= j < segs.len() && (#[trigger] segs[j]).kind.contains(k) && run_start(segs, j) <= p
            < run_start(segs, j + 1)
}

/// Whether a range of kind `k` holds position `p`.
pub open spec fn covers(es: Seq<EntityView>, k: KindView, p: int) -> bool {
    exists|i: int|
        0 <= i < es.len() && (#[trigger] es[i]).kind == k && es[i].offset <= p < es[i].offset
            + es[i].length
}

/// The ranges are as few as can be and in a fixed order: none is empty, they
/// come by kind and within a kind by offset, and between two ranges of one
/// kind lies a gap.
pub open spec fn minimal(es: Seq<EntityView>) -> bool {
    &&& forall|i: int| 0 <= i < es.len() ==> (#[trigger] es[i]).length > 0
    &&& forall|i: int, j: int|
        0 <= i < j < es.len() ==> kind_order((#[trigger] es[i]).kind, (#[trigger] es[j]).kind) < 0
            || (es[i].kind == es[j].kind && es[i].offset + es[i].length < es[j].offset)
}

/// The value under a bound, if it has one.
pub fn unwrap_bound<T>(bound: Bound<&T>) -> (r: Option<&T>)
    ensures
        r == match bound {
            Bound::Included(v) => Some(v),
            Bound::Excluded(v) => Some(v),
            Bound::Unbounded => None,
        },
{
    match bound {
        Bound::Included(v) | Bound::Excluded(v) => Some(v),
        Bound::Unbounded => None,
    }
}

/// The positions of one kind, gathered while the runs are walked.
struct Bucket {
    kind: FormatKind,
    set: PositionSet,
}

/// The positions gathered for kind `k`.
spec fn held(buckets: Seq<Bucket>, k: KindView) -> Set<int> {
    Set::new(
        |p: int|
            exists|b: int|
                0 <= b < buckets.len() && (#[trigger] buckets[b]).kind@ == k && covered(
                    buckets[b].set,
                ).contains(p),
    )
}

/// The buckets come in ascending order of their kinds.
spec fn sorted_buckets(buckets: Seq<Bucket>) -> bool {
    forall|a: int, b: int|
        0 <= a < b < buckets.len() ==> kind_order((#[trigger] buckets[a]).kind@, (#[trigger] buckets[b]).kind@)
            < 0
}

/// The positions of the first `j` runs that carry kind `k`.
spec fn marked(segs: Seq<SegmentView>, j: int, k: KindView) -> Set<int> {
    Set::new(
        |p: int|
            exists|i: int|
                0 <= i < j && i < segs.len() && (#[trigger] segs[i]).kind.contains(k) && run_start(segs, i)
                    <= p < run_start(segs, i + 1),
    )
}

/// A run starts where the one before it ends.
pub proof fn lemma_run_start(segs: Seq<SegmentView>, j: int)
    requires
        0 <= j < segs.len(),
    ensures
        run_start(segs, j + 1) == run_start(segs, j) + utf16_len(segs[j].text),
        run_start(segs, 0) == 0,
{
    assert(segs.take(j + 1).drop_last() =~= segs.take(j));
    assert(segs.take(j + 1).last() == segs[j]);
    lemma_units_concat(flatten(segs.take(j)), segs[j].text);
    assert(segs.take(0) =~= Seq::<SegmentView>::empty());
}

/// No run starts behind the end of the text.
pub proof fn lemma_run_start_bound(segs: Seq<SegmentView>, j: int)
    requires
        0 <= j <= segs.len(),
    ensures
        0 <= run_start(segs, j) <= utf16_len(flatten(segs)),
    decreases segs.len() - j,
{
    if j < segs.len() {
        lemma_run_start(segs, j);
        lemma_run_start_bound(segs, j + 1);
    } else {
        assert(segs.take(j) =~= segs);
    }
}

/// What is gathered after the set of bucket `b` has grown by `more`.
proof fn lemma_held_grown(before: Seq<Bucket>, after: Seq<Bucket>, b: int, more: Set<int>)
    requires
        0 <= b < before.len(),
        after.len() == before.len(),
        forall|x: int| 0 <= x < before.len() && x != b ==> after[x] == before[x],
        after[b].kind@ == before[b].kind@,
        covered(after[b].set) == covered(before[b].set).union(more),
    ensures
        held(after, before[b].kind@) == held(before, before[b].kind@).union(more),
        forall|k: KindView| k != before[b].kind@ ==> held(after, k) == held(before, k),
{
    let kind = before[b].kind@;
    assert forall|k: KindView| true implies #[trigger] held(after, k) == (if k == kind {
        held(before, k).union(more)
    } else {
        held(before, k)
    }) by {
        let want = if k == kind {
            held(before, k).union(more)
        } else {
            held(before, k)
        };
        assert forall|p: int| held(after, k).contains(p) implies want.contains(p) by {
            let x = choose|x: int|
                0 <= x < after.len() && (#[trigger] after[x]).kind@ == k && covered(
                    after[x].set,
                ).contains(p);
            if x == b {
                if covered(before[b].set).contains(p) {
                    assert(before[b].kind@ == k);
                }
            } else {
                assert(before[x] == after[x]);
            }
        }
        assert forall|p: int| want.contains(p) implies held(after, k).contains(p) by {
            if held(before, k).contains(p) {
                let x = choose|x: int|
                    0 <= x < before.len() && (#[trigger] before[x]).kind@ == k && covered(
                        before[x].set,
                    ).contains(p);
                assert(after[x].kind@ == k);
                assert(covered(after[x].set).contains(p));
            } else {
                assert(after[b].kind@ == k);
                assert(covered(after[b].set).contains(p));
            }
        }
        assert(held(after, k) =~= want);
    }
}

/// What is gathered after a bucket of a kind that had none was put at `b`.
proof fn lemma_held_added(before: Seq<Bucket>, after: Seq<Bucket>, b: int, bucket: Bucket)
    requires
        0 <= b <= before.len(),
        after == before.insert(b, bucket),
        forall|x: int| 0 <= x < before.len() ==> (#[trigger] before[x]).kind@ != bucket.kind@,
    ensures
        held(after, bucket.kind@) == covered(bucket.set),
        forall|k: KindView| k != bucket.kind@ ==> held(after, k) == held(before, k),
{
    let kind = bucket.kind@;
    assert forall|k: KindView| true implies #[trigger] held(after, k) == (if k == kind {
        covered(bucket.set)
    } else {
        held(before, k)
    }) by {
        let want = if k == kind {
            covered(bucket.set)
        } else {
            held(before, k)
        };
        assert forall|p: int| held(after, k).contains(p) implies want.contains(p) by {
            let x = choose|x: int|
                0 <= x < after.len() && (#[trigger] after[x]).kind@ == k && covered(
                    after[x].set,
                ).contains(p);
            if x < b {
                assert(before[x] == after[x]);
            } else if x > b {
                assert(before[x - 1] == after[x]);
            }
        }
        assert forall|p: int| want.contains(p) implies held(after, k).contains(p) by {
            if k == kind {
                assert(after[b] == bucket);
            } else {
                let x = choose|x: int|
                    0 <= x < before.len() && (#[trigger] before[x]).kind@ == k && covered(
                        before[x].set,
                    ).contains(p);
                if x < b {
                    assert(after[x] == before[x]);
                } else {
                    assert(after[x + 1] == before[x]);
                }
            }
        }
        assert(held(after, k) =~= want);
    }
}

/// Buckets stay in order when one is put where its kind belongs.
proof fn lemma_sorted_added(before: Seq<Bucket>, after: Seq<Bucket>, b: int, bucket: Bucket)
    requires
        0 <= b <= before.len(),
        after == before.insert(b, bucket),
        sorted_buckets(before),
        forall|a: int| 0 <= a < b ==> kind_order((#[trigger] before[a]).kind@, bucket.kind@) < 0,
        b < before.len() ==> kind_order(bucket.kind@, before[b].kind@) < 0,
    ensures
        sorted_buckets(after),
        forall|x: int| 0 <= x < before.len() ==> (#[trigger] before[x]).kind@ != bucket.kind@,
{
    assert forall|x: int, y: int| 0 <= x < y < after.len() implies kind_order(
        (#[trigger] after[x]).kind@,
        (#[trigger] after[y]).kind@,
    ) < 0 by {
        if x == b {
            lemma_kind_order(bucket.kind@, before[b].kind@, before[y - 1].kind@);
            if y - 1 > b {
                assert(kind_order(before[b].kind@, before[y - 1].kind@) < 0);
            }
        } else if y == b {
            assert(kind_order(before[x].kind@, bucket.kind@) < 0);
        } else {
            let bx = if x < b { x } else { x - 1 };
            let by = if y < b { y } else { y - 1 };
            assert(kind_order(before[bx].kind@, before[by].kind@) < 0);
        }
    }
    assert forall|x: int| 0 <= x < before.len() implies (#[trigger] before[x]).kind@
        != bucket.kind@ by {
        lemma_kind_order(before[x].kind@, bucket.kind@, bucket.kind@);
        if x >= b {
            lemma_kind_order(bucket.kind@, before[b].kind@, before[x].kind@);
            if x > b {
                assert(kind_order(before[b].kind@, before[x].kind@) < 0);
            }
        }
    }
}

/// Adds the positions from `start` to `end` to those gathered for `kind`.
fn add_span(buckets: &mut Vec<Bucket>, kind: &FormatKind, start: usize, end: usize)
    requires
        sorted_buckets(old(buckets)@),
        start <= end,
    ensures
        sorted_buckets(final(buckets)@),
        held(final(buckets)@, kind@) == held(old(buckets)@, kind@).union(span(start as int, end as int)),
        forall|k: KindView| k != kind@ ==> held(final(buckets)@, k) == held(old(buckets)@, k),
{
    let ghost before = buckets@;
    let mut b: usize = 0;
    while b < buckets.len() && buckets[b].kind.order(kind) < 0
        invariant
            b <= buckets.len(),
            buckets@ == before,
            forall|a: int| 0 <= a < b ==> kind_order((#[trigger] before[a]).kind@, kind@) < 0,
        decreases buckets.len() - b,
    {
        b += 1;
    }
    if b < buckets.len() && buckets[b].kind.same(kind) {
        ranges_insert(&mut buckets[b].set, start, end);
        proof {
            lemma_held_grown(before, buckets@, b as int, span(start as int, end as int));
        }
    } else {
        let mut bucket = Bucket { kind: kind.clone(), set: ranges_new() };
        ranges_insert(&mut bucket.set, start, end);
        buckets.insert(b, bucket);
        proof {
            if b < before.len() {
                lemma_kind_order(before[b as int].kind@, kind@, kind@);
            }
            lemma_sorted_added(before, buckets@, b as int, bucket);
            lemma_held_added(before, buckets@, b as int, bucket);
            assert(held(before, kind@) =~= Set::<int>::empty()) by {
                assert forall|p: int| !held(before, kind@).contains(p) by {
                    if held(before, kind@).contains(p) {
                        let x = choose|x: int|
                            0 <= x < before.len() && (#[trigger] before[x]).kind@ == kind@
                                && covered(before[x].set).contains(p);
                        assert(false);
                    }
                }
            }
            assert(covered(bucket.set) =~= held(before, kind@).union(
                span(start as int, end as int),
            ));
        }
    }
}

/// The positions of the runs up to and including run `j` that carry `k`.
proof fn lemma_marked_step(segs: Seq<SegmentView>, j: int, k: KindView)
    requires
        0 <= j < segs.len(),
    ensures
        marked(segs, j + 1, k) == if segs[j].kind.contains(k) {
            marked(segs, j, k).union(span(run_start(segs, j), run_start(segs, j + 1)))
        } else {
            marked(segs, j, k)
        },
{
    let want = if segs[j].kind.contains(k) {
        marked(segs, j, k).union(span(run_start(segs, j), run_start(segs, j + 1)))
    } else {
        marked(segs, j, k)
    };
    assert forall|p: int| marked(segs, j + 1, k).contains(p) implies want.contains(p) by {
        let i = choose|i: int|
            0 <= i < j + 1 && i < segs.len() && (#[trigger] segs[i]).kind.contains(k) && run_start(
                segs,
                i,
            ) <= p < run_start(segs, i + 1);
        if i < j {
            assert(marked(segs, j, k).contains(p));
        }
    }
    assert forall|p: int| want.contains(p) implies marked(segs, j + 1, k).contains(p) by {
        if marked(segs, j, k).contains(p) {
            let i = choose|i: int|
                0 <= i < j && i < segs.len() && (#[trigger] segs[i]).kind.contains(k) && run_start(
                    segs,
                    i,
                ) <= p < run_start(segs, i + 1);
            assert(segs[i].kind.contains(k));
        } else {
            assert(segs[j].kind.contains(k));
        }
    }
    assert(marked(segs, j + 1, k) =~= want);
}

/// Every marked position lies within the text.
proof fn lemma_marked_bound(segs: Seq<SegmentView>, j: int, k: KindView, p: int)
    requires
        0 <= j <= segs.len(),
        marked(segs, j, k).contains(p),
    ensures
        0 <= p < utf16_len(flatten(segs)),
{
    let i = choose|i: int|
        0 <= i < j && i < segs.len() && (#[trigger] segs[i]).kind.contains(k) && run_start(segs, i)
            <= p < run_start(segs, i + 1);
    lemma_run_start_bound(segs, i);
    lemma_run_start_bound(segs, i + 1);
}

/// First position of a run that starts at `b`.
fn first_position(b: &Bound<usize>) -> (p: usize)
    requires
        lower_of(*b) <= usize::MAX,
    ensures
        p == lower_of(*b),
{
    match unwrap_bound(b.as_ref()) {
        Some(v) => match b {
            Bound::Excluded(_) => *v + 1,
            _ => *v,
        },
        None => 0,
    }
}

/// First position after a run that ends at `b`.
fn end_position(b: &Bound<usize>) -> (p: usize)
    requires
        upper_of(*b) <= usize::MAX,
    ensures
        p == upper_of(*b),
{
    match unwrap_bound(b.as_ref()) {
        Some(v) => match b {
            Bound::Included(_) => *v + 1,
            _ => *v,
        },
        None => 0,
    }
}

/// The ranges from place `from` on are of kind `k`, are not empty, come in
/// ascending order with a gap between each two, and hold the positions of
/// `set` and no others.
spec fn spells(es: Seq<EntityView>, from: int, k: KindView, set: Set<int>) -> bool {
    &&& 0 <= from <= es.len()
    &&& forall|i: int|
        from <= i < es.len() ==> (#[trigger] es[i]).kind == k && es[i].length > 0
    &&& forall|i: int, j: int|
        from <= i < j < es.len() ==> (#[trigger] es[i]).offset + es[i].length < (#[trigger] es[j]).offset
    &&& forall|p: int|
        set.contains(p) <==> exists|i: int|
            from <= i < es.len() && (#[trigger] es[i]).offset <= p < es[i].offset + es[i].length
}

/// Appends one range of `kind` for each maximal run of positions in `set`.
fn emit_runs(out: &mut Vec<MessageEntity>, kind: &FormatKind, set: &PositionSet, limit: usize)
    requires
        forall|p: int| covered(*set).contains(p) ==> 0 <= p < limit,
    ensures
        final(out)@.len() >= old(out)@.len(),
        entity_views(final(out)@).take(old(out)@.len() as int) == entity_views(old(out)@),
        spells(entity_views(final(out)@), old(out)@.len() as int, kind@, covered(*set)),
{
    let runs = ranges_runs(set);
    let ghost from = out@.len() as int;
    let ghost given = entity_views(out@);
    let mut r: usize = 0;
    proof {
        assert(entity_views(out@).take(from) =~= given);
    }
    while r < runs.len()
        invariant
            r <= runs.len(),
            runs_of(runs@, covered(*set)),
            forall|p: int| covered(*set).contains(p) ==> 0 <= p < limit,
            from >= 0,
            out@.len() == from + r,
            entity_views(out@).take(from) == given,
            forall|i: int|
                0 <= i < r ==> (#[trigger] entity_views(out@)[from + i]) == (EntityView {
                    kind: kind@,
                    offset: lower_of(runs@[i].0) as nat,
                    length: (upper_of(runs@[i].1) - lower_of(runs@[i].0)) as nat,
                }),
        decreases runs.len() - r,
    {
        let ghost before = entity_views(out@);
        proof {
            let lo = lower_of(runs@[r as int].0);
            let hi = upper_of(runs@[r as int].1);
            assert(lo < hi);
            assert(covered(*set).contains(lo));
            assert(covered(*set).contains(hi - 1));
        }
        let start = first_position(&runs[r].0);
        let end = end_position(&runs[r].1);
        out.push(MessageEntity::new(kind.clone(), start, end - start));
        proof {
            assert(entity_views(out@) =~= before.push(
                EntityView { kind: kind@, offset: start as nat, length: (end - start) as nat },
            ));
            assert(entity_views(out@).take(from) =~= before.take(from));
            assert forall|i: int| 0 <= i < r + 1 implies (#[trigger] entity_views(out@)[from + i]) == (
            EntityView {
                kind: kind@,
                offset: lower_of(runs@[i].0) as nat,
                length: (upper_of(runs@[i].1) - lower_of(runs@[i].0)) as nat,
            }) by {
                if i < r {
                    assert(entity_views(out@)[from + i] == before[from + i]);
                }
            }
        }
        r += 1;
    }
    proof {
        let es = entity_views(out@);
        assert forall|i: int| from <= i < es.len() implies (#[trigger] es[i]).kind == kind@
            && es[i].length > 0 by {
            assert(es[from + (i - from)].kind == kind@);
            assert(lower_of(runs@[i - from].0) < upper_of(runs@[i - from].1));
        }
        assert forall|i: int, j: int| from <= i < j < es.len() implies (#[trigger] es[i]).offset
            + es[i].length < (#[trigger] es[j]).offset by {
            assert(es[from + (i - from)].kind == kind@);
            assert(es[from + (j - from)].kind == kind@);
            assert(upper_of(runs@[i - from].1) < lower_of(runs@[j - from].0));
        }
        assert forall|p: int|
            covered(*set).contains(p) <==> exists|i: int|
                from <= i < es.len() && (#[trigger] es[i]).offset <= p < es[i].offset
                    + es[i].length by {
            if covered(*set).contains(p) {
                let x = choose|x: int|
                    0 <= x < runs@.len() && lower_of((#[trigger] runs@[x]).0) <= p < upper_of(
                        runs@[x].1,
                    );
                assert(es[from + x].offset <= p < es[from + x].offset + es[from + x].length);
            }
            if exists|i: int|
                from <= i < es.len() && (#[trigger] es[i]).offset <= p < es[i].offset
                    + es[i].length {
                let i = choose|i: int|
                    from <= i < es.len() && (#[trigger] es[i]).offset <= p < es[i].offset
                        + es[i].length;
                assert(es[from + (i - from)].kind == kind@);
                assert(lower_of(runs@[i - from].0) <= p < upper_of(runs@[i - from].1));
            }
        }
    }
}

/// The ranges are those of the buckets before place `b`: as few as can be,
/// in order, and holding the positions that those buckets hold.
spec fn emitted(es: Seq<EntityView>, buckets: Seq<Bucket>, b: int) -> bool {
    &&& minimal(es)
    &&& forall|i: int|
        0 <= i < es.len() ==> exists|x: int| 0 <= x < b && (#[trigger] buckets[x]).kind@ == (#[trigger] es[i]).kind
    &&& forall|k: KindView, p: int| #[trigger]
        covers(es, k, p) <==> exists|x: int|
            0 <= x < b && (#[trigger] buckets[x]).kind@ == k && covered(buckets[x].set).contains(p)
}

/// What has been emitted stays in order when the runs of the next bucket
/// follow it.
proof fn lemma_emitted_next(
    before: Seq<EntityView>,
    after: Seq<EntityView>,
    buckets: Seq<Bucket>,
    b: int,
)
    requires
        0 <= b < buckets.len(),
        sorted_buckets(buckets),
        emitted(before, buckets, b),
        after.len() >= before.len(),
        after.take(before.len() as int) == before,
        spells(after, before.len() as int, buckets[b].kind@, covered(buckets[b].set)),
    ensures
        emitted(after, buckets, b + 1),
{
    let from = before.len() as int;
    let kind = buckets[b].kind@;
    assert forall|i: int| 0 <= i < from implies #[trigger] after[i] == before[i] by {
        assert(after.take(from)[i] == after[i]);
    }
    assert forall|i: int| 0 <= i < after.len() implies exists|x: int|
        0 <= x < b + 1 && (#[trigger] buckets[x]).kind@ == (#[trigger] after[i]).kind by {
        if i < from {
            assert(after[i] == before[i]);
            let x = choose|x: int| 0 <= x < b && (#[trigger] buckets[x]).kind@ == before[i].kind;
            assert(buckets[x].kind@ == after[i].kind);
        } else {
            assert(buckets[b].kind@ == after[i].kind);
        }
    }
    assert forall|i: int, j: int| 0 <= i < j < after.len() implies kind_order(
        (#[trigger] after[i]).kind,
        (#[trigger] after[j]).kind,
    ) < 0 || (after[i].kind == after[j].kind && after[i].offset + after[i].length
        < after[j].offset) by {
        if j < from {
            assert(after[i] == before[i] && after[j] == before[j]);
        } else if i < from {
            assert(after[i] == before[i]);
            let x = choose|x: int| 0 <= x < b && (#[trigger] buckets[x]).kind@ == before[i].kind;
            assert(kind_order(buckets[x].kind@, buckets[b].kind@) < 0);
        } else {
        }
    }
    assert forall|i: int| 0 <= i < after.len() implies (#[trigger] after[i]).length > 0 by {
        if i < from {
            assert(after[i] == before[i]);
        }
    }
    assert forall|k: KindView, p: int| #[trigger]
        covers(after, k, p) <==> exists|x: int|
            0 <= x < b + 1 && (#[trigger] buckets[x]).kind@ == k && covered(buckets[x].set).contains(
                p,
            ) by {
        if covers(after, k, p) {
            let i = choose|i: int|
                0 <= i < after.len() && (#[trigger] after[i]).kind == k && after[i].offset <= p
                    < after[i].offset + after[i].length;
            if i < from {
                assert(before[i] == after[i]);
                assert(covers(before, k, p));
                let x = choose|x: int|
                    0 <= x < b && (#[trigger] buckets[x]).kind@ == k && covered(
                        buckets[x].set,
                    ).contains(p);
                assert(0 <= x < b + 1 && buckets[x].kind@ == k);
            } else {
                assert(covered(buckets[b].set).contains(p));
                assert(buckets[b].kind@ == k);
            }
        }
        if exists|x: int|
            0 <= x < b + 1 && (#[trigger] buckets[x]).kind@ == k && covered(buckets[x].set).contains(
                p,
            ) {
            let x = choose|x: int|
                0 <= x < b + 1 && (#[trigger] buckets[x]).kind@ == k && covered(
                    buckets[x].set,
                ).contains(p);
            if x < b {
                assert(covers(before, k, p));
                let i = choose|i: int|
                    0 <= i < before.len() && (#[trigger] before[i]).kind == k && before[i].offset
                        <= p < before[i].offset + before[i].length;
                assert(after[i] == before[i]);
            } else {
                let i = choose|i: int|
                    from <= i < after.len() && (#[trigger] after[i]).offset <= p < after[i].offset
                        + after[i].length;
                assert(after[i].kind == k);
            }
        }
    }
}

impl Segments {
    /// The formatting ranges of the runs, in UTF-16 code units: as few as
    /// reproduce the formatting, ordered by kind and then by offset.
    pub fn entities(&self) -> (out: Vec<MessageEntity>)
        requires
            utf16_len(flatten(self@)) <= usize::MAX,
        ensures
            minimal(entity_views(out@)),
            forall|k: KindView, p: int| #[trigger]
                covers(entity_views(out@), k, p) <==> kind_at(self@, k, p),
    {
        let ghost segs = self@;
        let mut buckets: Vec<Bucket> = Vec::new();
        let mut offset: usize = 0;
        let mut j: usize = 0;
        proof {
            assert(segs.take(0) =~= Seq::<SegmentView>::empty());
            assert forall|k: KindView| #[trigger] held(buckets@, k) == marked(segs, 0, k) by {
                assert(held(buckets@, k) =~= marked(segs, 0, k));
            }
        }
        while j < self.len()
            invariant
                j <= segs.len(),
                segs == self@,
                utf16_len(flatten(segs)) <= usize::MAX,
                sorted_buckets(buckets@),
                offset == run_start(segs, j as int),
                forall|k: KindView| #[trigger] held(buckets@, k) == marked(segs, j as int, k),
            decreases segs.len() - j,
        {
            let segment = self.get(j);
            let length = encode_utf16(segment.text.as_str()).len();
            proof {
                lemma_units_len(segment.text@);
                lemma_run_start(segs, j as int);
                lemma_run_start_bound(segs, j + 1);
            }
            let n = segment.kind.len();
            let ghost members = segment.kind.members();
            let ghost stretch = span(offset as int, offset + length);
            let mut t: usize = 0;
            while t < n
                invariant
                    t <= n,
                    n == members.len(),
                    members == segment.kind.members(),
                    sorted_buckets(buckets@),
                    offset + length <= usize::MAX,
                    stretch == span(offset as int, offset + length),
                    forall|k: KindView| #[trigger]
                        held(buckets@, k) == if members.take(t as int).contains(k) {
                            marked(segs, j as int, k).union(stretch)
                        } else {
                            marked(segs, j as int, k)
                        },
                decreases n - t,
            {
                let ghost before = buckets@;
                let kind = segment.kind.get(t);
                add_span(&mut buckets, kind, offset, offset + length);
                proof {
                    let seen = members.take(t as int);
                    let next = members.take(t + 1);
                    assert(next =~= seen.push(kind@));
                    assert forall|k: KindView| #[trigger]
                        held(buckets@, k) == if next.contains(k) {
                            marked(segs, j as int, k).union(stretch)
                        } else {
                            marked(segs, j as int, k)
                        } by {
                        if k == kind@ {
                            assert(next[t as int] == k);
                            assert(marked(segs, j as int, k).union(stretch).union(stretch)
                                =~= marked(segs, j as int, k).union(stretch));
                        } else {
                            assert(held(buckets@, k) == held(before, k));
                            if seen.contains(k) {
                                let x = choose|x: int| 0 <= x < seen.len() && seen[x] == k;
                                assert(next[x] == k);
                            }
                            if next.contains(k) {
                                let x = choose|x: int| 0 <= x < next.len() && next[x] == k;
                                assert(seen[x] == k);
                            }
                        }
                    }
                }
                t += 1;
            }
            proof {
                assert(members.take(n as int) =~= members);
                assert forall|k: KindView| #[trigger]
                    held(buckets@, k) == marked(segs, j + 1, k) by {
                    lemma_marked_step(segs, j as int, k);
                    assert(members.to_set().contains(k) <==> members.contains(k));
                    assert(segs[j as int].kind == segment.kind@);
                }
            }
            offset += length;
            j += 1;
        }
        let mut out: Vec<MessageEntity> = Vec::new();
        let mut b: usize = 0;
        proof {
            assert(segs.take(segs.len() as int) =~= segs);
            assert forall|k: KindView, p: int| !covers(entity_views(out@), k, p) by {}
        }
        while b < buckets.len()
            invariant
                b <= buckets.len(),
                sorted_buckets(buckets@),
                offset == utf16_len(flatten(segs)),
                forall|k: KindView| #[trigger]
                    held(buckets@, k) == marked(segs, segs.len() as int, k),
                emitted(entity_views(out@), buckets@, b as int),
            decreases buckets.len() - b,
        {
            let ghost before = entity_views(out@);
            proof {
                assert forall|p: int| covered(buckets@[b as int].set).contains(p) implies 0 <= p
                    < offset by {
                    let k = buckets@[b as int].kind@;
                    assert(held(buckets@, k).contains(p));
                    assert(marked(segs, segs.len() as int, k).contains(p));
                    lemma_marked_bound(segs, segs.len() as int, k, p);
                }
            }
            emit_runs(&mut out, &buckets[b].kind, &buckets[b].set, offset);
            proof {
                lemma_emitted_next(before, entity_views(out@), buckets@, b as int);
            }
            b += 1;
        }
        proof {
            let es = entity_views(out@);
            assert forall|k: KindView, p: int| #[trigger]
                covers(es, k, p) <==> kind_at(segs, k, p) by {
                assert(held(buckets@, k) == marked(segs, segs.len() as int, k));
                if covers(es, k, p) {
                    let x = choose|x: int|
                        0 <= x < b && (#[trigger] buckets@[x]).kind@ == k && covered(
                            buckets@[x].set,
                        ).contains(p);
                    assert(held(buckets@, k).contains(p));
                    assert(marked(segs, segs.len() as int, k).contains(p));
                    let i = choose|i: int|
                        0 <= i < segs.len() && i < segs.len() && (#[trigger] segs[i]).kind.contains(
                            k,
                        ) && run_start(segs, i) <= p < run_start(segs, i + 1);
                    assert(kind_at(segs, k, p));
                }
                if kind_at(segs, k, p) {
                    let i = choose|i: int|
                        0 <= i < segs.len() && (#[trigger] segs[i]).kind.contains(k) && run_start(
                            segs,
                            i,
                        ) <= p < run_start(segs, i + 1);
                    assert(marked(segs, segs.len() as int, k).contains(p));
                    assert(held(buckets@, k).contains(p));
                }
            }
        }
        out
    }
}

/// The runs up to and including run `j` hold no more code units than all
/// the runs.
proof fn lemma_run_start_total(segs: Seq<SegmentView>, j: int)
    requires
        0 <= j < segs.len(),
    ensures
        run_start(segs, j) + utf16_len(segs[j].text) <= utf16_len(flatten(segs)),
{
    lemma_run_start(segs, j);
    lemma_run_start_bound(segs, j + 1);
}

impl Segments {
    /// Whether the runs hold no more code units than a `usize` counts, so
    /// that `entities` can measure them.
    pub fn encodable(&self) -> (r: bool)
        ensures
            r == (utf16_len(flatten(self@)) <= usize::MAX),
    {
        let ghost segs = self@;
        let mut offset: usize = 0;
        let mut j: usize = 0;
        proof {
            assert(segs.take(0) =~= Seq::<SegmentView>::empty());
        }
        while j < self.len()
            invariant
                j <= segs.len(),
                segs == self@,
                offset == run_start(segs, j as int),
            decreases segs.len() - j,
        {
            let length = encode_utf16(self.get(j).text.as_str()).len();
            proof {
                lemma_units_len(segs[j as int].text);
                lemma_run_start(segs, j as int);
                lemma_run_start_total(segs, j as int);
            }
            match offset.checked_add(length) {
                Some(next) => {
                    offset = next;
                },
                None => {
                    return false;
                },
            }
            j += 1;
        }
        proof {
            assert(segs.take(segs.len() as int) =~= segs);
        }
        true
    }
}

} // verus!
