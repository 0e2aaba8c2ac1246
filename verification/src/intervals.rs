//! Sets of code-unit positions, kept as merged runs by `ranges::Ranges`.

use ranges::Ranges;
use std::ops::RangeBounds;
use vstd::prelude::*;

verus! {

/// One end of a run of positions.
#[derive(Debug)]
pub enum Bound<T> {
    Included(T),
    Excluded(T),
    Unbounded,
}

impl<T> Bound<T> {
    /// The same bound, over a reference to what it holds.
    pub fn as_ref(&self) -> (r: Bound<&T>)
        ensures
            r == match *self {
                Bound::Included(v) => Bound::Included(&v),
                Bound::Excluded(v) => Bound::Excluded(&v),
                Bound::Unbounded => Bound::Unbounded,
            },
    {
        match self {
            Bound::Included(v) => Bound::Included(v),
            Bound::Excluded(v) => Bound::Excluded(v),
            Bound::Unbounded => Bound::Unbounded,
        }
    }
}

/// A set of code-unit positions, held by a `ranges::Ranges<usize>`. The
/// verifier does not look inside; [`covered`] names what the set holds, and
/// what is said of it below is assumed of `ranges`, not proved.
#[verifier::external_body]
pub struct PositionSet {
    inner: Ranges<usize>,
}

/// The positions that a set holds: those of the ranges that were inserted.
pub uninterp spec fn covered(set: PositionSet) -> Set<int>;

/// First position of a run that starts at `b`.
pub open spec fn lower_of(b: Bound<usize>) -> int {
    match b {
        Bound::Included(v) => v as int,
        Bound::Excluded(v) => v + 1,
        Bound::Unbounded => 0,
    }
}

/// First position after a run that ends at `b`.
pub open spec fn upper_of(b: Bound<usize>) -> int {
    match b {
        Bound::Included(v) => v + 1,
        Bound::Excluded(v) => v as int,
        Bound::Unbounded => usize::MAX + 1,
    }
}

/// The positions from `start` up to, not including, `end`.
pub open spec fn span(start: int, end: int) -> Set<int> {
    Set::new(|p: int| start <= p < end)
}

/// `runs` lists the maximal runs of `set` in ascending order: each run is
/// non-empty, a gap separates each from the next, and together they hold
/// exactly the positions of `set`.
pub open spec fn runs_of(runs: Seq<(Bound<usize>, Bound<usize>)>, set: Set<int>) -> bool {
    &&& forall|i: int|
        0 <= i < runs.len() ==> lower_of((#[trigger] runs[i]).0) < upper_of(runs[i].1)
    &&& forall|i: int, j: int|
        0 <= i < j < runs.len() ==> upper_of((#[trigger] runs[i]).1) < lower_of((#[trigger] runs[j]).0)
    &&& forall|p: int|
        set.contains(p) <==> exists|i: int|
            0 <= i < runs.len() && lower_of((#[trigger] runs[i]).0) <= p < upper_of(runs[i].1)
}

/// `Ranges::new`. Assumed: the new set holds no position.
#[verifier::external_body]
pub(crate) fn ranges_new() -> (set: PositionSet)
    ensures
        covered(set) == Set::<int>::empty(),
{
    PositionSet { inner: Ranges::new() }
}

/// `Ranges::insert` with the half-open range `start..end`. Assumed: the
/// positions from `start` up to, not including, `end` are added to those
/// already held, and no others. A range that ends before it starts is not
/// admitted: the constructor of the range would panic on it.
#[verifier::external_body]
pub(crate) fn ranges_insert(set: &mut PositionSet, start: usize, end: usize)
    requires
        start <= end,
    ensures
        covered(*final(set)) == covered(*old(set)).union(span(start as int, end as int)),
{
    let _ = set.inner.insert(start..end);
}

/// `Ranges::as_slice`, each stored range handed out by its two bounds.
/// Assumed: the set keeps its ranges non-empty, in ascending order, and
/// merged wherever two of them overlap or touch, so that a gap lies between
/// each two; together they hold the positions of the set.
#[verifier::external_body]
pub(crate) fn ranges_runs(set: &PositionSet) -> (runs: Vec<(Bound<usize>, Bound<usize>)>)
    ensures
        runs_of(runs@, covered(*set)),
{
    let mut runs = Vec::new();
    for g in set.inner.as_slice() {
        let lo = match g.start_bound() {
            std::ops::Bound::Included(v) => Bound::Included(*v),
            std::ops::Bound::Excluded(v) => Bound::Excluded(*v),
            std::ops::Bound::Unbounded => Bound::Unbounded,
        };
        let hi = match g.end_bound() {
            std::ops::Bound::Included(v) => Bound::Included(*v),
            std::ops::Bound::Excluded(v) => Bound::Excluded(*v),
            std::ops::Bound::Unbounded => Bound::Unbounded,
        };
        runs.push((lo, hi));
    }
    runs
}

} // verus!
