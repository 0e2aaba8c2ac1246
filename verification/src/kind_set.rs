//! A finite set of formatting kinds.

use crate::kind::{kind_order, lemma_kind_order, FormatKind, KindView};
use vstd::prelude::*;

verus! {

/// The kinds of a sequence, each by its value.
pub open spec fn kind_views(items: Seq<FormatKind>) -> Seq<KindView> {
    items.map_values(|k: FormatKind| k@)
}

/// Each kind comes strictly before those that follow it.
pub open spec fn ascending(kinds: Seq<KindView>) -> bool {
    forall|i: int, j: int| 0 <= i < j < kinds.len() ==> kind_order(kinds[i], kinds[j]) < 0
}

/// A set of formatting kinds, kept in ascending order without repetition, so
/// that two sets with the same members are equal field by field.
#[derive(Debug, PartialEq, Eq)]
pub struct KindSet {
    items: Vec<FormatKind>,
}

impl View for KindSet {
    type V = Set<KindView>;

    closed spec fn view(&self) -> Set<KindView> {
        kind_views(self.items@).to_set()
    }
}

impl Clone for KindSet {
    fn clone(&self) -> (r: Self)
        ensures
            r@ == self@,
            r.members() == self.members(),
    {
        proof {
            use_type_invariant(self);
        }
        let mut items: Vec<FormatKind> = Vec::new();
        let mut i: usize = 0;
        while i < self.items.len()
            invariant
                i <= self.items.len(),
                items@ == self.items@.take(i as int),
            decreases self.items.len() - i,
        {
            items.push(self.items[i].clone());
            proof {
                assert(self.items@.take(i as int).push(self.items@[i as int]) == self.items@.take(
                    i + 1,
                ));
            }
            i += 1;
        }
        proof {
            assert(self.items@.take(self.items.len() as int) == self.items@);
        }
        KindSet { items }
    }
}

impl KindSet {
    #[verifier::type_invariant]
    spec fn well_formed(self) -> bool {
        ascending(kind_views(self.items@))
    }

    /// The members in ascending order.
    pub closed spec fn members(&self) -> Seq<KindView> {
        kind_views(self.items@)
    }

    /// The empty set.
    pub fn new() -> (r: Self)
        ensures
            r@ == Set::<KindView>::empty(),
            r.members() == Seq::<KindView>::empty(),
    {
        let r = KindSet { items: Vec::new() };
        proof {
            assert(kind_views(r.items@) =~= Seq::<KindView>::empty());
            assert(kind_views(r.items@).to_set() =~= Set::<KindView>::empty());
        }
        r
    }

    /// Number of members. The set is finite, and its members are listed in
    /// ascending order.
    pub fn len(&self) -> (n: usize)
        ensures
            n == self.members().len(),
            n == self@.len(),
            self@.finite(),
            ascending(self.members()),
            self.members().to_set() == self@,
    {
        proof {
            use_type_invariant(self);
            lemma_ascending_no_duplicates(kind_views(self.items@));
            kind_views(self.items@).unique_seq_to_set();
            vstd::seq_lib::seq_to_set_is_finite(kind_views(self.items@));
        }
        self.items.len()
    }

    /// Whether the set has no member.
    pub fn is_empty(&self) -> (r: bool)
        ensures
            r == (self@ == Set::<KindView>::empty()),
            r == (self.members().len() == 0),
    {
        proof {
            let v = kind_views(self.items@);
            if v.len() > 0 {
                assert(v.to_set().contains(v[0]));
            } else {
                assert(v.to_set() =~= Set::<KindView>::empty());
            }
        }
        self.items.len() == 0
    }

    /// The member at place `i` of the ascending order.
    pub fn get(&self, i: usize) -> (k: &FormatKind)
        requires
            i < self.members().len(),
        ensures
            k@ == self.members()[i as int],
    {
        &self.items[i]
    }

    /// Whether `kind` is a member.
    pub fn contains(&self, kind: &FormatKind) -> (r: bool)
        ensures
            r == self@.contains(kind@),
    {
        let mut i: usize = 0;
        while i < self.items.len()
            invariant
                i <= self.items.len(),
                forall|j: int| 0 <= j < i ==> kind_views(self.items@)[j] != kind@,
            decreases self.items.len() - i,
        {
            if self.items[i].same(kind) {
                proof {
                    assert(kind_views(self.items@)[i as int] == kind@);
                }
                return true;
            }
            i += 1;
        }
        false
    }

    /// Adds `kind` to the set.
    pub fn insert(&mut self, kind: FormatKind)
        ensures
            final(self)@ == old(self)@.insert(kind@),
    {
        proof {
            use_type_invariant(&*self);
        }
        let ghost before = kind_views(self.items@);
        let mut i: usize = 0;
        while i < self.items.len() && self.items[i].order(&kind) < 0
            invariant
                i <= self.items.len(),
                before == kind_views(self.items@),
                self.items == old(self).items,
                forall|j: int| 0 <= j < i ==> kind_order(before[j], kind@) < 0,
            decreases self.items.len() - i,
        {
            i += 1;
        }
        if i < self.items.len() {
            proof {
                lemma_kind_order(before[i as int], kind@, kind@);
            }
            if self.items[i].same(&kind) {
                proof {
                    assert(before.to_set().contains(before[i as int]));
                    assert(before.to_set().insert(kind@) =~= before.to_set());
                }
                return ;
            }
        }
        let mut items: Vec<FormatKind> = Vec::new();
        core::mem::swap(&mut items, &mut self.items);
        items.insert(i, kind);
        proof {
            let after = kind_views(items@);
            assert(after =~= before.insert(i as int, kind@));
            assert forall|a: int, b: int| 0 <= a < b < after.len() implies kind_order(
                after[a],
                after[b],
            ) < 0 by {
                if a == i {
                    lemma_kind_order(before[i as int], kind@, before[b - 1]);
                    lemma_kind_order(kind@, before[i as int], before[b - 1]);
                } else if b == i {
                } else {
                    let x = if a < i { a } else { a - 1 };
                    let y = if b < i { b } else { b - 1 };
                    assert(kind_order(before[x], before[y]) < 0);
                }
            }
            assert(after.to_set() =~= before.to_set().insert(kind@)) by {
                assert forall|k: KindView| after.to_set().contains(k) implies before.to_set().insert(
                    kind@,
                ).contains(k) by {
                    let p = choose|p: int| 0 <= p < after.len() && after[p] == k;
                    if p < i {
                        assert(before[p] == k);
                    } else if p > i {
                        assert(before[p - 1] == k);
                    }
                }
                assert forall|k: KindView| before.to_set().insert(kind@).contains(k) implies after.to_set().contains(
                    k,
                ) by {
                    if k == kind@ {
                        assert(after[i as int] == k);
                    } else {
                        let p = choose|p: int| 0 <= p < before.len() && before[p] == k;
                        if p < i {
                            assert(after[p] == k);
                        } else {
                            assert(after[p + 1] == k);
                        }
                    }
                }
            }
        }
        self.items = items;
    }

    /// The set of the kinds that are in `self` or in `other`.
    pub fn union(&self, other: &KindSet) -> (r: KindSet)
        ensures
            r@ == self@.union(other@),
    {
        let mut r = self.clone();
        let mut i: usize = 0;
        while i < other.items.len()
            invariant
                i <= other.items.len(),
                r@ == self@.union(kind_views(other.items@).take(i as int).to_set()),
            decreases other.items.len() - i,
        {
            let ghost seen = kind_views(other.items@).take(i as int);
            r.insert(other.items[i].clone());
            proof {
                let next = kind_views(other.items@).take(i + 1);
                assert(next =~= seen.push(other.items@[i as int]@));
                assert(next.to_set() =~= seen.to_set().insert(other.items@[i as int]@)) by {
                    assert forall|k: KindView| next.to_set().contains(k) implies seen.to_set().insert(
                        other.items@[i as int]@,
                    ).contains(k) by {
                        let p = choose|p: int| 0 <= p < next.len() && next[p] == k;
                        if p < i {
                            assert(seen[p] == k);
                        }
                    }
                    assert forall|k: KindView|
                        seen.to_set().insert(other.items@[i as int]@).contains(
                            k,
                        ) implies next.to_set().contains(k) by {
                        if k == other.items@[i as int]@ {
                            assert(next[i as int] == k);
                        } else {
                            let p = choose|p: int| 0 <= p < seen.len() && seen[p] == k;
                            assert(next[p] == k);
                        }
                    }
                }
                assert(self@.union(seen.to_set()).insert(other.items@[i as int]@) =~= self@.union(
                    next.to_set(),
                ));
            }
            i += 1;
        }
        proof {
            assert(kind_views(other.items@).take(other.items.len() as int) == kind_views(
                other.items@,
            ));
        }
        r
    }
}

/// In an ascending sequence no kind occurs twice.
pub proof fn lemma_ascending_no_duplicates(kinds: Seq<KindView>)
    requires
        ascending(kinds),
    ensures
        kinds.no_duplicates(),
{
    assert forall|i: int, j: int| 0 <= i < kinds.len() && 0 <= j < kinds.len() && i != j implies kinds[i]
        != kinds[j] by {
        lemma_kind_order(kinds[i], kinds[j], kinds[i]);
        if i < j {
            assert(kind_order(kinds[i], kinds[j]) < 0);
        } else {
            assert(kind_order(kinds[j], kinds[i]) < 0);
        }
    }
}

} // verus!
