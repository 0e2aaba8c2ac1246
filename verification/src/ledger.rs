//! The reply ledger as a mathematical value.
//!
//! Each of the two maps of the ledger is a list of entries from the least
//! to the most recently used, in which no key stands twice. This module
//! says what each operation makes of such lists, and proves that the two
//! maps stay mirror images of each other.

use crate::user::UserView;
use vstd::prelude::*;

verus! {

/// Mathematical value of the identity of a message.
pub struct MetaView {
    pub chat_id: i64,
    pub message_id: i32,
    pub sender: UserView,
}

/// Place of the entry with key `k`, or the length of the list without one.
pub open spec fn index_of(e: Seq<(MetaView, MetaView)>, k: MetaView) -> int
    decreases e.len(),
{
    if e.len() == 0 {
        0
    } else if e[0].0 == k {
        0
    } else {
        1 + index_of(e.skip(1), k)
    }
}

pub open spec fn has_key(e: Seq<(MetaView, MetaView)>, k: MetaView) -> bool {
    index_of(e, k) < e.len()
}

/// The value under key `k`.
pub open spec fn lookup(e: Seq<(MetaView, MetaView)>, k: MetaView) -> Option<MetaView> {
    if has_key(e, k) {
        Some(e[index_of(e, k)].1)
    } else {
        None
    }
}

/// The list without the entry of key `k`.
pub open spec fn without(e: Seq<(MetaView, MetaView)>, k: MetaView) -> Seq<(MetaView, MetaView)> {
    if has_key(e, k) {
        e.remove(index_of(e, k))
    } else {
        e
    }
}

/// The list after the entry of key `k`, if there is one, was used: it
/// becomes the most recently used.
pub open spec fn refreshed(e: Seq<(MetaView, MetaView)>, k: MetaView) -> Seq<(MetaView, MetaView)> {
    if has_key(e, k) {
        e.remove(index_of(e, k)).push(e[index_of(e, k)])
    } else {
        e
    }
}

/// The list after `k` was set to `v` in a map that holds at most `limit`
/// entries: the entry becomes the most recently used, and the least
/// recently used one leaves where there are too many.
pub open spec fn inserted(e: Seq<(MetaView, MetaView)>, k: MetaView, v: MetaView, limit: nat) -> Seq<
    (MetaView, MetaView),
> {
    let grown = without(e, k).push((k, v));
    if grown.len() > limit {
        grown.drop_first()
    } else {
        grown
    }
}

/// No key stands twice.
pub open spec fn distinct(e: Seq<(MetaView, MetaView)>) -> bool {
    forall|i: int, j: int| 0 <= i < e.len() && 0 <= j < e.len() && i != j ==> e[i].0 != e[j].0
}

/// Whether the list maps `k` to `v`.
pub open spec fn pair_in(e: Seq<(MetaView, MetaView)>, k: MetaView, v: MetaView) -> bool {
    exists|i: int| 0 <= i < e.len() && e[i] == (k, v)
}

/// Each list maps `k` to `v` exactly where the other maps `v` to `k`.
pub open spec fn mirror(f: Seq<(MetaView, MetaView)>, r: Seq<(MetaView, MetaView)>) -> bool {
    forall|k: MetaView, v: MetaView| pair_in(f, k, v) <==> pair_in(r, v, k)
}

/// `index_of` is the first place of the key.
pub proof fn lemma_index_of(e: Seq<(MetaView, MetaView)>, k: MetaView)
    ensures
        0 <= index_of(e, k) <= e.len(),
        has_key(e, k) ==> e[index_of(e, k)].0 == k,
        forall|i: int| 0 <= i < index_of(e, k) ==> e[i].0 != k,
    decreases e.len(),
{
    if e.len() > 0 && e[0].0 != k {
        lemma_index_of(e.skip(1), k);
        assert forall|i: int| 0 <= i < index_of(e, k) implies e[i].0 != k by {
            if i > 0 {
                assert(e.skip(1)[i - 1] == e[i]);
            }
        }
    }
}

/// In a list without a repeated key, the key decides the entry.
pub proof fn lemma_lookup(e: Seq<(MetaView, MetaView)>, k: MetaView, v: MetaView)
    requires
        distinct(e),
    ensures
        pair_in(e, k, v) <==> lookup(e, k) == Some(v),
        has_key(e, k) <==> exists|i: int| 0 <= i < e.len() && e[i].0 == k,
{
    lemma_index_of(e, k);
    if pair_in(e, k, v) {
        let i = choose|i: int| 0 <= i < e.len() && e[i] == (k, v);
        assert(e[i].0 == k);
        if index_of(e, k) > i {
            assert(false);
        }
    }
    if lookup(e, k) == Some(v) {
        assert(e[index_of(e, k)] == (k, v));
    }
    if exists|i: int| 0 <= i < e.len() && e[i].0 == k {
        let i = choose|i: int| 0 <= i < e.len() && e[i].0 == k;
        if index_of(e, k) > i {
            assert(false);
        }
    }
}

/// Taking a key out leaves the other entries, in their order.
pub proof fn lemma_without(e: Seq<(MetaView, MetaView)>, k: MetaView)
    requires
        distinct(e),
    ensures
        distinct(without(e, k)),
        !has_key(without(e, k), k),
        without(e, k).len() == e.len() - if has_key(e, k) { 1int } else { 0int },
        forall|x: MetaView, y: MetaView|
            #![trigger pair_in(without(e, k), x, y)]
            #![trigger pair_in(e, x, y)]
            pair_in(without(e, k), x, y) <==> pair_in(e, x, y) && x != k,
{
    lemma_index_of(e, k);
    let w = without(e, k);
    let p = index_of(e, k);
    if has_key(e, k) {
        assert forall|i: int, j: int| 0 <= i < w.len() && 0 <= j < w.len() && i != j implies w[i].0
            != w[j].0 by {
            let a = if i < p { i } else { i + 1 };
            let b = if j < p { j } else { j + 1 };
            assert(w[i] == e[a] && w[j] == e[b]);
        }
        assert forall|x: MetaView, y: MetaView|
            pair_in(w, x, y) <==> pair_in(e, x, y) && x != k by {
            if pair_in(w, x, y) {
                let i = choose|i: int| 0 <= i < w.len() && w[i] == (x, y);
                let a = if i < p { i } else { i + 1 };
                assert(e[a] == (x, y));
                assert(e[a].0 != e[p].0);
            }
            if pair_in(e, x, y) && x != k {
                let a = choose|a: int| 0 <= a < e.len() && e[a] == (x, y);
                let i = if a < p { a } else { a - 1 };
                assert(w[i] == (x, y));
            }
        }
    } else {
        assert forall|x: MetaView, y: MetaView|
            pair_in(w, x, y) <==> pair_in(e, x, y) && x != k by {
            if pair_in(e, x, y) {
                let a = choose|a: int| 0 <= a < e.len() && e[a] == (x, y);
                assert(e[a].0 == x);
            }
        }
    }
    lemma_lookup(w, k, k);
    if has_key(w, k) {
        let i = choose|i: int| 0 <= i < w.len() && w[i].0 == k;
        assert(pair_in(w, k, w[i].1));
    }
}

/// Putting an entry with a new key at the end adds that entry.
pub proof fn lemma_push(e: Seq<(MetaView, MetaView)>, k: MetaView, v: MetaView)
    requires
        distinct(e),
        !has_key(e, k),
    ensures
        distinct(e.push((k, v))),
        forall|x: MetaView, y: MetaView|
            #![trigger pair_in(e.push((k, v)), x, y)]
            #![trigger pair_in(e, x, y)]
            pair_in(e.push((k, v)), x, y) <==> pair_in(e, x, y) || (x == k && y == v),
{
    let g = e.push((k, v));
    lemma_lookup(e, k, v);
    assert forall|i: int, j: int| 0 <= i < g.len() && 0 <= j < g.len() && i != j implies g[i].0
        != g[j].0 by {
        if i < e.len() && j < e.len() {
            assert(g[i] == e[i] && g[j] == e[j]);
        } else if i < e.len() {
            assert(e[i].0 != k);
        } else {
            assert(e[j].0 != k);
        }
    }
    assert forall|x: MetaView, y: MetaView|
        pair_in(g, x, y) <==> pair_in(e, x, y) || (x == k && y == v) by {
        if pair_in(g, x, y) {
            let i = choose|i: int| 0 <= i < g.len() && g[i] == (x, y);
            if i < e.len() {
                assert(e[i] == (x, y));
            }
        }
        if pair_in(e, x, y) {
            let i = choose|i: int| 0 <= i < e.len() && e[i] == (x, y);
            assert(g[i] == (x, y));
        }
        if x == k && y == v {
            assert(g[e.len() as int] == (x, y));
        }
    }
}

/// Taking the first entry out leaves the others.
pub proof fn lemma_drop_first(e: Seq<(MetaView, MetaView)>)
    requires
        distinct(e),
        e.len() > 0,
    ensures
        e.drop_first() == without(e, e[0].0),
{
    assert(index_of(e, e[0].0) == 0);
    assert(e.drop_first() =~= e.remove(0));
}

/// Using an entry keeps what the list maps.
pub proof fn lemma_refreshed(e: Seq<(MetaView, MetaView)>, k: MetaView)
    requires
        distinct(e),
    ensures
        distinct(refreshed(e, k)),
        refreshed(e, k).len() == e.len(),
        forall|x: MetaView, y: MetaView|
            #![trigger pair_in(refreshed(e, k), x, y)]
            #![trigger pair_in(e, x, y)]
            pair_in(refreshed(e, k), x, y) <==> pair_in(e, x, y),
        forall|x: MetaView| #[trigger] lookup(refreshed(e, k), x) == lookup(e, x),
{
    lemma_index_of(e, k);
    if has_key(e, k) {
        let p = index_of(e, k);
        let v = e[p].1;
        lemma_without(e, k);
        lemma_push(without(e, k), k, v);
        assert(e[p] == (k, v));
        assert forall|x: MetaView, y: MetaView| pair_in(refreshed(e, k), x, y) <==> pair_in(
            e,
            x,
            y,
        ) by {
            if x == k && y == v {
                assert(pair_in(e, x, y));
            }
            if pair_in(e, x, y) && x == k {
                lemma_lookup(e, k, y);
            }
        }
    }
    assert forall|x: MetaView| lookup(refreshed(e, k), x) == lookup(e, x) by {
        match lookup(e, x) {
            Some(y) => {
                lemma_lookup(e, x, y);
                lemma_lookup(refreshed(e, k), x, y);
            },
            None => {
                match lookup(refreshed(e, k), x) {
                    Some(y) => {
                        lemma_lookup(e, x, y);
                        lemma_lookup(refreshed(e, k), x, y);
                    },
                    None => {},
                }
            },
        }
    }
}

/// Mathematical value of the reply ledger: for each message the reply to
/// it, and for each reply the message it answers, both from the least to the
/// most recently used, and the number of entries that each may hold.
pub struct LedgerView {
    pub forward: Seq<(MetaView, MetaView)>,
    pub reverse: Seq<(MetaView, MetaView)>,
    pub capacity: nat,
}

impl LedgerView {
    /// The two maps are mirror images within their capacity, and neither
    /// holds a key twice.
    pub open spec fn wf(self) -> bool {
        &&& distinct(self.forward)
        &&& distinct(self.reverse)
        &&& self.forward.len() == self.reverse.len()
        &&& self.forward.len() <= self.capacity
        &&& mirror(self.forward, self.reverse)
    }

    /// The ledger without the message `k` and the reply to it.
    pub open spec fn forgotten(self, k: MetaView) -> LedgerView {
        match lookup(self.forward, k) {
            Some(v) => LedgerView {
                forward: without(self.forward, k),
                reverse: without(self.reverse, v),
                capacity: self.capacity,
            },
            None => self,
        }
    }

    /// The ledger without the reply `v` and the message that it answers.
    pub open spec fn unanswered(self, v: MetaView) -> LedgerView {
        match lookup(self.reverse, v) {
            Some(k) => LedgerView {
                forward: without(self.forward, k),
                reverse: without(self.reverse, v),
                capacity: self.capacity,
            },
            None => self,
        }
    }

    /// The ledger with room for one more pair: where it is full, the pair
    /// whose message was used least recently leaves both maps.
    pub open spec fn with_room(self) -> LedgerView {
        if self.forward.len() > 0 && self.forward.len() >= self.capacity {
            LedgerView {
                forward: self.forward.drop_first(),
                reverse: without(self.reverse, self.forward[0].1),
                capacity: self.capacity,
            }
        } else {
            self
        }
    }

    /// The ledger after `b` was booked as the reply to `a`: what either had
    /// to do with another message leaves, room is made, and the pair enters
    /// both maps as the most recently used.
    pub open spec fn booked(self, a: MetaView, b: MetaView) -> LedgerView {
        let cleared = self.forgotten(a).unanswered(b).with_room();
        LedgerView {
            forward: inserted(cleared.forward, a, b, self.capacity),
            reverse: inserted(cleared.reverse, b, a, self.capacity),
            capacity: self.capacity,
        }
    }

    /// The ledger after the reply to `k` was asked for.
    pub open spec fn forward_used(self, k: MetaView) -> LedgerView {
        LedgerView {
            forward: refreshed(self.forward, k),
            reverse: self.reverse,
            capacity: self.capacity,
        }
    }

    /// The ledger after the message that `v` answers was asked for.
    pub open spec fn reverse_used(self, v: MetaView) -> LedgerView {
        LedgerView {
            forward: self.forward,
            reverse: refreshed(self.reverse, v),
            capacity: self.capacity,
        }
    }
}

/// An empty ledger is well formed.
pub proof fn lemma_empty_wf(capacity: nat)
    ensures
        (LedgerView { forward: Seq::empty(), reverse: Seq::empty(), capacity }).wf(),
{
}

/// Asking for a reply keeps the ledger well formed.
pub proof fn lemma_used_wf(l: LedgerView, k: MetaView)
    requires
        l.wf(),
    ensures
        l.forward_used(k).wf(),
        l.reverse_used(k).wf(),
{
    lemma_refreshed(l.forward, k);
    lemma_refreshed(l.reverse, k);
}

/// Taking a matching pair out of both maps keeps the ledger well formed.
proof fn lemma_unpaired_wf(l: LedgerView, k: MetaView, v: MetaView)
    requires
        l.wf(),
        pair_in(l.forward, k, v),
    ensures
        (LedgerView {
            forward: without(l.forward, k),
            reverse: without(l.reverse, v),
            capacity: l.capacity,
        }).wf(),
        has_key(l.forward, k),
        has_key(l.reverse, v),
{
    lemma_without(l.forward, k);
    lemma_without(l.reverse, v);
    lemma_lookup(l.forward, k, v);
    assert(pair_in(l.reverse, v, k));
    lemma_lookup(l.reverse, v, k);
    let f = without(l.forward, k);
    let r = without(l.reverse, v);
    assert forall|x: MetaView, y: MetaView| pair_in(f, x, y) <==> pair_in(r, y, x) by {
        if pair_in(l.forward, x, y) {
            assert(pair_in(l.reverse, y, x));
            if x == k {
                lemma_lookup(l.forward, k, y);
            }
            if y == v {
                lemma_lookup(l.reverse, v, x);
            }
        }
        if pair_in(l.reverse, y, x) {
            assert(pair_in(l.forward, x, y));
        }
    }
}

/// Forgetting a message keeps the ledger well formed.
pub proof fn lemma_forgotten_wf(l: LedgerView, k: MetaView)
    requires
        l.wf(),
    ensures
        l.forgotten(k).wf(),
        !has_key(l.forgotten(k).forward, k),
        l.forgotten(k).capacity == l.capacity,
{
    lemma_without(l.forward, k);
    match lookup(l.forward, k) {
        Some(v) => {
            lemma_lookup(l.forward, k, v);
            lemma_unpaired_wf(l, k, v);
        },
        None => {},
    }
}

/// Dropping a reply keeps the ledger well formed.
pub proof fn lemma_unanswered_wf(l: LedgerView, v: MetaView)
    requires
        l.wf(),
    ensures
        l.unanswered(v).wf(),
        !has_key(l.unanswered(v).reverse, v),
        l.unanswered(v).capacity == l.capacity,
        forall|k: MetaView| !has_key(l.forward, k) ==> !has_key(l.unanswered(v).forward, k),
{
    lemma_without(l.reverse, v);
    match lookup(l.reverse, v) {
        Some(k) => {
            lemma_lookup(l.reverse, v, k);
            assert(pair_in(l.forward, k, v));
            lemma_unpaired_wf(l, k, v);
            assert forall|x: MetaView| !has_key(l.forward, x) implies !has_key(
                without(l.forward, k),
                x,
            ) by {
                lemma_absent_stays(l.forward, k, x);
            }
        },
        None => {},
    }
}

/// A key that a list does not hold is not held once another key is taken
/// out.
pub proof fn lemma_absent_stays(e: Seq<(MetaView, MetaView)>, k: MetaView, x: MetaView)
    requires
        distinct(e),
        !has_key(e, x),
    ensures
        !has_key(without(e, k), x),
{
    lemma_without(e, k);
    lemma_lookup(e, x, x);
    lemma_lookup(without(e, k), x, x);
    if has_key(without(e, k), x) {
        let i = choose|i: int| 0 <= i < without(e, k).len() && without(e, k)[i].0 == x;
        assert(pair_in(without(e, k), x, without(e, k)[i].1));
        assert(pair_in(e, x, without(e, k)[i].1));
        let j = choose|j: int| 0 <= j < e.len() && e[j] == (x, without(e, k)[i].1);
        assert(e[j].0 == x);
    }
}

/// Making room keeps the ledger well formed and leaves room.
pub proof fn lemma_with_room_wf(l: LedgerView)
    requires
        l.wf(),
    ensures
        l.with_room().wf(),
        l.with_room().capacity == l.capacity,
        l.capacity > 0 ==> l.with_room().forward.len() < l.capacity,
        forall|k: MetaView| !has_key(l.forward, k) ==> !has_key(l.with_room().forward, k),
        forall|v: MetaView| !has_key(l.reverse, v) ==> !has_key(l.with_room().reverse, v),
{
    if l.forward.len() > 0 && l.forward.len() >= l.capacity {
        let k = l.forward[0].0;
        let v = l.forward[0].1;
        lemma_drop_first(l.forward);
        assert(l.forward[0] == (k, v));
        assert(pair_in(l.forward, k, v));
        lemma_unpaired_wf(l, k, v);
        lemma_without(l.forward, k);
        assert forall|x: MetaView| !has_key(l.forward, x) implies !has_key(
            l.with_room().forward,
            x,
        ) by {
            lemma_absent_stays(l.forward, k, x);
        }
        assert forall|y: MetaView| !has_key(l.reverse, y) implies !has_key(
            l.with_room().reverse,
            y,
        ) by {
            lemma_absent_stays(l.reverse, v, y);
        }
    }
}

/// Booking a reply keeps the ledger well formed.
pub proof fn lemma_booked_wf(l: LedgerView, a: MetaView, b: MetaView)
    requires
        l.wf(),
    ensures
        l.booked(a, b).wf(),
        l.capacity > 0 ==> l.booked(a, b).forward == l.forgotten(a).unanswered(b).with_room().forward.push(
            (a, b),
        ),
        l.capacity > 0 ==> l.booked(a, b).reverse == l.forgotten(a).unanswered(b).with_room().reverse.push(
            (b, a),
        ),
        l.capacity == 0 ==> l.booked(a, b).forward.len() == 0 && l.booked(a, b).reverse.len() == 0,
{
    let s1 = l.forgotten(a);
    lemma_forgotten_wf(l, a);
    let s2 = s1.unanswered(b);
    lemma_unanswered_wf(s1, b);
    let s3 = s2.with_room();
    lemma_with_room_wf(s2);
    assert(!has_key(s3.forward, a));
    assert(!has_key(s3.reverse, b));
    assert(without(s3.forward, a) == s3.forward);
    assert(without(s3.reverse, b) == s3.reverse);
    lemma_push(s3.forward, a, b);
    lemma_push(s3.reverse, b, a);
    let f = s3.forward.push((a, b));
    let r = s3.reverse.push((b, a));
    if l.capacity > 0 {
        assert(l.booked(a, b).forward == f);
        assert(l.booked(a, b).reverse == r);
        assert forall|x: MetaView, y: MetaView| pair_in(f, x, y) <==> pair_in(r, y, x) by {
            if pair_in(s3.forward, x, y) {
                assert(pair_in(s3.reverse, y, x));
            }
            if pair_in(s3.reverse, y, x) {
                assert(pair_in(s3.forward, x, y));
            }
        }
    } else {
        assert(s3.forward.len() == 0);
        assert(f.drop_first() =~= Seq::<(MetaView, MetaView)>::empty());
        assert(r.drop_first() =~= Seq::<(MetaView, MetaView)>::empty());
    }
}

/// After a reply was booked to a message, the ledger gives the reply for the
/// message and the message for the reply, unless it can hold nothing.
pub proof fn law_book_then_lookup(l: LedgerView, a: MetaView, b: MetaView)
    requires
        l.wf(),
        l.capacity > 0,
    ensures
        lookup(l.booked(a, b).forward, a) == Some(b),
        lookup(l.booked(a, b).reverse, b) == Some(a),
{
    lemma_booked_wf(l, a, b);
    let n = l.booked(a, b);
    let s3 = l.forgotten(a).unanswered(b).with_room();
    assert(n.forward[s3.forward.len() as int] == (a, b));
    assert(pair_in(n.forward, a, b));
    lemma_lookup(n.forward, a, b);
    assert(n.reverse[s3.reverse.len() as int] == (b, a));
    assert(pair_in(n.reverse, b, a));
    lemma_lookup(n.reverse, b, a);
}

/// After a message was forgotten, the ledger gives no reply for it, and
/// gives no message for what was the reply to it.
pub proof fn law_forget_then_lookup(l: LedgerView, a: MetaView)
    requires
        l.wf(),
    ensures
        lookup(l.forgotten(a).forward, a) is None,
        forall|b: MetaView| lookup(l.forward, a) == Some(b) ==> lookup(l.forgotten(a).reverse, b) is None,
{
    lemma_forgotten_wf(l, a);
    match lookup(l.forward, a) {
        Some(b) => {
            lemma_without(l.reverse, b);
        },
        None => {},
    }
}

/// Booking a pair of a new message and a new reply into a full ledger takes
/// out one pair, the one whose message was used least recently, from both
/// maps at once; every other pair stays, and the new pair is the most
/// recently used of both maps.
pub proof fn law_full_ledger_evicts_oldest(l: LedgerView, a: MetaView, b: MetaView)
    requires
        l.wf(),
        l.capacity > 0,
        l.forward.len() == l.capacity,
        !has_key(l.forward, a),
        !has_key(l.reverse, b),
    ensures
        l.booked(a, b).forward == l.forward.drop_first().push((a, b)),
        l.booked(a, b).reverse == without(l.reverse, l.forward[0].1).push((b, a)),
        l.booked(a, b).forward.len() == l.capacity,
        l.booked(a, b).reverse.len() == l.capacity,
        lookup(l.booked(a, b).forward, l.forward[0].0) is None,
        lookup(l.booked(a, b).reverse, l.forward[0].1) is None,
        forall|k: MetaView, v: MetaView|
            pair_in(l.forward, k, v) && k != l.forward[0].0 ==> pair_in(l.booked(a, b).forward, k, v)
                && pair_in(l.booked(a, b).reverse, v, k),
{
    lemma_booked_wf(l, a, b);
    assert(l.forgotten(a) == l);
    assert(l.unanswered(b) == l);
    let s3 = l.with_room();
    lemma_with_room_wf(l);
    let k0 = l.forward[0].0;
    let v0 = l.forward[0].1;
    lemma_drop_first(l.forward);
    lemma_without(l.forward, k0);
    lemma_without(l.reverse, v0);
    assert(l.forward[0] == (k0, v0));
    assert(pair_in(l.forward, k0, v0));
    lemma_unpaired_wf(l, k0, v0);
    let n = l.booked(a, b);
    lemma_push(s3.forward, a, b);
    lemma_push(s3.reverse, b, a);
    lemma_lookup(l.forward, k0, v0);
    lemma_lookup(l.forward, a, v0);
    lemma_lookup(l.reverse, v0, k0);
    lemma_lookup(l.reverse, b, k0);
    assert(k0 != a);
    assert(v0 != b);
    if lookup(n.forward, k0) is Some {
        let v = lookup(n.forward, k0)->0;
        lemma_lookup(n.forward, k0, v);
        assert(pair_in(s3.forward, k0, v));
        assert(s3.forward == without(l.forward, k0));
        assert(pair_in(without(l.forward, k0), k0, v));
        assert(false);
    }
    if lookup(n.reverse, v0) is Some {
        let k = lookup(n.reverse, v0)->0;
        lemma_lookup(n.reverse, v0, k);
        assert(pair_in(s3.reverse, v0, k));
        assert(s3.reverse == without(l.reverse, v0));
        assert(pair_in(without(l.reverse, v0), v0, k));
        assert(false);
    }
    assert forall|k: MetaView, v: MetaView| pair_in(l.forward, k, v) && k != k0 implies pair_in(
        n.forward,
        k,
        v,
    ) && pair_in(n.reverse, v, k) by {
        assert(pair_in(s3.forward, k, v));
        assert(pair_in(n.forward, k, v));
    }
}

} // verus!
