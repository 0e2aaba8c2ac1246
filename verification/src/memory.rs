//! The reply ledger: which reply answers which message.
//!
//! Two bounded maps of `lru_cache::LruCache` are kept as mirror images of
//! each other: one from a message to the reply to it, one from the reply to
//! the message.

use crate::ledger::{
    inserted, lemma_booked_wf, lemma_empty_wf, lemma_forgotten_wf, lemma_lookup,
    lemma_unanswered_wf, lemma_used_wf, lemma_with_room_wf, lookup, pair_in, refreshed, without,
    LedgerView, MetaView,
};
use crate::user::User;
use lru_cache::LruCache;
use std::hash::BuildHasher;
use std::hash::Hash;
use vstd::prelude::*;

verus! {

/// `lru_cache::LruCache`, of which the verifier sees nothing but the name.
#[verifier::external_type_specification]
#[verifier::external_body]
#[verifier::reject_recursive_types(K)]
#[verifier::reject_recursive_types(V)]
#[verifier::reject_recursive_types(S)]
pub struct ExLruCache<K: Eq + Hash, V, S: BuildHasher>(LruCache<K, V, S>);

/// The identity of a message: its chat, its number in the chat, and who sent
/// it. Two identities are the same where all three are.
#[derive(Debug, PartialEq, Eq, Hash)]
pub struct MessageMeta {
    pub chat_id: i64,
    pub message_id: i32,
    pub sender: User,
}

impl View for MessageMeta {
    type V = MetaView;

    open spec fn view(&self) -> MetaView {
        MetaView { chat_id: self.chat_id, message_id: self.message_id, sender: self.sender@ }
    }
}

impl Clone for MessageMeta {
    fn clone(&self) -> (r: Self)
        ensures
            r == *self,
    {
        MessageMeta {
            chat_id: self.chat_id,
            message_id: self.message_id,
            sender: self.sender.clone(),
        }
    }
}

/// The entries of a cache from the least to the most recently used, each
/// key and value by its mathematical value. The cache finds a key by the
/// `Eq` and `Hash` that [`MessageMeta`] derives, which go by every field: two
/// keys are one key exactly where their values are equal.
pub uninterp spec fn cache_entries(c: LruCache<MessageMeta, MessageMeta>) -> Seq<(MetaView, MetaView)>;

/// The number of entries that a cache was made to hold.
pub uninterp spec fn cache_limit(c: LruCache<MessageMeta, MessageMeta>) -> nat;

/// `LruCache::new`. Assumed: the cache is empty and was made to hold
/// `capacity` entries.
#[verifier::external_body]
fn cache_new(capacity: usize) -> (c: LruCache<MessageMeta, MessageMeta>)
    ensures
        cache_entries(c) == Seq::<(MetaView, MetaView)>::empty(),
        cache_limit(c) == capacity,
{
    LruCache::new(capacity)
}

/// `LruCache::capacity`. Assumed: the number of entries that the cache was
/// made to hold.
#[verifier::external_body]
fn cache_capacity(c: &LruCache<MessageMeta, MessageMeta>) -> (n: usize)
    ensures
        n == cache_limit(*c),
{
    c.capacity()
}

/// `LruCache::len`. Assumed: the number of entries.
#[verifier::external_body]
fn cache_len(c: &LruCache<MessageMeta, MessageMeta>) -> (n: usize)
    ensures
        n == cache_entries(*c).len(),
{
    c.len()
}

/// `LruCache::insert`. Assumed: the entry of `k`, if there is one, leaves its
/// place; `k` with `v` becomes the most recently used entry; and where the
/// cache then holds more than it was made for, the least recently used entry
/// leaves.
#[verifier::external_body]
fn cache_insert(c: &mut LruCache<MessageMeta, MessageMeta>, k: MessageMeta, v: MessageMeta)
    ensures
        cache_entries(*final(c)) == inserted(cache_entries(*old(c)), k@, v@, cache_limit(*old(c))),
        cache_limit(*final(c)) == cache_limit(*old(c)),
{
    let _ = c.insert(k, v);
}

/// `LruCache::get_mut`. Assumed: the value under `k` is returned, if there is
/// one, and its entry becomes the most recently used; the other entries keep
/// their order.
#[verifier::external_body]
fn cache_get<'a>(c: &'a mut LruCache<MessageMeta, MessageMeta>, k: &MessageMeta) -> (r: Option<
    &'a MessageMeta,
>)
    ensures
        cache_entries(*final(c)) == refreshed(cache_entries(*old(c)), k@),
        cache_limit(*final(c)) == cache_limit(*old(c)),
        match r {
            Some(v) => lookup(cache_entries(*old(c)), k@) == Some(v@),
            None => lookup(cache_entries(*old(c)), k@) is None,
        },
{
    c.get_mut(k).map(|m| &*m)
}

/// `LruCache::remove`. Assumed: the entry of `k` leaves, and its value is
/// returned, if there is one; the other entries keep their order.
#[verifier::external_body]
fn cache_remove(c: &mut LruCache<MessageMeta, MessageMeta>, k: &MessageMeta) -> (r: Option<
    MessageMeta,
>)
    ensures
        cache_entries(*final(c)) == without(cache_entries(*old(c)), k@),
        cache_limit(*final(c)) == cache_limit(*old(c)),
        match r {
            Some(v) => lookup(cache_entries(*old(c)), k@) == Some(v@),
            None => lookup(cache_entries(*old(c)), k@) is None,
        },
{
    c.remove(k)
}

/// `LruCache::remove_lru`. Assumed: the least recently used entry leaves and
/// is returned, if the cache holds any.
#[verifier::external_body]
fn cache_remove_lru(c: &mut LruCache<MessageMeta, MessageMeta>) -> (r: Option<
    (MessageMeta, MessageMeta),
>)
    ensures
        cache_limit(*final(c)) == cache_limit(*old(c)),
        match r {
            Some(e) => cache_entries(*old(c)).len() > 0 && (e.0@, e.1@) == cache_entries(*old(c))[0]
                && cache_entries(*final(c)) == cache_entries(*old(c)).drop_first(),
            None => cache_entries(*old(c)).len() == 0 && cache_entries(*final(c))
                == cache_entries(*old(c)),
        },
{
    c.remove_lru()
}

/// The ledger of replies.
pub struct ReplyBooking {
    forward_map: LruCache<MessageMeta, MessageMeta>,
    reverse_map: LruCache<MessageMeta, MessageMeta>,
}

impl View for ReplyBooking {
    type V = LedgerView;

    closed spec fn view(&self) -> LedgerView {
        LedgerView {
            forward: cache_entries(self.forward_map),
            reverse: cache_entries(self.reverse_map),
            capacity: cache_limit(self.forward_map),
        }
    }
}

impl ReplyBooking {
    /// Both maps were made to hold the same number of entries.
    pub closed spec fn balanced(&self) -> bool {
        cache_limit(self.forward_map) == cache_limit(self.reverse_map)
    }

    /// The ledger is well formed: its two maps are mirror images of each
    /// other, of one capacity.
    pub open spec fn wf(&self) -> bool {
        self@.wf() && self.balanced()
    }

    /// An empty ledger in which each map holds at most `capacity` entries.
    pub fn with_capacity(capacity: usize) -> (r: Self)
        ensures
            r.wf(),
            r@ == (LedgerView { forward: Seq::empty(), reverse: Seq::empty(), capacity: capacity as nat }),
    {
        proof {
            lemma_empty_wf(capacity as nat);
        }
        Self { forward_map: cache_new(capacity), reverse_map: cache_new(capacity) }
    }

    /// Books `reply` as the reply to `replied_to`.
    pub fn book(&mut self, replied_to: MessageMeta, reply: MessageMeta)
        requires
            old(self).wf(),
        ensures
            final(self).wf(),
            final(self)@ == old(self)@.booked(replied_to@, reply@),
    {
        let ghost l0 = self@;
        self.forget(&replied_to);
        let ghost l1 = self@;
        proof {
            lemma_forgotten_wf(l0, replied_to@);
        }
        match cache_remove(&mut self.reverse_map, &reply) {
            Some(asked) => {
                proof {
                    lemma_lookup(l1.reverse, reply@, asked@);
                    assert(pair_in(l1.forward, asked@, reply@));
                    lemma_lookup(l1.forward, asked@, reply@);
                }
                let _ = cache_remove(&mut self.forward_map, &asked);
            },
            None => {},
        }
        let ghost l2 = self@;
        proof {
            assert(l2 == l1.unanswered(reply@));
            lemma_unanswered_wf(l1, reply@);
        }
        let held = cache_len(&self.forward_map);
        if held > 0 && held >= cache_capacity(&self.forward_map) {
            match cache_remove_lru(&mut self.forward_map) {
                Some(oldest) => {
                    let _ = cache_remove(&mut self.reverse_map, &oldest.1);
                },
                None => {},
            }
        }
        let ghost l3 = self@;
        proof {
            assert(l3 == l2.with_room());
            lemma_with_room_wf(l2);
            lemma_booked_wf(l0, replied_to@, reply@);
        }
        cache_insert(&mut self.forward_map, replied_to.clone(), reply.clone());
        cache_insert(&mut self.reverse_map, reply, replied_to);
    }

    /// The reply to `replied_to`, if one is booked. Asking makes the entry
    /// the most recently used of its map.
    pub fn forward_lookup(&mut self, replied_to: &MessageMeta) -> (r: Option<&MessageMeta>)
        requires
            old(self).wf(),
        ensures
            final(self).wf(),
            final(self)@ == old(self)@.forward_used(replied_to@),
            match r {
                Some(reply) => lookup(old(self)@.forward, replied_to@) == Some(reply@),
                None => lookup(old(self)@.forward, replied_to@) is None,
            },
    {
        proof {
            lemma_used_wf(self@, replied_to@);
        }
        cache_get(&mut self.forward_map, replied_to)
    }

    /// The message that `reply` answers, if one is booked. Asking makes the
    /// entry the most recently used of its map.
    pub fn reverse_lookup(&mut self, reply: &MessageMeta) -> (r: Option<&MessageMeta>)
        requires
            old(self).wf(),
        ensures
            final(self).wf(),
            final(self)@ == old(self)@.reverse_used(reply@),
            match r {
                Some(asked) => lookup(old(self)@.reverse, reply@) == Some(asked@),
                None => lookup(old(self)@.reverse, reply@) is None,
            },
    {
        proof {
            lemma_used_wf(self@, reply@);
        }
        cache_get(&mut self.reverse_map, reply)
    }

    /// Takes `replied_to` and the reply to it out of the ledger.
    pub fn forget(&mut self, replied_to: &MessageMeta)
        requires
            old(self).wf(),
        ensures
            final(self).wf(),
            final(self)@ == old(self)@.forgotten(replied_to@),
    {
        proof {
            lemma_forgotten_wf(self@, replied_to@);
        }
        match cache_remove(&mut self.forward_map, replied_to) {
            Some(reply) => {
                let _ = cache_remove(&mut self.reverse_map, &reply);
            },
            None => {},
        }
    }
}

} // verus!
