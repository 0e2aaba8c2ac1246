use hithit::memory::{MessageMeta, ReplyBooking};
use hithit::process::Origin;
use hithit::user::User;

fn member(id: u64) -> User {
    User {
        id,
        is_bot: false,
        first_name: format!("user{}", id),
        last_name: None,
        username: None,
        language_code: None,
        is_premium: false,
        added_to_attachment_menu: false,
    }
}

fn meta(message_id: i32) -> MessageMeta {
    MessageMeta { chat_id: -100, message_id, sender: member(1) }
}

fn reply(message_id: i32) -> MessageMeta {
    MessageMeta { chat_id: -100, message_id: message_id + 1000, sender: member(99) }
}

#[test]
fn book_then_lookup_both_ways() {
    let mut ledger = ReplyBooking::with_capacity(8);
    ledger.book(meta(1), reply(1));
    assert_eq!(ledger.forward_lookup(&meta(1)), Some(&reply(1)));
    assert_eq!(ledger.reverse_lookup(&reply(1)), Some(&meta(1)));
}

#[test]
fn lookup_of_the_unknown_gives_nothing() {
    let mut ledger = ReplyBooking::with_capacity(8);
    assert_eq!(ledger.forward_lookup(&meta(1)), None);
    ledger.book(meta(1), reply(1));
    assert_eq!(ledger.forward_lookup(&meta(2)), None);
    assert_eq!(ledger.forward_lookup(&reply(1)), None);
    assert_eq!(ledger.reverse_lookup(&meta(1)), None);
}

#[test]
fn forget_takes_both_directions_out() {
    let mut ledger = ReplyBooking::with_capacity(8);
    ledger.book(meta(1), reply(1));
    ledger.book(meta(2), reply(2));
    ledger.forget(&meta(1));
    assert_eq!(ledger.forward_lookup(&meta(1)), None);
    assert_eq!(ledger.reverse_lookup(&reply(1)), None);
    assert_eq!(ledger.forward_lookup(&meta(2)), Some(&reply(2)));
    assert_eq!(ledger.reverse_lookup(&reply(2)), Some(&meta(2)));
}

#[test]
fn forget_of_the_unknown_changes_nothing() {
    let mut ledger = ReplyBooking::with_capacity(8);
    ledger.book(meta(1), reply(1));
    ledger.forget(&meta(7));
    ledger.forget(&reply(1));
    assert_eq!(ledger.forward_lookup(&meta(1)), Some(&reply(1)));
    assert_eq!(ledger.reverse_lookup(&reply(1)), Some(&meta(1)));
}

#[test]
fn one_more_than_the_capacity_evicts_the_oldest_pair() {
    let mut ledger = ReplyBooking::with_capacity(3);
    for i in 1..=4 {
        ledger.book(meta(i), reply(i));
    }
    assert_eq!(ledger.forward_lookup(&meta(1)), None);
    assert_eq!(ledger.reverse_lookup(&reply(1)), None);
    for i in 2..=4 {
        assert_eq!(ledger.forward_lookup(&meta(i)), Some(&reply(i)));
        assert_eq!(ledger.reverse_lookup(&reply(i)), Some(&meta(i)));
    }
}

#[test]
fn a_lookup_keeps_a_pair_from_being_the_oldest() {
    let mut ledger = ReplyBooking::with_capacity(3);
    for i in 1..=3 {
        ledger.book(meta(i), reply(i));
    }
    assert_eq!(ledger.forward_lookup(&meta(1)), Some(&reply(1)));
    ledger.book(meta(4), reply(4));
    assert_eq!(ledger.forward_lookup(&meta(2)), None);
    assert_eq!(ledger.reverse_lookup(&reply(2)), None);
    assert_eq!(ledger.forward_lookup(&meta(1)), Some(&reply(1)));
    assert_eq!(ledger.reverse_lookup(&reply(1)), Some(&meta(1)));
    assert_eq!(ledger.forward_lookup(&meta(3)), Some(&reply(3)));
    assert_eq!(ledger.forward_lookup(&meta(4)), Some(&reply(4)));
}

#[test]
fn a_reverse_lookup_does_not_decide_which_pair_leaves() {
    let mut ledger = ReplyBooking::with_capacity(2);
    ledger.book(meta(1), reply(1));
    ledger.book(meta(2), reply(2));
    assert_eq!(ledger.reverse_lookup(&reply(1)), Some(&meta(1)));
    ledger.book(meta(3), reply(3));
    // the pair whose message was used least recently leaves both maps
    assert_eq!(ledger.forward_lookup(&meta(1)), None);
    assert_eq!(ledger.reverse_lookup(&reply(1)), None);
    assert_eq!(ledger.reverse_lookup(&reply(2)), Some(&meta(2)));
    assert_eq!(ledger.reverse_lookup(&reply(3)), Some(&meta(3)));
}

#[test]
fn booking_a_message_again_replaces_its_reply() {
    let mut ledger = ReplyBooking::with_capacity(8);
    ledger.book(meta(1), reply(1));
    ledger.book(meta(1), reply(2));
    assert_eq!(ledger.forward_lookup(&meta(1)), Some(&reply(2)));
    assert_eq!(ledger.reverse_lookup(&reply(2)), Some(&meta(1)));
    assert_eq!(ledger.reverse_lookup(&reply(1)), None);
}

#[test]
fn booking_a_reply_again_replaces_its_message() {
    let mut ledger = ReplyBooking::with_capacity(8);
    ledger.book(meta(1), reply(1));
    ledger.book(meta(2), reply(1));
    assert_eq!(ledger.reverse_lookup(&reply(1)), Some(&meta(2)));
    assert_eq!(ledger.forward_lookup(&meta(2)), Some(&reply(1)));
    assert_eq!(ledger.forward_lookup(&meta(1)), None);
}

#[test]
fn booking_the_same_pair_again_does_not_evict() {
    let mut ledger = ReplyBooking::with_capacity(2);
    ledger.book(meta(1), reply(1));
    ledger.book(meta(2), reply(2));
    ledger.book(meta(1), reply(1));
    assert_eq!(ledger.reverse_lookup(&reply(1)), Some(&meta(1)));
    assert_eq!(ledger.reverse_lookup(&reply(2)), Some(&meta(2)));
    // booking it again made the first pair the most recently used
    ledger.book(meta(3), reply(3));
    assert_eq!(ledger.forward_lookup(&meta(2)), None);
    assert_eq!(ledger.reverse_lookup(&reply(2)), None);
    assert_eq!(ledger.forward_lookup(&meta(1)), Some(&reply(1)));
    assert_eq!(ledger.forward_lookup(&meta(3)), Some(&reply(3)));
}

#[test]
fn a_ledger_of_no_capacity_holds_nothing() {
    let mut ledger = ReplyBooking::with_capacity(0);
    ledger.book(meta(1), reply(1));
    assert_eq!(ledger.forward_lookup(&meta(1)), None);
    assert_eq!(ledger.reverse_lookup(&reply(1)), None);
    ledger.forget(&meta(1));
}

#[test]
fn a_ledger_of_one_holds_the_latest_pair() {
    let mut ledger = ReplyBooking::with_capacity(1);
    ledger.book(meta(1), reply(1));
    ledger.book(meta(2), reply(2));
    assert_eq!(ledger.forward_lookup(&meta(1)), None);
    assert_eq!(ledger.reverse_lookup(&reply(1)), None);
    assert_eq!(ledger.forward_lookup(&meta(2)), Some(&reply(2)));
    assert_eq!(ledger.reverse_lookup(&reply(2)), Some(&meta(2)));
}

#[test]
fn identities_differ_in_any_of_their_parts() {
    let mut ledger = ReplyBooking::with_capacity(8);
    ledger.book(meta(1), reply(1));
    let other_chat = MessageMeta { chat_id: -101, ..meta(1) };
    let other_sender = MessageMeta { sender: member(2), ..meta(1) };
    let mut renamed = meta(1);
    renamed.sender.first_name = "other".to_string();
    assert_eq!(ledger.forward_lookup(&other_chat), None);
    assert_eq!(ledger.forward_lookup(&other_sender), None);
    assert_eq!(ledger.forward_lookup(&renamed), None);
    assert_eq!(ledger.forward_lookup(&meta(1).clone()), Some(&reply(1)));
}

#[test]
fn the_ledger_of_the_bot_holds_many_pairs() {
    let mut ledger = ReplyBooking::with_capacity(8192);
    for i in 0..8193 {
        ledger.book(meta(i), reply(i));
    }
    assert_eq!(ledger.forward_lookup(&meta(0)), None);
    assert_eq!(ledger.reverse_lookup(&reply(0)), None);
    assert_eq!(ledger.forward_lookup(&meta(1)), Some(&reply(1)));
    assert_eq!(ledger.reverse_lookup(&reply(8192)), Some(&meta(8192)));
}

#[test]
fn meta_needs_a_sender() {
    let known = Origin { chat_id: 5, message_id: 6, from: Some(member(3)) };
    assert_eq!(
        MessageMeta::try_from(&known),
        Some(MessageMeta { chat_id: 5, message_id: 6, sender: member(3) })
    );
    let unknown = Origin { chat_id: 5, message_id: 6, from: None };
    assert_eq!(MessageMeta::try_from(&unknown), None);
}
