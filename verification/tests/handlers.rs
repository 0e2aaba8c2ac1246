use hithit::error::{Error, Format};
use hithit::handlers::{
    compatibility_refusal, compatibility_report, plan_edited, plan_message, reply_to, Plan,
    Standing,
};
use hithit::kind::FormatKind;
use hithit::kind_set::KindSet;
use hithit::memory::{MessageMeta, ReplyBooking};
use hithit::process::{Message, Origin};
use hithit::segments::{Segment, Segments};
use hithit::user::User;

fn writer() -> User {
    User {
        id: 3,
        is_bot: false,
        first_name: "Cy".to_string(),
        last_name: None,
        username: None,
        language_code: None,
        is_premium: false,
        added_to_attachment_menu: false,
    }
}

fn update(text: &str) -> Message {
    Message {
        origin: Origin { chat_id: 1, message_id: 2, from: Some(writer()) },
        text: Some(text.to_string()),
        entities: Some(vec![]),
        reply_to: None,
    }
}

fn plain_runs(text: &str) -> Segments {
    Segments::from(vec![Segment { kind: KindSet::new(), text: text.to_string() }])
}

fn marked(kind: FormatKind, text: &str) -> Segment {
    let mut set = KindSet::new();
    set.insert(kind);
    Segment { kind: set, text: text.to_string() }
}

fn told_of(message: &str) -> Segments {
    Segments::from(vec![
        marked(FormatKind::Bold, "An error occurred while processing your template.\n"),
        marked(FormatKind::Code, message),
    ])
}

fn asked() -> MessageMeta {
    MessageMeta { chat_id: 1, message_id: 2, sender: writer() }
}

fn sent() -> MessageMeta {
    MessageMeta { chat_id: 1, message_id: 3, sender: writer() }
}

#[test]
fn reply_is_the_output_where_there_is_one() {
    assert_eq!(reply_to(&update("/^hit"), Ok(plain_runs("hit!"))), plain_runs("hit!"));
}

#[test]
fn reply_tells_of_an_error() {
    assert_eq!(
        reply_to(&update("/^hit {4}"), Err(Error::Format(Format::InvalidIndex(4)))),
        told_of("format error: index 4 not found")
    );
}

#[test]
fn reply_explains_where_asked_to() {
    let explained = reply_to(&update("/explain hit"), Ok(plain_runs("hit!")));
    assert_eq!(explained.len(), 8);
    assert_eq!(explained.get(0), &marked(FormatKind::Bold, "Input:\n"));
    let failed = reply_to(
        &update("/explain {4}"),
        Err(Error::Format(Format::InvalidIndex(4))),
    );
    assert_eq!(failed.len(), 6);
    assert_eq!(failed.get(5), &marked(FormatKind::Code, "format error: index 4 not found"));
}

#[test]
fn a_new_message_is_answered_or_left() {
    assert_eq!(
        plan_message(&update("/^hit"), Ok(plain_runs("hit!"))),
        Plan::Answer(plain_runs("hit!"))
    );
    assert_eq!(plan_message(&update("/start"), Err(Error::ShouldNotHandle)), Plan::Leave);
    assert_eq!(
        plan_message(&update("/^{9}"), Err(Error::Format(Format::InvalidIndex(9)))),
        Plan::Answer(told_of("format error: index 9 not found"))
    );
}

#[test]
fn an_edited_message_without_reply_is_answered_or_left() {
    let mut ledger = ReplyBooking::with_capacity(4);
    assert_eq!(
        plan_edited(&mut ledger, &asked(), &update("/^hit"), Ok(plain_runs("hit!"))),
        Plan::Answer(plain_runs("hit!"))
    );
    assert_eq!(
        plan_edited(&mut ledger, &asked(), &update("hit"), Err(Error::ShouldNotHandle)),
        Plan::Leave
    );
}

#[test]
fn an_edited_message_with_reply_has_it_revised_or_withdrawn() {
    let mut ledger = ReplyBooking::with_capacity(4);
    ledger.book(asked(), sent());
    assert_eq!(
        plan_edited(&mut ledger, &asked(), &update("/^hit"), Ok(plain_runs("hit!"))),
        Plan::Revise(sent(), plain_runs("hit!"))
    );
    assert_eq!(
        plan_edited(&mut ledger, &asked(), &update("hit"), Err(Error::ShouldNotHandle)),
        Plan::Withdraw(sent())
    );
    // planning forgets nothing
    assert_eq!(ledger.forward_lookup(&asked()), Some(&sent()));
}

#[test]
fn planning_an_edit_uses_the_entry() {
    let mut ledger = ReplyBooking::with_capacity(2);
    let other = MessageMeta { chat_id: 1, message_id: 20, sender: writer() };
    let other_sent = MessageMeta { chat_id: 1, message_id: 21, sender: writer() };
    ledger.book(asked(), sent());
    ledger.book(other.clone(), other_sent);
    plan_edited(&mut ledger, &asked(), &update("hit"), Err(Error::ShouldNotHandle));
    ledger.book(
        MessageMeta { chat_id: 1, message_id: 30, sender: writer() },
        MessageMeta { chat_id: 1, message_id: 31, sender: writer() },
    );
    assert_eq!(ledger.forward_lookup(&other), None);
    assert_eq!(ledger.forward_lookup(&asked()), Some(&sent()));
}

#[test]
fn who_may_not_set_the_compatibility_mode_is_told_why() {
    assert_eq!(
        compatibility_refusal(Standing::NoGroup),
        Some("Compatibility mode is only available in groups and supergroups.")
    );
    assert_eq!(
        compatibility_refusal(Standing::NoMember),
        Some("You must be a member of the group to set compatibility mode.")
    );
    assert_eq!(
        compatibility_refusal(Standing::Member),
        Some("You must be an admin to set compatibility mode.")
    );
    assert_eq!(compatibility_refusal(Standing::Admin), None);
}

#[test]
fn the_compatibility_mode_is_reported() {
    assert_eq!(compatibility_report(true, true), "Compatibility mode enabled.");
    assert_eq!(compatibility_report(false, true), "Compatibility mode already enabled.");
    assert_eq!(compatibility_report(true, false), "Compatibility mode disabled.");
    assert_eq!(compatibility_report(false, false), "Compatibility mode already disabled.");
}
