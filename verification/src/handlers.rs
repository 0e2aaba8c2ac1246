//! What is to be done with a message, once the reply to it is known.
//!
//! Sending, editing and deleting are left to the caller; this module decides
//! which of them is due.

use crate::decode::within;
use crate::elaborator::{elaborate, elaborate_error, error_part, explains, outcome_told};
use crate::error::{error_message, Error, ErrorView};
use crate::ledger::{lookup, LedgerView, MetaView};
use crate::memory::{MessageMeta, ReplyBooking};
use crate::process::{
    begins_with, explain_command, starts_with, Message, MessageView, EXPLAIN_COMMAND,
};
use crate::segments::{flatten, SegmentView, Segments};
use crate::text::utf16_len;
use vstd::prelude::*;

verus! {

/// What is to be done with a message.
#[derive(Debug, PartialEq, Eq)]
pub enum Plan {
    /// Nothing: the message is not for the bot and was never answered.
    Leave,
    /// The reply that was sent is to be deleted and the message forgotten.
    Withdraw(MessageMeta),
    /// The reply that was sent is to be changed to these runs.
    Revise(MessageMeta, Segments),
    /// These runs are to be sent as a new reply.
    Answer(Segments),
}

/// Whether `r` is what is sent for a message and the outcome of replying to
/// it: the explanation where the message asks for one, the reply itself
/// where there is one, and else what is told of the error.
pub open spec fn answers(r: Seq<SegmentView>, msg: MessageView, output: Result<Segments, Error>) -> bool {
    if begins_with(msg.text->0, explain_command()) {
        explains(r, msg.text->0, outcome_told(output))
    } else {
        match output {
            Ok(reply) => r == reply@,
            Err(e) => r == error_part(error_message(e@)),
        }
    }
}

/// Whether the message is to be left alone.
pub open spec fn declined(output: Result<Segments, Error>) -> bool {
    output matches Err(e) && e@ == ErrorView::ShouldNotHandle
}

/// What can be measured and explained of a message and the reply to it.
pub open spec fn presentable(msg: MessageView, output: Result<Segments, Error>) -> bool {
    &&& msg.text is Some
    &&& begins_with(msg.text->0, explain_command()) ==> {
        &&& msg.entities is Some
        &&& within(msg.entities->0, utf16_len(msg.text->0) as int)
        &&& output is Ok ==> utf16_len(flatten(output->Ok_0@)) <= usize::MAX
    }
}

/// What is sent for `update` and the outcome of replying to it.
pub fn reply_to(update: &Message, output: Result<Segments, Error>) -> (r: Segments)
    requires
        presentable(update@, output),
    ensures
        answers(r@, update@, output),
{
    let text = match &update.text {
        Some(text) => text.as_str(),
        None => "",
    };
    if starts_with(text, EXPLAIN_COMMAND) {
        elaborate(update, output)
    } else {
        match output {
            Ok(reply) => reply,
            Err(e) => Segments::from(elaborate_error(e.message().as_str())),
        }
    }
}

/// What is to be done with a new message: nothing where it is to be left
/// alone, else an answer.
pub fn plan_message(update: &Message, output: Result<Segments, Error>) -> (r: Plan)
    requires
        presentable(update@, output),
    ensures
        declined(output) ==> r == Plan::Leave,
        !declined(output) ==> (r matches Plan::Answer(reply) && answers(reply@, update@, output)),
{
    if matches!(output, Err(Error::ShouldNotHandle)) {
        Plan::Leave
    } else {
        Plan::Answer(reply_to(update, output))
    }
}

/// What is to be done with the edited message `unique_id`: where it is now
/// to be left alone, the reply to it is withdrawn if there is one; else the
/// reply to it is revised if there is one, and a new one sent if not.
pub fn plan_edited(
    booking: &mut ReplyBooking,
    unique_id: &MessageMeta,
    update: &Message,
    output: Result<Segments, Error>,
) -> (r: Plan)
    requires
        old(booking).wf(),
        presentable(update@, output),
    ensures
        final(booking).wf(),
        final(booking)@ == old(booking)@.forward_used(unique_id@),
        match (declined(output), lookup(old(booking)@.forward, unique_id@)) {
            (true, None) => r == Plan::Leave,
            (true, Some(sent)) => (r matches Plan::Withdraw(m) && m@ == sent),
            (false, None) => (r matches Plan::Answer(reply) && answers(reply@, update@, output)),
            (false, Some(sent)) => (r matches Plan::Revise(m, reply) && m@ == sent && answers(
                reply@,
                update@,
                output,
            )),
        },
{
    let sent = match booking.forward_lookup(unique_id) {
        Some(m) => Some(m.clone()),
        None => None,
    };
    if matches!(output, Err(Error::ShouldNotHandle)) {
        match sent {
            Some(m) => Plan::Withdraw(m),
            None => Plan::Leave,
        }
    } else {
        let reply = reply_to(update, output);
        match sent {
            Some(m) => Plan::Revise(m, reply),
            None => Plan::Answer(reply),
        }
    }
}

/// Who asks to change the compatibility mode of a chat.
#[derive(Debug, PartialEq, Eq, Clone, Copy)]
pub enum Standing {
    /// The chat is no group.
    NoGroup,
    /// The sender is not known.
    NoMember,
    /// The sender is a member without privileges.
    Member,
    /// The sender administers the group.
    Admin,
}

/// What is told to one who may not change the compatibility mode.
pub open spec fn refusal(standing: Standing) -> Option<Seq<char>> {
    match standing {
        Standing::NoGroup => Some(
            "Compatibility mode is only available in groups and supergroups."@,
        ),
        Standing::NoMember => Some("You must be a member of the group to set compatibility mode."@),
        Standing::Member => Some("You must be an admin to set compatibility mode."@),
        Standing::Admin => None,
    }
}

/// What is told after the compatibility mode was set to `mode`, which did or
/// did not change it.
pub open spec fn report(changed: bool, mode: bool) -> Seq<char> {
    if mode {
        if changed {
            "Compatibility mode enabled."@
        } else {
            "Compatibility mode already enabled."@
        }
    } else {
        if changed {
            "Compatibility mode disabled."@
        } else {
            "Compatibility mode already disabled."@
        }
    }
}

/// What is told to one who may not change the compatibility mode.
pub fn compatibility_refusal(standing: Standing) -> (r: Option<&'static str>)
    ensures
        match r {
            Some(told) => refusal(standing) == Some(told@),
            None => refusal(standing) is None,
        },
{
    match standing {
        Standing::NoGroup => Some("Compatibility mode is only available in groups and supergroups."),
        Standing::NoMember => Some("You must be a member of the group to set compatibility mode."),
        Standing::Member => Some("You must be an admin to set compatibility mode."),
        Standing::Admin => None,
    }
}

/// What is told after the compatibility mode was set to `mode`, which did or
/// did not change it.
pub fn compatibility_report(changed: bool, mode: bool) -> (r: &'static str)
    ensures
        r@ == report(changed, mode),
{
    match (changed, mode) {
        (true, true) => "Compatibility mode enabled.",
        (false, true) => "Compatibility mode already enabled.",
        (true, false) => "Compatibility mode disabled.",
        (false, false) => "Compatibility mode already disabled.",
    }
}

} // verus!
