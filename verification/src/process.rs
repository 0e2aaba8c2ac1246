//! From an incoming message to the reply.
//!
//! A message that starts with a slash is read as a template. Who is meant by
//! sender and receiver is found from the message and, where the message
//! answers a reply of the bot itself, from the ledger of replies.

use crate::decode::{decoded, entity_views, within, EntityView, MessageEntity};
use crate::error::{Error, ErrorView};
use crate::formatter::{
    context_of, formatted, token_views, ContextView, FormatContext, Formatter, FormatterView,
    HoleIdent, IdentView, Token, TokenView,
};
use crate::kind::KindView;
use crate::kind_set::KindSet;
use crate::ledger::{lookup, LedgerView, MetaView};
use crate::memory::{MessageMeta, ReplyBooking};
use crate::parser::{reading, Parser};
use crate::segments::{drain_runs, Segment, SegmentView, Segments};
use crate::text::utf16_len;
use crate::user::{full_name, User, UserView};
use vstd::prelude::*;

verus! {

/// Which message it is and who sent it.
#[derive(Debug, PartialEq, Eq)]
pub struct Origin {
    pub chat_id: i64,
    pub message_id: i32,
    pub from: Option<User>,
}

/// What is read of an incoming message.
#[derive(Debug, PartialEq, Eq)]
pub struct Message {
    pub origin: Origin,
    pub text: Option<String>,
    pub entities: Option<Vec<MessageEntity>>,
    /// The message that this one answers.
    pub reply_to: Option<Origin>,
}

/// The commands that the bot answers to.
#[derive(Debug, PartialEq, Eq)]
pub struct Commands {
    /// The command that asks for an explanation, with the name of the bot.
    pub explain_extended: String,
    /// The character that, behind the slash, marks a template.
    pub prefix: char,
}

/// Mathematical value of an [`Origin`].
pub struct OriginView {
    pub chat_id: i64,
    pub message_id: i32,
    pub from: Option<UserView>,
}

/// Mathematical value of a [`Message`].
pub struct MessageView {
    pub origin: OriginView,
    pub text: Option<Seq<char>>,
    pub entities: Option<Seq<EntityView>>,
    pub reply_to: Option<OriginView>,
}

pub open spec fn user_view(u: Option<User>) -> Option<UserView> {
    match u {
        Some(u) => Some(u@),
        None => None,
    }
}

impl View for Origin {
    type V = OriginView;

    open spec fn view(&self) -> OriginView {
        OriginView {
            chat_id: self.chat_id,
            message_id: self.message_id,
            from: user_view(self.from),
        }
    }
}

impl View for Message {
    type V = MessageView;

    open spec fn view(&self) -> MessageView {
        MessageView {
            origin: self.origin@,
            text: match self.text {
                Some(t) => Some(t@),
                None => None,
            },
            entities: match self.entities {
                Some(e) => Some(entity_views(e@)),
                None => None,
            },
            reply_to: match self.reply_to {
                Some(o) => Some(o@),
                None => None,
            },
        }
    }
}

/// The identity of the message, if its sender is known.
pub open spec fn meta_of(origin: OriginView) -> Option<MetaView> {
    match origin.from {
        Some(sender) => Some(
            MetaView { chat_id: origin.chat_id, message_id: origin.message_id, sender },
        ),
        None => None,
    }
}

impl MessageMeta {
    /// The identity of the message, if its sender is known.
    pub fn try_from(origin: &Origin) -> (r: Option<MessageMeta>)
        ensures
            match r {
                Some(m) => meta_of(origin@) == Some(m@),
                None => meta_of(origin@) is None,
            },
    {
        match &origin.from {
            Some(sender) => Some(
                MessageMeta {
                    chat_id: origin.chat_id,
                    message_id: origin.message_id,
                    sender: sender.clone(),
                },
            ),
            None => None,
        }
    }
}

/// The run that mentions `user` by the display name.
pub open spec fn mention(user: UserView) -> SegmentView {
    SegmentView { kind: set![KindView::TextMention { user }], text: full_name(user) }
}

/// The run that mentions `user` as oneself.
pub open spec fn oneself(user: UserView) -> SegmentView {
    SegmentView { kind: set![KindView::TextMention { user }], text: "自己"@ }
}

/// Whom a message addresses: the sender of the message that it answers;
/// where that is a reply of the bot that the ledger knows, the sender of the
/// message that the bot answered, or oneself where that is the sender of
/// this message; and oneself where the message answers none.
pub open spec fn receiver(bot: UserView, ledger: LedgerView, msg: MessageView) -> Option<SegmentView> {
    match msg.reply_to {
        Some(replied) => match replied.from {
            None => None,
            Some(user) => if user == bot {
                match lookup(ledger.reverse, meta_of(replied)->0) {
                    None => Some(mention(user)),
                    Some(asked) => match msg.origin.from {
                        None => Some(mention(asked.sender)),
                        Some(current) => if asked.sender == current {
                            Some(oneself(user))
                        } else {
                            Some(mention(asked.sender))
                        },
                    },
                }
            } else {
                Some(mention(user))
            },
        },
        None => match msg.origin.from {
            Some(me) => Some(oneself(me)),
            None => None,
        },
    }
}

/// Whether finding the receiver asks the ledger.
pub open spec fn asks_ledger(bot: UserView, msg: MessageView) -> bool {
    msg.reply_to is Some && msg.reply_to->0.from == Some(bot)
}

/// The ledger after the receiver was found.
pub open spec fn ledger_after(bot: UserView, ledger: LedgerView, msg: MessageView) -> LedgerView {
    if asks_ledger(bot, msg) {
        ledger.reverse_used(meta_of(msg.reply_to->0)->0)
    } else {
        ledger
    }
}

/// The values that fill the holes of a template sent with `msg`.
pub open spec fn context(bot: UserView, ledger: LedgerView, msg: MessageView) -> Option<ContextView> {
    match (msg.origin.from, receiver(bot, ledger, msg)) {
        (Some(sender), Some(to)) => Some(context_of(mention(sender), to, oneself(sender))),
        _ => None,
    }
}

fn oneself_of(user: User) -> (r: Segment)
    ensures
        r@ == oneself(user@),
{
    Segment::from_user_with_name(user, String::from_str("自己"))
}

/// Whom `message` addresses.
pub fn get_reply_user(bot_user: &User, booking: &mut ReplyBooking, message: &Message) -> (r: Option<
    Segment,
>)
    requires
        old(booking).wf(),
    ensures
        final(booking).wf(),
        final(booking)@ == ledger_after(bot_user@, old(booking)@, message@),
        match r {
            Some(s) => receiver(bot_user@, old(booking)@, message@) == Some(s@),
            None => receiver(bot_user@, old(booking)@, message@) is None,
        },
{
    match &message.reply_to {
        Some(reply_msg) => {
            match &reply_msg.from {
                None => None,
                Some(user) => {
                    if user.same(bot_user) {
                        let meta = MessageMeta::try_from(reply_msg).unwrap();
                        let asked = match booking.reverse_lookup(&meta) {
                            Some(m) => Some(m.sender.clone()),
                            None => None,
                        };
                        match asked {
                            None => Some(Segment::from_user(user.clone())),
                            Some(sender) => {
                                match &message.origin.from {
                                    None => Some(Segment::from_user(sender)),
                                    Some(current) => {
                                        if sender.same(current) {
                                            Some(oneself_of(user.clone()))
                                        } else {
                                            Some(Segment::from_user(sender))
                                        }
                                    },
                                }
                            },
                        }
                    } else {
                        Some(Segment::from_user(user.clone()))
                    }
                },
            }
        },
        None => {
            match &message.origin.from {
                Some(me) => Some(oneself_of(me.clone())),
                None => None,
            }
        },
    }
}

/// The values that fill the holes of a template sent with `msg`.
pub fn build_format_ctx(bot_user: &User, booking: &mut ReplyBooking, msg: &Message) -> (r: Result<
    FormatContext,
    Error,
>)
    requires
        old(booking).wf(),
    ensures
        final(booking).wf(),
        final(booking)@ == if msg@.origin.from is Some {
            ledger_after(bot_user@, old(booking)@, msg@)
        } else {
            old(booking)@
        },
        match r {
            Ok(ctx) => context(bot_user@, old(booking)@, msg@) == Some(ctx@),
            Err(e) => context(bot_user@, old(booking)@, msg@) is None && e == Error::ShouldNotHandle,
        },
{
    let from = match &msg.origin.from {
        Some(user) => user,
        None => {
            return Err(Error::ShouldNotHandle);
        },
    };
    let sender = Segment::from_user(from.clone());
    let me = oneself_of(from.clone());
    match get_reply_user(bot_user, booking, msg) {
        Some(to) => Ok(FormatContext::new(sender, to, me)),
        None => Err(Error::ShouldNotHandle),
    }
}

/// The command that asks for an explanation of the reply.
pub const EXPLAIN_COMMAND: &'static str = "/explain";

/// Whether the text begins with `prefix`.
pub open spec fn begins_with(text: Seq<char>, prefix: Seq<char>) -> bool {
    prefix.len() <= text.len() && text.take(prefix.len() as int) == prefix
}

/// The command that asks for an explanation.
pub open spec fn explain_command() -> Seq<char> {
    EXPLAIN_COMMAND@
}

/// How many characters of a message are command and whether its template
/// may be read without holes: the command that asks for an explanation and
/// one more character, with the fallback allowed; else the slash alone where the
/// character behind it takes more than one byte, or the slash and the prefix,
/// both with the fallback allowed unless the chat asks for compatibility;
/// else the slash alone, without the fallback. A message of less than two
/// characters is no template.
pub open spec fn routed(
    text: Seq<char>,
    explain_extended: Seq<char>,
    prefix: char,
    compatibility: bool,
) -> Option<(int, bool)> {
    if begins_with(text, explain_extended) {
        Some(((explain_extended.len() + 1) as int, true))
    } else if begins_with(text, explain_command()) {
        Some(((explain_command().len() + 1) as int, true))
    } else if text.len() < 2 {
        None
    } else if text[1] as u32 >= 0x80 {
        Some((1, !compatibility))
    } else if text[1] == prefix {
        Some((2, !compatibility))
    } else {
        Some((1, false))
    }
}

/// The template of a message and whether it may be read without holes, if
/// the message is one for the bot.
pub open spec fn template_of(
    text: Seq<char>,
    entities: Seq<EntityView>,
    explain_extended: Seq<char>,
    prefix: char,
    compatibility: bool,
) -> Option<(Seq<SegmentView>, bool)> {
    match routed(text, explain_extended, prefix, compatibility) {
        Some((skip, fallback)) => if skip <= usize::MAX {
            match drain_runs(decoded(text, entities), skip as nat) {
                Some(runs) => Some((runs, fallback)),
                None => None,
            }
        } else {
            None
        },
        None => None,
    }
}

/// The program with a reference to the sender and a space before it, where
/// it asks for no argument at all.
pub open spec fn addressed(program: FormatterView) -> FormatterView {
    if program.indexed == 0 && program.named.is_empty() {
        FormatterView {
            data: seq![
                TokenView::Hole { kind: Set::empty(), ident: IdentView::Named("sender"@) },
                TokenView::Segment(SegmentView { kind: Set::empty(), text: seq![' '] }),
            ] + program.data,
            indexed: program.indexed,
            named: program.named,
        }
    } else {
        program
    }
}

/// The reply to a message; or why there is none.
pub open spec fn processed(
    bot: UserView,
    ledger: LedgerView,
    msg: MessageView,
    explain_extended: Seq<char>,
    prefix: char,
    compatibility: bool,
) -> Result<Seq<SegmentView>, ErrorView> {
    if msg.text is None || msg.entities is None || !begins_with(msg.text->0, seq!['/']) {
        Err(ErrorView::ShouldNotHandle)
    } else {
        match context(bot, ledger, msg) {
            None => Err(ErrorView::ShouldNotHandle),
            Some(ctx) => match template_of(
                msg.text->0,
                msg.entities->0,
                explain_extended,
                prefix,
                compatibility,
            ) {
                None => Err(ErrorView::ShouldNotHandle),
                Some((runs, fallback)) => match reading(runs, fallback) {
                    Err(e) => Err(e),
                    Ok(program) => match formatted(addressed(program), ctx) {
                        Ok(reply) => Ok(reply),
                        Err(e) => Err(ErrorView::Format(e)),
                    },
                },
            },
        }
    }
}

/// Whether the message is read so far that the ledger is asked.
pub open spec fn reaches_ledger(msg: MessageView) -> bool {
    msg.text is Some && msg.entities is Some && begins_with(msg.text->0, seq!['/'])
        && msg.origin.from is Some
}

/// The value of what `process` returns.
pub open spec fn reply_of(r: Result<Segments, Error>) -> Result<Seq<SegmentView>, ErrorView> {
    match r {
        Ok(s) => Ok(s@),
        Err(e) => Err(e@),
    }
}

/// Whether `text` begins with `prefix`.
pub fn starts_with(text: &str, prefix: &str) -> (r: bool)
    ensures
        r == begins_with(text@, prefix@),
{
    let n = prefix.unicode_len();
    if n > text.unicode_len() {
        return false;
    }
    let mut i: usize = 0;
    while i < n
        invariant
            i <= n,
            n == prefix@.len(),
            n <= text@.len(),
            forall|j: int| 0 <= j < i ==> text@[j] == prefix@[j],
        decreases n - i,
    {
        if text.get_char(i) != prefix.get_char(i) {
            proof {
                assert(text@.take(n as int)[i as int] != prefix@[i as int]);
            }
            return false;
        }
        i += 1;
    }
    proof {
        assert(text@.take(n as int) =~= prefix@);
    }
    true
}

/// The template of a message and whether it may be read without holes, if
/// the message is one for the bot.
pub fn route(text: &str, entities: &[MessageEntity], commands: &Commands, compatibility: bool) -> (r:
    Option<Parser>)
    requires
        within(entity_views(entities@), utf16_len(text@) as int),
    ensures
        match r {
            Some(parser) => template_of(
                text@,
                entity_views(entities@),
                commands.explain_extended@,
                commands.prefix,
                compatibility,
            ) == Some((parser.template(), parser.fallback())),
            None => template_of(
                text@,
                entity_views(entities@),
                commands.explain_extended@,
                commands.prefix,
                compatibility,
            ) is None,
        },
{
    let explain = EXPLAIN_COMMAND;
    let (skip, fallback): (usize, bool) = if starts_with(text, commands.explain_extended.as_str()) {
        match commands.explain_extended.as_str().unicode_len().checked_add(1) {
            Some(skip) => (skip, true),
            None => {
                return None;
            },
        }
    } else if starts_with(text, explain) {
        match explain.unicode_len().checked_add(1) {
            Some(skip) => (skip, true),
            None => {
                return None;
            },
        }
    } else if text.unicode_len() < 2 {
        return None;
    } else {
        let chr = text.get_char(1);
        if chr as u32 >= 0x80 {
            (1, !compatibility)
        } else if chr == commands.prefix {
            (2, !compatibility)
        } else {
            (1, false)
        }
    };
    match Segments::build(text, entities).drain_head(skip) {
        Some(segments) => Some(Parser::new(segments, fallback)),
        None => None,
    }
}

/// The program with a reference to the sender and a space before it, where
/// it asks for no argument at all.
fn address(program: Formatter) -> (r: Formatter)
    ensures
        r@ == addressed(program@),
{
    if program.indexed_holes() == 0 && program.named_holes().is_empty() {
        let Formatter { data, indexed, named } = program;
        let ghost before = token_views(data@);
        let mut data = data;
        proof {
            reveal_strlit("sender");
        }
        data.insert(0, Token::Segment(Segment::empty()));
        data.insert(
            0,
            Token::Hole { kind: KindSet::new(), ident: HoleIdent::Named(String::from_str("sender")) },
        );
        proof {
            assert(token_views(data@) =~= seq![
                TokenView::Hole { kind: Set::empty(), ident: IdentView::Named("sender"@) },
                TokenView::Segment(SegmentView { kind: Set::empty(), text: seq![' '] }),
            ] + before);
        }
        Formatter { data, indexed, named }
    } else {
        program
    }
}

/// The reply to `msg`; or why there is none. `compatibility` says whether
/// the chat has asked that templates without holes be left alone.
pub fn process(
    bot_user: &User,
    booking: &mut ReplyBooking,
    msg: &Message,
    commands: &Commands,
    compatibility: bool,
) -> (r: Result<Segments, Error>)
    requires
        old(booking).wf(),
        msg@.text is Some && msg@.entities is Some ==> within(
            msg@.entities->0,
            utf16_len(msg@.text->0) as int,
        ),
    ensures
        final(booking).wf(),
        final(booking)@ == if reaches_ledger(msg@) {
            ledger_after(bot_user@, old(booking)@, msg@)
        } else {
            old(booking)@
        },
        reply_of(r) == processed(
            bot_user@,
            old(booking)@,
            msg@,
            commands.explain_extended@,
            commands.prefix,
            compatibility,
        ),
{
    let text = match &msg.text {
        Some(text) => text.as_str(),
        None => {
            return Err(Error::ShouldNotHandle);
        },
    };
    let entities = match &msg.entities {
        Some(entities) => entities.as_slice(),
        None => {
            return Err(Error::ShouldNotHandle);
        },
    };
    proof {
        reveal_strlit("/");
        assert("/"@ =~= seq!['/']);
    }
    if !starts_with(text, "/") {
        return Err(Error::ShouldNotHandle);
    }
    let fmt_ctx = match build_format_ctx(bot_user, booking, msg) {
        Ok(ctx) => ctx,
        Err(e) => {
            return Err(e);
        },
    };
    let parser = match route(text, entities, commands, compatibility) {
        Some(parser) => parser,
        None => {
            return Err(Error::ShouldNotHandle);
        },
    };
    let formatter = match parser.try_as_formatter() {
        Ok(formatter) => formatter,
        Err(e) => {
            return Err(e);
        },
    };
    match address(formatter).format(&fmt_ctx) {
        Ok(reply) => Ok(reply),
        Err(e) => Err(Error::Format(e)),
    }
}

} // verus!
