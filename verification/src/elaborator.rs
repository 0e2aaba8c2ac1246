//! The explanation of a reply: what came in, how it was read, and what
//! went out.

use crate::decode::{within, MessageEntity};
use crate::error::{error_message, Error};
use crate::kind::{FormatKind, KindView};
use crate::kind_set::KindSet;
use crate::process::Message;
use crate::segments::{flatten, segment_views, Segment, SegmentView, Segments};
use crate::text::utf16_len;
use vstd::prelude::*;

verus! {

/// A run of bold text.
pub open spec fn bold(text: Seq<char>) -> SegmentView {
    SegmentView { kind: set![KindView::Bold], text }
}

/// A run of code.
pub open spec fn code(text: Seq<char>) -> SegmentView {
    SegmentView { kind: set![KindView::Code], text }
}

/// What is told of an error.
pub open spec fn error_part(message: Seq<char>) -> Seq<SegmentView> {
    seq![bold("An error occurred while processing your template.\n"@), code(message)]
}

/// What is told of a message that came in: its text and ranges, and the
/// runs that were read from them.
pub open spec fn input_part(text: Seq<char>, entities: Seq<char>, parsed: Seq<char>) -> Seq<
    SegmentView,
> {
    seq![
        bold("Input:\n"@),
        code(text + "\n"@ + entities + "\n"@),
        bold("Parsed:\n"@),
        code(parsed + "\n"@),
    ]
}

/// What is told of a reply: its runs, and the text and ranges that go out.
pub open spec fn output_part(rendered: Seq<char>, text: Seq<char>, entities: Seq<char>) -> Seq<
    SegmentView,
> {
    seq![
        bold("Rendered:\n"@),
        code(rendered + "\n"@),
        bold("Output:\n"@),
        code(text + "\n"@ + entities),
    ]
}

fn bold_run(text: String) -> (r: Segment)
    ensures
        r@ == bold(text@),
{
    let mut kind = KindSet::new();
    kind.insert(FormatKind::Bold);
    Segment { kind, text }
}

fn code_run(text: String) -> (r: Segment)
    ensures
        r@ == code(text@),
{
    let mut kind = KindSet::new();
    kind.insert(FormatKind::Code);
    Segment { kind, text }
}

/// `format!` with `{:#?}`: the formatting ranges as their derived `Debug`
/// writes them out for a developer. Nothing is assumed of the text.
#[verifier::external_body]
fn dump_entities(entities: &[MessageEntity]) -> (r: String) {
    format!("{:#?}", entities)
}

/// `format!` with `{:#?}`: the runs as their derived `Debug` writes them out
/// for a developer. Nothing is assumed of the text.
#[verifier::external_body]
fn dump_segments(segments: &Segments) -> (r: String) {
    format!("{:#?}", segments)
}

/// What is told of an error with this message.
pub fn elaborate_error(message: &str) -> (r: Vec<Segment>)
    ensures
        segment_views(r@) == error_part(message@),
{
    let mut r: Vec<Segment> = Vec::new();
    r.push(bold_run(String::from_str("An error occurred while processing your template.\n")));
    r.push(code_run(String::from_str(message)));
    proof {
        assert(segment_views(r@) =~= error_part(message@));
    }
    r
}

/// What is told of a message that came in, given its ranges and the runs
/// read from them as a developer reads them.
pub fn elaborate_input(text: &str, entities: &str, parsed: &str) -> (r: Vec<Segment>)
    ensures
        segment_views(r@) == input_part(text@, entities@, parsed@),
{
    let mut input = String::from_str(text);
    input.append("\n");
    input.append(entities);
    input.append("\n");
    let mut read = String::from_str(parsed);
    read.append("\n");
    let mut r: Vec<Segment> = Vec::new();
    r.push(bold_run(String::from_str("Input:\n")));
    r.push(code_run(input));
    r.push(bold_run(String::from_str("Parsed:\n")));
    r.push(code_run(read));
    proof {
        assert(segment_views(r@) =~= input_part(text@, entities@, parsed@));
    }
    r
}

/// What is told of a reply, given its runs and the ranges that go out as a
/// developer reads them.
pub fn elaborate_output(rendered: &str, text: &str, entities: &str) -> (r: Vec<Segment>)
    ensures
        segment_views(r@) == output_part(rendered@, text@, entities@),
{
    let mut runs = String::from_str(rendered);
    runs.append("\n");
    let mut out = String::from_str(text);
    out.append("\n");
    out.append(entities);
    let mut r: Vec<Segment> = Vec::new();
    r.push(bold_run(String::from_str("Rendered:\n")));
    r.push(code_run(runs));
    r.push(bold_run(String::from_str("Output:\n")));
    r.push(code_run(out));
    proof {
        assert(segment_views(r@) =~= output_part(rendered@, text@, entities@));
    }
    r
}

/// What is told of the outcome of replying: the reply that goes out, or
/// the error.
pub open spec fn outcome_part(
    output: Result<Seq<SegmentView>, Seq<char>>,
    rendered: Seq<char>,
    sent: Seq<char>,
) -> Seq<SegmentView> {
    match output {
        Ok(reply) => output_part(rendered, flatten(reply), sent),
        Err(message) => error_part(message),
    }
}

/// Whether `r` explains a message of this text and the outcome of replying
/// to it: what came in, and then the reply that goes out or the error. How
/// ranges and runs are written out for a developer is left open.
pub open spec fn explains(
    r: Seq<SegmentView>,
    text: Seq<char>,
    output: Result<Seq<SegmentView>, Seq<char>>,
) -> bool {
    exists|entities: Seq<char>, parsed: Seq<char>, rendered: Seq<char>, sent: Seq<char>|
        r == #[trigger] input_part(text, entities, parsed) + #[trigger] outcome_part(
            output,
            rendered,
            sent,
        )
}

/// The outcome of replying, an error by its message.
pub open spec fn outcome_told(output: Result<Segments, Error>) -> Result<Seq<SegmentView>, Seq<char>> {
    match output {
        Ok(reply) => Ok(reply@),
        Err(e) => Err(error_message(e@)),
    }
}

/// The explanation of how `update` was read and what came of it.
pub fn elaborate(update: &Message, output: Result<Segments, Error>) -> (r: Segments)
    requires
        update@.text is Some,
        update@.entities is Some,
        within(update@.entities->0, utf16_len(update@.text->0) as int),
        output is Ok ==> utf16_len(flatten(output->Ok_0@)) <= usize::MAX,
    ensures
        explains(r@, update@.text->0, outcome_told(output)),
{
    let text = match &update.text {
        Some(text) => text.as_str(),
        None => "",
    };
    let none: Vec<MessageEntity> = Vec::new();
    let entities = match &update.entities {
        Some(entities) => entities.as_slice(),
        None => none.as_slice(),
    };
    let input = Segments::build(text, entities);
    let mut parts = elaborate_input(
        text,
        dump_entities(entities).as_str(),
        dump_segments(&input).as_str(),
    );
    let ghost first = segment_views(parts@);
    let ghost mut rendered: Seq<char> = Seq::empty();
    let ghost mut sent: Seq<char> = Seq::empty();
    let mut rest = match &output {
        Ok(reply) => {
            let runs = dump_segments(reply);
            let ranges = dump_entities(reply.entities().as_slice());
            proof {
                rendered = runs@;
                sent = ranges@;
            }
            elaborate_output(runs.as_str(), reply.text().as_str(), ranges.as_str())
        },
        Err(e) => elaborate_error(e.message().as_str()),
    };
    let ghost second = segment_views(rest@);
    parts.append(&mut rest);
    proof {
        assert(segment_views(parts@) =~= first + second);
        assert(second == outcome_part(outcome_told(output), rendered, sent));
    }
    Segments::from(parts)
}

} // verus!
