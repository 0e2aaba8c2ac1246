//! From runs to a template program.

pub mod curly;
pub mod naive;

use crate::error::{Error, ErrorView};
use crate::formatter::{formatted, ContextView, Formatter, FormatterView};
use crate::parser::curly::curly;
use crate::parser::naive::{law_naive_always_formats, naive};
use crate::segments::{SegmentView, Segments};
use vstd::prelude::*;

verus! {

pub use crate::error::Parse as ParseError;
pub use crate::parser::curly::parse as parse_curly;
pub use crate::parser::naive::parse as parse_naive;

/// A template and whether it may be read without holes.
pub struct Parser {
    input: Segments,
    try_naive: bool,
}

/// How a template is read: as written where it has holes; else by the
/// fallback where that is allowed; else not at all.
pub open spec fn reading(segs: Seq<SegmentView>, try_naive: bool) -> Result<FormatterView, ErrorView> {
    match curly(segs) {
        Err(e) => Err(ErrorView::Parse(e)),
        Ok(program) => if program.indexed > 0 || !program.named.is_empty() {
            Ok(program)
        } else if try_naive {
            Ok(naive(segs))
        } else {
            Err(ErrorView::ShouldNotHandle)
        },
    }
}

/// The value of what `try_as_formatter` returns.
pub open spec fn read(r: Result<Formatter, Error>) -> Result<FormatterView, ErrorView> {
    match r {
        Ok(f) => Ok(f@),
        Err(e) => Err(e@),
    }
}

impl Parser {
    pub fn new(input: Segments, try_naive: bool) -> (r: Self)
        ensures
            r.template() == input@,
            r.fallback() == try_naive,
    {
        Self { input, try_naive }
    }

    /// The runs of the template.
    pub closed spec fn template(&self) -> Seq<SegmentView> {
        self.input@
    }

    /// Whether the template may be read without holes.
    pub closed spec fn fallback(&self) -> bool {
        self.try_naive
    }

    /// Reads the template as a program.
    pub fn try_as_formatter(&self) -> (r: Result<Formatter, Error>)
        ensures
            read(r) == reading(self.template(), self.fallback()),
    {
        match crate::parser::curly::parse(&self.input) {
            Err(e) => Err(Error::Parse(e)),
            Ok(with_curly) => {
                if with_curly.indexed_holes() > 0 || !with_curly.named_holes().is_empty() {
                    Ok(with_curly)
                } else if self.try_naive {
                    Ok(crate::parser::naive::parse(&self.input))
                } else {
                    Err(Error::ShouldNotHandle)
                }
            },
        }
    }
}

/// A template without holes that may be read by the fallback is read by it,
/// and what is read is filled without error by every context that holds a
/// sender and a receiver.
pub proof fn law_fallback_always_formats(segs: Seq<SegmentView>, ctx: ContextView)
    requires
        curly(segs) matches Ok(program) && program.indexed == 0 && program.named.is_empty(),
        ctx.indexed.len() >= 2,
    ensures
        reading(segs, true) == Ok::<FormatterView, ErrorView>(naive(segs)),
        formatted(naive(segs), ctx) is Ok,
{
    law_naive_always_formats(segs, ctx);
}

} // verus!
