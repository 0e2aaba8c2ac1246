//! Rich-text reply templates: runs of uniformly formatted text, the range
//! codec between runs and UTF-16 formatting ranges, the curly-brace template
//! engine, and the bounded ledger that links a message to its reply.

pub mod text;
pub mod user;
pub mod kind;
pub mod kind_set;
pub mod segments;
pub mod decode;
pub mod intervals;
pub mod encode;
pub mod error;
pub mod formatter;
pub mod parser;
pub mod ledger;
pub mod memory;
pub mod roundtrip;
pub mod process;
pub mod elaborator;
pub mod handlers;
