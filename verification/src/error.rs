//! What can go wrong while a template is read and filled.

use vstd::prelude::*;

verus! {

/// A template refers to an argument that the context does not hold.
#[derive(Debug, PartialEq, Eq)]
pub enum Format {
    /// No argument stands at this index.
    InvalidIndex(usize),
    /// No argument has this name.
    InvalidKey(String),
}

/// Mathematical value of a [`Format`] error.
pub enum FormatView {
    InvalidIndex(int),
    InvalidKey(Seq<char>),
}

impl View for Format {
    type V = FormatView;

    open spec fn view(&self) -> FormatView {
        match *self {
            Format::InvalidIndex(i) => FormatView::InvalidIndex(i as int),
            Format::InvalidKey(k) => FormatView::InvalidKey(k@),
        }
    }
}

/// The braces of a template do not follow the grammar: at character
/// `position` of run `segment` neither a plain character, nor a doubled
/// brace, nor a hole begins.
#[derive(Debug, PartialEq, Eq, Clone, Copy)]
pub struct Parse {
    pub segment: usize,
    pub position: usize,
}

/// Why a message was not turned into a reply.
#[derive(Debug, PartialEq, Eq)]
pub enum Error {
    /// The message is not meant for this library: decline in silence.
    ShouldNotHandle,
    Format(Format),
    Parse(Parse),
}

/// Mathematical value of an [`Error`].
pub enum ErrorView {
    ShouldNotHandle,
    Format(FormatView),
    Parse(Parse),
}

impl View for Error {
    type V = ErrorView;

    open spec fn view(&self) -> ErrorView {
        match *self {
            Error::ShouldNotHandle => ErrorView::ShouldNotHandle,
            Error::Format(e) => ErrorView::Format(e@),
            Error::Parse(e) => ErrorView::Parse(e),
        }
    }
}

/// An error that is shown to the user.
#[derive(Debug, PartialEq, Eq)]
pub enum ExportedError {
    Format(Format),
    Parse(Parse),
}

impl From<Format> for Error {
    fn from(value: Format) -> (r: Self) {
        Error::Format(value)
    }
}

impl vstd::std_specs::convert::FromSpecImpl<Format> for Error {
    open spec fn obeys_from_spec() -> bool {
        true
    }

    open spec fn from_spec(value: Format) -> Error {
        Error::Format(value)
    }
}

impl From<Parse> for Error {
    fn from(value: Parse) -> (r: Self) {
        Error::Parse(value)
    }
}

impl vstd::std_specs::convert::FromSpecImpl<Parse> for Error {
    open spec fn obeys_from_spec() -> bool {
        true
    }

    open spec fn from_spec(value: Parse) -> Error {
        Error::Parse(value)
    }
}

impl From<Format> for ExportedError {
    fn from(value: Format) -> (r: Self) {
        ExportedError::Format(value)
    }
}

impl vstd::std_specs::convert::FromSpecImpl<Format> for ExportedError {
    open spec fn obeys_from_spec() -> bool {
        true
    }

    open spec fn from_spec(value: Format) -> ExportedError {
        ExportedError::Format(value)
    }
}

impl From<Parse> for ExportedError {
    fn from(value: Parse) -> (r: Self) {
        ExportedError::Parse(value)
    }
}

impl vstd::std_specs::convert::FromSpecImpl<Parse> for ExportedError {
    open spec fn obeys_from_spec() -> bool {
        true
    }

    open spec fn from_spec(value: Parse) -> ExportedError {
        ExportedError::Parse(value)
    }
}

/// The character that writes the digit `d`.
pub open spec fn digit_char(d: int) -> char {
    if d == 0 {
        '0'
    } else if d == 1 {
        '1'
    } else if d == 2 {
        '2'
    } else if d == 3 {
        '3'
    } else if d == 4 {
        '4'
    } else if d == 5 {
        '5'
    } else if d == 6 {
        '6'
    } else if d == 7 {
        '7'
    } else if d == 8 {
        '8'
    } else {
        '9'
    }
}

/// The number in decimal digits.
pub open spec fn decimal(n: nat) -> Seq<char>
    decreases n,
{
    if n < 10 {
        seq![digit_char(n as int)]
    } else {
        decimal(n / 10).push(digit_char((n % 10) as int))
    }
}

/// What the user is told of a hole that could not be filled.
pub open spec fn format_message(e: FormatView) -> Seq<char> {
    match e {
        FormatView::InvalidIndex(i) => "index "@ + decimal(i as nat) + " not found"@,
        FormatView::InvalidKey(k) => "key "@ + k + " not found"@,
    }
}

/// What the user is told of a template that leaves the grammar.
pub open spec fn parse_message(e: Parse) -> Seq<char> {
    "unexpected brace at character "@ + decimal(e.position as nat) + " of run "@ + decimal(
        e.segment as nat,
    )
}

/// What the user is told of an error.
pub open spec fn error_message(e: ErrorView) -> Seq<char> {
    match e {
        ErrorView::ShouldNotHandle => "this message is not intended to be handled by this bot"@,
        ErrorView::Format(f) => "format error: "@ + format_message(f),
        ErrorView::Parse(p) => "parse error: "@ + parse_message(p),
    }
}

fn digit_text(d: usize) -> (r: &'static str)
    requires
        d < 10,
    ensures
        r@ == seq![digit_char(d as int)],
{
    proof {
        reveal_strlit("0");
        reveal_strlit("1");
        reveal_strlit("2");
        reveal_strlit("3");
        reveal_strlit("4");
        reveal_strlit("5");
        reveal_strlit("6");
        reveal_strlit("7");
        reveal_strlit("8");
        reveal_strlit("9");
        assert("0"@ =~= seq!['0']);
        assert("1"@ =~= seq!['1']);
        assert("2"@ =~= seq!['2']);
        assert("3"@ =~= seq!['3']);
        assert("4"@ =~= seq!['4']);
        assert("5"@ =~= seq!['5']);
        assert("6"@ =~= seq!['6']);
        assert("7"@ =~= seq!['7']);
        assert("8"@ =~= seq!['8']);
        assert("9"@ =~= seq!['9']);
    }
    if d == 0 {
        "0"
    } else if d == 1 {
        "1"
    } else if d == 2 {
        "2"
    } else if d == 3 {
        "3"
    } else if d == 4 {
        "4"
    } else if d == 5 {
        "5"
    } else if d == 6 {
        "6"
    } else if d == 7 {
        "7"
    } else if d == 8 {
        "8"
    } else {
        "9"
    }
}

/// The number in decimal digits.
pub fn to_decimal(n: usize) -> (r: String)
    ensures
        r@ == decimal(n as nat),
    decreases n,
{
    if n < 10 {
        String::from_str(digit_text(n))
    } else {
        let mut r = to_decimal(n / 10);
        r.append(digit_text(n % 10));
        proof {
            assert(decimal((n / 10) as nat) + seq![digit_char((n % 10) as int)] =~= decimal(
                (n / 10) as nat,
            ).push(digit_char((n % 10) as int)));
        }
        r
    }
}

impl Format {
    /// What the user is told of the error.
    pub fn message(&self) -> (r: String)
        ensures
            r@ == format_message(self@),
    {
        match self {
            Format::InvalidIndex(i) => {
                let mut r = String::from_str("index ");
                r.append(to_decimal(*i).as_str());
                r.append(" not found");
                r
            },
            Format::InvalidKey(k) => {
                let mut r = String::from_str("key ");
                r.append(k.as_str());
                r.append(" not found");
                r
            },
        }
    }
}

impl Parse {
    /// What the user is told of the error.
    pub fn message(&self) -> (r: String)
        ensures
            r@ == parse_message(*self),
    {
        let mut r = String::from_str("unexpected brace at character ");
        r.append(to_decimal(self.position).as_str());
        r.append(" of run ");
        r.append(to_decimal(self.segment).as_str());
        r
    }
}

impl Error {
    /// What the user is told of the error.
    pub fn message(&self) -> (r: String)
        ensures
            r@ == error_message(self@),
    {
        match self {
            Error::ShouldNotHandle => String::from_str(
                "this message is not intended to be handled by this bot",
            ),
            Error::Format(e) => {
                let mut r = String::from_str("format error: ");
                r.append(e.message().as_str());
                r
            },
            Error::Parse(e) => {
                let mut r = String::from_str("parse error: ");
                r.append(e.message().as_str());
                r
            },
        }
    }
}

impl ExportedError {
    /// What the user is told of the error.
    pub fn message(&self) -> (r: String)
        ensures
            r@ == match *self {
                ExportedError::Format(e) => "format error: "@ + format_message(e@),
                ExportedError::Parse(e) => "parse error: "@ + parse_message(e),
            },
    {
        match self {
            ExportedError::Format(e) => {
                let mut r = String::from_str("format error: ");
                r.append(e.message().as_str());
                r
            },
            ExportedError::Parse(e) => {
                let mut r = String::from_str("parse error: ");
                r.append(e.message().as_str());
                r
            },
        }
    }
}

/// Sets apart the errors that say that a message is to be left alone.
pub trait ErrorExt<T> {
    /// The outcome, with the error that says that the message is to be left
    /// alone lifted out of it: that error fails the whole, any other result
    /// is handed on as it is.
    fn lift_should_not_handle(self) -> (r: Result<T, Error>)
        ensures
            self.lifts_to(r),
    ;

    /// Whether `r` is what lifting gives for `self`.
    spec fn lifts_to(self, r: Result<T, Error>) -> bool;
}

impl<T> ErrorExt<Result<T, Error>> for Result<T, Error> {
    open spec fn lifts_to(self, r: Result<Result<T, Error>, Error>) -> bool {
        match self {
            Ok(t) => r == Ok::<Result<T, Error>, Error>(Ok(t)),
            Err(Error::ShouldNotHandle) => r == Err::<Result<T, Error>, Error>(Error::ShouldNotHandle),
            Err(e) => r == Ok::<Result<T, Error>, Error>(Err(e)),
        }
    }

    fn lift_should_not_handle(self) -> (r: Result<Self, Error>) {
        match self {
            Ok(t) => Ok(Ok(t)),
            Err(Error::ShouldNotHandle) => Err(Error::ShouldNotHandle),
            Err(e) => Ok(Err(e)),
        }
    }
}

} // verus!
