//! Errors of the query and render services.
use vstd::prelude::*;
use crate::number::IntErrorKind;
use crate::text::{decimal, decimal_string, push_str};
use crate::trusted::{duration_debug, duration_debug_text};

verus! {

/// Why a request parameter could not be read.
#[derive(Debug, Clone, PartialEq, Eq)]
pub enum ParseError {
    RenderFormat,
    /// The clock was before the epoch by this many seconds and nanoseconds.
    SystemTimeError(u64, u32),
    ParseIntError(IntErrorKind),
    EmptyString,
    Time,
    Query(String),
    Unknown,
    /// A glob pattern is invalid: position and message.
    Pattern(usize, String),
}

/// The message of an integer parse error (as `ParseIntError`'s `Display`).
pub open spec fn int_error_text(k: IntErrorKind) -> Seq<char> {
    match k {
        IntErrorKind::Empty => "cannot parse integer from empty string"@,
        IntErrorKind::InvalidDigit => "invalid digit found in string"@,
        IntErrorKind::PosOverflow => "number too large to fit in target type"@,
        IntErrorKind::NegOverflow => "number too small to fit in target type"@,
    }
}

/// The message of a clock error.
pub open spec fn clock_error_text(secs: u64, nanos: u32) -> Seq<char> {
    "Second time provided was later than self in duration "@ + duration_debug(secs, nanos % 1_000_000_000)
}

/// The message of a `ParseError`.
pub open spec fn parse_error_text(e: ParseError) -> Seq<char> {
    match e {
        ParseError::RenderFormat => "Format cannot be parsed"@,
        ParseError::Time => "Time cannot be parsed"@,
        ParseError::SystemTimeError(s, n) => clock_error_text(s, n),
        ParseError::ParseIntError(k) => int_error_text(k),
        ParseError::EmptyString => "Cannot parse empty string"@,
        ParseError::Query(m) => m@,
        ParseError::Unknown => "Unknown parse error"@,
        ParseError::Pattern(pos, m) => "Pattern syntax error near position "@ + decimal(pos as nat) + ": "@ + m@,
    }
}

/// The message of an integer parse error.
pub fn int_error_message(k: IntErrorKind) -> (r: String)
    ensures
        r@ == int_error_text(k),
{
    let mut m = String::new();
    match k {
        IntErrorKind::Empty => push_str(&mut m, "cannot parse integer from empty string"),
        IntErrorKind::InvalidDigit => push_str(&mut m, "invalid digit found in string"),
        IntErrorKind::PosOverflow => push_str(&mut m, "number too large to fit in target type"),
        IntErrorKind::NegOverflow => push_str(&mut m, "number too small to fit in target type"),
    }
    m
}

fn clock_error_message(secs: u64, nanos: u32) -> (r: String)
    ensures
        r@ == clock_error_text(secs, nanos),
{
    let mut m = String::new();
    push_str(&mut m, "Second time provided was later than self in duration ");
    let d = duration_debug_text(secs, nanos % 1_000_000_000);
    push_str(&mut m, d.as_str());
    m
}

impl ParseError {
    /// The text that describes the error.
    pub fn message(&self) -> (r: String)
        ensures
            r@ == parse_error_text(*self),
    {
        let mut m = String::new();
        match self {
            ParseError::RenderFormat => push_str(&mut m, "Format cannot be parsed"),
            ParseError::Time => push_str(&mut m, "Time cannot be parsed"),
            ParseError::SystemTimeError(s, n) => {
                return clock_error_message(*s, *n);
            },
            ParseError::ParseIntError(k) => {
                return int_error_message(*k);
            },
            ParseError::EmptyString => push_str(&mut m, "Cannot parse empty string"),
            ParseError::Query(q) => push_str(&mut m, q.as_str()),
            ParseError::Unknown => push_str(&mut m, "Unknown parse error"),
            ParseError::Pattern(pos, msg) => {
                push_str(&mut m, "Pattern syntax error near position ");
                let n = decimal_string(*pos as u64);
                push_str(&mut m, n.as_str());
                push_str(&mut m, ": ");
                push_str(&mut m, msg.as_str());
            },
        }
        m
    }

    /// The underlying integer error, for an integer parse error.
    pub fn source(&self) -> (r: Option<IntErrorKind>)
        ensures
            r == match *self {
                ParseError::ParseIntError(k) => Some(k),
                _ => None,
            },
    {
        match self {
            ParseError::ParseIntError(k) => Some(*k),
            _ => None,
        }
    }
}

/// Why a storage request failed.
#[derive(Debug, Clone, PartialEq, Eq)]
pub enum ResponseError {
    /// The clock was before the epoch by this many seconds and nanoseconds.
    SystemTime(u64, u32),
    NotFound,
    Path,
    Kind(String),
}

/// The message of a `ResponseError`.
pub open spec fn response_error_text(e: ResponseError) -> Seq<char> {
    match e {
        ResponseError::NotFound => "NotFound"@,
        ResponseError::Path => "PathError"@,
        ResponseError::SystemTime(s, n) => clock_error_text(s, n),
        ResponseError::Kind(m) => m@,
    }
}

impl ResponseError {
    /// The text that describes the error.
    pub fn message(&self) -> (r: String)
        ensures
            r@ == response_error_text(*self),
    {
        let mut m = String::new();
        match self {
            ResponseError::NotFound => push_str(&mut m, "NotFound"),
            ResponseError::Path => push_str(&mut m, "PathError"),
            ResponseError::SystemTime(s, n) => {
                return clock_error_message(*s, *n);
            },
            ResponseError::Kind(k) => push_str(&mut m, k.as_str()),
        }
        m
    }
}

/// Why a find request could not be turned into a search.
#[derive(Debug, Clone, Copy, PartialEq, Eq)]
pub enum FindError {
    Unknown,
    UnknownParse,
}

impl FindError {
    /// The text that describes the error.
    pub fn message(&self) -> (r: String)
        ensures
            r@ == match *self {
                FindError::Unknown => "Unknown error"@,
                FindError::UnknownParse => "Unknown parse error"@,
            },
    {
        let mut m = String::new();
        match self {
            FindError::Unknown => push_str(&mut m, "Unknown error"),
            FindError::UnknownParse => push_str(&mut m, "Unknown parse error"),
        }
        m
    }
}

} // verus!
