//! The ways in which reading a request can end without a request.

use vstd::prelude::*;

verus! {

/// Why a request could not be parsed. Every kind is final for the request
/// at hand: nothing is retried, and the connection is no longer aligned on
/// a request boundary.
#[derive(Debug, Clone, Copy, PartialEq, Eq, Structural)]
pub enum ParseError {
    /// The transport reported an unrecoverable failure.
    IoError,
    /// A read did not complete before its deadline.
    Timeout,
    /// A line is longer than the configured maximum.
    LineTooLong,
    /// The first line is not `method SP target SP version`.
    MalformedRequestLine,
    /// The input ended before the empty line that closes a header section.
    TruncatedHeaders,
    /// A header line has no colon, or its name is empty or holds whitespace
    /// or control characters.
    MalformedHeaderLine,
    /// More header lines, or more header bytes, than configured.
    HeaderLimitExceeded,
    /// Both `Transfer-Encoding` and `Content-Length` are present.
    AmbiguousFraming,
    /// A chunk does not start with a hexadecimal size line, or its data is
    /// not followed by CR LF.
    MalformedChunkSize,
    /// The input ended inside the body.
    TruncatedBody,
    /// `Content-Length` is not a decimal number that fits the machine.
    InvalidContentLength,
}

/// Why parsing stopped short of a request: either the bytes at hand end
/// too early to decide and more may still come, or the request is refused.
#[derive(Debug, Clone, Copy, PartialEq, Eq, Structural)]
pub enum Halt {
    /// The input so far is a proper beginning; more bytes are needed.
    NeedMore,
    /// The request is refused for good.
    Failed(ParseError),
}

impl ParseError {
    /// The name of the kind, for messages.
    pub fn name(&self) -> (r: &'static str)
        ensures
            r@ == match *self {
                ParseError::IoError => "IoError"@,
                ParseError::Timeout => "Timeout"@,
                ParseError::LineTooLong => "LineTooLong"@,
                ParseError::MalformedRequestLine => "MalformedRequestLine"@,
                ParseError::TruncatedHeaders => "TruncatedHeaders"@,
                ParseError::MalformedHeaderLine => "MalformedHeaderLine"@,
                ParseError::HeaderLimitExceeded => "HeaderLimitExceeded"@,
                ParseError::AmbiguousFraming => "AmbiguousFraming"@,
                ParseError::MalformedChunkSize => "MalformedChunkSize"@,
                ParseError::TruncatedBody => "TruncatedBody"@,
                ParseError::InvalidContentLength => "InvalidContentLength"@,
            },
    {
        match self {
            ParseError::IoError => "IoError",
            ParseError::Timeout => "Timeout",
            ParseError::LineTooLong => "LineTooLong",
            ParseError::MalformedRequestLine => "MalformedRequestLine",
            ParseError::TruncatedHeaders => "TruncatedHeaders",
            ParseError::MalformedHeaderLine => "MalformedHeaderLine",
            ParseError::HeaderLimitExceeded => "HeaderLimitExceeded",
            ParseError::AmbiguousFraming => "AmbiguousFraming",
            ParseError::MalformedChunkSize => "MalformedChunkSize",
            ParseError::TruncatedBody => "TruncatedBody",
            ParseError::InvalidContentLength => "InvalidContentLength",
        }
    }
}

} // verus!
