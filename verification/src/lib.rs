//! Verified parsing and framing of HTTP/1.1 requests.
//!
//! The parser turns the bytes received on a connection into one
//! [`ParsedHTTPRequest`]: request line, header fields, and the body that
//! the headers call for. It works on whatever has arrived so far and says
//! whether that is a whole request, the beginning of one, or something to
//! refuse. Every function states what it computes over plain sequences of
//! bytes, and Verus proves that it does.

pub mod body;
pub mod bytes;
pub mod config;
pub mod connection;
pub mod error;
pub mod fields;
pub mod header;
pub mod header_map;
pub mod line;
pub mod number;
pub mod request;
pub mod request_line;
pub mod wire;
pub mod wire_chunked;

pub use crate::body::BodyFramingDecision;
pub use crate::config::ParserConfig;
pub use crate::connection::{HTTPRequest, Poll, ReadEvent};
pub use crate::error::{Halt, ParseError};
pub use crate::header_map::HeaderMap;
pub use crate::request::ParsedHTTPRequest;
pub use crate::request_line::RequestLine;
