//! Limits that bound what one request may cost.

use vstd::prelude::*;

verus! {

/// The options the parser recognises.
#[derive(Debug, Clone, Copy, PartialEq, Eq, Structural)]
pub struct ParserConfig {
    /// Longest line accepted, counted without its line end.
    pub max_line_length: usize,
    /// Most header lines accepted in one request, trailers included.
    pub max_header_count: usize,
    /// Most bytes accepted in the header lines of one request, counted
    /// without line ends, trailers included.
    pub max_header_bytes: usize,
    /// Deadline of a single read on the transport, in milliseconds. The
    /// parser itself never waits; whoever reads for it applies this.
    pub read_timeout_ms: u64,
}

impl ParserConfig {
    /// The configuration with the given limits.
    pub fn new(
        max_line_length: usize,
        max_header_count: usize,
        max_header_bytes: usize,
        read_timeout_ms: u64,
    ) -> (c: ParserConfig)
        ensures
            c == (ParserConfig {
                max_line_length,
                max_header_count,
                max_header_bytes,
                read_timeout_ms,
            }),
    {
        ParserConfig { max_line_length, max_header_count, max_header_bytes, read_timeout_ms }
    }
}

} // verus!
