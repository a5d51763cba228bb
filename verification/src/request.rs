//! The request as a whole: the record that parsing produces, the assembler
//! that produces it, and the reader that follows one connection.

use vstd::prelude::*;
use vstd::string::*;
use crate::body::{
    body_of, chunked_body, framing_of, lemma_body_of, lemma_body_of_stable, lemma_chunked_body,
    read_body, BodyFramingDecision,
};
use crate::config::ParserConfig;
use crate::error::{Halt, ParseError};
use crate::bytes::{is_lower_case, is_trimmed};
use crate::fields::{
    collect, fields_wf, is_stored_name, lemma_collect_distinct, lemma_collect_into_append,
    lemma_collect_len, lemma_collect_lookup, lookup, names_distinct, pairs_wf, values_of, Fields,
    Pairs,
};
use crate::header::{
    header_section, lemma_header_count_limit, lemma_header_section, lemma_header_section_pairs,
    lemma_header_section_stable, overfull, read_headers, section_pairs,
};
use crate::header_map::HeaderMap;
use crate::line::{lemma_scan_line, lemma_scan_line_stable, next_line, scan_line};
use crate::request_line::{
    is_method, is_target, is_version, is_visible, lemma_request_line_shape, parse_request_line,
    request_line_parts,
};

verus! {

/// One parsed request.
#[derive(Debug, Clone, PartialEq, Eq)]
pub struct ParsedHTTPRequest {
    /// The method, as sent: `GET`, `POST`, or any other upper-case token.
    pub method: Vec<u8>,
    /// The protocol version, as sent: `HTTP/1.1` and the like.
    pub version: Vec<u8>,
    /// The request target, path and query, as sent.
    pub path: Vec<u8>,
    /// The header fields, trailers included.
    pub headers: HeaderMap,
    /// The body, where the headers call for one.
    pub body: Option<Vec<u8>>,
}

/// What a parsed request holds, as plain sequences.
pub struct RequestModel {
    pub method: Seq<u8>,
    pub target: Seq<u8>,
    pub version: Seq<u8>,
    pub headers: Fields,
    pub body: Option<Seq<u8>>,
}

impl View for ParsedHTTPRequest {
    type V = RequestModel;

    open spec fn view(&self) -> RequestModel {
        RequestModel {
            method: self.method@,
            target: self.path@,
            version: self.version@,
            headers: self.headers@,
            body: match self.body {
                Some(b) => Some(b@),
                None => None,
            },
        }
    }
}

/// The invariant of a request: a method and a version made of visible
/// characters and of the right shape, a target that is not empty and holds
/// no whitespace, and a well-formed header map.
pub open spec fn request_wf(m: RequestModel) -> bool {
    &&& is_method(m.method)
    &&& is_visible(m.method)
    &&& is_target(m.target)
    &&& is_version(m.version)
    &&& is_visible(m.version)
    &&& fields_wf(m.headers)
}

/// The request at the start of `s`, and the number of bytes it takes up.
///
/// The first line is the request line. The header lines follow, up to an
/// empty line, and then the body that the headers call for. `eof` tells
/// whether `s` is all there will ever be: if it is not, and `s` ends
/// before the request does, the result is `Halt::NeedMore`. The first
/// thing that is wrong with the request decides the error, and nothing
/// after it is looked at. An input that ends before its first line is
/// reported as `TruncatedHeaders`.
pub open spec fn request_of(s: Seq<u8>, eof: bool, cfg: ParserConfig) -> Result<
    (RequestModel, int),
    Halt,
> {
    match scan_line(s, 0, eof, cfg.max_line_length as int) {
        Err(h) => Err(h),
        Ok(None) => Err(Halt::Failed(ParseError::TruncatedHeaders)),
        Ok(Some((end, next))) => match request_line_parts(s.subrange(0, end)) {
            None => Err(Halt::Failed(ParseError::MalformedRequestLine)),
            Some((method, target, version)) => match header_section(
                s,
                next,
                eof,
                cfg,
                Seq::empty(),
                0,
                0,
            ) {
                Err(h) => Err(h),
                Ok((fields, body_at, count, bytes)) => match body_of(
                    s,
                    body_at,
                    eof,
                    cfg,
                    fields,
                    count,
                    bytes,
                ) {
                    Err(h) => Err(h),
                    Ok((merged, body, consumed)) => Ok(
                        (RequestModel { method, target, version, headers: merged, body }, consumed),
                    ),
                },
            },
        },
    }
}

/// A request that was parsed satisfies the invariant and takes up a
/// non-empty part of the input. Parsing asks for more input only while
/// the input has not ended, and never fails for a reason of the
/// transport.
pub proof fn lemma_request_of(s: Seq<u8>, eof: bool, cfg: ParserConfig)
    ensures
        match request_of(s, eof, cfg) {
            Ok((m, consumed)) => request_wf(m) && 0 < consumed <= s.len(),
            Err(Halt::NeedMore) => !eof,
            Err(Halt::Failed(e)) => e != ParseError::IoError && e != ParseError::Timeout,
        },
{
    lemma_scan_line(s, 0, eof, cfg.max_line_length as int);
    match scan_line(s, 0, eof, cfg.max_line_length as int) {
        Ok(Some((end, next))) => {
            let line = s.subrange(0, end);
            if request_line_parts(line) is Some {
                lemma_request_line_shape(line);
                lemma_header_section(s, next, eof, cfg, Seq::empty(), 0, 0);
                match header_section(s, next, eof, cfg, Seq::empty(), 0, 0) {
                    Ok((fields, body_at, count, bytes)) => {
                        lemma_body_of(s, body_at, eof, cfg, fields, count, bytes);
                    },
                    Err(_) => {},
                }
            }
        },
        _ => {},
    }
}

/// The header lines of the request at the start of `s`, as the pairs of
/// name and value that they give, in their order: those of the header
/// section, and after them those of the trailers of a chunked body.
pub open spec fn request_pairs(s: Seq<u8>, eof: bool, cfg: ParserConfig) -> Pairs {
    match scan_line(s, 0, eof, cfg.max_line_length as int) {
        Ok(Some((end, next))) => {
            let head = section_pairs(s, next, eof, cfg, 0, 0);
            match header_section(s, next, eof, cfg, Seq::empty(), 0, 0) {
                Ok((fields, body_at, count, bytes)) => match framing_of(fields) {
                    Ok(BodyFramingDecision::Chunked) => match chunked_body(
                        s,
                        body_at,
                        eof,
                        cfg.max_line_length as int,
                        Seq::<u8>::empty(),
                    ) {
                        Ok((_, trailers)) => head + section_pairs(
                            s,
                            trailers,
                            eof,
                            cfg,
                            count,
                            bytes,
                        ),
                        Err(_) => head,
                    },
                    _ => head,
                },
                Err(_) => head,
            }
        },
        _ => Seq::empty(),
    }
}

/// The header map of a parsed request is what its header lines give when
/// they are collected in their order, and there are no more lines than
/// the limit allows.
pub proof fn lemma_request_headers(s: Seq<u8>, eof: bool, cfg: ParserConfig)
    requires
        request_of(s, eof, cfg) is Ok,
    ensures
        request_of(s, eof, cfg).unwrap().0.headers == collect(request_pairs(s, eof, cfg)),
        pairs_wf(request_pairs(s, eof, cfg)),
        fields_wf(request_of(s, eof, cfg).unwrap().0.headers),
        request_pairs(s, eof, cfg).len() <= cfg.max_header_count,
{
    let max = cfg.max_line_length as int;
    lemma_scan_line(s, 0, eof, max);
    lemma_request_of(s, eof, cfg);
    match scan_line(s, 0, eof, max) {
        Ok(Some((end, next))) => {
            let head = section_pairs(s, next, eof, cfg, 0, 0);
            lemma_header_section(s, next, eof, cfg, Seq::empty(), 0, 0);
            lemma_header_section_pairs(s, next, eof, cfg, Seq::empty(), 0, 0);
            match header_section(s, next, eof, cfg, Seq::empty(), 0, 0) {
                Ok((fields, body_at, count, bytes)) => match framing_of(fields) {
                    Ok(BodyFramingDecision::Chunked) => {
                        lemma_chunked_body(s, body_at, eof, max, Seq::<u8>::empty());
                        match chunked_body(s, body_at, eof, max, Seq::<u8>::empty()) {
                            Ok((_, trailers)) => {
                                let tail = section_pairs(s, trailers, eof, cfg, count, bytes);
                                lemma_header_section(s, trailers, eof, cfg, fields, count, bytes);
                                lemma_header_section_pairs(
                                    s,
                                    trailers,
                                    eof,
                                    cfg,
                                    fields,
                                    count,
                                    bytes,
                                );
                                lemma_collect_into_append(Seq::empty(), head, tail);
                                assert forall|i: int|
                                    0 <= i < (head + tail).len() implies is_stored_name(
                                    (#[trigger] (head + tail)[i]).0,
                                ) && is_trimmed((head + tail)[i].1) by {
                                    if i < head.len() {
                                        assert((head + tail)[i] == head[i]);
                                    } else {
                                        assert((head + tail)[i] == tail[i - head.len()]);
                                    }
                                }
                            },
                            Err(_) => {},
                        }
                    },
                    _ => {},
                },
                Err(_) => {},
            }
        },
        _ => {},
    }
}

/// The header map of a parsed request has one entry for each different
/// name among its header lines. As many lines with as many different
/// names give exactly as many entries, one per line and in the order of
/// the lines; where names repeat there are fewer entries, and the values
/// of a repeated name are kept together in the order of their lines.
/// Every name is stored in lower case.
pub proof fn lemma_request_header_entries(s: Seq<u8>, eof: bool, cfg: ParserConfig)
    requires
        request_of(s, eof, cfg) is Ok,
    ensures
        ({
            let headers = request_of(s, eof, cfg).unwrap().0.headers;
            let pairs = request_pairs(s, eof, cfg);
            &&& names_distinct(pairs) ==> headers == Seq::new(
                pairs.len(),
                |i: int| (pairs[i].0, seq![pairs[i].1]),
            )
            &&& headers.len() <= pairs.len()
            &&& !names_distinct(pairs) ==> headers.len() < pairs.len()
            &&& forall|name: Seq<u8>| #[trigger]
                lookup(headers, name) == if values_of(pairs, name).len() > 0 {
                    Some(values_of(pairs, name))
                } else {
                    None
                }
            &&& forall|i: int| 0 <= i < headers.len() ==> is_lower_case((#[trigger] headers[i]).0)
        }),
{
    let pairs = request_pairs(s, eof, cfg);
    lemma_request_headers(s, eof, cfg);
    lemma_collect_len(pairs);
    if names_distinct(pairs) {
        lemma_collect_distinct(pairs);
    }
    assert forall|name: Seq<u8>| #[trigger]
        lookup(collect(pairs), name) == if values_of(pairs, name).len() > 0 {
            Some(values_of(pairs, name))
        } else {
            None
        } by {
        lemma_collect_lookup(pairs, name);
    }
}

/// Once a request has been parsed, or refused, without waiting for the
/// end of the input, bytes that arrive later change nothing: neither the
/// request, nor the number of bytes it takes up, nor the error. The
/// parser has decided on what it had read, and on nothing after it.
pub proof fn lemma_request_of_stable(s: Seq<u8>, more: Seq<u8>, eof: bool, cfg: ParserConfig)
    requires
        request_of(s, false, cfg) != Err::<(RequestModel, int), Halt>(Halt::NeedMore),
    ensures
        request_of(s + more, eof, cfg) == request_of(s, false, cfg),
{
    let max = cfg.max_line_length as int;
    lemma_scan_line(s, 0, false, max);
    lemma_scan_line_stable(s, more, 0, eof, max);
    match scan_line(s, 0, false, max) {
        Ok(Some((end, next))) => {
            assert((s + more).subrange(0, end) =~= s.subrange(0, end));
            if request_line_parts(s.subrange(0, end)) is Some {
                lemma_header_section(s, next, false, cfg, Seq::empty(), 0, 0);
                lemma_header_section_stable(s, more, next, eof, cfg, Seq::empty(), 0, 0);
                match header_section(s, next, false, cfg, Seq::empty(), 0, 0) {
                    Ok((fields, body_at, count, bytes)) => {
                        lemma_body_of_stable(s, more, body_at, eof, cfg, fields, count, bytes);
                    },
                    Err(_) => {},
                }
            }
        },
        _ => {},
    }
}

/// A request with more header lines than the limit allows is refused
/// with `HeaderLimitExceeded` as soon as the first line beyond the limit
/// has been read, whether or not the input has ended.
pub proof fn lemma_request_header_count_limit(s: Seq<u8>, eof: bool, cfg: ParserConfig)
    requires
        scan_line(s, 0, eof, cfg.max_line_length as int) matches Ok(Some((end, next)))
            && request_line_parts(s.subrange(0, end)) is Some && overfull(
            s,
            next,
            eof,
            cfg,
            0,
            cfg.max_header_count as nat,
        ),
    ensures
        request_of(s, eof, cfg) == Err::<(RequestModel, int), Halt>(
            Halt::Failed(ParseError::HeaderLimitExceeded),
        ),
{
    lemma_scan_line(s, 0, eof, cfg.max_line_length as int);
    match scan_line(s, 0, eof, cfg.max_line_length as int) {
        Ok(Some((end, next))) => {
            lemma_header_count_limit(s, next, eof, cfg, Seq::empty(), 0, 0);
        },
        _ => {},
    }
}

/// Parses the request at the start of `input`; see [`request_of`].
///
/// On success the second component is the number of bytes that the
/// request takes up: whatever follows belongs to the next request.
pub fn parse_request(input: &[u8], eof: bool, config: &ParserConfig) -> (r: Result<
    (ParsedHTTPRequest, usize),
    Halt,
>)
    ensures
        match r {
            Ok((request, consumed)) => request_of(input@, eof, *config) == Ok::<
                (RequestModel, int),
                Halt,
            >((request@, consumed as int)) && request_wf(request@) && 0 < consumed
                <= input.len(),
            Err(h) => request_of(input@, eof, *config) == Err::<(RequestModel, int), Halt>(h),
        },
        eof ==> r != Err::<(ParsedHTTPRequest, usize), Halt>(Halt::NeedMore),
{
    proof {
        lemma_request_of(input@, eof, *config);
    }
    let (end, next) = match next_line(input, 0, eof, config.max_line_length) {
        Err(h) => {
            return Err(h);
        },
        Ok(None) => {
            return Err(Halt::Failed(ParseError::TruncatedHeaders));
        },
        Ok(Some(found)) => found,
    };
    let parts = match parse_request_line(vstd::slice::slice_subrange(input, 0, end)) {
        Err(e) => {
            return Err(Halt::Failed(e));
        },
        Ok(parts) => parts,
    };
    let (headers, body_at, count, bytes) = match read_headers(
        input,
        next,
        eof,
        config,
        HeaderMap::new(),
        0,
        0,
    ) {
        Err(h) => {
            return Err(h);
        },
        Ok(section) => section,
    };
    match read_body(input, body_at, eof, config, headers, count, bytes) {
        Err(h) => Err(h),
        Ok((merged, body, consumed)) => Ok(
            (
                ParsedHTTPRequest {
                    method: parts.method,
                    version: parts.version,
                    path: parts.target,
                    headers: merged,
                    body,
                },
                consumed,
            ),
        ),
    }
}

/// Parses the request at the start of `input`, which is all the input
/// there is: the outcome is a request or an error, never a wait.
pub fn parse_complete(input: &[u8], config: &ParserConfig) -> (r: Result<
    (ParsedHTTPRequest, usize),
    ParseError,
>)
    ensures
        match r {
            Ok((request, consumed)) => request_of(input@, true, *config) == Ok::<
                (RequestModel, int),
                Halt,
            >((request@, consumed as int)) && request_wf(request@) && 0 < consumed
                <= input.len(),
            Err(e) => request_of(input@, true, *config) == Err::<(RequestModel, int), Halt>(
                Halt::Failed(e),
            ),
        },
{
    match parse_request(input, true, config) {
        Ok(done) => Ok(done),
        Err(Halt::Failed(e)) => Err(e),
        Err(Halt::NeedMore) => vstd::pervasive::unreached(),
    }
}

impl ParsedHTTPRequest {
    /// The request satisfies the invariant of requests.
    pub open spec fn wf(&self) -> bool {
        request_wf(self@)
    }

    /// Starts the record of a request from its request line. The whole of
    /// `request` is taken as the line, without a line end: it has to be a
    /// method, a target and a version with one space between them, and
    /// anything else is refused with `MalformedRequestLine`. The record has
    /// no headers and no body yet.
    pub fn new(request: &str) -> (r: Result<ParsedHTTPRequest, ParseError>)
        ensures
            match r {
                Ok(q) => request_line_parts(request.spec_bytes()) == Some(
                    (q@.method, q@.target, q@.version),
                ) && q@.headers == Seq::<(Seq<u8>, Seq<Seq<u8>>)>::empty() && q@.body
                    == None::<Seq<u8>> && q.wf(),
                Err(e) => e == ParseError::MalformedRequestLine && request_line_parts(
                    request.spec_bytes(),
                ) is None,
            },
    {
        match parse_request_line(request.as_bytes()) {
            Ok(parts) => {
                proof {
                    lemma_request_line_shape(request.spec_bytes());
                }
                Ok(
                    ParsedHTTPRequest {
                        method: parts.method,
                        version: parts.version,
                        path: parts.target,
                        headers: HeaderMap::new(),
                        body: None,
                    },
                )
            },
            Err(e) => Err(e),
        }
    }
}

} // verus!
