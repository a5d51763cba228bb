//! Body framing: how the headers say the body is delimited, and the
//! extraction of exactly that body from the stream.

use vstd::prelude::*;
use vstd::string::*;
use crate::bytes::{
    eq_ignore_case, find, find_byte, is_lower_case, lemma_find, lemma_find_is, lemma_trim_is,
    lower_seq, trim_bounds, trim_ows, COMMA, CR, LF,
};
use crate::error::{Halt, ParseError};
use crate::config::ParserConfig;
use crate::fields::{
    collect, fields_wf, lemma_collect_lookup, lemma_lower_seq, lookup, values_of, Fields, Pairs,
};
use crate::header::{
    header_section, lemma_header_section, lemma_header_section_stable, read_headers,
};
use crate::header_map::{values_view, HeaderMap};
use crate::line::{lemma_scan_line, lemma_scan_line_stable, next_line, scan_line};
use crate::number::{decimal_size, hex_size, parse_decimal, parse_hex};

verus! {

/// How the body of a request is delimited. It follows from the headers
/// alone, never from the method.
#[derive(Debug, Clone, Copy, PartialEq, Eq, Structural)]
pub enum BodyFramingDecision {
    /// The request has no body.
    NoBody,
    /// The body is the given number of bytes.
    FixedLength(usize),
    /// The body is a sequence of chunks, each with its size in front.
    Chunked,
}

/// The bytes of a text made of ASCII characters.
pub open spec fn ascii_bytes(text: Seq<char>) -> Seq<u8> {
    Seq::new(text.len(), |i: int| text[i] as u8)
}

/// The stored name of the `Transfer-Encoding` header.
pub open spec fn transfer_encoding_name() -> Seq<u8> {
    ascii_bytes("transfer-encoding"@)
}

/// The stored name of the `Content-Length` header.
pub open spec fn content_length_name() -> Seq<u8> {
    ascii_bytes("content-length"@)
}

/// The name of the chunked transfer coding.
pub open spec fn chunked_word() -> Seq<u8> {
    ascii_bytes("chunked"@)
}

fn transfer_encoding_key() -> (r: &'static [u8])
    ensures
        r@ == transfer_encoding_name(),
        is_lower_case(r@),
{
    let text = "transfer-encoding";
    let r = text.as_bytes();
    proof {
        reveal_strlit("transfer-encoding");
        is_ascii_spec_bytes(text);
        assert(is_ascii(text));
        assert(r@ =~= transfer_encoding_name());
    }
    r
}

fn content_length_key() -> (r: &'static [u8])
    ensures
        r@ == content_length_name(),
        is_lower_case(r@),
{
    let text = "content-length";
    let r = text.as_bytes();
    proof {
        reveal_strlit("content-length");
        is_ascii_spec_bytes(text);
        assert(is_ascii(text));
        assert(r@ =~= content_length_name());
    }
    r
}

fn chunked_key() -> (r: &'static [u8])
    ensures
        r@ == chunked_word(),
{
    let text = "chunked";
    let r = text.as_bytes();
    proof {
        reveal_strlit("chunked");
        is_ascii_spec_bytes(text);
        assert(is_ascii(text));
        assert(r@ =~= chunked_word());
    }
    r
}

/// Whether an element of the comma-separated list `value`, from `from`
/// on, is the word `chunked`, in any case and with any optional
/// whitespace around it.
pub open spec fn lists_chunked(value: Seq<u8>, from: int) -> bool
    decreases value.len() - from,
    when 0 <= from <= value.len()
{
    let c = find(value, COMMA, from);
    if lower_seq(trim_ows(value.subrange(from, c))) == chunked_word() {
        true
    } else if c < value.len() {
        proof {
            lemma_find(value, COMMA, from);
        }
        lists_chunked(value, c + 1)
    } else {
        false
    }
}

/// The plain value `chunked` lists `chunked`.
pub proof fn lemma_chunked_is_listed()
    ensures
        lists_chunked(chunked_word(), 0),
{
    reveal_strlit("chunked");
    let word = chunked_word();
    assert(word.len() == 7);
    lemma_find_is(word, COMMA, 0, 7);
    assert(word.subrange(0, 7) =~= word);
    lemma_trim_is(word, 0, 7);
    assert(lower_seq(word) =~= word);
}

/// Whether any of the values lists `chunked`.
pub open spec fn any_lists_chunked(values: Seq<Seq<u8>>) -> bool {
    exists|k: int| 0 <= k < values.len() && lists_chunked(#[trigger] values[k], 0)
}

/// The length that the values of `Content-Length` declare: each must be
/// a decimal number that fits the machine, and all must agree.
pub open spec fn declared_length(values: Seq<Seq<u8>>) -> Option<usize> {
    if values.len() > 0 && decimal_size(values[0]) is Some && forall|k: int|
        0 <= k < values.len() ==> decimal_size(#[trigger] values[k]) == decimal_size(values[0]) {
        decimal_size(values[0])
    } else {
        None
    }
}

/// The framing that the headers call for.
///
/// `Transfer-Encoding` together with `Content-Length` is refused as
/// ambiguous, whatever either says. Otherwise a `Transfer-Encoding` that
/// lists `chunked` gives chunked framing, a `Content-Length` gives a body
/// of that length, and anything else gives no body.
pub open spec fn framing_of(fields: Fields) -> Result<BodyFramingDecision, ParseError> {
    let encodings = lookup(fields, transfer_encoding_name());
    let lengths = lookup(fields, content_length_name());
    if encodings is Some && lengths is Some {
        Err(ParseError::AmbiguousFraming)
    } else if encodings is Some && any_lists_chunked(encodings.unwrap()) {
        Ok(BodyFramingDecision::Chunked)
    } else if lengths is Some {
        match declared_length(lengths.unwrap()) {
            Some(n) => Ok(BodyFramingDecision::FixedLength(n)),
            None => Err(ParseError::InvalidContentLength),
        }
    } else {
        Ok(BodyFramingDecision::NoBody)
    }
}

/// The framing that header lines call for, told from the lines
/// themselves, given as pairs of stored name and value: both framing
/// headers among them are refused as ambiguous; otherwise the lines of
/// `Transfer-Encoding` decide if one of them lists `chunked`, then those
/// of `Content-Length`, and without either there is no body.
pub proof fn lemma_framing_of_pairs(pairs: Pairs)
    ensures
        framing_of(collect(pairs)) == ({
            let encodings = values_of(pairs, transfer_encoding_name());
            let lengths = values_of(pairs, content_length_name());
            if encodings.len() > 0 && lengths.len() > 0 {
                Err::<BodyFramingDecision, ParseError>(ParseError::AmbiguousFraming)
            } else if encodings.len() > 0 && any_lists_chunked(encodings) {
                Ok(BodyFramingDecision::Chunked)
            } else if lengths.len() > 0 {
                match declared_length(lengths) {
                    Some(n) => Ok(BodyFramingDecision::FixedLength(n)),
                    None => Err(ParseError::InvalidContentLength),
                }
            } else {
                Ok(BodyFramingDecision::NoBody)
            }
        }),
{
    lemma_collect_lookup(pairs, transfer_encoding_name());
    lemma_collect_lookup(pairs, content_length_name());
}

/// The framing is refused as ambiguous exactly when both headers are
/// present; what they say plays no part.
pub proof fn lemma_ambiguous_framing(fields: Fields)
    ensures
        framing_of(fields) == Err::<BodyFramingDecision, ParseError>(
            ParseError::AmbiguousFraming,
        ) <==> (lookup(fields, transfer_encoding_name()) is Some && lookup(
            fields,
            content_length_name(),
        ) is Some),
        framing_of(fields) matches Err(e) ==> e == ParseError::AmbiguousFraming || e
            == ParseError::InvalidContentLength,
{
}

fn value_lists_chunked(value: &[u8]) -> (r: bool)
    ensures
        r == lists_chunked(value@, 0),
{
    let word = chunked_key();
    let mut from: usize = 0;
    loop
        invariant
            0 <= from <= value.len(),
            word@ == chunked_word(),
            lists_chunked(value@, 0) == lists_chunked(value@, from as int),
        decreases value.len() - from,
    {
        let c = find_byte(value, COMMA, from);
        let (a, b) = trim_bounds(value, from, c);
        if eq_ignore_case(value, a, b, word) {
            return true;
        }
        if c >= value.len() {
            return false;
        }
        from = c + 1;
    }
}

fn values_list_chunked(values: &Vec<Vec<u8>>) -> (r: bool)
    ensures
        r == any_lists_chunked(values_view(values@)),
{
    let ghost model = values_view(values@);
    let mut k: usize = 0;
    while k < values.len()
        invariant
            0 <= k <= values.len(),
            model == values_view(values@),
            forall|i: int| 0 <= i < k ==> !lists_chunked(#[trigger] model[i], 0),
        decreases values.len() - k,
    {
        assert(model[k as int] == values@[k as int]@);
        if value_lists_chunked(values[k].as_slice()) {
            return true;
        }
        k = k + 1;
    }
    false
}

fn values_declare_length(values: &Vec<Vec<u8>>) -> (r: Option<usize>)
    ensures
        r == declared_length(values_view(values@)),
{
    let ghost model = values_view(values@);
    assert(model.len() == values@.len() && forall|i: int|
        0 <= i < model.len() ==> #[trigger] model[i] == values@[i]@);
    if values.len() == 0 {
        return None;
    }
    match parse_decimal(values[0].as_slice()) {
        None => None,
        Some(n) => {
            let mut k: usize = 1;
            while k < values.len()
                invariant
                    1 <= k <= values.len(),
                    model == values_view(values@),
                    model.len() == values@.len(),
                    forall|i: int| 0 <= i < model.len() ==> #[trigger] model[i] == values@[i]@,
                    decimal_size(model[0]) == Some(n),
                    forall|i: int|
                        0 <= i < k ==> decimal_size(#[trigger] model[i]) == decimal_size(
                            model[0],
                        ),
                decreases values.len() - k,
            {
                match parse_decimal(values[k].as_slice()) {
                    None => {
                        assert(decimal_size(model[k as int]) != decimal_size(model[0]));
                        return None;
                    },
                    Some(m) => {
                        if m != n {
                            assert(decimal_size(model[k as int]) != decimal_size(model[0]));
                            return None;
                        }
                    },
                }
                k = k + 1;
            }
            Some(n)
        },
    }
}

/// Decides the framing of the body from the headers; see [`framing_of`].
pub fn decide_framing(headers: &HeaderMap) -> (r: Result<BodyFramingDecision, ParseError>)
    ensures
        r == framing_of(headers@),
{
    let encoding_key = transfer_encoding_key();
    let length_key = content_length_key();
    proof {
        lemma_lower_seq(encoding_key@);
        lemma_lower_seq(length_key@);
    }
    let encodings = headers.get(encoding_key);
    let lengths = headers.get(length_key);
    match (encodings, lengths) {
        (Some(_), Some(_)) => Err(ParseError::AmbiguousFraming),
        (Some(values), None) => {
            if values_list_chunked(values) {
                Ok(BodyFramingDecision::Chunked)
            } else {
                Ok(BodyFramingDecision::NoBody)
            }
        },
        (None, Some(values)) => {
            match values_declare_length(values) {
                Some(n) => Ok(BodyFramingDecision::FixedLength(n)),
                None => Err(ParseError::InvalidContentLength),
            }
        },
        (None, None) => Ok(BodyFramingDecision::NoBody),
    }
}

/// A body of exactly `n` bytes at `pos`, and the position after it. Too
/// few bytes mean a truncated body once the input has ended, and a
/// request for more before that.
pub open spec fn fixed_body(s: Seq<u8>, pos: int, eof: bool, n: int) -> Result<
    (Seq<u8>, int),
    Halt,
> {
    if pos + n <= s.len() {
        Ok((s.subrange(pos, pos + n), pos + n))
    } else if eof {
        Err(Halt::Failed(ParseError::TruncatedBody))
    } else {
        Err(Halt::NeedMore)
    }
}

/// Extracts a body of exactly `n` bytes; see [`fixed_body`].
pub fn read_fixed(input: &[u8], pos: usize, eof: bool, n: usize) -> (r: Result<
    (Vec<u8>, usize),
    Halt,
>)
    requires
        pos <= input.len(),
    ensures
        match r {
            Ok((body, next)) => fixed_body(input@, pos as int, eof, n as int) == Ok::<
                (Seq<u8>, int),
                Halt,
            >((body@, next as int)) && pos <= next <= input.len(),
            Err(h) => fixed_body(input@, pos as int, eof, n as int) == Err::<
                (Seq<u8>, int),
                Halt,
            >(h),
        },
{
    if n <= input.len() - pos {
        let body = vstd::slice::slice_to_vec(vstd::slice::slice_subrange(input, pos, pos + n));
        Ok((body, pos + n))
    } else if eof {
        Err(Halt::Failed(ParseError::TruncatedBody))
    } else {
        Err(Halt::NeedMore)
    }
}

/// The line end that follows the data of a chunk, which has to be CR LF.
/// Gives the position after it.
pub open spec fn chunk_end(s: Seq<u8>, pos: int, eof: bool) -> Result<int, Halt> {
    let len = s.len() as int;
    if pos + 1 < len {
        if s[pos] == CR && s[pos + 1] == LF {
            Ok(pos + 2)
        } else {
            Err(Halt::Failed(ParseError::MalformedChunkSize))
        }
    } else if pos < len && s[pos] != CR {
        Err(Halt::Failed(ParseError::MalformedChunkSize))
    } else if eof {
        Err(Halt::Failed(ParseError::TruncatedBody))
    } else {
        Err(Halt::NeedMore)
    }
}

fn read_chunk_end(input: &[u8], pos: usize, eof: bool) -> (r: Result<usize, Halt>)
    requires
        pos <= input.len(),
    ensures
        match r {
            Ok(next) => chunk_end(input@, pos as int, eof) == Ok::<int, Halt>(next as int) && pos
                < next <= input.len(),
            Err(h) => chunk_end(input@, pos as int, eof) == Err::<int, Halt>(h),
        },
{
    let len = input.len();
    if pos < len && len - pos > 1 {
        if input[pos] == CR && input[pos + 1] == LF {
            Ok(pos + 2)
        } else {
            Err(Halt::Failed(ParseError::MalformedChunkSize))
        }
    } else if pos < len && input[pos] != CR {
        Err(Halt::Failed(ParseError::MalformedChunkSize))
    } else if eof {
        Err(Halt::Failed(ParseError::TruncatedBody))
    } else {
        Err(Halt::NeedMore)
    }
}

/// A chunked body from `pos` on, appended to `acc`, and the position
/// after the line of the last chunk, where the trailers begin.
///
/// Each chunk is a line that holds its size in hexadecimal digits and
/// nothing else, that many bytes of data, and CR LF. A size of zero ends
/// the body. A size line that is not a size gives `MalformedChunkSize`,
/// and so does data that is not followed by CR LF; the input ending
/// anywhere before the last chunk gives `TruncatedBody`.
pub open spec fn chunked_body(s: Seq<u8>, pos: int, eof: bool, max_line: int, acc: Seq<u8>)
    -> Result<(Seq<u8>, int), Halt>
    decreases s.len() - pos,
    when 0 <= pos <= s.len()
{
    match scan_line(s, pos, eof, max_line) {
        Err(h) => Err(h),
        Ok(None) => Err(Halt::Failed(ParseError::TruncatedBody)),
        Ok(Some((end, next))) => match hex_size(s.subrange(pos, end)) {
            None => Err(Halt::Failed(ParseError::MalformedChunkSize)),
            Some(size) => if size == 0 {
                Ok((acc, next))
            } else {
                match fixed_body(s, next, eof, size as int) {
                    Err(h) => Err(h),
                    Ok((data, after)) => match chunk_end(s, after, eof) {
                        Err(h) => Err(h),
                        Ok(resume) => {
                            proof {
                                lemma_scan_line(s, pos, eof, max_line);
                            }
                            chunked_body(s, resume, eof, max_line, acc + data)
                        },
                    },
                }
            },
        },
    }
}

/// A chunked body that was read ends after where it began and inside the
/// input. Reading asks for more input only while the input has not ended,
/// and fails only in the three ways a chunked body can fail.
pub proof fn lemma_chunked_body(s: Seq<u8>, pos: int, eof: bool, max_line: int, acc: Seq<u8>)
    requires
        0 <= pos <= s.len(),
    ensures
        match chunked_body(s, pos, eof, max_line, acc) {
            Ok((body, next)) => pos < next <= s.len() && acc.len() <= body.len(),
            Err(Halt::NeedMore) => !eof,
            Err(Halt::Failed(e)) => e == ParseError::LineTooLong || e
                == ParseError::TruncatedBody || e == ParseError::MalformedChunkSize,
        },
    decreases s.len() - pos,
{
    lemma_scan_line(s, pos, eof, max_line);
    match scan_line(s, pos, eof, max_line) {
        Ok(Some((end, next))) => match hex_size(s.subrange(pos, end)) {
            Some(size) => if size != 0 {
                match fixed_body(s, next, eof, size as int) {
                    Ok((data, after)) => match chunk_end(s, after, eof) {
                        Ok(resume) => {
                            lemma_chunked_body(s, resume, eof, max_line, acc + data);
                        },
                        Err(_) => {},
                    },
                    Err(_) => {},
                }
            },
            None => {},
        },
        _ => {},
    }
}

/// Once a chunked body has been read, or refused, without waiting for the
/// end of the input, bytes that arrive later change nothing.
pub proof fn lemma_chunked_body_stable(
    s: Seq<u8>,
    more: Seq<u8>,
    pos: int,
    eof: bool,
    max_line: int,
    acc: Seq<u8>,
)
    requires
        0 <= pos <= s.len(),
        chunked_body(s, pos, false, max_line, acc) != Err::<(Seq<u8>, int), Halt>(
            Halt::NeedMore,
        ),
    ensures
        chunked_body(s + more, pos, eof, max_line, acc) == chunked_body(
            s,
            pos,
            false,
            max_line,
            acc,
        ),
    decreases s.len() - pos,
{
    let t = s + more;
    lemma_scan_line(s, pos, false, max_line);
    lemma_scan_line_stable(s, more, pos, eof, max_line);
    match scan_line(s, pos, false, max_line) {
        Ok(Some((end, next))) => {
            assert(t.subrange(pos, end) =~= s.subrange(pos, end));
            match hex_size(s.subrange(pos, end)) {
                Some(size) => if size != 0 {
                    match fixed_body(s, next, false, size as int) {
                        Ok((data, after)) => {
                            assert(t.subrange(next, after) =~= s.subrange(next, after));
                            if after < s.len() {
                                assert(t[after] == s[after]);
                            }
                            if after + 1 < s.len() {
                                assert(t[after + 1] == s[after + 1]);
                            }
                            match chunk_end(s, after, false) {
                                Ok(resume) => {
                                    lemma_chunked_body_stable(
                                        s,
                                        more,
                                        resume,
                                        eof,
                                        max_line,
                                        acc + data,
                                    );
                                },
                                Err(_) => {},
                            }
                        },
                        Err(_) => {},
                    }
                },
                None => {},
            }
        },
        _ => {},
    }
}

/// Extracts a chunked body; see [`chunked_body`].
#[verifier::loop_isolation(false)]
pub fn read_chunked(input: &[u8], pos: usize, eof: bool, max_line_length: usize) -> (r: Result<
    (Vec<u8>, usize),
    Halt,
>)
    requires
        pos <= input.len(),
    ensures
        match r {
            Ok((body, next)) => chunked_body(
                input@,
                pos as int,
                eof,
                max_line_length as int,
                Seq::<u8>::empty(),
            ) == Ok::<(Seq<u8>, int), Halt>((body@, next as int)) && pos < next <= input.len(),
            Err(h) => chunked_body(
                input@,
                pos as int,
                eof,
                max_line_length as int,
                Seq::<u8>::empty(),
            ) == Err::<(Seq<u8>, int), Halt>(h),
        },
{
    let ghost whole = chunked_body(
        input@,
        pos as int,
        eof,
        max_line_length as int,
        Seq::<u8>::empty(),
    );
    let mut body: Vec<u8> = Vec::new();
    let mut at: usize = pos;
    loop
        invariant
            pos <= at <= input.len(),
            whole == chunked_body(input@, at as int, eof, max_line_length as int, body@),
        decreases input.len() - at,
    {
        match next_line(input, at, eof, max_line_length) {
            Err(h) => {
                return Err(h);
            },
            Ok(None) => {
                return Err(Halt::Failed(ParseError::TruncatedBody));
            },
            Ok(Some((end, next))) => {
                match parse_hex(vstd::slice::slice_subrange(input, at, end)) {
                    None => {
                        return Err(Halt::Failed(ParseError::MalformedChunkSize));
                    },
                    Some(size) => {
                        if size == 0 {
                            return Ok((body, next));
                        }
                        match read_fixed(input, next, eof, size) {
                            Err(h) => {
                                return Err(h);
                            },
                            Ok((mut data, after)) => {
                                match read_chunk_end(input, after, eof) {
                                    Err(h) => {
                                        return Err(h);
                                    },
                                    Ok(resume) => {
                                        body.append(&mut data);
                                        at = resume;
                                    },
                                }
                            },
                        }
                    },
                }
            },
        }
    }
}

/// What follows the header section of a request: the body that the
/// headers call for, if any, and the position after it. The result holds
/// the header map as well, because the trailers that may follow a chunked
/// body are read like headers and added to it; they count against the
/// limits that the headers have already used up to `count` and `bytes`.
pub open spec fn body_of(
    s: Seq<u8>,
    pos: int,
    eof: bool,
    cfg: ParserConfig,
    fields: Fields,
    count: nat,
    bytes: nat,
) -> Result<(Fields, Option<Seq<u8>>, int), Halt> {
    match framing_of(fields) {
        Err(e) => Err(Halt::Failed(e)),
        Ok(BodyFramingDecision::NoBody) => Ok((fields, None, pos)),
        Ok(BodyFramingDecision::FixedLength(n)) => match fixed_body(s, pos, eof, n as int) {
            Err(h) => Err(h),
            Ok((body, next)) => Ok((fields, Some(body), next)),
        },
        Ok(BodyFramingDecision::Chunked) => match chunked_body(
            s,
            pos,
            eof,
            cfg.max_line_length as int,
            Seq::<u8>::empty(),
        ) {
            Err(h) => Err(h),
            Ok((body, trailers)) => match header_section(
                s,
                trailers,
                eof,
                cfg,
                fields,
                count,
                bytes,
            ) {
                Err(h) => Err(h),
                Ok((merged, next, _, _)) => Ok((merged, Some(body), next)),
            },
        },
    }
}

/// A body that was read ends inside the input and leaves a well-formed
/// map well formed. Reading asks for more input only while the input has
/// not ended, and never fails for a reason of the transport.
pub proof fn lemma_body_of(
    s: Seq<u8>,
    pos: int,
    eof: bool,
    cfg: ParserConfig,
    fields: Fields,
    count: nat,
    bytes: nat,
)
    requires
        0 <= pos <= s.len(),
    ensures
        match body_of(s, pos, eof, cfg, fields, count, bytes) {
            Ok((merged, body, next)) => pos <= next <= s.len() && (fields_wf(fields)
                ==> fields_wf(merged)),
            Err(Halt::NeedMore) => !eof,
            Err(Halt::Failed(e)) => e != ParseError::IoError && e != ParseError::Timeout && e
                != ParseError::MalformedRequestLine,
        },
{
    match framing_of(fields) {
        Ok(BodyFramingDecision::Chunked) => {
            lemma_chunked_body(s, pos, eof, cfg.max_line_length as int, Seq::<u8>::empty());
            match chunked_body(s, pos, eof, cfg.max_line_length as int, Seq::<u8>::empty()) {
                Ok((body, trailers)) => {
                    lemma_header_section(s, trailers, eof, cfg, fields, count, bytes);
                },
                Err(_) => {},
            }
        },
        _ => {},
    }
}

/// Once what follows the header section has been read, or refused,
/// without waiting for the end of the input, bytes that arrive later
/// change nothing.
pub proof fn lemma_body_of_stable(
    s: Seq<u8>,
    more: Seq<u8>,
    pos: int,
    eof: bool,
    cfg: ParserConfig,
    fields: Fields,
    count: nat,
    bytes: nat,
)
    requires
        0 <= pos <= s.len(),
        body_of(s, pos, false, cfg, fields, count, bytes) != Err::<
            (Fields, Option<Seq<u8>>, int),
            Halt,
        >(Halt::NeedMore),
    ensures
        body_of(s + more, pos, eof, cfg, fields, count, bytes) == body_of(
            s,
            pos,
            false,
            cfg,
            fields,
            count,
            bytes,
        ),
{
    let t = s + more;
    let max_line = cfg.max_line_length as int;
    match framing_of(fields) {
        Ok(BodyFramingDecision::FixedLength(n)) => {
            assert(t.subrange(pos, pos + n) =~= s.subrange(pos, pos + n));
        },
        Ok(BodyFramingDecision::Chunked) => {
            lemma_chunked_body(s, pos, false, max_line, Seq::<u8>::empty());
            lemma_chunked_body_stable(s, more, pos, eof, max_line, Seq::<u8>::empty());
            match chunked_body(s, pos, false, max_line, Seq::<u8>::empty()) {
                Ok((body, trailers)) => {
                    lemma_header_section_stable(s, more, trailers, eof, cfg, fields, count, bytes);
                },
                Err(_) => {},
            }
        },
        _ => {},
    }
}

/// Reads what follows the header section; see [`body_of`].
pub fn read_body(
    input: &[u8],
    pos: usize,
    eof: bool,
    config: &ParserConfig,
    headers: HeaderMap,
    count: usize,
    bytes: usize,
) -> (r: Result<(HeaderMap, Option<Vec<u8>>, usize), Halt>)
    requires
        pos <= input.len(),
    ensures
        match r {
            Ok((merged, body, next)) => body_of(
                input@,
                pos as int,
                eof,
                *config,
                headers@,
                count as nat,
                bytes as nat,
            ) == Ok::<(Fields, Option<Seq<u8>>, int), Halt>(
                (
                    merged@,
                    match body {
                        Some(b) => Some(b@),
                        None => None,
                    },
                    next as int,
                ),
            ) && pos <= next <= input.len(),
            Err(h) => body_of(
                input@,
                pos as int,
                eof,
                *config,
                headers@,
                count as nat,
                bytes as nat,
            ) == Err::<(Fields, Option<Seq<u8>>, int), Halt>(h),
        },
{
    match decide_framing(&headers) {
        Err(e) => Err(Halt::Failed(e)),
        Ok(BodyFramingDecision::NoBody) => Ok((headers, None, pos)),
        Ok(BodyFramingDecision::FixedLength(n)) => match read_fixed(input, pos, eof, n) {
            Err(h) => Err(h),
            Ok((body, next)) => Ok((headers, Some(body), next)),
        },
        Ok(BodyFramingDecision::Chunked) => match read_chunked(
            input,
            pos,
            eof,
            config.max_line_length,
        ) {
            Err(h) => Err(h),
            Ok((body, trailers)) => match read_headers(
                input,
                trailers,
                eof,
                config,
                headers,
                count,
                bytes,
            ) {
                Err(h) => Err(h),
                Ok((merged, next, _, _)) => Ok((merged, Some(body), next)),
            },
        },
    }
}

} // verus!
