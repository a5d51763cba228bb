//! The wire form of a chunked body, and the laws that tie the parser to
//! it: what is written in chunks is read back as it was written.

use vstd::prelude::*;
use crate::body::{body_of, chunk_end, chunked_body, fixed_body, framing_of, BodyFramingDecision};
use crate::bytes::{CR, LF};
use crate::config::ParserConfig;
use crate::error::{Halt, ParseError};
use crate::fields::{collect, lemma_collect_into_append, Fields, Pairs};
use crate::header::{header_section, Section};
use crate::line::{lemma_scan_line_crlf, scan_line};
use crate::number::{hex_size, is_hex, spec_is_hex_digit};
use crate::request::{request_of, RequestModel};
use crate::request_line::{is_method, is_target, is_version};
use crate::wire::{
    crlf, field_lines, field_lines_size, lemma_assemble, lemma_head_round_trip,
    lemma_header_section_round_trip, request_head, request_line, stored, writable_within,
};

verus! {

/// Chunks as they are written: each is its size line and its data.
pub type Chunks = Seq<(Seq<u8>, Seq<u8>)>;

/// One chunk as it is written: the line with its size, the data, and a
/// line end.
pub open spec fn chunk(part: (Seq<u8>, Seq<u8>)) -> Seq<u8> {
    part.0 + crlf() + part.1 + crlf()
}

/// Chunks written one after the other.
#[verifier::opaque]
pub open spec fn chunks(parts: Chunks) -> Seq<u8>
    decreases parts.len(),
{
    if parts.len() == 0 {
        Seq::empty()
    } else {
        chunk(parts[0]) + chunks(parts.drop_first())
    }
}

/// The data of the chunks, joined in their order.
#[verifier::opaque]
pub open spec fn chunks_data(parts: Chunks) -> Seq<u8>
    decreases parts.len(),
{
    if parts.len() == 0 {
        Seq::empty()
    } else {
        parts[0].1 + chunks_data(parts.drop_first())
    }
}

/// A chunk that can be written: it holds data, and its size line spells
/// the length of the data and is no longer than a line may be.
pub open spec fn chunk_writable(part: (Seq<u8>, Seq<u8>), max_line: int) -> bool {
    &&& part.1.len() > 0
    &&& part.1.len() <= usize::MAX
    &&& hex_size(part.0) == Some(part.1.len() as usize)
    &&& part.0.len() <= max_line
}

/// Chunks that can all be written.
#[verifier::opaque]
pub open spec fn chunks_writable(parts: Chunks, max_line: int) -> bool {
    forall|i: int| 0 <= i < parts.len() ==> chunk_writable(#[trigger] parts[i], max_line)
}

/// The line of the last chunk: a size line that spells zero.
pub open spec fn last_chunk_line(line: Seq<u8>, max_line: int) -> bool {
    hex_size(line) == Some(0usize) && line.len() <= max_line
}

/// A size line that is followed by CR LF is read back as it is.
proof fn lemma_size_line(
    before: Seq<u8>,
    line: Seq<u8>,
    after: Seq<u8>,
    eof: bool,
    max_line: int,
)
    requires
        is_hex(line),
        line.len() <= max_line,
    ensures
        scan_line(before + line + crlf() + after, before.len() as int, eof, max_line) == Ok::<
            Option<(int, int)>,
            Halt,
        >(Some(((before.len() + line.len()) as int, (before.len() + line.len() + 2) as int))),
        (before + line + crlf() + after).subrange(
            before.len() as int,
            (before.len() + line.len()) as int,
        ) == line,
{
    assert forall|i: int| 0 <= i < line.len() implies line[i] != LF by {
        assert(spec_is_hex_digit(line[i]));
    }
    lemma_scan_line_crlf(before, line, after, eof, max_line);
}

/// One written chunk is read as its data, up to the start of the next
/// chunk.
proof fn lemma_chunk_read(
    before: Seq<u8>,
    part: (Seq<u8>, Seq<u8>),
    after: Seq<u8>,
    eof: bool,
    max_line: int,
)
    requires
        chunk_writable(part, max_line),
    ensures
        ({
            let s = before + chunk(part) + after;
            let pos = before.len() as int;
            let data_at = pos + part.0.len() + 2;
            let data_end = data_at + part.1.len();
            &&& scan_line(s, pos, eof, max_line) == Ok::<Option<(int, int)>, Halt>(
                Some((pos + part.0.len(), data_at)),
            )
            &&& s.subrange(pos, pos + part.0.len()) == part.0
            &&& fixed_body(s, data_at, eof, part.1.len() as int) == Ok::<(Seq<u8>, int), Halt>(
                (part.1, data_end),
            )
            &&& chunk_end(s, data_end, eof) == Ok::<int, Halt>(data_end + 2)
            &&& data_end + 2 == pos + chunk(part).len()
        }),
{
    let (size, data) = part;
    let s = before + chunk(part) + after;
    let pos = before.len() as int;
    let data_at = pos + size.len() + 2;
    let data_end = data_at + data.len();
    let tail = data + crlf() + after;
    assert(s =~= before + size + crlf() + tail);
    lemma_size_line(before, size, tail, eof, max_line);
    assert(s.subrange(data_at, data_end) =~= data);
    assert(s[data_end] == CR);
    assert(s[data_end + 1] == LF);
}

/// The written chunks, seen from the start of the first chunk and from
/// the start of the second.
proof fn lemma_chunks_split(
    before: Seq<u8>,
    parts: Chunks,
    last: Seq<u8>,
    after: Seq<u8>,
    acc: Seq<u8>,
)
    requires
        parts.len() > 0,
    ensures
        ({
            let s = before + chunks(parts) + last + crlf() + after;
            let rest = parts.drop_first();
            let tail = chunks(rest) + last + crlf() + after;
            &&& s == before + chunk(parts[0]) + tail
            &&& s == (before + chunk(parts[0])) + chunks(rest) + last + crlf() + after
            &&& (acc + parts[0].1) + chunks_data(rest) == acc + chunks_data(parts)
            &&& (before + chunk(parts[0])).len() == before.len() + chunk(parts[0]).len()
            &&& chunks(parts).len() == chunk(parts[0]).len() + chunks(rest).len()
        }),
{
    reveal(chunks);
    reveal(chunks_data);
    let s = before + chunks(parts) + last + crlf() + after;
    let rest = parts.drop_first();
    let tail = chunks(rest) + last + crlf() + after;
    assert(s =~= before + chunk(parts[0]) + tail);
    assert(s =~= (before + chunk(parts[0])) + chunks(rest) + last + crlf() + after);
    assert((acc + parts[0].1) + chunks_data(rest) =~= acc + chunks_data(parts));
}

/// Reading one chunk that holds data leads on to the next chunk.
proof fn lemma_chunked_body_step(
    s: Seq<u8>,
    pos: int,
    eof: bool,
    max_line: int,
    acc: Seq<u8>,
    line: (int, int),
    data: Seq<u8>,
    resume: int,
)
    requires
        0 <= pos <= resume <= s.len(),
        data.len() > 0,
        data.len() <= usize::MAX,
        scan_line(s, pos, eof, max_line) == Ok::<Option<(int, int)>, Halt>(Some(line)),
        hex_size(s.subrange(pos, line.0)) == Some(data.len() as usize),
        fixed_body(s, line.1, eof, data.len() as int) == Ok::<(Seq<u8>, int), Halt>(
            (data, resume - 2),
        ),
        chunk_end(s, resume - 2, eof) == Ok::<int, Halt>(resume),
    ensures
        chunked_body(s, pos, eof, max_line, acc) == chunked_body(
            s,
            resume,
            eof,
            max_line,
            acc + data,
        ),
{
}

/// A body written in chunks is read back as the data of the chunks,
/// joined in their order, and reading ends right after the line of the
/// last chunk, whatever follows.
pub proof fn lemma_chunked_body_round_trip(
    before: Seq<u8>,
    parts: Chunks,
    last: Seq<u8>,
    after: Seq<u8>,
    eof: bool,
    max_line: int,
    acc: Seq<u8>,
)
    requires
        chunks_writable(parts, max_line),
        last_chunk_line(last, max_line),
    ensures
        chunked_body(
            before + chunks(parts) + last + crlf() + after,
            before.len() as int,
            eof,
            max_line,
            acc,
        ) == Ok::<(Seq<u8>, int), Halt>(
            (
                acc + chunks_data(parts),
                (before.len() + chunks(parts).len() + last.len() + 2) as int,
            ),
        ),
    decreases parts.len(),
{
    reveal(chunks_writable);
    let s = before + chunks(parts) + last + crlf() + after;
    let pos = before.len() as int;
    if parts.len() == 0 {
        assert(s == before + last + crlf() + after && acc + chunks_data(parts) == acc
            && chunks(parts).len() == 0) by {
            reveal(chunks);
            reveal(chunks_data);
            assert(s =~= before + last + crlf() + after);
            assert(acc + chunks_data(parts) =~= acc);
        }
        lemma_size_line(before, last, after, eof, max_line);
    } else {
        let first = parts[0];
        let rest = parts.drop_first();
        let tail = chunks(rest) + last + crlf() + after;
        let before2 = before + chunk(first);
        assert(chunk_writable(first, max_line));
        assert forall|i: int| 0 <= i < rest.len() implies chunk_writable(
            #[trigger] rest[i],
            max_line,
        ) by {
            assert(rest[i] == parts[i + 1]);
        }
        lemma_chunks_split(before, parts, last, after, acc);
        lemma_chunk_read(before, first, tail, eof, max_line);
        lemma_chunked_body_step(
            s,
            pos,
            eof,
            max_line,
            acc,
            (pos + first.0.len(), pos + first.0.len() + 2),
            first.1,
            before2.len() as int,
        );
        lemma_chunked_body_round_trip(
            before2,
            rest,
            last,
            after,
            eof,
            max_line,
            acc + first.1,
        );
    }
}

/// What the steps of reading a chunked body and its trailers add up to.
proof fn lemma_chunked_body_of(
    s: Seq<u8>,
    pos: int,
    eof: bool,
    cfg: ParserConfig,
    fields: Fields,
    count: nat,
    bytes: nat,
    framed: (Seq<u8>, int),
    closing: Section,
)
    requires
        framing_of(fields) == Ok::<BodyFramingDecision, ParseError>(BodyFramingDecision::Chunked),
        chunked_body(s, pos, eof, cfg.max_line_length as int, Seq::<u8>::empty()) == Ok::<
            (Seq<u8>, int),
            Halt,
        >(framed),
        header_section(s, framed.1, eof, cfg, fields, count, bytes) == Ok::<Section, Halt>(
            closing,
        ),
    ensures
        body_of(s, pos, eof, cfg, fields, count, bytes) == Ok::<
            (Fields, Option<Seq<u8>>, int),
            Halt,
        >((closing.0, Some(framed.0), closing.1)),
{
}

/// A request with a chunked body as it is written, followed by whatever
/// comes after it: the head, the chunks, the line of the last chunk, the
/// trailers, and the empty line that ends them.
pub open spec fn chunked_request(
    head: Seq<u8>,
    parts: Chunks,
    last: Seq<u8>,
    trailers: Pairs,
    after: Seq<u8>,
) -> Seq<u8> {
    head + chunks(parts) + last + crlf() + field_lines(trailers) + crlf() + after
}

/// The written request, seen from each of the places where a part of it
/// begins.
proof fn lemma_chunked_request_parts(
    head: Seq<u8>,
    parts: Chunks,
    last: Seq<u8>,
    trailers: Pairs,
    after: Seq<u8>,
)
    ensures
        ({
            let s = chunked_request(head, parts, last, trailers, after);
            let framed = chunks(parts) + last + crlf();
            let closing = field_lines(trailers) + crlf() + after;
            &&& s == head + (framed + closing)
            &&& s == head + chunks(parts) + last + crlf() + closing
            &&& s == (head + framed) + field_lines(trailers) + crlf() + after
            &&& framed.len() == chunks(parts).len() + last.len() + 2
            &&& Seq::<u8>::empty() + chunks_data(parts) == chunks_data(parts)
        }),
{
    let s = chunked_request(head, parts, last, trailers, after);
    let framed = chunks(parts) + last + crlf();
    let closing = field_lines(trailers) + crlf() + after;
    assert(s =~= head + (framed + closing));
    assert(s =~= head + chunks(parts) + last + crlf() + closing);
    assert(s =~= (head + framed) + field_lines(trailers) + crlf() + after);
    assert(Seq::<u8>::empty() + chunks_data(parts) =~= chunks_data(parts));
}

/// A request with a chunked body, written out as the protocol
/// prescribes, is parsed back into what was written: the body is the
/// data of the chunks joined in their order, and the trailers are
/// collected into the header map after the header fields.
pub proof fn lemma_chunked_request_round_trip(
    method: Seq<u8>,
    target: Seq<u8>,
    version: Seq<u8>,
    pairs: Pairs,
    parts: Chunks,
    last: Seq<u8>,
    trailers: Pairs,
    after: Seq<u8>,
    eof: bool,
    cfg: ParserConfig,
)
    requires
        is_method(method),
        is_target(target),
        is_version(version),
        request_line(method, target, version).len() <= cfg.max_line_length,
        writable_within(pairs, cfg, 0, 0),
        writable_within(trailers, cfg, pairs.len(), field_lines_size(pairs)),
        framing_of(collect(stored(pairs))) == Ok::<BodyFramingDecision, ParseError>(
            BodyFramingDecision::Chunked,
        ),
        chunks_writable(parts, cfg.max_line_length as int),
        last_chunk_line(last, cfg.max_line_length as int),
    ensures
        request_of(
            chunked_request(
                request_head(method, target, version, pairs),
                parts,
                last,
                trailers,
                after,
            ),
            eof,
            cfg,
        ) == Ok::<(RequestModel, int), Halt>(
            (
                RequestModel {
                    method,
                    target,
                    version,
                    headers: collect(stored(pairs) + stored(trailers)),
                    body: Some(chunks_data(parts)),
                },
                (request_head(method, target, version, pairs).len() + chunks(parts).len()
                    + last.len() + 2 + field_lines(trailers).len() + 2) as int,
            ),
        ),
{
    let first = request_line(method, target, version);
    let head = request_head(method, target, version, pairs);
    let framed = chunks(parts) + last + crlf();
    let closing = field_lines(trailers) + crlf() + after;
    let s = chunked_request(head, parts, last, trailers, after);
    let fields = collect(stored(pairs));
    let body_end = (head.len() + framed.len()) as int;
    lemma_chunked_request_parts(head, parts, last, trailers, after);
    lemma_head_round_trip(method, target, version, pairs, framed + closing, eof, cfg);
    lemma_chunked_body_round_trip(
        head,
        parts,
        last,
        closing,
        eof,
        cfg.max_line_length as int,
        Seq::empty(),
    );
    lemma_header_section_round_trip(
        head + framed,
        trailers,
        after,
        eof,
        cfg,
        fields,
        pairs.len(),
        field_lines_size(pairs),
    );
    lemma_collect_into_append(Seq::empty(), stored(pairs), stored(trailers));
    let merged = collect(stored(pairs) + stored(trailers));
    let end = body_end + field_lines(trailers).len() + 2;
    lemma_chunked_body_of(
        s,
        head.len() as int,
        eof,
        cfg,
        fields,
        pairs.len(),
        field_lines_size(pairs),
        (chunks_data(parts), body_end),
        (
            merged,
            end,
            pairs.len() + trailers.len(),
            field_lines_size(pairs) + field_lines_size(trailers),
        ),
    );
    lemma_assemble(
        s,
        eof,
        cfg,
        first.len() as int,
        (method, target, version),
        (fields, head.len() as int, pairs.len(), field_lines_size(pairs)),
        (merged, Some(chunks_data(parts)), end),
    );
}

} // verus!
