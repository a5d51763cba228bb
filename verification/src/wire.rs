//! The wire form of a request, and the laws that tie the parser to it:
//! a request that is written out as the protocol prescribes is parsed
//! back into what was written.

use vstd::prelude::*;
use crate::body::{body_of, framing_of, BodyFramingDecision};
use crate::bytes::{
    all_ows, is_lower_case, is_trimmed, lower_seq, spec_is_whitespace, COLON, CR, LF, SP,
};
use crate::config::ParserConfig;
use crate::error::{Halt, ParseError};
use crate::fields::{
    add_field, collect, collect_into, is_raw_name, lemma_collect_distinct, lemma_collect_into_front,
    lemma_collect_len, lemma_collect_lookup, lookup, names_distinct, values_of, Fields, Pairs,
};
use crate::header::{field_of_line, header_section, lemma_field_line_round_trip, Section};
use crate::line::{lemma_scan_line_crlf, scan_line};
use crate::request::{request_of, RequestModel};
use crate::request_line::{
    is_method, is_target, is_version, lemma_request_line_round_trip, request_line_parts,
    spec_is_method_byte,
};

verus! {

/// The line end that the protocol prescribes.
pub open spec fn crlf() -> Seq<u8> {
    seq![CR, LF]
}

/// A header field as it is written on a line: the name, a colon, a space
/// and the value.
pub open spec fn field_line(pair: (Seq<u8>, Seq<u8>)) -> Seq<u8> {
    pair.0 + seq![COLON, SP] + pair.1
}

/// Header fields written one per line, each line with its line end.
#[verifier::opaque]
pub open spec fn field_lines(pairs: Pairs) -> Seq<u8>
    decreases pairs.len(),
{
    if pairs.len() == 0 {
        Seq::empty()
    } else {
        field_line(pairs[0]) + crlf() + field_lines(pairs.drop_first())
    }
}

/// The bytes that the header lines take up, line ends not counted.
#[verifier::opaque]
pub open spec fn field_lines_size(pairs: Pairs) -> nat
    decreases pairs.len(),
{
    if pairs.len() == 0 {
        0
    } else {
        field_line(pairs[0]).len() + field_lines_size(pairs.drop_first())
    }
}

/// The request line as it is written.
pub open spec fn request_line(method: Seq<u8>, target: Seq<u8>, version: Seq<u8>) -> Seq<u8> {
    method + seq![SP] + target + seq![SP] + version
}

/// The head of a request as it is written: the request line, the header
/// lines, and the empty line that ends them.
pub open spec fn request_head(
    method: Seq<u8>,
    target: Seq<u8>,
    version: Seq<u8>,
    pairs: Pairs,
) -> Seq<u8> {
    request_line(method, target, version) + crlf() + field_lines(pairs) + crlf()
}

/// A field that can be written on a line of its own: a raw name, and a
/// trimmed value without a line feed in it.
pub open spec fn writable(pair: (Seq<u8>, Seq<u8>)) -> bool {
    &&& is_raw_name(pair.0)
    &&& is_trimmed(pair.1)
    &&& forall|i: int| 0 <= i < pair.1.len() ==> pair.1[i] != LF
}

/// Fields that can each be written on a line no longer than a line may
/// be.
#[verifier::opaque]
pub open spec fn lines_writable(pairs: Pairs, cfg: ParserConfig) -> bool {
    forall|i: int|
        0 <= i < pairs.len() ==> writable(#[trigger] pairs[i]) && field_line(pairs[i]).len()
            <= cfg.max_line_length
}

/// Fields that can be written as header lines within the limits, given
/// the number of lines and bytes that are used already.
pub open spec fn writable_within(pairs: Pairs, cfg: ParserConfig, count: nat, bytes: nat) -> bool {
    &&& lines_writable(pairs, cfg)
    &&& count + pairs.len() <= cfg.max_header_count
    &&& bytes + field_lines_size(pairs) <= cfg.max_header_bytes
}

/// What can be written of some fields can be written of all but the
/// first of them.
proof fn lemma_lines_writable_rest(pairs: Pairs, cfg: ParserConfig)
    requires
        lines_writable(pairs, cfg),
        pairs.len() > 0,
    ensures
        writable(pairs[0]),
        field_line(pairs[0]).len() <= cfg.max_line_length,
        lines_writable(pairs.drop_first(), cfg),
{
    reveal(lines_writable);
    let rest = pairs.drop_first();
    assert forall|i: int| 0 <= i < rest.len() implies writable(#[trigger] rest[i]) && field_line(
        rest[i],
    ).len() <= cfg.max_line_length by {
        assert(rest[i] == pairs[i + 1]);
    }
}

/// The fields as the header map stores them: names in lower case.
pub open spec fn stored(pairs: Pairs) -> Pairs {
    Seq::new(pairs.len(), |i: int| (lower_seq(pairs[i].0), pairs[i].1))
}

/// Header lines written within the limits, and closed by an empty line,
/// are read back as the fields that were written, in their order, with
/// the names in lower case; every line and every byte of them is counted,
/// and reading ends right after the empty line, whatever follows.
pub proof fn lemma_header_section_round_trip(
    before: Seq<u8>,
    pairs: Pairs,
    after: Seq<u8>,
    eof: bool,
    cfg: ParserConfig,
    fields: Fields,
    count: nat,
    bytes: nat,
)
    requires
        writable_within(pairs, cfg, count, bytes),
    ensures
        header_section(
            before + field_lines(pairs) + crlf() + after,
            before.len() as int,
            eof,
            cfg,
            fields,
            count,
            bytes,
        ) == Ok::<Section, Halt>(
            (
                collect_into(fields, stored(pairs)),
                (before.len() + field_lines(pairs).len() + 2) as int,
                count + pairs.len(),
                bytes + field_lines_size(pairs),
            ),
        ),
    decreases pairs.len(),
{
    reveal(field_lines);
    reveal(field_lines_size);
    let s = before + field_lines(pairs) + crlf() + after;
    let pos = before.len() as int;
    let max = cfg.max_line_length as int;
    if pairs.len() == 0 {
        let nothing = Seq::<u8>::empty();
        assert(s =~= before + nothing + seq![CR, LF] + after);
        lemma_scan_line_crlf(before, nothing, after, eof, max);
        assert(stored(pairs) =~= Seq::<(Seq<u8>, Seq<u8>)>::empty());
    } else {
        let first = pairs[0];
        let rest = pairs.drop_first();
        let line = field_line(first);
        let tail = field_lines(rest) + crlf() + after;
        assert(s =~= before + line + seq![CR, LF] + tail);
        lemma_lines_writable_rest(pairs, cfg);
        lemma_written_field_line(first);
        lemma_scan_line_crlf(before, line, tail, eof, max);
        let kept = (lower_seq(first.0), first.1);
        assert(field_of_line(s.subrange(pos, pos + line.len())) == Some(kept));
        let before2 = before + line + crlf();
        assert(s =~= before2 + field_lines(rest) + crlf() + after);
        lemma_header_section_round_trip(
            before2,
            rest,
            after,
            eof,
            cfg,
            add_field(fields, kept.0, kept.1),
            count + 1,
            (bytes + line.len()) as nat,
        );
        lemma_collect_into_front(fields, kept, stored(rest));
        assert(stored(pairs) =~= seq![kept] + stored(rest));
    }
}

/// A header line that can be written holds no line feed, and parses
/// back into its name in lower case and its value.
proof fn lemma_written_field_line(pair: (Seq<u8>, Seq<u8>))
    requires
        writable(pair),
    ensures
        forall|i: int| 0 <= i < field_line(pair).len() ==> field_line(pair)[i] != LF,
        field_of_line(field_line(pair)) == Some((lower_seq(pair.0), pair.1)),
        field_line(pair).len() > 0,
{
    let line = field_line(pair);
    assert forall|i: int| 0 <= i < line.len() implies line[i] != LF by {
        if i < pair.0.len() {
            assert(line[i] == pair.0[i]);
        } else if i >= pair.0.len() + 2 {
            assert(line[i] == pair.1[i - pair.0.len() - 2]);
        }
    }
    let lead = seq![SP];
    let nothing = Seq::<u8>::empty();
    assert(line =~= pair.0 + seq![COLON] + lead + pair.1 + nothing);
    assert(all_ows(lead));
    assert(all_ows(nothing));
    lemma_field_line_round_trip(pair.0, lead, pair.1, nothing);
}

/// Header lines beyond the limit on their number are refused with
/// `HeaderLimitExceeded` as soon as the first of them has been read.
/// What follows the lines plays no part, nor whether the input has
/// ended: the section need not even be closed.
pub proof fn lemma_header_lines_over_limit(
    before: Seq<u8>,
    pairs: Pairs,
    after: Seq<u8>,
    eof: bool,
    cfg: ParserConfig,
    fields: Fields,
    count: nat,
    bytes: nat,
)
    requires
        lines_writable(pairs, cfg),
        count <= cfg.max_header_count < count + pairs.len(),
    ensures
        header_section(
            before + field_lines(pairs) + after,
            before.len() as int,
            eof,
            cfg,
            fields,
            count,
            bytes,
        ) == Err::<Section, Halt>(Halt::Failed(ParseError::HeaderLimitExceeded)),
    decreases pairs.len(),
{
    reveal(field_lines);
    let s = before + field_lines(pairs) + after;
    let first = pairs[0];
    let rest = pairs.drop_first();
    let line = field_line(first);
    let tail = field_lines(rest) + after;
    lemma_lines_writable_rest(pairs, cfg);
    lemma_written_field_line(first);
    assert(s == before + line + seq![CR, LF] + tail) by {
        assert(s =~= before + line + seq![CR, LF] + tail);
    }
    lemma_scan_line_crlf(before, line, tail, eof, cfg.max_line_length as int);
    if count + 1 <= cfg.max_header_count && bytes + line.len() <= cfg.max_header_bytes {
        let before2 = before + line + crlf();
        assert(s == before2 + field_lines(rest) + after) by {
            assert(s =~= before2 + field_lines(rest) + after);
        }
        lemma_header_lines_over_limit(
            before2,
            rest,
            after,
            eof,
            cfg,
            add_field(fields, lower_seq(first.0), first.1),
            count + 1,
            (bytes + line.len()) as nat,
        );
    }
}

/// Header lines that take up more bytes than the limit on header bytes
/// allows are refused with `HeaderLimitExceeded` as soon as the line that
/// goes beyond the limit has been read. What follows the lines plays no
/// part, nor whether the input has ended.
pub proof fn lemma_header_lines_over_byte_limit(
    before: Seq<u8>,
    pairs: Pairs,
    after: Seq<u8>,
    eof: bool,
    cfg: ParserConfig,
    fields: Fields,
    count: nat,
    bytes: nat,
)
    requires
        lines_writable(pairs, cfg),
        bytes <= cfg.max_header_bytes < bytes + field_lines_size(pairs),
    ensures
        header_section(
            before + field_lines(pairs) + after,
            before.len() as int,
            eof,
            cfg,
            fields,
            count,
            bytes,
        ) == Err::<Section, Halt>(Halt::Failed(ParseError::HeaderLimitExceeded)),
    decreases pairs.len(),
{
    reveal(field_lines);
    reveal(field_lines_size);
    let s = before + field_lines(pairs) + after;
    let first = pairs[0];
    let rest = pairs.drop_first();
    let line = field_line(first);
    let tail = field_lines(rest) + after;
    lemma_lines_writable_rest(pairs, cfg);
    lemma_written_field_line(first);
    assert(s == before + line + seq![CR, LF] + tail) by {
        assert(s =~= before + line + seq![CR, LF] + tail);
    }
    lemma_scan_line_crlf(before, line, tail, eof, cfg.max_line_length as int);
    if count + 1 <= cfg.max_header_count && bytes + line.len() <= cfg.max_header_bytes {
        let before2 = before + line + crlf();
        assert(s == before2 + field_lines(rest) + after) by {
            assert(s =~= before2 + field_lines(rest) + after);
        }
        lemma_header_lines_over_byte_limit(
            before2,
            rest,
            after,
            eof,
            cfg,
            add_field(fields, lower_seq(first.0), first.1),
            count + 1,
            (bytes + line.len()) as nat,
        );
    }
}

/// A request whose header lines take up more bytes than the limit allows
/// is refused with `HeaderLimitExceeded` as soon as the line that goes
/// beyond the limit has been read, whatever follows and whether or not
/// the input has ended.
pub proof fn lemma_too_many_header_bytes(
    method: Seq<u8>,
    target: Seq<u8>,
    version: Seq<u8>,
    pairs: Pairs,
    after: Seq<u8>,
    eof: bool,
    cfg: ParserConfig,
)
    requires
        is_method(method),
        is_target(target),
        is_version(version),
        request_line(method, target, version).len() <= cfg.max_line_length,
        lines_writable(pairs, cfg),
        field_lines_size(pairs) > cfg.max_header_bytes,
    ensures
        request_of(
            request_line(method, target, version) + crlf() + field_lines(pairs) + after,
            eof,
            cfg,
        ) == Err::<(RequestModel, int), Halt>(Halt::Failed(ParseError::HeaderLimitExceeded)),
{
    let first = request_line(method, target, version);
    let s = first + crlf() + field_lines(pairs) + after;
    assert(s == first + crlf() + (field_lines(pairs) + after)) by {
        assert(s =~= first + crlf() + (field_lines(pairs) + after));
    }
    lemma_first_line(method, target, version, field_lines(pairs) + after, eof, cfg);
    lemma_header_lines_over_byte_limit(
        first + crlf(),
        pairs,
        after,
        eof,
        cfg,
        Seq::empty(),
        0,
        0,
    );
}

/// A request with more header lines than the limit allows is refused
/// with `HeaderLimitExceeded` as soon as the first line beyond the limit
/// has been read. Nothing after that line is read: whatever follows, and
/// whether or not the input has ended, the outcome is the same.
pub proof fn lemma_too_many_header_lines(
    method: Seq<u8>,
    target: Seq<u8>,
    version: Seq<u8>,
    pairs: Pairs,
    after: Seq<u8>,
    eof: bool,
    cfg: ParserConfig,
)
    requires
        is_method(method),
        is_target(target),
        is_version(version),
        request_line(method, target, version).len() <= cfg.max_line_length,
        lines_writable(pairs, cfg),
        pairs.len() > cfg.max_header_count,
    ensures
        request_of(
            request_line(method, target, version) + crlf() + field_lines(pairs) + after,
            eof,
            cfg,
        ) == Err::<(RequestModel, int), Halt>(Halt::Failed(ParseError::HeaderLimitExceeded)),
{
    let first = request_line(method, target, version);
    let s = first + crlf() + field_lines(pairs) + after;
    assert(s == first + crlf() + (field_lines(pairs) + after)) by {
        assert(s =~= first + crlf() + (field_lines(pairs) + after));
    }
    lemma_first_line(method, target, version, field_lines(pairs) + after, eof, cfg);
    lemma_header_lines_over_limit(first + crlf(), pairs, after, eof, cfg, Seq::empty(), 0, 0);
}

/// The written request line holds no line feed and parses back into its
/// three parts.
proof fn lemma_written_request_line(method: Seq<u8>, target: Seq<u8>, version: Seq<u8>)
    requires
        is_method(method),
        is_target(target),
        is_version(version),
    ensures
        forall|i: int|
            0 <= i < request_line(method, target, version).len() ==> request_line(
                method,
                target,
                version,
            )[i] != LF,
        request_line_parts(request_line(method, target, version)) == Some(
            (method, target, version),
        ),
{
    let first = request_line(method, target, version);
    assert forall|i: int| 0 <= i < first.len() implies first[i] != LF by {
        if i < method.len() {
            assert(first[i] == method[i]);
            assert(spec_is_method_byte(method[i]));
        } else if method.len() < i <= method.len() + target.len() {
            assert(first[i] == target[i - method.len() - 1]);
            assert(!spec_is_whitespace(target[i - method.len() - 1]));
        } else if i > method.len() + target.len() + 1 {
            assert(first[i] == version[i - method.len() - target.len() - 2]);
        }
    }
    lemma_request_line_round_trip(method, target, version);
}

/// The written request line, followed by its line end, is read as the
/// first line and parses back into its three parts.
proof fn lemma_first_line(
    method: Seq<u8>,
    target: Seq<u8>,
    version: Seq<u8>,
    tail: Seq<u8>,
    eof: bool,
    cfg: ParserConfig,
)
    requires
        is_method(method),
        is_target(target),
        is_version(version),
        request_line(method, target, version).len() <= cfg.max_line_length,
    ensures
        ({
            let first = request_line(method, target, version);
            let s = first + crlf() + tail;
            &&& scan_line(s, 0, eof, cfg.max_line_length as int) == Ok::<Option<(int, int)>, Halt>(
                Some((first.len() as int, (first.len() + 2) as int)),
            )
            &&& request_line_parts(s.subrange(0, first.len() as int)) == Some(
                (method, target, version),
            )
        }),
{
    let first = request_line(method, target, version);
    let s = first + crlf() + tail;
    let nothing = Seq::<u8>::empty();
    lemma_written_request_line(method, target, version);
    assert(s =~= nothing + first + seq![CR, LF] + tail);
    lemma_scan_line_crlf(nothing, first, tail, eof, cfg.max_line_length as int);
}

/// Reading the head of a written request: the request line is read and
/// parsed, and the header section gives the fields that were written and
/// ends where the head ends.
pub(crate) proof fn lemma_head_round_trip(
    method: Seq<u8>,
    target: Seq<u8>,
    version: Seq<u8>,
    pairs: Pairs,
    after: Seq<u8>,
    eof: bool,
    cfg: ParserConfig,
)
    requires
        is_method(method),
        is_target(target),
        is_version(version),
        request_line(method, target, version).len() <= cfg.max_line_length,
        writable_within(pairs, cfg, 0, 0),
    ensures
        ({
            let first = request_line(method, target, version);
            let head = request_head(method, target, version, pairs);
            let s = head + after;
            &&& scan_line(s, 0, eof, cfg.max_line_length as int) == Ok::<Option<(int, int)>, Halt>(
                Some((first.len() as int, (first.len() + 2) as int)),
            )
            &&& request_line_parts(s.subrange(0, first.len() as int)) == Some(
                (method, target, version),
            )
            &&& header_section(s, (first.len() + 2) as int, eof, cfg, Seq::empty(), 0, 0) == Ok::<
                Section,
                Halt,
            >(
                (
                    collect(stored(pairs)),
                    head.len() as int,
                    pairs.len(),
                    field_lines_size(pairs),
                ),
            )
        }),
{
    let first = request_line(method, target, version);
    let head = request_head(method, target, version, pairs);
    let s = head + after;
    let tail = field_lines(pairs) + crlf() + after;
    let before = first + crlf();
    assert(s == first + crlf() + tail && s == before + field_lines(pairs) + crlf() + after
        && head.len() == before.len() + field_lines(pairs).len() + 2) by {
        assert(s =~= first + crlf() + tail);
        assert(s =~= before + field_lines(pairs) + crlf() + after);
    }
    lemma_first_line(method, target, version, tail, eof, cfg);
    lemma_header_section_round_trip(before, pairs, after, eof, cfg, Seq::empty(), 0, 0);
}

/// The body of a request as it is written after the head, when it is not
/// chunked.
pub open spec fn plain_body(body: Option<Seq<u8>>) -> Seq<u8> {
    match body {
        Some(bytes) => bytes,
        None => Seq::empty(),
    }
}

/// That the header fields announce `body` as it is: no framing header
/// where there is no body, and otherwise the length of the body.
pub open spec fn announces(pairs: Pairs, body: Option<Seq<u8>>) -> bool {
    framing_of(collect(stored(pairs))) == match body {
        Some(bytes) => Ok::<BodyFramingDecision, ParseError>(
            BodyFramingDecision::FixedLength(bytes.len() as usize),
        ),
        None => Ok::<BodyFramingDecision, ParseError>(BodyFramingDecision::NoBody),
    } && plain_body(body).len() <= usize::MAX
}

/// What the steps of parsing a request add up to.
pub(crate) proof fn lemma_assemble(
    s: Seq<u8>,
    eof: bool,
    cfg: ParserConfig,
    first_end: int,
    line: (Seq<u8>, Seq<u8>, Seq<u8>),
    head: Section,
    rest: (Fields, Option<Seq<u8>>, int),
)
    requires
        scan_line(s, 0, eof, cfg.max_line_length as int) == Ok::<Option<(int, int)>, Halt>(
            Some((first_end, first_end + 2)),
        ),
        request_line_parts(s.subrange(0, first_end)) == Some(line),
        header_section(s, first_end + 2, eof, cfg, Seq::empty(), 0, 0) == Ok::<Section, Halt>(
            head,
        ),
        body_of(s, head.1, eof, cfg, head.0, head.2, head.3) == Ok::<
            (Fields, Option<Seq<u8>>, int),
            Halt,
        >(rest),
    ensures
        request_of(s, eof, cfg) == Ok::<(RequestModel, int), Halt>(
            (
                RequestModel {
                    method: line.0,
                    target: line.1,
                    version: line.2,
                    headers: rest.0,
                    body: rest.1,
                },
                rest.2,
            ),
        ),
{
}

/// A body that the headers announce is read as it is, right after the
/// head.
proof fn lemma_plain_body(
    head: Seq<u8>,
    body: Option<Seq<u8>>,
    after: Seq<u8>,
    eof: bool,
    cfg: ParserConfig,
    fields: Fields,
    count: nat,
    bytes: nat,
)
    requires
        plain_body(body).len() <= usize::MAX,
        framing_of(fields) == match body {
            Some(content) => Ok::<BodyFramingDecision, ParseError>(
                BodyFramingDecision::FixedLength(content.len() as usize),
            ),
            None => Ok::<BodyFramingDecision, ParseError>(BodyFramingDecision::NoBody),
        },
    ensures
        body_of(head + plain_body(body) + after, head.len() as int, eof, cfg, fields, count, bytes)
            == Ok::<(Fields, Option<Seq<u8>>, int), Halt>(
            (fields, body, (head.len() + plain_body(body).len()) as int),
        ),
{
    let s = head + plain_body(body) + after;
    let at = head.len() as int;
    match body {
        Some(content) => {
            assert(s.subrange(at, at + content.len()) =~= content);
        },
        None => {},
    }
}

/// A request written out as the protocol prescribes is parsed back into
/// what was written: the same method, target and version, the header
/// fields collected in their order under lower-case names, and the body
/// that the headers announce. The parser takes up exactly the bytes of
/// the request, whatever follows them and whether or not the input has
/// ended.
pub proof fn lemma_request_round_trip(
    method: Seq<u8>,
    target: Seq<u8>,
    version: Seq<u8>,
    pairs: Pairs,
    body: Option<Seq<u8>>,
    after: Seq<u8>,
    eof: bool,
    cfg: ParserConfig,
)
    requires
        is_method(method),
        is_target(target),
        is_version(version),
        request_line(method, target, version).len() <= cfg.max_line_length,
        writable_within(pairs, cfg, 0, 0),
        announces(pairs, body),
    ensures
        request_of(
            request_head(method, target, version, pairs) + plain_body(body) + after,
            eof,
            cfg,
        ) == Ok::<(RequestModel, int), Halt>(
            (
                RequestModel { method, target, version, headers: collect(stored(pairs)), body },
                (request_head(method, target, version, pairs).len() + plain_body(body).len())
                    as int,
            ),
        ),
{
    let first = request_line(method, target, version);
    let head = request_head(method, target, version, pairs);
    let content = plain_body(body);
    let s = head + content + after;
    let fields = collect(stored(pairs));
    assert(s == head + (content + after)) by {
        assert(s =~= head + (content + after));
    }
    lemma_head_round_trip(method, target, version, pairs, content + after, eof, cfg);
    lemma_plain_body(head, body, after, eof, cfg, fields, pairs.len(), field_lines_size(pairs));
    lemma_assemble(
        s,
        eof,
        cfg,
        first.len() as int,
        (method, target, version),
        (fields, head.len() as int, pairs.len(), field_lines_size(pairs)),
        (fields, body, (head.len() + content.len()) as int),
    );
}

/// A request whose body is cut short is never mistaken for a whole one:
/// while the input may go on the parser asks for more, and once the
/// input has ended the body is reported as truncated.
pub proof fn lemma_request_body_cut_short(
    method: Seq<u8>,
    target: Seq<u8>,
    version: Seq<u8>,
    pairs: Pairs,
    body: Seq<u8>,
    arrived: int,
    eof: bool,
    cfg: ParserConfig,
)
    requires
        is_method(method),
        is_target(target),
        is_version(version),
        request_line(method, target, version).len() <= cfg.max_line_length,
        writable_within(pairs, cfg, 0, 0),
        announces(pairs, Some(body)),
        0 <= arrived < body.len(),
    ensures
        request_of(
            request_head(method, target, version, pairs) + body.subrange(0, arrived),
            eof,
            cfg,
        ) == Err::<(RequestModel, int), Halt>(
            if eof {
                Halt::Failed(ParseError::TruncatedBody)
            } else {
                Halt::NeedMore
            },
        ),
{
    let head = request_head(method, target, version, pairs);
    let part = body.subrange(0, arrived);
    lemma_head_round_trip(method, target, version, pairs, part, eof, cfg);
}

/// A written request with as many header lines as different names,
/// whatever their case, is parsed into a header map with exactly as many
/// entries: one for each line, in the order of the lines, under the name
/// in lower case and with the one value of the line.
pub proof fn lemma_distinct_headers_round_trip(
    method: Seq<u8>,
    target: Seq<u8>,
    version: Seq<u8>,
    pairs: Pairs,
    body: Option<Seq<u8>>,
    after: Seq<u8>,
    eof: bool,
    cfg: ParserConfig,
)
    requires
        is_method(method),
        is_target(target),
        is_version(version),
        request_line(method, target, version).len() <= cfg.max_line_length,
        writable_within(pairs, cfg, 0, 0),
        announces(pairs, body),
        names_distinct(stored(pairs)),
    ensures
        request_of(
            request_head(method, target, version, pairs) + plain_body(body) + after,
            eof,
            cfg,
        ) matches Ok((request, _)) && request.headers == Seq::new(
            pairs.len(),
            |i: int| (lower_seq(pairs[i].0), seq![pairs[i].1]),
        ),
{
    lemma_request_round_trip(method, target, version, pairs, body, after, eof, cfg);
    lemma_collect_distinct(stored(pairs));
    assert(collect(stored(pairs)) =~= Seq::new(
        pairs.len(),
        |i: int| (lower_seq(pairs[i].0), seq![pairs[i].1]),
    ));
}

/// A written request in which header names repeat is parsed into a
/// header map with fewer entries than lines: each name, in lower case,
/// has one entry, and the entry holds the values of all the lines of
/// that name in the order of the lines.
pub proof fn lemma_repeated_headers_round_trip(
    method: Seq<u8>,
    target: Seq<u8>,
    version: Seq<u8>,
    pairs: Pairs,
    body: Option<Seq<u8>>,
    after: Seq<u8>,
    eof: bool,
    cfg: ParserConfig,
)
    requires
        is_method(method),
        is_target(target),
        is_version(version),
        request_line(method, target, version).len() <= cfg.max_line_length,
        writable_within(pairs, cfg, 0, 0),
        announces(pairs, body),
    ensures
        request_of(
            request_head(method, target, version, pairs) + plain_body(body) + after,
            eof,
            cfg,
        ) matches Ok((request, _)) && {
            &&& request.headers.len() <= pairs.len()
            &&& !names_distinct(stored(pairs)) ==> request.headers.len() < pairs.len()
            &&& forall|i: int|
                0 <= i < request.headers.len() ==> is_lower_case((#[trigger] request.headers[i]).0)
            &&& forall|name: Seq<u8>| #[trigger]
                lookup(request.headers, name) == if values_of(stored(pairs), name).len() > 0 {
                    Some(values_of(stored(pairs), name))
                } else {
                    None
                }
        },
{
    lemma_request_round_trip(method, target, version, pairs, body, after, eof, cfg);
    let wire = request_head(method, target, version, pairs) + plain_body(body) + after;
    crate::request::lemma_request_of(wire, eof, cfg);
    lemma_collect_len(stored(pairs));
    assert forall|name: Seq<u8>| #[trigger]
        lookup(collect(stored(pairs)), name) == if values_of(stored(pairs), name).len() > 0 {
            Some(values_of(stored(pairs), name))
        } else {
            None
        } by {
        lemma_collect_lookup(stored(pairs), name);
    }
}

} // verus!
