//! The header parser: header lines, and the header section they form.

use vstd::prelude::*;
use crate::bytes::{
    all_ows, copy_range, find, find_byte, is_trimmed, lemma_find, lemma_find_is, lemma_trim_is,
    lemma_trim_ows, lower_seq, spec_is_ows, spec_is_whitespace, trim_bounds, trim_ows, COLON,
};
use crate::config::ParserConfig;
use crate::error::{Halt, ParseError};
use crate::fields::{
    add_field, collect_into, fields_wf, is_raw_name, is_stored_name, lemma_add_field_wf,
    lemma_collect_into_front, lemma_lower_seq, pairs_wf, Fields, Pairs,
};
use crate::header_map::{stored_name, HeaderMap};
use crate::line::{lemma_scan_line, lemma_scan_line_stable, next_line, scan_line};

verus! {

/// The name and value of a header line, or `None` where the line has no
/// colon or the part before its first colon is not a raw name. The name
/// is lower-cased; the value is what follows the colon, trimmed of
/// optional whitespace. A line that starts with whitespace, as a folded
/// continuation line does, is refused like any other bad name.
pub open spec fn field_of_line(line: Seq<u8>) -> Option<(Seq<u8>, Seq<u8>)> {
    let c = find(line, COLON, 0);
    let name = line.subrange(0, c);
    if c < line.len() && is_raw_name(name) {
        Some((lower_seq(name), trim_ows(line.subrange(c + 1, line.len() as int))))
    } else {
        None
    }
}

/// The name that a header line gives is a stored name, and its value is
/// trimmed.
pub proof fn lemma_field_of_line(line: Seq<u8>)
    ensures
        field_of_line(line) matches Some((name, value)) ==> is_stored_name(name) && is_trimmed(
            value,
        ),
{
    if field_of_line(line) is Some {
        let c = find(line, COLON, 0);
        lemma_lower_seq(line.subrange(0, c));
        lemma_trim_ows(line.subrange(c + 1, line.len() as int));
    }
}

/// A raw name, a colon, and a trimmed value with any optional whitespace
/// before and after it parse into the name in lower case and the value.
pub proof fn lemma_field_line_round_trip(
    name: Seq<u8>,
    lead: Seq<u8>,
    value: Seq<u8>,
    trail: Seq<u8>,
)
    requires
        is_raw_name(name),
        all_ows(lead),
        all_ows(trail),
        is_trimmed(value),
    ensures
        field_of_line(name + seq![COLON] + lead + value + trail) == Some(
            (lower_seq(name), value),
        ),
{
    let line = name + seq![COLON] + lead + value + trail;
    let c = name.len() as int;
    assert forall|k: int| 0 <= k < c implies line[k] != COLON by {
        assert(line[k] == name[k]);
    }
    assert(line[c] == COLON);
    lemma_find_is(line, COLON, 0, c);
    assert(line.subrange(0, c) =~= name);
    let rest = line.subrange(c + 1, line.len() as int);
    assert(rest =~= lead + value + trail);
    let a = lead.len() as int;
    let b = a + value.len();
    assert forall|k: int| 0 <= k < a implies spec_is_ows(#[trigger] rest[k]) by {
        assert(rest[k] == lead[k]);
    }
    assert forall|k: int| b <= k < rest.len() implies spec_is_ows(#[trigger] rest[k]) by {
        assert(rest[k] == trail[k - b]);
    }
    if value.len() > 0 {
        assert(rest[a] == value[0]);
        assert(rest[b - 1] == value[value.len() - 1]);
        lemma_trim_is(rest, a, b);
        assert(rest.subrange(a, b) =~= value);
    } else {
        lemma_trim_is(rest, rest.len() as int, rest.len() as int);
        assert(rest.subrange(rest.len() as int, rest.len() as int) =~= value);
    }
}

/// A line without a colon is refused.
pub proof fn lemma_line_without_colon(line: Seq<u8>)
    requires
        forall|i: int| 0 <= i < line.len() ==> line[i] != COLON,
    ensures
        field_of_line(line) is None,
{
    lemma_find(line, COLON, 0);
}

/// A line that begins with whitespace, as the continuation of a folded
/// header does, is refused: it is never merged into the line before it.
pub proof fn lemma_folded_line(line: Seq<u8>)
    requires
        line.len() > 0,
        spec_is_whitespace(line[0]),
    ensures
        field_of_line(line) is None,
{
    lemma_find(line, COLON, 0);
    let c = find(line, COLON, 0);
    if 0 < c < line.len() {
        assert(line.subrange(0, c)[0] == line[0]);
    }
}

/// Parses a header line, given without its line end.
pub fn parse_field_line(line: &[u8]) -> (r: Result<(Vec<u8>, Vec<u8>), ParseError>)
    ensures
        match r {
            Ok((name, value)) => field_of_line(line@) == Some((name@, value@)) && is_stored_name(
                name@,
            ) && is_trimmed(value@),
            Err(e) => e == ParseError::MalformedHeaderLine && field_of_line(line@) is None,
        },
{
    let len = line.len();
    let c = find_byte(line, COLON, 0);
    if c >= len {
        return Err(ParseError::MalformedHeaderLine);
    }
    match stored_name(line, c) {
        None => Err(ParseError::MalformedHeaderLine),
        Some(name) => {
            let (a, b) = trim_bounds(line, c + 1, len);
            proof {
                lemma_lower_seq(line@.subrange(0, c as int));
                lemma_trim_ows(line@.subrange(c + 1, len as int));
            }
            Ok((name, copy_range(line, a, b)))
        },
    }
}

/// What reading a header section gives: the fields, the position after
/// the empty line that closes the section, and the number of header lines
/// and header bytes used so far.
pub type Section = (Fields, int, nat, nat);

/// Reads header lines from `pos` up to and including the empty line that
/// closes the section, adding each field to `fields`.
///
/// `count` and `bytes` are the header lines and header bytes already used
/// by this request. A line that would take either above its limit stops
/// the reading with `HeaderLimitExceeded`, before the line is looked at.
/// The input ending before the empty line gives `TruncatedHeaders`.
pub open spec fn header_section(
    s: Seq<u8>,
    pos: int,
    eof: bool,
    cfg: ParserConfig,
    fields: Fields,
    count: nat,
    bytes: nat,
) -> Result<Section, Halt>
    decreases s.len() - pos,
    when 0 <= pos <= s.len()
{
    match scan_line(s, pos, eof, cfg.max_line_length as int) {
        Err(h) => Err(h),
        Ok(None) => Err(Halt::Failed(ParseError::TruncatedHeaders)),
        Ok(Some((end, next))) => {
            if end == pos {
                Ok((fields, next, count, bytes))
            } else if count + 1 > cfg.max_header_count || bytes + (end - pos)
                > cfg.max_header_bytes {
                Err(Halt::Failed(ParseError::HeaderLimitExceeded))
            } else {
                match field_of_line(s.subrange(pos, end)) {
                    None => Err(Halt::Failed(ParseError::MalformedHeaderLine)),
                    Some((name, value)) => {
                        proof {
                            lemma_scan_line(s, pos, eof, cfg.max_line_length as int);
                        }
                        header_section(
                            s,
                            next,
                            eof,
                            cfg,
                            add_field(fields, name, value),
                            count + 1,
                            (bytes + (end - pos)) as nat,
                        )
                    },
                }
            }
        },
    }
}

/// A header section that was read ends after where it began and inside
/// the input, leaves a well-formed map well formed, and stays within both
/// limits. Reading asks for more input only while the input has not
/// ended, and fails only in the four ways a header section can fail.
pub proof fn lemma_header_section(
    s: Seq<u8>,
    pos: int,
    eof: bool,
    cfg: ParserConfig,
    fields: Fields,
    count: nat,
    bytes: nat,
)
    requires
        0 <= pos <= s.len(),
    ensures
        match header_section(s, pos, eof, cfg, fields, count, bytes) {
            Ok((after, next, lines, used)) => {
                &&& pos < next <= s.len()
                &&& fields_wf(fields) ==> fields_wf(after)
                &&& count <= lines
                &&& bytes <= used
                &&& count < lines ==> lines <= cfg.max_header_count
                &&& bytes < used ==> used <= cfg.max_header_bytes
            },
            Err(Halt::NeedMore) => !eof,
            Err(Halt::Failed(e)) => e == ParseError::LineTooLong || e
                == ParseError::TruncatedHeaders || e == ParseError::HeaderLimitExceeded || e
                == ParseError::MalformedHeaderLine,
        },
    decreases s.len() - pos,
{
    lemma_scan_line(s, pos, eof, cfg.max_line_length as int);
    match scan_line(s, pos, eof, cfg.max_line_length as int) {
        Ok(Some((end, next))) => {
            if end != pos && !(count + 1 > cfg.max_header_count || bytes + (end - pos)
                > cfg.max_header_bytes) {
                let line = s.subrange(pos, end);
                lemma_field_of_line(line);
                match field_of_line(line) {
                    Some((name, value)) => {
                        if fields_wf(fields) {
                            lemma_add_field_wf(fields, name, value);
                        }
                        lemma_header_section(
                            s,
                            next,
                            eof,
                            cfg,
                            add_field(fields, name, value),
                            count + 1,
                            (bytes + (end - pos)) as nat,
                        );
                    },
                    None => {},
                }
            }
        },
        _ => {},
    }
}

/// The header lines of the section at `pos`, as the pairs of name and
/// value that they give, in their order. The lines are those that
/// [`header_section`] accepts before it comes to an end, whatever the end.
pub open spec fn section_pairs(
    s: Seq<u8>,
    pos: int,
    eof: bool,
    cfg: ParserConfig,
    count: nat,
    bytes: nat,
) -> Pairs
    decreases s.len() - pos,
    when 0 <= pos <= s.len()
{
    match scan_line(s, pos, eof, cfg.max_line_length as int) {
        Ok(Some((end, next))) => {
            if end == pos || count + 1 > cfg.max_header_count || bytes + (end - pos)
                > cfg.max_header_bytes {
                Seq::empty()
            } else {
                match field_of_line(s.subrange(pos, end)) {
                    None => Seq::empty(),
                    Some(pair) => {
                        proof {
                            lemma_scan_line(s, pos, eof, cfg.max_line_length as int);
                        }
                        seq![pair] + section_pairs(
                            s,
                            next,
                            eof,
                            cfg,
                            count + 1,
                            (bytes + (end - pos)) as nat,
                        )
                    },
                }
            }
        },
        _ => Seq::empty(),
    }
}

/// The map that a header section gives is the map it started from with
/// the fields of its header lines added in their order, and every line
/// read is counted.
pub proof fn lemma_header_section_pairs(
    s: Seq<u8>,
    pos: int,
    eof: bool,
    cfg: ParserConfig,
    fields: Fields,
    count: nat,
    bytes: nat,
)
    requires
        0 <= pos <= s.len(),
    ensures
        pairs_wf(section_pairs(s, pos, eof, cfg, count, bytes)),
        header_section(s, pos, eof, cfg, fields, count, bytes) matches Ok(
            (after, next, lines, used),
        ) ==> after == collect_into(fields, section_pairs(s, pos, eof, cfg, count, bytes))
            && lines == count + section_pairs(s, pos, eof, cfg, count, bytes).len(),
    decreases s.len() - pos,
{
    lemma_scan_line(s, pos, eof, cfg.max_line_length as int);
    match scan_line(s, pos, eof, cfg.max_line_length as int) {
        Ok(Some((end, next))) => {
            if end != pos && !(count + 1 > cfg.max_header_count || bytes + (end - pos)
                > cfg.max_header_bytes) {
                let line = s.subrange(pos, end);
                lemma_field_of_line(line);
                match field_of_line(line) {
                    Some(pair) => {
                        let used = (bytes + (end - pos)) as nat;
                        let rest = section_pairs(s, next, eof, cfg, count + 1, used);
                        lemma_header_section_pairs(
                            s,
                            next,
                            eof,
                            cfg,
                            add_field(fields, pair.0, pair.1),
                            count + 1,
                            used,
                        );
                        lemma_collect_into_front(fields, pair, rest);
                        let all = seq![pair] + rest;
                        assert forall|i: int| 0 <= i < all.len() implies is_stored_name(
                            (#[trigger] all[i]).0,
                        ) && is_trimmed(all[i].1) by {
                            if i > 0 {
                                assert(all[i] == rest[i - 1]);
                            }
                        }
                    },
                    None => {},
                }
            }
        },
        _ => {},
    }
}

/// Once a header section has been read, or refused, without waiting for
/// the end of the input, bytes that arrive later change nothing: the
/// outcome was decided on what had been read, and on nothing after it.
pub proof fn lemma_header_section_stable(
    s: Seq<u8>,
    more: Seq<u8>,
    pos: int,
    eof: bool,
    cfg: ParserConfig,
    fields: Fields,
    count: nat,
    bytes: nat,
)
    requires
        0 <= pos <= s.len(),
        header_section(s, pos, false, cfg, fields, count, bytes) != Err::<Section, Halt>(
            Halt::NeedMore,
        ),
    ensures
        header_section(s + more, pos, eof, cfg, fields, count, bytes) == header_section(
            s,
            pos,
            false,
            cfg,
            fields,
            count,
            bytes,
        ),
    decreases s.len() - pos,
{
    let max = cfg.max_line_length as int;
    lemma_scan_line(s, pos, false, max);
    lemma_scan_line_stable(s, more, pos, eof, max);
    match scan_line(s, pos, false, max) {
        Ok(Some((end, next))) => {
            assert((s + more).subrange(pos, end) =~= s.subrange(pos, end));
            if end != pos && !(count + 1 > cfg.max_header_count || bytes + (end - pos)
                > cfg.max_header_bytes) {
                match field_of_line(s.subrange(pos, end)) {
                    Some((name, value)) => {
                        lemma_header_section_stable(
                            s,
                            more,
                            next,
                            eof,
                            cfg,
                            add_field(fields, name, value),
                            count + 1,
                            (bytes + (end - pos)) as nat,
                        );
                    },
                    None => {},
                }
            }
        },
        _ => {},
    }
}

/// Whether more header lines start at `pos` than there is room for: at
/// least `room` lines that are acceptable in themselves and within the
/// limit on header bytes, and then one more line that is not empty.
pub open spec fn overfull(
    s: Seq<u8>,
    pos: int,
    eof: bool,
    cfg: ParserConfig,
    bytes: nat,
    room: nat,
) -> bool
    decreases room,
{
    match scan_line(s, pos, eof, cfg.max_line_length as int) {
        Ok(Some((end, next))) => pos < end && (room == 0 || (bytes + (end - pos)
            <= cfg.max_header_bytes && field_of_line(s.subrange(pos, end)) is Some && overfull(
            s,
            next,
            eof,
            cfg,
            (bytes + (end - pos)) as nat,
            (room - 1) as nat,
        ))),
        _ => false,
    }
}

/// More header lines than the limit allows are refused with
/// `HeaderLimitExceeded`, as soon as the first line beyond the limit has
/// been read: whether the input has ended plays no part, and the line is
/// not even examined.
pub proof fn lemma_header_count_limit(
    s: Seq<u8>,
    pos: int,
    eof: bool,
    cfg: ParserConfig,
    fields: Fields,
    count: nat,
    bytes: nat,
)
    requires
        0 <= pos <= s.len(),
        count <= cfg.max_header_count,
        overfull(s, pos, eof, cfg, bytes, (cfg.max_header_count - count) as nat),
    ensures
        header_section(s, pos, eof, cfg, fields, count, bytes) == Err::<Section, Halt>(
            Halt::Failed(ParseError::HeaderLimitExceeded),
        ),
    decreases cfg.max_header_count - count,
{
    lemma_scan_line(s, pos, eof, cfg.max_line_length as int);
    match scan_line(s, pos, eof, cfg.max_line_length as int) {
        Ok(Some((end, next))) => {
            if count < cfg.max_header_count {
                match field_of_line(s.subrange(pos, end)) {
                    Some((name, value)) => {
                        lemma_header_count_limit(
                            s,
                            next,
                            eof,
                            cfg,
                            add_field(fields, name, value),
                            count + 1,
                            (bytes + (end - pos)) as nat,
                        );
                    },
                    None => {},
                }
            }
        },
        _ => {},
    }
}

/// Reads a header section; see [`header_section`].
#[verifier::loop_isolation(false)]
pub fn read_headers(
    input: &[u8],
    pos: usize,
    eof: bool,
    config: &ParserConfig,
    headers: HeaderMap,
    count: usize,
    bytes: usize,
) -> (r: Result<(HeaderMap, usize, usize, usize), Halt>)
    requires
        pos <= input.len(),
    ensures
        match r {
            Ok((h, next, c, b)) => header_section(
                input@,
                pos as int,
                eof,
                *config,
                headers@,
                count as nat,
                bytes as nat,
            ) == Ok::<Section, Halt>((h@, next as int, c as nat, b as nat)) && pos < next
                <= input.len(),
            Err(h) => header_section(
                input@,
                pos as int,
                eof,
                *config,
                headers@,
                count as nat,
                bytes as nat,
            ) == Err::<Section, Halt>(h),
        },
{
    let ghost whole = header_section(
        input@,
        pos as int,
        eof,
        *config,
        headers@,
        count as nat,
        bytes as nat,
    );
    let mut map = headers;
    let mut at: usize = pos;
    let mut lines: usize = count;
    let mut used: usize = bytes;
    loop
        invariant
            pos <= at <= input.len(),
            whole == header_section(
                input@,
                at as int,
                eof,
                *config,
                map@,
                lines as nat,
                used as nat,
            ),
        decreases input.len() - at,
    {
        match next_line(input, at, eof, config.max_line_length) {
            Err(h) => {
                return Err(h);
            },
            Ok(None) => {
                return Err(Halt::Failed(ParseError::TruncatedHeaders));
            },
            Ok(Some((end, next))) => {
                if end == at {
                    return Ok((map, next, lines, used));
                }
                let size = end - at;
                if lines >= config.max_header_count || used > config.max_header_bytes || size
                    > config.max_header_bytes - used {
                    return Err(Halt::Failed(ParseError::HeaderLimitExceeded));
                }
                let line = vstd::slice::slice_subrange(input, at, end);
                match parse_field_line(line) {
                    Err(e) => {
                        return Err(Halt::Failed(e));
                    },
                    Ok((name, value)) => {
                        proof {
                            lemma_lower_seq(name@);
                        }
                        map.push_field(name, value);
                        lines = lines + 1;
                        used = used + size;
                        at = next;
                    },
                }
            },
        }
    }
}

} // verus!
