//! The line reader: cuts the next line off a byte stream.
//!
//! The stream is the bytes received so far, a cursor into them, and a flag
//! that tells whether the peer has finished sending. A line ends with LF,
//! or with CR LF; the line end is not part of the line. When the input has
//! ended, whatever follows the last line end is a line of its own.

use vstd::prelude::*;
use crate::bytes::{find, find_byte, lemma_find, lemma_find_extend, lemma_find_is, CR, LF};
use crate::error::{Halt, ParseError};

verus! {

/// What reading one line at `pos` gives.
///
/// - `Ok(Some((end, next)))`: the line is `s[pos..end]`, and the cursor
///   moves to `next`.
/// - `Ok(None)`: the input ended cleanly at `pos`.
/// - `Err(Halt::NeedMore)`: no line end yet, and more input may come.
/// - `Err(Halt::Failed(LineTooLong))`: the line holds more than `max`
///   bytes, however it goes on.
pub open spec fn scan_line(s: Seq<u8>, pos: int, eof: bool, max: int) -> Result<
    Option<(int, int)>,
    Halt,
> {
    let len = s.len() as int;
    let j = find(s, LF, pos);
    if j < len {
        let end = if pos < j && s[j - 1] == CR {
            j - 1
        } else {
            j
        };
        if end - pos > max {
            Err(Halt::Failed(ParseError::LineTooLong))
        } else {
            Ok(Some((end, j + 1)))
        }
    } else {
        // A final CR may still turn out to belong to a line end.
        let held = if pos < len && s[len - 1] == CR {
            len - 1 - pos
        } else {
            len - pos
        };
        if held > max {
            Err(Halt::Failed(ParseError::LineTooLong))
        } else if !eof {
            Err(Halt::NeedMore)
        } else if pos >= len {
            Ok(None)
        } else if len - pos > max {
            Err(Halt::Failed(ParseError::LineTooLong))
        } else {
            Ok(Some((len, len)))
        }
    }
}

/// A line that was read lies inside the input, holds no line feed, is no
/// longer than allowed, and reading it moves the cursor forward. There is
/// no line exactly when the input has ended and the cursor is at its end.
pub proof fn lemma_scan_line(s: Seq<u8>, pos: int, eof: bool, max: int)
    requires
        0 <= pos <= s.len(),
    ensures
        scan_line(s, pos, eof, max) matches Ok(Some((end, next))) ==> {
            &&& pos <= end <= next <= s.len()
            &&& pos < next
            &&& end - pos <= max
            &&& forall|k: int| pos <= k < end ==> s[k] != LF
        },
        scan_line(s, pos, eof, max) matches Ok(None) ==> eof && pos == s.len(),
        eof && pos == s.len() && 0 <= max ==> scan_line(s, pos, eof, max) == Ok::<
            Option<(int, int)>,
            Halt,
        >(None),
        scan_line(s, pos, eof, max) == Err::<Option<(int, int)>, Halt>(Halt::NeedMore) ==> !eof,
        scan_line(s, pos, eof, max) matches Err(Halt::Failed(e)) ==> e
            == ParseError::LineTooLong,
{
    lemma_find(s, LF, pos);
}

/// A line followed by CR LF is read back as it is, wherever it lies in
/// the input and whatever follows it.
pub proof fn lemma_scan_line_crlf(
    before: Seq<u8>,
    line: Seq<u8>,
    after: Seq<u8>,
    eof: bool,
    max: int,
)
    requires
        forall|i: int| 0 <= i < line.len() ==> line[i] != LF,
        line.len() <= max,
    ensures
        scan_line(before + line + seq![CR, LF] + after, before.len() as int, eof, max) == Ok::<
            Option<(int, int)>,
            Halt,
        >(Some(((before.len() + line.len()) as int, (before.len() + line.len() + 2) as int))),
        (before + line + seq![CR, LF] + after).subrange(
            before.len() as int,
            (before.len() + line.len()) as int,
        ) == line,
{
    let s = before + line + seq![CR, LF] + after;
    let pos = before.len() as int;
    let j = pos + line.len() + 1;
    assert forall|k: int| pos <= k < j implies s[k] != LF by {
        if k < pos + line.len() {
            assert(s[k] == line[k - pos]);
        } else {
            assert(s[k] == CR);
        }
    }
    assert(s[j] == LF);
    assert(s[j - 1] == CR);
    lemma_find_is(s, LF, pos, j);
    assert(s.subrange(pos, pos + line.len()) =~= line);
}

/// A line followed by a bare LF is read back as it is, provided it does
/// not end with CR, which would be taken for part of the line end.
pub proof fn lemma_scan_line_lf(
    before: Seq<u8>,
    line: Seq<u8>,
    after: Seq<u8>,
    eof: bool,
    max: int,
)
    requires
        forall|i: int| 0 <= i < line.len() ==> line[i] != LF,
        line.len() > 0 ==> line[line.len() - 1] != CR,
        line.len() <= max,
    ensures
        scan_line(before + line + seq![LF] + after, before.len() as int, eof, max) == Ok::<
            Option<(int, int)>,
            Halt,
        >(Some(((before.len() + line.len()) as int, (before.len() + line.len() + 1) as int))),
        (before + line + seq![LF] + after).subrange(
            before.len() as int,
            (before.len() + line.len()) as int,
        ) == line,
{
    let s = before + line + seq![LF] + after;
    let pos = before.len() as int;
    let j = pos + line.len();
    assert forall|k: int| pos <= k < j implies s[k] != LF by {
        assert(s[k] == line[k - pos]);
    }
    assert(s[j] == LF);
    if line.len() > 0 {
        assert(s[j - 1] == line[line.len() - 1]);
    }
    lemma_find_is(s, LF, pos, j);
    assert(s.subrange(pos, pos + line.len()) =~= line);
}

/// Once a line has been read, or refused, without waiting for the end of
/// the input, bytes that arrive later change nothing.
pub proof fn lemma_scan_line_stable(
    s: Seq<u8>,
    more: Seq<u8>,
    pos: int,
    eof: bool,
    max: int,
)
    requires
        0 <= pos <= s.len(),
        scan_line(s, pos, false, max) != Err::<Option<(int, int)>, Halt>(Halt::NeedMore),
    ensures
        scan_line(s + more, pos, eof, max) == scan_line(s, pos, false, max),
{
    let t = s + more;
    let len = s.len() as int;
    lemma_find(s, LF, pos);
    lemma_find(t, LF, pos);
    let j = find(s, LF, pos);
    if j < len {
        lemma_find_extend(s, more, LF, pos);
        if pos < j {
            assert(t[j - 1] == s[j - 1]);
        }
    } else {
        // The bytes held back already exceed the limit.
        let j2 = find(t, LF, pos);
        assert(j2 >= len) by {
            if j2 < len {
                assert(t[j2] == s[j2]);
            }
        }
        if pos < len {
            assert(t[len - 1] == s[len - 1]);
        }
    }
}

/// Reads the line that starts at `pos`.
pub fn next_line(input: &[u8], pos: usize, eof: bool, max_line_length: usize) -> (r: Result<
    Option<(usize, usize)>,
    Halt,
>)
    requires
        pos <= input.len(),
    ensures
        match r {
            Ok(Some((end, next))) => scan_line(input@, pos as int, eof, max_line_length as int)
                == Ok::<Option<(int, int)>, Halt>(Some((end as int, next as int))),
            Ok(None) => scan_line(input@, pos as int, eof, max_line_length as int) == Ok::<
                Option<(int, int)>,
                Halt,
            >(None),
            Err(h) => scan_line(input@, pos as int, eof, max_line_length as int) == Err::<
                Option<(int, int)>,
                Halt,
            >(h),
        },
        r matches Ok(Some((end, next))) ==> pos <= end <= next <= input.len() && pos < next,
{
    let len = input.len();
    let j = find_byte(input, LF, pos);
    if j < len {
        let end = if pos < j && input[j - 1] == CR {
            j - 1
        } else {
            j
        };
        if end - pos > max_line_length {
            Err(Halt::Failed(ParseError::LineTooLong))
        } else {
            Ok(Some((end, j + 1)))
        }
    } else {
        let held = if pos < len && input[len - 1] == CR {
            len - 1 - pos
        } else {
            len - pos
        };
        if held > max_line_length {
            Err(Halt::Failed(ParseError::LineTooLong))
        } else if !eof {
            Err(Halt::NeedMore)
        } else if pos >= len {
            Ok(None)
        } else if len - pos > max_line_length {
            Err(Halt::Failed(ParseError::LineTooLong))
        } else {
            Ok(Some((len, len)))
        }
    }
}

} // verus!
