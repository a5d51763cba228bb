//! The request line: `method SP target SP version`.

use vstd::prelude::*;
use crate::bytes::{
    copy_range, find, find_byte, is_digit, is_lower, is_tchar, is_vchar, is_whitespace, lemma_find,
    lemma_find_is, spec_is_digit, spec_is_lower, spec_is_tchar, spec_is_whitespace, CR, LF, SP,
};
use crate::error::ParseError;

verus! {

/// A byte that may appear in a method: a token character that is not a
/// lower-case letter. Methods outside the well-known ones are accepted.
pub open spec fn spec_is_method_byte(b: u8) -> bool {
    spec_is_tchar(b) && !spec_is_lower(b)
}

#[verifier::when_used_as_spec(spec_is_method_byte)]
pub fn is_method_byte(b: u8) -> (r: bool)
    ensures
        r == spec_is_method_byte(b),
{
    is_tchar(b) && !is_lower(b)
}

/// A method is one or more method bytes.
pub open spec fn is_method(s: Seq<u8>) -> bool {
    s.len() > 0 && forall|i: int| 0 <= i < s.len() ==> spec_is_method_byte(#[trigger] s[i])
}

/// A target is one or more bytes, none of them whitespace. It is not
/// interpreted any further.
pub open spec fn is_target(s: Seq<u8>) -> bool {
    s.len() > 0 && forall|i: int| 0 <= i < s.len() ==> !spec_is_whitespace(#[trigger] s[i])
}

/// A version is `HTTP/`, a digit, a dot and a digit.
pub open spec fn is_version(s: Seq<u8>) -> bool {
    &&& s.len() == 8
    &&& s[0] == 0x48
    &&& s[1] == 0x54
    &&& s[2] == 0x54
    &&& s[3] == 0x50
    &&& s[4] == 0x2f
    &&& spec_is_digit(s[5])
    &&& s[6] == 0x2e
    &&& spec_is_digit(s[7])
}

/// One or more visible characters.
pub open spec fn is_visible(s: Seq<u8>) -> bool {
    s.len() > 0 && forall|i: int| 0 <= i < s.len() ==> is_vchar(#[trigger] s[i])
}

/// The method, target and version of a request line, or `None` where the
/// line is not exactly three well-formed parts with one space between them.
pub open spec fn request_line_parts(line: Seq<u8>) -> Option<(Seq<u8>, Seq<u8>, Seq<u8>)> {
    let len = line.len() as int;
    let a = find(line, SP, 0);
    let b = find(line, SP, a + 1);
    let method = line.subrange(0, a);
    let target = line.subrange(a + 1, b);
    let version = line.subrange(b + 1, len);
    if a < len && b < len && is_method(method) && is_target(target) && is_version(version) {
        Some((method, target, version))
    } else {
        None
    }
}

/// The three parts of a request line.
#[derive(Debug, Clone, PartialEq, Eq)]
pub struct RequestLine {
    pub method: Vec<u8>,
    pub target: Vec<u8>,
    pub version: Vec<u8>,
}

impl View for RequestLine {
    type V = (Seq<u8>, Seq<u8>, Seq<u8>);

    open spec fn view(&self) -> Self::V {
        (self.method@, self.target@, self.version@)
    }
}

/// Three well-formed parts joined by single spaces parse back into
/// themselves.
pub proof fn lemma_request_line_round_trip(method: Seq<u8>, target: Seq<u8>, version: Seq<u8>)
    requires
        is_method(method),
        is_target(target),
        is_version(version),
    ensures
        request_line_parts(method + seq![SP] + target + seq![SP] + version) == Some(
            (method, target, version),
        ),
{
    let line = method + seq![SP] + target + seq![SP] + version;
    let a = method.len() as int;
    let b = a + 1 + target.len();
    assert forall|k: int| 0 <= k < a implies line[k] != SP by {
        assert(line[k] == method[k]);
        assert(spec_is_method_byte(method[k]));
    }
    assert(line[a] == SP);
    lemma_find_is(line, SP, 0, a);
    assert forall|k: int| a + 1 <= k < b implies line[k] != SP by {
        assert(line[k] == target[k - a - 1]);
        assert(!spec_is_whitespace(target[k - a - 1]));
    }
    assert(line[b] == SP);
    lemma_find_is(line, SP, a + 1, b);
    assert(line.subrange(0, a) =~= method);
    assert(line.subrange(a + 1, b) =~= target);
    assert(line.subrange(b + 1, line.len() as int) =~= version);
}

/// A line that parses is its three parts joined by single spaces, and each
/// part is well formed. Method and version are made of visible characters.
pub proof fn lemma_request_line_shape(line: Seq<u8>)
    requires
        request_line_parts(line) is Some,
    ensures
        ({
            let (method, target, version) = request_line_parts(line).unwrap();
            &&& line == method + seq![SP] + target + seq![SP] + version
            &&& is_method(method)
            &&& is_target(target)
            &&& is_version(version)
            &&& is_visible(method)
            &&& is_visible(version)
        }),
{
    let (method, target, version) = request_line_parts(line).unwrap();
    lemma_find(line, SP, 0);
    let a = find(line, SP, 0);
    lemma_find(line, SP, a + 1);
    assert(line =~= method + seq![SP] + target + seq![SP] + version);
    assert forall|i: int| 0 <= i < method.len() implies is_vchar(#[trigger] method[i]) by {
        assert(spec_is_method_byte(method[i]));
    }
}

/// A text with a line feed or a carriage return in it is no request
/// line: a request line is given without its line end, and nothing may
/// follow it.
pub proof fn lemma_request_line_holds_no_line_end(line: Seq<u8>, i: int)
    requires
        0 <= i < line.len(),
        line[i] == LF || line[i] == CR,
    ensures
        request_line_parts(line) is None,
{
    if request_line_parts(line) is Some {
        let (method, target, version) = request_line_parts(line).unwrap();
        lemma_request_line_shape(line);
        let a = method.len() as int;
        let b = a + 1 + target.len();
        if i < a {
            assert(line[i] == method[i]);
            assert(spec_is_method_byte(method[i]));
        } else if a < i < b {
            assert(line[i] == target[i - a - 1]);
            assert(!spec_is_whitespace(target[i - a - 1]));
        } else if i > b {
            assert(line[i] == version[i - b - 1]);
        }
        assert(false);
    }
}

/// A line with fewer than two spaces has fewer than three parts and is
/// refused.
pub proof fn lemma_request_line_too_few_parts(line: Seq<u8>)
    requires
        forall|i: int, j: int| 0 <= i < j < line.len() ==> !(line[i] == SP && line[j] == SP),
    ensures
        request_line_parts(line) is None,
{
    lemma_find(line, SP, 0);
    let a = find(line, SP, 0);
    if a < line.len() {
        lemma_find(line, SP, a + 1);
    }
}

/// A line with three or more spaces has more than three parts, or an empty
/// one, and is refused.
pub proof fn lemma_request_line_too_many_parts(line: Seq<u8>, i: int, j: int, k: int)
    requires
        0 <= i < j < k < line.len(),
        line[i] == SP,
        line[j] == SP,
        line[k] == SP,
    ensures
        request_line_parts(line) is None,
{
    lemma_find(line, SP, 0);
    let a = find(line, SP, 0);
    lemma_find(line, SP, a + 1);
    let b = find(line, SP, a + 1);
    if request_line_parts(line) is Some {
        // The first two spaces are the separators; the third falls in the version.
        assert(a <= i);
        assert(b <= j) by {
            if a < i {
                assert(b <= i);
            }
        }
        let version = line.subrange(b + 1, line.len() as int);
        assert(version[k - b - 1] == SP);
        assert(false);
    }
}

fn all_method_bytes(s: &[u8], from: usize, to: usize) -> (r: bool)
    requires
        from <= to <= s.len(),
    ensures
        r == (forall|i: int| from <= i < to ==> spec_is_method_byte(#[trigger] s@[i])),
{
    let mut i: usize = from;
    while i < to
        invariant
            from <= i <= to <= s.len(),
            forall|k: int| from <= k < i ==> spec_is_method_byte(#[trigger] s@[k]),
        decreases to - i,
    {
        if !is_method_byte(s[i]) {
            return false;
        }
        i = i + 1;
    }
    true
}

fn no_whitespace(s: &[u8], from: usize, to: usize) -> (r: bool)
    requires
        from <= to <= s.len(),
    ensures
        r == (forall|i: int| from <= i < to ==> !spec_is_whitespace(#[trigger] s@[i])),
{
    let mut i: usize = from;
    while i < to
        invariant
            from <= i <= to <= s.len(),
            forall|k: int| from <= k < i ==> !spec_is_whitespace(#[trigger] s@[k]),
        decreases to - i,
    {
        if is_whitespace(s[i]) {
            return false;
        }
        i = i + 1;
    }
    true
}

fn version_at(s: &[u8], from: usize) -> (r: bool)
    requires
        from <= s.len(),
    ensures
        r == is_version(s@.subrange(from as int, s.len() as int)),
{
    if s.len() - from != 8 {
        return false;
    }
    let ghost v = s@.subrange(from as int, s.len() as int);
    proof {
        assert forall|i: int| 0 <= i < 8 implies v[i] == s@[from + i] by {}
    }
    s[from] == 0x48 && s[from + 1] == 0x54 && s[from + 2] == 0x54 && s[from + 3] == 0x50 && s[from
        + 4] == 0x2f && is_digit(s[from + 5]) && s[from + 6] == 0x2e && is_digit(s[from + 7])
}

/// Parses a request line, given without its line end.
pub fn parse_request_line(line: &[u8]) -> (r: Result<RequestLine, ParseError>)
    ensures
        match r {
            Ok(parts) => request_line_parts(line@) == Some(parts@),
            Err(e) => e == ParseError::MalformedRequestLine && request_line_parts(line@) is None,
        },
{
    let len = line.len();
    let a = find_byte(line, SP, 0);
    if a >= len {
        return Err(ParseError::MalformedRequestLine);
    }
    let b = find_byte(line, SP, a + 1);
    if b >= len {
        return Err(ParseError::MalformedRequestLine);
    }
    let ghost method = line@.subrange(0, a as int);
    let ghost target = line@.subrange(a + 1, b as int);
    proof {
        assert forall|i: int| 0 <= i < method.len() implies method[i] == line@[i] by {}
        assert forall|i: int| 0 <= i < target.len() implies target[i] == line@[a + 1 + i] by {}
    }
    if a == 0 || !all_method_bytes(line, 0, a) {
        proof {
            if a > 0 {
                let i = choose|i: int| 0 <= i < a && !spec_is_method_byte(#[trigger] line@[i]);
                assert(!spec_is_method_byte(method[i]));
            }
        }
        return Err(ParseError::MalformedRequestLine);
    }
    if b == a + 1 || !no_whitespace(line, a + 1, b) {
        proof {
            if b > a + 1 {
                let i = choose|i: int| a + 1 <= i < b && spec_is_whitespace(#[trigger] line@[i]);
                assert(spec_is_whitespace(target[i - a - 1]));
            }
        }
        return Err(ParseError::MalformedRequestLine);
    }
    if !version_at(line, b + 1) {
        return Err(ParseError::MalformedRequestLine);
    }
    Ok(
        RequestLine {
            method: copy_range(line, 0, a),
            target: copy_range(line, a + 1, b),
            version: copy_range(line, b + 1, len),
        },
    )
}

} // verus!
