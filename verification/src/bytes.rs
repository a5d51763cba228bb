//! Byte classes and small lexical helpers shared by the parsers.
//!
//! Everything here works on raw bytes: an HTTP message is not required to be
//! valid UTF-8, so the parsers never go through `str`.

use vstd::prelude::*;

verus! {

pub const SP: u8 = 0x20;

pub const HTAB: u8 = 0x09;

pub const LF: u8 = 0x0a;

pub const CR: u8 = 0x0d;

pub const COLON: u8 = 0x3a;

pub const COMMA: u8 = 0x2c;

/// Optional whitespace inside a header line: space or horizontal tab.
pub open spec fn spec_is_ows(b: u8) -> bool {
    b == SP || b == HTAB
}

#[verifier::when_used_as_spec(spec_is_ows)]
pub fn is_ows(b: u8) -> (r: bool)
    ensures
        r == spec_is_ows(b),
{
    b == SP || b == HTAB
}

/// Any whitespace byte: space, tab, line feed, vertical tab, form feed,
/// carriage return.
pub open spec fn spec_is_whitespace(b: u8) -> bool {
    b == SP || (0x09 <= b && b <= 0x0d)
}

#[verifier::when_used_as_spec(spec_is_whitespace)]
pub fn is_whitespace(b: u8) -> (r: bool)
    ensures
        r == spec_is_whitespace(b),
{
    b == SP || (0x09 <= b && b <= 0x0d)
}

/// Control characters: everything below space, and DEL.
pub open spec fn spec_is_ctl(b: u8) -> bool {
    b < 0x20 || b == 0x7f
}

#[verifier::when_used_as_spec(spec_is_ctl)]
pub fn is_ctl(b: u8) -> (r: bool)
    ensures
        r == spec_is_ctl(b),
{
    b < 0x20 || b == 0x7f
}

/// Visible ASCII characters (`VCHAR`).
pub open spec fn is_vchar(b: u8) -> bool {
    0x21 <= b && b <= 0x7e
}

/// Decimal digits.
pub open spec fn spec_is_digit(b: u8) -> bool {
    0x30 <= b && b <= 0x39
}

#[verifier::when_used_as_spec(spec_is_digit)]
pub fn is_digit(b: u8) -> (r: bool)
    ensures
        r == spec_is_digit(b),
{
    0x30 <= b && b <= 0x39
}

/// ASCII upper-case letters.
pub open spec fn spec_is_upper(b: u8) -> bool {
    0x41 <= b && b <= 0x5a
}

#[verifier::when_used_as_spec(spec_is_upper)]
pub fn is_upper(b: u8) -> (r: bool)
    ensures
        r == spec_is_upper(b),
{
    0x41 <= b && b <= 0x5a
}

/// ASCII lower-case letters.
pub open spec fn spec_is_lower(b: u8) -> bool {
    0x61 <= b && b <= 0x7a
}

#[verifier::when_used_as_spec(spec_is_lower)]
pub fn is_lower(b: u8) -> (r: bool)
    ensures
        r == spec_is_lower(b),
{
    0x61 <= b && b <= 0x7a
}

/// The punctuation that may appear in a token, besides letters and digits:
/// ``! # $ % & ' * + - . ^ _ ` | ~``.
pub open spec fn spec_is_token_punct(b: u8) -> bool {
    b == 0x21 || (0x23 <= b && b <= 0x27) || b == 0x2a || b == 0x2b || b == 0x2d || b == 0x2e
        || b == 0x5e || b == 0x5f || b == 0x60 || b == 0x7c || b == 0x7e
}

#[verifier::when_used_as_spec(spec_is_token_punct)]
pub fn is_token_punct(b: u8) -> (r: bool)
    ensures
        r == spec_is_token_punct(b),
{
    b == 0x21 || (0x23 <= b && b <= 0x27) || b == 0x2a || b == 0x2b || b == 0x2d || b == 0x2e
        || b == 0x5e || b == 0x5f || b == 0x60 || b == 0x7c || b == 0x7e
}

/// Token characters (`tchar`): letters, digits and token punctuation.
pub open spec fn spec_is_tchar(b: u8) -> bool {
    spec_is_upper(b) || spec_is_lower(b) || spec_is_digit(b) || spec_is_token_punct(b)
}

#[verifier::when_used_as_spec(spec_is_tchar)]
pub fn is_tchar(b: u8) -> (r: bool)
    ensures
        r == spec_is_tchar(b),
{
    is_upper(b) || is_lower(b) || is_digit(b) || is_token_punct(b)
}

/// ASCII lower-casing of one byte; every other byte is left alone.
pub open spec fn spec_lower(b: u8) -> u8 {
    if spec_is_upper(b) {
        (b + 0x20) as u8
    } else {
        b
    }
}

#[verifier::when_used_as_spec(spec_lower)]
pub fn lower(b: u8) -> (r: u8)
    ensures
        r == spec_lower(b),
{
    if is_upper(b) {
        b + 0x20
    } else {
        b
    }
}

/// `s` with every byte lower-cased.
pub open spec fn lower_seq(s: Seq<u8>) -> Seq<u8> {
    Seq::new(s.len(), |i: int| spec_lower(s[i]))
}

/// No byte of `s` is an ASCII upper-case letter.
pub open spec fn is_lower_case(s: Seq<u8>) -> bool {
    forall|i: int| 0 <= i < s.len() ==> !spec_is_upper(#[trigger] s[i])
}

/// Index of the first occurrence of `b` in `s` at or after `from`;
/// `s.len()` when there is none.
pub open spec fn find(s: Seq<u8>, b: u8, from: int) -> int
    decreases s.len() - from,
{
    if from < 0 || from >= s.len() {
        s.len() as int
    } else if s[from] == b {
        from
    } else {
        find(s, b, from + 1)
    }
}

/// `find` returns the least index at or after `from` that holds `b`.
pub proof fn lemma_find(s: Seq<u8>, b: u8, from: int)
    requires
        0 <= from <= s.len(),
    ensures
        from <= find(s, b, from) <= s.len(),
        forall|k: int| from <= k < find(s, b, from) ==> s[k] != b,
        find(s, b, from) < s.len() ==> s[find(s, b, from)] == b,
    decreases s.len() - from,
{
    if from < s.len() && s[from] != b {
        lemma_find(s, b, from + 1);
    }
}

/// An index that is reached without meeting `b`, and that holds `b` or is
/// the end of `s`, is the one `find` returns.
pub proof fn lemma_find_is(s: Seq<u8>, b: u8, from: int, j: int)
    requires
        0 <= from <= j <= s.len(),
        forall|k: int| from <= k < j ==> s[k] != b,
        j < s.len() ==> s[j] == b,
    ensures
        find(s, b, from) == j,
    decreases j - from,
{
    if from < j {
        lemma_find_is(s, b, from + 1, j);
    }
}

/// Bytes appended to `s` do not move an occurrence found inside `s`.
pub proof fn lemma_find_extend(s: Seq<u8>, more: Seq<u8>, b: u8, from: int)
    requires
        0 <= from <= s.len(),
        find(s, b, from) < s.len(),
    ensures
        find(s + more, b, from) == find(s, b, from),
{
    lemma_find(s, b, from);
    let j = find(s, b, from);
    assert forall|k: int| from <= k < j implies (s + more)[k] != b by {
        assert((s + more)[k] == s[k]);
    }
    assert((s + more)[j] == s[j]);
    lemma_find_is(s + more, b, from, j);
}

/// Searches `s[from..]` for `b`.
pub fn find_byte(s: &[u8], b: u8, from: usize) -> (j: usize)
    requires
        from <= s.len(),
    ensures
        j == find(s@, b, from as int),
        from <= j <= s.len(),
{
    let mut j: usize = from;
    while j < s.len() && s[j] != b
        invariant
            from <= j <= s.len(),
            forall|k: int| from <= k < j ==> s@[k] != b,
        decreases s.len() - j,
    {
        j = j + 1;
    }
    proof {
        lemma_find_is(s@, b, from as int, j as int);
    }
    j
}

/// End of the run of optional whitespace that starts at `from`.
pub open spec fn ows_run_end(s: Seq<u8>, from: int) -> int
    decreases s.len() - from,
{
    if 0 <= from < s.len() && spec_is_ows(s[from]) {
        ows_run_end(s, from + 1)
    } else {
        from
    }
}

/// Start of the run of optional whitespace that ends at `to`, looking no
/// further back than `lo`.
pub open spec fn ows_run_start(s: Seq<u8>, lo: int, to: int) -> int
    decreases to - lo,
{
    if lo < to <= s.len() && 0 < to && spec_is_ows(s[to - 1]) {
        ows_run_start(s, lo, to - 1)
    } else {
        to
    }
}

/// `s` without its leading and trailing optional whitespace.
pub open spec fn trim_ows(s: Seq<u8>) -> Seq<u8> {
    let a = ows_run_end(s, 0);
    let b = ows_run_start(s, a, s.len() as int);
    s.subrange(a, b)
}

/// `s` neither starts nor ends with optional whitespace.
pub open spec fn is_trimmed(s: Seq<u8>) -> bool {
    s.len() > 0 ==> !spec_is_ows(s[0]) && !spec_is_ows(s[s.len() - 1])
}

/// Every byte of `s` is optional whitespace.
pub open spec fn all_ows(s: Seq<u8>) -> bool {
    forall|i: int| 0 <= i < s.len() ==> spec_is_ows(#[trigger] s[i])
}

/// The run that starts at `from` is all optional whitespace, and ends at
/// the end of `s` or before a byte that is none.
pub proof fn lemma_ows_run_end(s: Seq<u8>, from: int)
    requires
        0 <= from <= s.len(),
    ensures
        from <= ows_run_end(s, from) <= s.len(),
        forall|k: int| from <= k < ows_run_end(s, from) ==> spec_is_ows(#[trigger] s[k]),
        ows_run_end(s, from) < s.len() ==> !spec_is_ows(s[ows_run_end(s, from)]),
    decreases s.len() - from,
{
    if from < s.len() && spec_is_ows(s[from]) {
        lemma_ows_run_end(s, from + 1);
    }
}

/// The run that ends at `to` is all optional whitespace, and starts at
/// `lo` or after a byte that is none.
pub proof fn lemma_ows_run_start(s: Seq<u8>, lo: int, to: int)
    requires
        0 <= lo <= to <= s.len(),
    ensures
        lo <= ows_run_start(s, lo, to) <= to,
        forall|k: int| ows_run_start(s, lo, to) <= k < to ==> spec_is_ows(#[trigger] s[k]),
        lo < ows_run_start(s, lo, to) ==> !spec_is_ows(s[ows_run_start(s, lo, to) - 1]),
    decreases to - lo,
{
    if lo < to && spec_is_ows(s[to - 1]) {
        lemma_ows_run_start(s, lo, to - 1);
    }
}

/// The bounds of a trimmed middle part are the ones `trim_ows` picks.
pub proof fn lemma_trim_is(s: Seq<u8>, a: int, b: int)
    requires
        0 <= a <= b <= s.len(),
        forall|k: int| 0 <= k < a ==> spec_is_ows(#[trigger] s[k]),
        forall|k: int| b <= k < s.len() ==> spec_is_ows(#[trigger] s[k]),
        a < b ==> !spec_is_ows(s[a]) && !spec_is_ows(s[b - 1]),
        a == b ==> a == s.len(),
    ensures
        trim_ows(s) == s.subrange(a, b),
{
    lemma_ows_run_end(s, 0);
    let a2 = ows_run_end(s, 0);
    if a2 < a {
        assert(spec_is_ows(s[a2]));
    }
    if a < a2 {
        assert(spec_is_ows(s[a]));
    }
    assert(a2 == a);
    lemma_ows_run_start(s, a, s.len() as int);
    let b2 = ows_run_start(s, a, s.len() as int);
    if b2 < b {
        assert(spec_is_ows(s[b - 1]));
    }
    if b < b2 {
        assert(spec_is_ows(s[b2 - 1]));
    }
}

/// What `trim_ows` leaves is trimmed, and what it removes is whitespace.
pub proof fn lemma_trim_ows(s: Seq<u8>)
    ensures
        is_trimmed(trim_ows(s)),
        trim_ows(s).len() <= s.len(),
        exists|lead: Seq<u8>, trail: Seq<u8>|
            #![trigger all_ows(lead), all_ows(trail)]
            all_ows(lead) && all_ows(trail) && s == lead + trim_ows(s) + trail,
{
    lemma_ows_run_end(s, 0);
    let a = ows_run_end(s, 0);
    lemma_ows_run_start(s, a, s.len() as int);
    let b = ows_run_start(s, a, s.len() as int);
    let lead = s.subrange(0, a);
    let trail = s.subrange(b, s.len() as int);
    assert(all_ows(lead));
    assert(all_ows(trail));
    assert(s =~= lead + trim_ows(s) + trail);
}

/// Finds the bounds of `s[from..to]` without its leading and trailing
/// optional whitespace.
pub fn trim_bounds(s: &[u8], from: usize, to: usize) -> (r: (usize, usize))
    requires
        from <= to <= s.len(),
    ensures
        from <= r.0 <= r.1 <= to,
        s@.subrange(r.0 as int, r.1 as int) == trim_ows(s@.subrange(from as int, to as int)),
{
    let mut a: usize = from;
    while a < to && is_ows(s[a])
        invariant
            from <= a <= to <= s.len(),
            forall|k: int| from <= k < a ==> spec_is_ows(#[trigger] s@[k]),
        decreases to - a,
    {
        a = a + 1;
    }
    let mut b: usize = to;
    while a < b && is_ows(s[b - 1])
        invariant
            from <= a <= b <= to <= s.len(),
            forall|k: int| b <= k < to ==> spec_is_ows(#[trigger] s@[k]),
        decreases b - a,
    {
        b = b - 1;
    }
    proof {
        let part = s@.subrange(from as int, to as int);
        assert forall|k: int| 0 <= k < a - from implies spec_is_ows(#[trigger] part[k]) by {
            assert(part[k] == s@[k + from]);
        }
        assert forall|k: int| b - from <= k < part.len() implies spec_is_ows(
            #[trigger] part[k],
        ) by {
            assert(part[k] == s@[k + from]);
        }
        lemma_trim_is(part, a - from, b - from);
        assert(part.subrange(a - from, b - from) =~= s@.subrange(a as int, b as int));
    }
    (a, b)
}

/// Compares two byte strings.
pub fn bytes_eq(a: &[u8], b: &[u8]) -> (r: bool)
    ensures
        r == (a@ == b@),
{
    if a.len() != b.len() {
        return false;
    }
    let mut i: usize = 0;
    while i < a.len()
        invariant
            a.len() == b.len(),
            0 <= i <= a.len(),
            forall|k: int| 0 <= k < i ==> a@[k] == b@[k],
        decreases a.len() - i,
    {
        if a[i] != b[i] {
            return false;
        }
        i = i + 1;
    }
    assert(a@ =~= b@);
    true
}

/// Compares `s[from..to]`, lower-cased, with `word`.
pub fn eq_ignore_case(s: &[u8], from: usize, to: usize, word: &[u8]) -> (r: bool)
    requires
        from <= to <= s.len(),
    ensures
        r == (lower_seq(s@.subrange(from as int, to as int)) == word@),
{
    if to - from != word.len() {
        return false;
    }
    let ghost part = s@.subrange(from as int, to as int);
    let mut i: usize = 0;
    while i < word.len()
        invariant
            from <= to <= s.len(),
            to - from == word.len(),
            part == s@.subrange(from as int, to as int),
            0 <= i <= word.len(),
            forall|k: int| 0 <= k < i ==> lower_seq(part)[k] == word@[k],
        decreases word.len() - i,
    {
        if lower(s[from + i]) != word[i] {
            assert(lower_seq(part)[i as int] != word@[i as int]);
            return false;
        }
        i = i + 1;
    }
    assert(lower_seq(part) =~= word@);
    true
}

/// Copies `s[from..to]` into a new vector.
pub fn copy_range(s: &[u8], from: usize, to: usize) -> (v: Vec<u8>)
    requires
        from <= to <= s.len(),
    ensures
        v@ == s@.subrange(from as int, to as int),
{
    vstd::slice::slice_to_vec(vstd::slice::slice_subrange(s, from, to))
}

} // verus!
