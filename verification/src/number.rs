//! Unsigned numbers written in ASCII digits: the decimal form used by
//! `Content-Length` and the hexadecimal form used by chunk sizes.

use vstd::prelude::*;
use crate::bytes::{is_digit, spec_is_digit};

verus! {

/// Hexadecimal digit, either case.
pub open spec fn spec_is_hex_digit(b: u8) -> bool {
    spec_is_digit(b) || (0x41 <= b && b <= 0x46) || (0x61 <= b && b <= 0x66)
}

#[verifier::when_used_as_spec(spec_is_hex_digit)]
pub fn is_hex_digit(b: u8) -> (r: bool)
    ensures
        r == spec_is_hex_digit(b),
{
    is_digit(b) || (0x41 <= b && b <= 0x46) || (0x61 <= b && b <= 0x66)
}

/// Value of one digit in any radix up to sixteen.
pub open spec fn spec_digit_value(b: u8) -> u8 {
    if spec_is_digit(b) {
        (b - 0x30) as u8
    } else if 0x41 <= b && b <= 0x46 {
        (b - 0x41 + 10) as u8
    } else if 0x61 <= b && b <= 0x66 {
        (b - 0x61 + 10) as u8
    } else {
        0
    }
}

#[verifier::when_used_as_spec(spec_digit_value)]
pub fn digit_value(b: u8) -> (r: u8)
    ensures
        r == spec_digit_value(b),
        r < 16,
        spec_is_digit(b) ==> r < 10,
{
    if is_digit(b) {
        b - 0x30
    } else if 0x41 <= b && b <= 0x46 {
        b - 0x41 + 10
    } else if 0x61 <= b && b <= 0x66 {
        b - 0x61 + 10
    } else {
        0
    }
}

/// The number that the digits of `s` spell in the given radix, most
/// significant digit first. The empty sequence spells zero.
pub open spec fn radix_value(s: Seq<u8>, radix: nat) -> nat
    decreases s.len(),
{
    if s.len() == 0 {
        0
    } else {
        radix_value(s.drop_last(), radix) * radix + spec_digit_value(s.last()) as nat
    }
}

/// One or more decimal digits.
pub open spec fn is_decimal(s: Seq<u8>) -> bool {
    s.len() > 0 && forall|i: int| 0 <= i < s.len() ==> spec_is_digit(#[trigger] s[i])
}

/// One or more hexadecimal digits.
pub open spec fn is_hex(s: Seq<u8>) -> bool {
    s.len() > 0 && forall|i: int| 0 <= i < s.len() ==> spec_is_hex_digit(#[trigger] s[i])
}

/// The size that a decimal digit string denotes, if it is one and the
/// number fits in `usize`.
pub open spec fn decimal_size(s: Seq<u8>) -> Option<usize> {
    if is_decimal(s) && radix_value(s, 10) <= usize::MAX {
        Some(radix_value(s, 10) as usize)
    } else {
        None
    }
}

/// The size that a hexadecimal digit string denotes, if it is one and the
/// number fits in `usize`.
pub open spec fn hex_size(s: Seq<u8>) -> Option<usize> {
    if is_hex(s) && radix_value(s, 16) <= usize::MAX {
        Some(radix_value(s, 16) as usize)
    } else {
        None
    }
}

/// The decimal digits of `n`, most significant first, without leading
/// zeros.
pub open spec fn decimal_digits(n: nat) -> Seq<u8>
    decreases n,
{
    if n < 10 {
        seq![(0x30 + n) as u8]
    } else {
        decimal_digits(n / 10).push((0x30 + n % 10) as u8)
    }
}

/// The decimal digits of a number spell that number.
pub proof fn lemma_decimal_digits(n: nat)
    ensures
        is_decimal(decimal_digits(n)),
        radix_value(decimal_digits(n), 10) == n,
        n <= usize::MAX ==> decimal_size(decimal_digits(n)) == Some(n as usize),
    decreases n,
{
    let digits = decimal_digits(n);
    if n < 10 {
        assert(digits.drop_last() =~= Seq::<u8>::empty());
        assert(radix_value(digits.drop_last(), 10) == 0);
    } else {
        let head = decimal_digits(n / 10);
        lemma_decimal_digits(n / 10);
        assert(digits.drop_last() =~= head);
        assert forall|i: int| 0 <= i < digits.len() implies spec_is_digit(#[trigger] digits[i]) by {
            if i < head.len() {
                assert(digits[i] == head[i]);
            }
        }
    }
}

/// Reading more digits never makes the number smaller.
pub proof fn lemma_radix_value_grows(s: Seq<u8>, radix: nat, k: int)
    requires
        radix >= 1,
        0 <= k <= s.len(),
    ensures
        radix_value(s.subrange(0, k), radix) <= radix_value(s, radix),
    decreases s.len() - k,
{
    if k == s.len() {
        assert(s.subrange(0, k) =~= s);
    } else {
        lemma_radix_value_grows(s.drop_last(), radix, k);
        assert(s.drop_last().subrange(0, k) =~= s.subrange(0, k));
        let head = radix_value(s.drop_last(), radix);
        assert(head <= head * radix) by (nonlinear_arith)
            requires
                radix >= 1,
                head >= 0,
        ;
    }
}

/// Reads `s` as a number in radix ten or sixteen.
fn parse_radix(s: &[u8], hex: bool) -> (r: Option<usize>)
    ensures
        r == if hex {
            hex_size(s@)
        } else {
            decimal_size(s@)
        },
{
    if s.len() == 0 {
        return None;
    }
    let radix: usize = if hex {
        16
    } else {
        10
    };
    let mut acc: usize = 0;
    let mut i: usize = 0;
    while i < s.len()
        invariant
            0 <= i <= s.len(),
            radix == if hex {
                16usize
            } else {
                10usize
            },
            acc == radix_value(s@.subrange(0, i as int), radix as nat),
            forall|k: int|
                0 <= k < i ==> if hex {
                    spec_is_hex_digit(#[trigger] s@[k])
                } else {
                    spec_is_digit(#[trigger] s@[k])
                },
        decreases s.len() - i,
    {
        let b = s[i];
        let ok = if hex {
            is_hex_digit(b)
        } else {
            is_digit(b)
        };
        if !ok {
            return None;
        }
        let d = digit_value(b) as usize;
        let ghost next = s@.subrange(0, i + 1);
        proof {
            assert(next.drop_last() =~= s@.subrange(0, i as int));
            assert(next.last() == b);
            assert(radix_value(next, radix as nat) == acc * radix + d);
        }
        if acc > (usize::MAX - d) / radix {
            proof {
                assert(acc * radix + d > usize::MAX) by (nonlinear_arith)
                    requires
                        acc > (usize::MAX - d) / (radix as int),
                        radix > 0,
                        d >= 0,
                ;
                lemma_radix_value_grows(s@, radix as nat, i + 1);
            }
            return None;
        }
        assert(acc * radix + d <= usize::MAX) by (nonlinear_arith)
            requires
                acc <= (usize::MAX - d) / (radix as int),
                radix > 0,
                d <= usize::MAX,
        ;
        acc = acc * radix + d;
        i = i + 1;
    }
    proof {
        assert(s@.subrange(0, i as int) =~= s@);
    }
    Some(acc)
}

/// Reads a decimal size: one or more digits and nothing else.
pub fn parse_decimal(s: &[u8]) -> (r: Option<usize>)
    ensures
        r == decimal_size(s@),
{
    parse_radix(s, false)
}

/// Reads a hexadecimal size: one or more hexadecimal digits and nothing
/// else.
pub fn parse_hex(s: &[u8]) -> (r: Option<usize>)
    ensures
        r == hex_size(s@),
{
    parse_radix(s, true)
}

} // verus!
