//! Numerals: the texts that the tokenizers read as numbers, and the integers
//! they stand for.
//!
//! A numeral is kept as its text.  Which texts are numerals is what the float
//! parser accepts among the texts the tokenizers can collect: an optional `-`,
//! then ASCII digits with at most one `.`, at least one digit.

use vstd::prelude::*;
use crate::chars::spec_is_ascii_digit;

verus! {

pub open spec fn is_numeral_body(s: Seq<u8>) -> bool {
    &&& forall|i: int| 0 <= i < s.len() ==> spec_is_ascii_digit(#[trigger] s[i]) || s[i] == 46
    &&& forall|i: int, j: int| 0 <= i < j < s.len() && #[trigger] s[i] == 46 ==> #[trigger] s[j] != 46
    &&& exists|i: int| 0 <= i < s.len() && spec_is_ascii_digit(#[trigger] s[i])
}

pub open spec fn has_minus(s: Seq<u8>) -> bool {
    s.len() > 0 && s[0] == 45
}

/// The text after the sign.
pub open spec fn numeral_body(s: Seq<u8>) -> Seq<u8> {
    if has_minus(s) {
        s.drop_first()
    } else {
        s
    }
}

pub open spec fn is_valid_numeral(s: Seq<u8>) -> bool {
    is_numeral_body(numeral_body(s))
}

/// The index of the first `.` in `s`, or its length.
pub open spec fn first_dot(s: Seq<u8>) -> int
    decreases s.len(),
{
    if s.len() == 0 {
        0
    } else if s[0] == 46 {
        0
    } else {
        1 + first_dot(s.drop_first())
    }
}

/// The value of a run of ASCII digits.
pub open spec fn digits_value(s: Seq<u8>) -> nat
    decreases s.len(),
{
    if s.len() == 0 {
        0
    } else {
        digits_value(s.drop_last()) * 10 + (s.last() - 48) as nat
    }
}

/// The magnitude of the integer part of a numeral.
pub open spec fn numeral_magnitude(s: Seq<u8>) -> nat {
    let body = numeral_body(s);
    digits_value(body.take(first_dot(body)))
}

/// The numeral's value rounded toward zero.
pub open spec fn numeral_int(s: Seq<u8>) -> int {
    if has_minus(s) {
        -(numeral_magnitude(s) as int)
    } else {
        numeral_magnitude(s) as int
    }
}

pub open spec fn clamp(v: int, lo: int, hi: int) -> int {
    if v < lo {
        lo
    } else if v > hi {
        hi
    } else {
        v
    }
}

pub proof fn lemma_first_dot(s: Seq<u8>, k: int)
    requires
        0 <= k <= s.len(),
        forall|j: int| 0 <= j < k ==> s[j] != 46,
        k == s.len() || s[k] == 46,
    ensures
        first_dot(s) == k,
    decreases s.len(),
{
    if s.len() > 0 && k > 0 {
        assert forall|j: int| 0 <= j < k - 1 implies s.drop_first()[j] != 46 by {
            assert(s.drop_first()[j] == s[j + 1]);
        }
        lemma_first_dot(s.drop_first(), k - 1);
    }
}

pub proof fn lemma_first_dot_bounds(s: Seq<u8>)
    ensures
        0 <= first_dot(s) <= s.len(),
    decreases s.len(),
{
    if s.len() > 0 && s[0] != 46 {
        lemma_first_dot_bounds(s.drop_first());
    }
}

/// Whether the text is a numeral.
pub fn check_numeral(s: &Vec<u8>) -> (r: bool)
    ensures
        r == is_valid_numeral(s@),
{
    let start: usize = if s.len() > 0 && s[0] == 45 {
        1
    } else {
        0
    };
    let ghost body = numeral_body(s@);
    assert(body =~= s@.subrange(start as int, s@.len() as int));
    let mut i: usize = start;
    let mut seen_dot = false;
    let mut seen_digit = false;
    while i < s.len()
        invariant
            start <= i <= s.len(),
            body == numeral_body(s@),
            start == (if has_minus(s@) { 1int } else { 0int }),
            body =~= s@.subrange(start as int, s@.len() as int),
            forall|k: int| 0 <= k < i - start ==> spec_is_ascii_digit(#[trigger] body[k]) || body[k] == 46,
            seen_dot == (exists|k: int| 0 <= k < i - start && #[trigger] body[k] == 46),
            forall|a: int, b: int| 0 <= a < b < i - start && #[trigger] body[a] == 46 ==> #[trigger] body[b] != 46,
            seen_digit == (exists|k: int| 0 <= k < i - start && spec_is_ascii_digit(#[trigger] body[k])),
        decreases s.len() - i,
    {
        let b = s[i];
        let ghost k = i - start;
        assert(body[k] == b);
        if b == 46 {
            if seen_dot {
                let ghost a = choose|a: int| 0 <= a < i - start && #[trigger] body[a] == 46;
                assert(body[a] == 46 && body[k] == 46 && a < k);
                assert(!is_numeral_body(body));
                return false;
            }
            seen_dot = true;
        } else if 48 <= b && b <= 57 {
            seen_digit = true;
        } else {
            assert(!is_numeral_body(body)) by {
                assert(!(spec_is_ascii_digit(body[k]) || body[k] == 46));
            }
            return false;
        }
        i = i + 1;
    }
    seen_digit
}

/// The magnitude of the numeral's integer part, capped at `u64::MAX`.
pub fn numeral_magnitude_sat(s: &Vec<u8>) -> (r: u64)
    requires
        is_valid_numeral(s@),
    ensures
        r == clamp(numeral_magnitude(s@) as int, 0, u64::MAX as int),
{
    let start: usize = if s.len() > 0 && s[0] == 45 {
        1
    } else {
        0
    };
    let ghost body = numeral_body(s@);
    assert(body =~= s@.subrange(start as int, s@.len() as int));
    let mut i: usize = start;
    let mut acc: u64 = 0;
    while i < s.len() && s[i] != 46
        invariant
            start <= i <= s.len(),
            body =~= s@.subrange(start as int, s@.len() as int),
            is_numeral_body(body),
            forall|j: int| 0 <= j < i - start ==> body[j] != 46,
            acc == clamp(digits_value(body.take(i - start)) as int, 0, u64::MAX as int),
        decreases s.len() - i,
    {
        let ghost k = i - start;
        let d = s[i];
        assert(body[k] == d);
        assert(spec_is_ascii_digit(d));
        let dv: u64 = (d - 48) as u64;
        let ghost old_v = digits_value(body.take(k));
        assert(body.take(k + 1).drop_last() =~= body.take(k));
        assert(digits_value(body.take(k + 1)) == old_v * 10 + dv);
        if acc <= (u64::MAX - dv) / 10 {
            assert(acc * 10 + dv <= u64::MAX) by (nonlinear_arith)
                requires
                    acc <= (u64::MAX - dv) / 10,
                    dv <= 9,
            ;
            if acc == u64::MAX {
                assert(false) by (nonlinear_arith)
                    requires
                        acc <= (u64::MAX - dv) / 10,
                        acc == u64::MAX,
                ;
            }
            acc = acc * 10 + dv;
        } else {
            assert(old_v * 10 + dv > u64::MAX) by (nonlinear_arith)
                requires
                    acc > (u64::MAX - dv) / 10,
                    dv <= 9,
                    acc <= old_v,
            ;
            acc = u64::MAX;
        }
        i = i + 1;
    }
    proof {
        lemma_first_dot(body, i - start);
    }
    acc
}

/// The numeral's value rounded toward zero, as an `i32` (values out of range
/// are taken to the nearest bound).
pub fn numeral_to_i32(s: &Vec<u8>) -> (r: i32)
    requires
        is_valid_numeral(s@),
    ensures
        r == clamp(numeral_int(s@), i32::MIN as int, i32::MAX as int),
{
    let m = numeral_magnitude_sat(s);
    if s[0] == 45 {
        if m >= 0x8000_0000 {
            i32::MIN
        } else {
            (0 - (m as i64)) as i32
        }
    } else {
        if m > 0x7fff_ffff {
            i32::MAX
        } else {
            m as i32
        }
    }
}

/// The numeral's value rounded toward zero, as a `usize` (negative values give
/// 0, values that are too large give `usize::MAX`).
pub fn numeral_to_usize(s: &Vec<u8>) -> (r: usize)
    requires
        is_valid_numeral(s@),
    ensures
        r == clamp(numeral_int(s@), 0, usize::MAX as int),
{
    let m = numeral_magnitude_sat(s);
    if s[0] == 45 {
        0
    } else if m > usize::MAX as u64 {
        usize::MAX
    } else {
        m as usize
    }
}

/// The numeral's value rounded toward zero, as a `u32`.
pub fn numeral_to_u32(s: &Vec<u8>) -> (r: u32)
    requires
        is_valid_numeral(s@),
    ensures
        r == clamp(numeral_int(s@), 0, u32::MAX as int),
{
    let m = numeral_magnitude_sat(s);
    if s[0] == 45 {
        0
    } else if m > 0xffff_ffff {
        u32::MAX
    } else {
        m as u32
    }
}

/// The numeral's value rounded toward zero, as a `u8`.
pub fn numeral_to_u8(s: &Vec<u8>) -> (r: u8)
    requires
        is_valid_numeral(s@),
    ensures
        r == clamp(numeral_int(s@), 0, u8::MAX as int),
{
    let m = numeral_magnitude_sat(s);
    if s[0] == 45 {
        0
    } else if m > 255 {
        255
    } else {
        m as u8
    }
}

/// Whether a numeral stands for zero: all its digits are `0`.
pub open spec fn is_zero_numeral(s: Seq<u8>) -> bool {
    forall|i: int|
        0 <= i < numeral_body(s).len() ==> #[trigger] numeral_body(s)[i] == 48 || numeral_body(
            s,
        )[i] == 46
}

/// Whether a numeral stands for zero.
pub fn check_zero_numeral(s: &Vec<u8>) -> (r: bool)
    ensures
        r == is_zero_numeral(s@),
{
    let start: usize = if s.len() > 0 && s[0] == 45 {
        1
    } else {
        0
    };
    let ghost body = numeral_body(s@);
    assert(body =~= s@.skip(start as int));
    let mut i: usize = start;
    while i < s.len()
        invariant
            start <= i <= s@.len(),
            body == s@.skip(start as int),
            body == numeral_body(s@),
            forall|j: int| 0 <= j < i - start ==> #[trigger] body[j] == 48 || body[j] == 46,
        decreases s.len() - i,
    {
        if s[i] != 48 && s[i] != 46 {
            assert(body[i - start] == s@[i as int]);
            return false;
        }
        assert(body[i - start] == s@[i as int]);
        i = i + 1;
    }
    true
}

} // verus!
