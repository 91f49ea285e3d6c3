use vstd::prelude::*;

verus! {

/// Mask of everything but the sign bit of an IEEE-754 double.
pub open spec fn spec_magnitude(b: u64) -> u64 {
    b & 0x7fff_ffff_ffff_ffff
}

/// The bit pattern is a NaN: exponent all ones and a nonzero fraction.
pub open spec fn is_nan_bits(b: u64) -> bool {
    spec_magnitude(b) > 0x7ff0_0000_0000_0000
}

/// The bit pattern is one of the two IEEE zeros.
pub open spec fn is_zero_bits(b: u64) -> bool {
    spec_magnitude(b) == 0
}

/// Signed key under which the ordering of non-NaN doubles agrees with
/// the ordering of these integers (sign-magnitude reading of the bits).
pub open spec fn spec_order_key(b: u64) -> int {
    if b >= 0x8000_0000_0000_0000 {
        -(spec_magnitude(b) as int)
    } else {
        spec_magnitude(b) as int
    }
}

/// IEEE equality of two doubles given by their bits: NaN equals nothing,
/// and the two zeros are equal.
pub open spec fn num_eq_bits(a: u64, b: u64) -> bool {
    &&& !is_nan_bits(a)
    &&& !is_nan_bits(b)
    &&& spec_order_key(a) == spec_order_key(b)
}

/// IEEE `<` on doubles given by their bits.
pub open spec fn num_lt_bits(a: u64, b: u64) -> bool {
    &&& !is_nan_bits(a)
    &&& !is_nan_bits(b)
    &&& spec_order_key(a) < spec_order_key(b)
}

pub fn magnitude(b: u64) -> (r: u64)
    ensures
        r == spec_magnitude(b),
{
    b & 0x7fff_ffff_ffff_ffff
}

pub fn nan_bits(b: u64) -> (r: bool)
    ensures
        r == is_nan_bits(b),
{
    magnitude(b) > 0x7ff0_0000_0000_0000
}

pub fn zero_bits(b: u64) -> (r: bool)
    ensures
        r == is_zero_bits(b),
{
    magnitude(b) == 0
}

/// IEEE equality test on bit patterns.
pub fn num_eq(a: u64, b: u64) -> (r: bool)
    ensures
        r == num_eq_bits(a, b),
{
    if nan_bits(a) || nan_bits(b) {
        false
    } else if magnitude(a) == 0 && magnitude(b) == 0 {
        assert(spec_order_key(a) == 0 && spec_order_key(b) == 0);
        true
    } else {
        assert(a == b ==> spec_order_key(a) == spec_order_key(b));
        assert(a != b && spec_magnitude(a) == spec_magnitude(b) && spec_magnitude(a) != 0
            ==> spec_order_key(a) != spec_order_key(b)) by (bit_vector);
        a == b
    }
}

} // verus!

verus! {

/// The bit pattern is neither an infinity nor a NaN.
pub open spec fn is_finite_bits(b: u64) -> bool {
    spec_magnitude(b) < 0x7ff0_0000_0000_0000
}

/// The sign bit is set.
pub open spec fn is_negative_bits(b: u64) -> bool {
    b >= 0x8000_0000_0000_0000
}

/// IEEE `<=` on doubles given by their bits.
pub open spec fn num_le_bits(a: u64, b: u64) -> bool {
    &&& !is_nan_bits(a)
    &&& !is_nan_bits(b)
    &&& spec_order_key(a) <= spec_order_key(b)
}

pub fn finite_bits(b: u64) -> (r: bool)
    ensures
        r == is_finite_bits(b),
{
    magnitude(b) < 0x7ff0_0000_0000_0000
}

/// IEEE `<` test on bit patterns.
pub fn num_lt(a: u64, b: u64) -> (r: bool)
    ensures
        r == num_lt_bits(a, b),
{
    if nan_bits(a) || nan_bits(b) {
        false
    } else {
        let neg_a = a >= 0x8000_0000_0000_0000;
        let neg_b = b >= 0x8000_0000_0000_0000;
        if neg_a && neg_b {
            magnitude(b) < magnitude(a)
        } else if neg_a {
            magnitude(a) != 0 || magnitude(b) != 0
        } else if neg_b {
            false
        } else {
            magnitude(a) < magnitude(b)
        }
    }
}

/// IEEE `<=` test on bit patterns.
pub fn num_le(a: u64, b: u64) -> (r: bool)
    ensures
        r == num_le_bits(a, b),
{
    if nan_bits(a) || nan_bits(b) {
        false
    } else if num_lt(a, b) {
        true
    } else {
        num_eq(a, b)
    }
}

/// What a Rust `as usize` cast of the double does on a 64-bit target:
/// NaN and negatives go to 0, values at or above 2^64 saturate, and the
/// rest are truncated toward zero.
pub open spec fn spec_trunc_bits(b: u64) -> u64 {
    let m = spec_magnitude(b);
    if m > 0x7ff0_0000_0000_0000 {
        0
    } else if b >= 0x8000_0000_0000_0000 {
        0
    } else if m >= 0x43f0_0000_0000_0000 {
        0xffff_ffff_ffff_ffff
    } else if m < 0x3ff0_0000_0000_0000 {
        0
    } else {
        let e = m >> 52;
        let significand = (m & 0xf_ffff_ffff_ffff) | 0x10_0000_0000_0000;
        if e >= 1075 {
            significand << (e - 1075)
        } else {
            significand >> (1075 - e)
        }
    }
}

/// Truncate the double given by its bits to an unsigned machine integer,
/// the way an `as usize` cast does.
pub fn trunc_bits(b: u64) -> (r: usize)
    ensures
        r == spec_trunc_bits(b) as usize,
{
    let m = magnitude(b);
    if m > 0x7ff0_0000_0000_0000 {
        0
    } else if b >= 0x8000_0000_0000_0000 {
        0
    } else if m >= 0x43f0_0000_0000_0000 {
        #[verifier::truncate] (0xffff_ffff_ffff_ffff_u64 as usize)
    } else if m < 0x3ff0_0000_0000_0000 {
        0
    } else {
        assert(1023 <= (m >> 52) < 1087) by (bit_vector)
            requires
                0x3ff0_0000_0000_0000 <= m < 0x43f0_0000_0000_0000,
        ;
        let e = m >> 52;
        let significand = (m & 0xf_ffff_ffff_ffff) | 0x10_0000_0000_0000;
        if e >= 1075 {
            let r = significand << (e - 1075) as u64;
            #[verifier::truncate] (r as usize)
        } else {
            let r = significand >> (1075 - e) as u64;
            #[verifier::truncate] (r as usize)
        }
    }
}

} // verus!

use crate::lexer::{is_plain_decimal, plain_digits};
use rustc_apfloat::Float;
use rustc_apfloat::ieee::Double;
use vstd::string::StrSliceExecFns;
use vstd::string::StringExecFns;

verus! {

/// The bits of the IEEE double sum of the doubles given by `a` and `b`,
/// rounding to nearest, ties to even.
pub uninterp spec fn add_bits(a: u64, b: u64) -> u64;

/// The bits of the IEEE double difference of the doubles given by `a` and `b`.
pub uninterp spec fn sub_bits(a: u64, b: u64) -> u64;

/// The bits of the IEEE double product of the doubles given by `a` and `b`.
pub uninterp spec fn mul_bits(a: u64, b: u64) -> u64;

/// The bits of the IEEE double quotient of the doubles given by `a` and `b`.
pub uninterp spec fn div_bits(a: u64, b: u64) -> u64;

/// The bits of the C-style fmod remainder of the doubles given by `a` and `b`.
pub uninterp spec fn fmod_bits(a: u64, b: u64) -> u64;

/// The bits of the double that a decimal numeral denotes, rounding to
/// nearest, ties to even.
pub uninterp spec fn number_of_literal(s: Seq<char>) -> u64;

/// The decimal rendering of the finite double given by `b`, with `p`
/// significant digits at most.
pub uninterp spec fn decimal_of(b: u64, p: usize) -> Seq<char>;

/// The bits of the double nearest to the unsigned integer `n`.
pub uninterp spec fn bits_of_len(n: usize) -> u64;

/// Relies on rustc_apfloat's `Double::add_r` with round-to-nearest-even:
/// a pure function of the two operands' bits.
#[verifier::external_body]
pub(crate) fn apf_add(a: u64, b: u64) -> (r: u64)
    ensures
        r == add_bits(a, b),
{
    Double::from_bits(a as u128).add_r(Double::from_bits(b as u128), rustc_apfloat::Round::NearestTiesToEven).value.to_bits() as u64
}

/// Relies on rustc_apfloat's `Double::sub_r` with round-to-nearest-even.
#[verifier::external_body]
pub(crate) fn apf_sub(a: u64, b: u64) -> (r: u64)
    ensures
        r == sub_bits(a, b),
{
    Double::from_bits(a as u128).sub_r(Double::from_bits(b as u128), rustc_apfloat::Round::NearestTiesToEven).value.to_bits() as u64
}

/// Relies on rustc_apfloat's `Double::mul_r` with round-to-nearest-even.
#[verifier::external_body]
pub(crate) fn apf_mul(a: u64, b: u64) -> (r: u64)
    ensures
        r == mul_bits(a, b),
{
    Double::from_bits(a as u128).mul_r(Double::from_bits(b as u128), rustc_apfloat::Round::NearestTiesToEven).value.to_bits() as u64
}

/// Relies on rustc_apfloat's `Double::div_r` with round-to-nearest-even.
#[verifier::external_body]
pub(crate) fn apf_div(a: u64, b: u64) -> (r: u64)
    ensures
        r == div_bits(a, b),
{
    Double::from_bits(a as u128).div_r(Double::from_bits(b as u128), rustc_apfloat::Round::NearestTiesToEven).value.to_bits() as u64
}

/// Relies on rustc_apfloat's `Double::c_fmod`, the C `fmod` that Rust's `%`
/// performs on doubles.
#[verifier::external_body]
pub(crate) fn apf_fmod(a: u64, b: u64) -> (r: u64)
    ensures
        r == fmod_bits(a, b),
{
    Double::from_bits(a as u128).c_fmod(Double::from_bits(b as u128)).value.to_bits() as u64
}

/// Relies on rustc_apfloat's `Double::from_str`, which rounds a decimal
/// numeral to the nearest double, ties to even; a numeral that the crate
/// rejects is mapped to the zero bit pattern.
#[verifier::external_body]
pub(crate) fn parse_number(s: &str) -> (r: u64)
    ensures
        r == number_of_literal(s@),
{
    match <Double as core::str::FromStr>::from_str(s) {
        Ok(d) => d.to_bits() as u64,
        Err(_) => 0,
    }
}

/// Relies on rustc_apfloat's `Display` for `Double`. The formatter extracts
/// the exact decimal expansion with big integers, rounds it to `p`
/// significant digits, and falls back to scientific notation only when the
/// digits would outrun the field width or the requested precision
/// (`ieee.rs`, the `scientific` test). A finite double's exact expansion
/// has at most 767 significant digits and a decimal exponent below 1000 in
/// magnitude, so at precision 800 under a width of 1000 nothing is rounded
/// away and nothing overruns: the output is the exact value as a plain
/// decimal, and parsing it back yields the same bits.
#[verifier::external_body]
fn apf_render(b: u64, p: usize) -> (r: String)
    requires
        is_finite_bits(b),
        1 <= p <= 17 || p == 800,
    ensures
        r@ == decimal_of(b, p),
        p == 800 ==> number_of_literal(r@) == b && is_plain_decimal(r@),
{
    format!("{:width$.prec$}", Double::from_bits(b as u128), width = 1000usize, prec = p)
}

/// Relies on rustc_apfloat's `Double::from_u128` with round-to-nearest-even.
#[verifier::external_body]
pub(crate) fn length_bits(n: usize) -> (r: u64)
    ensures
        r == bits_of_len(n),
{
    Double::from_u128(n as u128).value.to_bits() as u64
}

/// Decimal digit test.
fn digit(c: char) -> (r: bool)
    ensures
        r == crate::lexer::is_digit_char(c),
{
    let u = c as u32;
    48 <= u && u <= 57
}

/// Whether a string is a plain decimal numeral.
fn plain_decimal(s: &String) -> (r: bool)
    ensures
        r == is_plain_decimal(s@),
{
    let n = s.as_str().unicode_len();
    if n == 0 {
        return false;
    }
    let neg = s.as_str().get_char(0) == '-';
    let start: usize = if neg {
        1
    } else {
        0
    };
    let ghost d = if neg {
        s@.skip(1)
    } else {
        s@
    };
    proof {
        assert(d.len() == n - start);
        assert(forall|i: int| 0 <= i < d.len() ==> d[i] == s@[i + start]);
    }
    if n == start {
        return false;
    }
    if !digit(s.as_str().get_char(start)) {
        proof {
            assert(d[0] == s@[start as int]);
        }
        return false;
    }
    if !digit(s.as_str().get_char(n - 1)) {
        proof {
            assert(d[d.len() - 1] == s@[n - 1]);
        }
        return false;
    }
    let mut k: usize = start;
    let mut first_dot: Option<usize> = None;
    while k < n
        invariant
            start <= k <= n,
            start <= 1,
            n >= 1,
            n == s@.len(),
            (start == 1) == (s@[0] == '-'),
            d == (if start == 1 {
                s@.skip(1)
            } else {
                s@
            }),
            d.len() == n - start,
            forall|i: int| 0 <= i < d.len() ==> d[i] == s@[i + start],
            forall|i: int|
                start <= i < k ==> crate::lexer::is_digit_char(#[trigger] s@[i]) || s@[i] == '.',
            match first_dot {
                Some(pd) => start <= pd < k && s@[pd as int] == '.' && forall|i: int|
                    start <= i < k && s@[i] == '.' ==> i == pd,
                None => forall|i: int| start <= i < k ==> s@[i] != '.',
            },
        decreases n - k,
    {
        let c = s.as_str().get_char(k);
        if digit(c) {
            proof {
                assert(!crate::lexer::is_digit_char('.'));
            }
        } else if c == '.' {
            match first_dot {
                None => {
                    first_dot = Some(k);
                },
                Some(pd) => {
                    proof {
                        assert(d[pd - start] == '.' && d[k - start] == '.');
                        assert(!plain_digits(d));
                    }
                    return false;
                },
            }
        } else {
            proof {
                assert(d[k - start] == c);
                assert(!plain_digits(d));
            }
            return false;
        }
        k += 1;
    }
    proof {
        assert(forall|i: int|
            0 <= i < d.len() ==> crate::lexer::is_digit_char(#[trigger] d[i]) || d[i] == '.');
        assert forall|i: int, j: int| 0 <= i < j < d.len() implies !(d[i] == '.' && d[j]
            == '.') by {
            if d[i] == '.' && d[j] == '.' {
                assert(s@[i + start] == '.' && s@[j + start] == '.');
            }
        }
        assert(d[0] == s@[start as int]);
        assert(d[d.len() - 1] == s@[n - 1]);
        assert(plain_digits(d));
    }
    true
}

/// Whether the `p` digit rendering of `b` is faithful: a plain decimal
/// that parses back to the same bits.
pub open spec fn good_precision(b: u64, p: usize) -> bool {
    &&& is_plain_decimal(decimal_of(b, p))
    &&& number_of_literal(decimal_of(b, p)) == b
}

/// The precision the canonical rendering uses: the fewest significant
/// digits (up to 16) that give a faithful plain decimal, else 800, where
/// the rendering is the exact decimal expansion.
pub open spec fn chosen_precision(b: u64, p: usize) -> usize
    decreases 17 - p,
{
    if p >= 17 {
        800
    } else if good_precision(b, p) {
        p
    } else {
        chosen_precision(b, (p + 1) as usize)
    }
}

/// The text a number shows as and keys a collection under: `NaN` and the
/// infinities by name, and a finite double as its canonical plain decimal.
pub open spec fn spec_num_text(b: u64) -> Seq<char> {
    if is_nan_bits(b) {
        "NaN"@
    } else if !is_finite_bits(b) {
        if is_negative_bits(b) {
            "-inf"@
        } else {
            "inf"@
        }
    } else {
        decimal_of(b, chosen_precision(b, 1))
    }
}

/// The text that the interpreter shows for the number whose bits are `b`.
/// A finite double renders as a plain decimal numeral — an optional minus,
/// digits, at most one decimal point, never an exponent — that parses back
/// to the same bits: `5` shows as `5`, never `5.0`.
pub fn render_number(b: u64) -> (r: String)
    ensures
        r@ == spec_num_text(b),
        is_finite_bits(b) ==> is_plain_decimal(r@) && number_of_literal(r@) == b,
{
    if nan_bits(b) {
        return String::from_str("NaN");
    }
    if !finite_bits(b) {
        if b >= 0x8000_0000_0000_0000 {
            return String::from_str("-inf");
        } else {
            return String::from_str("inf");
        }
    }
    let mut p: usize = 1;
    while p < 17
        invariant
            1 <= p <= 17,
            is_finite_bits(b),
            chosen_precision(b, 1) == chosen_precision(b, p as usize),
        decreases 17 - p,
    {
        let s = apf_render(b, p);
        if plain_decimal(&s) && parse_number(s.as_str()) == b {
            proof {
                assert(good_precision(b, p as usize));
                assert(chosen_precision(b, p as usize) == p);
            }
            return s;
        }
        proof {
            assert(!good_precision(b, p as usize));
            assert(chosen_precision(b, p as usize) == chosen_precision(b, (p + 1) as usize));
        }
        p += 1;
    }
    proof {
        assert(chosen_precision(b, 17) == 800);
    }
    apf_render(b, 800)
}

} // verus!

verus! {

/// The bits of the IEEE negation: the sign bit flipped.
pub open spec fn neg_bits(b: u64) -> u64 {
    b ^ 0x8000_0000_0000_0000
}

/// Flip the sign bit, which is all IEEE negation does.
pub fn negate_bits(b: u64) -> (r: u64)
    ensures
        r == neg_bits(b),
{
    b ^ 0x8000_0000_0000_0000
}

} // verus!
