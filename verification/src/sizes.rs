//! Human-readable byte counts and the free-disk-space check.
//!
//! The byte counts are rendered as `f64` arithmetic and `{:.2}` formatting render
//! them; the library computes the same digits with integers: a value is first
//! rounded to the nearest `f64` (ties to even), and `{:.2}` rounds its exact
//! value to hundredths, ties to even.

use vstd::prelude::*;
use vstd::arithmetic::div_mod::{lemma_fundamental_div_mod, lemma_div_denominator, lemma_mod_bound};
use crate::text::{decimal, digit_char, decimal_chars, char_from_digit, extend_chars, chars_to_string};

verus! {

/// 2^53: integers below it are exact in `f64`.
pub const F64_EXACT_LIMIT: u128 = 0x20000000000000;

/// Distance between neighbouring `f64` values around the integer `x` (a power of two).
pub open spec fn f64_spacing(x: nat) -> nat
    decreases x,
{
    if x < F64_EXACT_LIMIT { 1 } else { 2 * f64_spacing(x / 2) }
}

/// `num / den` rounded to the nearest integer, ties to the even one.
pub open spec fn round_even(num: nat, den: nat) -> nat {
    let q = num / den;
    let r = num % den;
    if 2 * r > den || (2 * r == den && q % 2 == 1) { q + 1 } else { q }
}

/// The value of `x as f64`: `x` rounded to the nearest multiple of the `f64`
/// spacing at `x`, ties to even.
pub open spec fn to_f64(x: nat) -> nat {
    round_even(x, f64_spacing(x)) * f64_spacing(x)
}

proof fn lemma_spacing_positive(x: nat)
    ensures
        f64_spacing(x) >= 1,
    decreases x,
{
    if x >= F64_EXACT_LIMIT {
        lemma_spacing_positive(x / 2);
    }
}

fn round_half_even(num: u128, den: u128) -> (r: u128)
    requires
        den > 0,
        num < u128::MAX,
    ensures
        r == round_even(num as nat, den as nat),
{
    let q = num / den;
    let rem = num % den;
    proof {
        lemma_mod_bound(num as int, den as int);
        lemma_fundamental_div_mod(num as int, den as int);
        assert(q <= num) by (nonlinear_arith)
            requires q == num / den, den > 0, num >= 0;
    }
    if rem > den - rem || (rem == den - rem && q % 2 == 1) { q + 1 } else { q }
}

/// `x as f64`, as an integer.
fn f64_value(x: u128) -> (v: u128)
    requires
        x < 0x40000000000000000000000000000000,
    ensures
        v == to_f64(x as nat),
        v <= 2 * x,
{
    let mut y = x;
    let mut p: u128 = 1;
    while y >= F64_EXACT_LIMIT
        invariant
            x < 0x40000000000000000000000000000000,
            p >= 1,
            p <= x || p == 1,
            y == (x as nat) / (p as nat),
            p * f64_spacing(y as nat) == f64_spacing(x as nat),
        decreases y,
    {
        proof {
            lemma_div_denominator(x as int, p as int, 2);
            assert(p * 2 <= x) by (nonlinear_arith)
                requires y == x / p, y >= 2, p >= 1;
            assert(p * f64_spacing(y as nat) == (p * 2) * f64_spacing((y / 2) as nat)) by (nonlinear_arith)
                requires f64_spacing(y as nat) == 2 * f64_spacing((y / 2) as nat);
        }
        y = y / 2;
        p = p * 2;
    }
    proof {
        lemma_fundamental_div_mod(x as int, p as int);
        lemma_mod_bound(x as int, p as int);
        assert(f64_spacing(y as nat) == 1);
        let sp = f64_spacing(y as nat);
        assert(p * sp == p) by (nonlinear_arith)
            requires sp == 1;
        assert(f64_spacing(x as nat) == p);
        assert(y * p <= x) by (nonlinear_arith)
            requires x == p * y + (x % p), x % p >= 0;
    }
    let rem = x - y * p;
    assert(rem == x % p) by (nonlinear_arith)
        requires x == p * y + (x % p), rem == x - y * p;
    let q = if rem > p - rem || (rem == p - rem && y % 2 == 1) { y + 1 } else { y };
    assert(q == round_even(x as nat, p as nat));
    proof {
        assert(q * p <= 2 * x) by (nonlinear_arith)
            requires q <= y + 1, y * p <= x, p <= x || p == 1, x == y * p + rem, rem < p, y < F64_EXACT_LIMIT,
                q == y || (q == y + 1 && 2 * rem >= p);
    }
    q * p
}

/// Bytes in a kibibyte, mebibyte and gibibyte.
pub const KIB: u64 = 1024;
pub const MIB: u64 = 1048576;
pub const GIB: u64 = 1073741824;

/// `{:.2}` of `h / 100`: integer part, a point and two digits.
pub open spec fn two_decimals(h: nat) -> Seq<char> {
    decimal(h / 100) + seq!['.', digit_char((h % 100) / 10), digit_char(h % 10)]
}

/// `{:.2}` of the exact value `f / den`.
pub open spec fn scaled_text(f: nat, den: nat) -> Seq<char> {
    two_decimals(round_even(f * 100, den))
}

/// What `format_bytes_simple` writes: `B` below a kibibyte, else the value in the
/// largest unit that it reaches (`KB`, `MB`, `GB`) with two decimals.
pub open spec fn format_bytes_spec(b: nat) -> Seq<char> {
    if b >= GIB {
        scaled_text(to_f64(b), GIB as nat) + seq![' ', 'G', 'B']
    } else if b >= MIB {
        scaled_text(to_f64(b), MIB as nat) + seq![' ', 'M', 'B']
    } else if b >= KIB {
        scaled_text(to_f64(b), KIB as nat) + seq![' ', 'K', 'B']
    } else {
        decimal(b) + seq![' ', 'B']
    }
}

fn scaled_chars(f: u128, den: u128) -> (v: Vec<char>)
    requires
        1024 <= den,
        f <= 0x20000000000000000,
    ensures
        v@ == scaled_text(f as nat, den as nat),
{
    let h = round_half_even(f * 100, den);
    proof {
        let num = (f * 100) as int;
        assert(num / (den as int) <= num / 1024) by (nonlinear_arith)
            requires den >= 1024, num >= 0;
    }
    let whole = h / 100;
    let mut v = decimal_chars(whole as u64);
    v.push('.');
    v.push(char_from_digit(((h % 100) / 10) as u32));
    v.push(char_from_digit((h % 10) as u32));
    proof {
        assert(v@ =~= two_decimals(h as nat));
    }
    v
}

/// Renders a byte count: `"<n> B"` below 1 KiB, else the count in KB, MB or GB
/// (powers of 1024) with two decimals, as `{:.2}` writes the `f64` quotient.
pub fn format_bytes_simple(bytes: u64) -> (s: String)
    ensures
        s@ == format_bytes_spec(bytes as nat),
{
    let mut v: Vec<char>;
    if bytes >= GIB {
        let f = f64_value(bytes as u128);
        v = scaled_chars(f, GIB as u128);
        v.push(' ');
        v.push('G');
        v.push('B');
    } else if bytes >= MIB {
        let f = f64_value(bytes as u128);
        v = scaled_chars(f, MIB as u128);
        v.push(' ');
        v.push('M');
        v.push('B');
    } else if bytes >= KIB {
        let f = f64_value(bytes as u128);
        v = scaled_chars(f, KIB as u128);
        v.push(' ');
        v.push('K');
        v.push('B');
    } else {
        v = decimal_chars(bytes);
        v.push(' ');
        v.push('B');
    }
    proof {
        let b = bytes as nat;
        if b >= GIB {
            assert(v@ =~= scaled_text(to_f64(b), GIB as nat) + seq![' ', 'G', 'B']);
        } else if b >= MIB {
            assert(v@ =~= scaled_text(to_f64(b), MIB as nat) + seq![' ', 'M', 'B']);
        } else if b >= KIB {
            assert(v@ =~= scaled_text(to_f64(b), KIB as nat) + seq![' ', 'K', 'B']);
        } else {
            assert(v@ =~= decimal(b) + seq![' ', 'B']);
        }
    }
    chars_to_string(v.as_slice())
}

/// The significand of `1.1_f64`; `1.1_f64` is this divided by 2^52.
pub const ONE_POINT_ONE_SIGNIFICAND: u128 = 0x1199999999999A;

/// 2^52.
pub const TWO_POW_52: u128 = 0x10000000000000;

/// Head room always asked for on top of the file: 100 MiB.
pub const SPACE_MARGIN: u64 = 104857600;

/// `(x as f64 * 1.1) as u64`: the `f64` product rounded to nearest (ties to even),
/// truncated toward zero and saturated at `u64::MAX`.
pub open spec fn times_1_1(x: nat) -> nat {
    let p = to_f64(to_f64(x) * (ONE_POINT_ONE_SIGNIFICAND as nat)) / (TWO_POW_52 as nat);
    if p > u64::MAX { u64::MAX as nat } else { p }
}

/// Space a download of `estimated` bytes needs: the larger of the size plus
/// 100 MiB and 1.1 times the size.
pub open spec fn required_space(estimated: nat) -> nat {
    let a = (estimated + SPACE_MARGIN) as nat;
    let b = times_1_1(estimated);
    if a >= b { a } else { b }
}

/// The refusal message of `check_disk_space`.
pub open spec fn space_error(available: nat, required: nat) -> Seq<char> {
    seq!['D', 'i', 's', 'k', ' ', 's', 'p', 'a', 'c', 'e', ' ', 'i', 'n', 's', 'u', 'f', 'f', 'i',
        'c', 'i', 'e', 'n', 't', ':', ' ', 'a', 'v', 'a', 'i', 'l', 'a', 'b', 'l', 'e', ' ']
        + format_bytes_spec(available) + seq![' ', '/', ' ', 'r', 'e', 'q', 'u', 'i', 'r', 'e', 'd', ' ']
        + format_bytes_spec(required)
}

/// The space a download of `estimated_size` bytes requires.
pub fn required_space_for(estimated_size: u64) -> (r: u64)
    requires
        estimated_size + SPACE_MARGIN <= u64::MAX,
    ensures
        r == required_space(estimated_size as nat),
        r >= estimated_size + SPACE_MARGIN,
        r >= times_1_1(estimated_size as nat),
{
    let ef = f64_value(estimated_size as u128);
    let prod = f64_value(ef * ONE_POINT_ONE_SIGNIFICAND);
    let t = prod / TWO_POW_52;
    let scaled: u64 = if t > u64::MAX as u128 { u64::MAX } else { t as u64 };
    let plus = estimated_size + SPACE_MARGIN;
    if plus >= scaled { plus } else { scaled }
}

/// Checks that `available` bytes of free disk space hold a download of
/// `estimated_size` bytes with its margin (`required_space`); otherwise returns the
/// message naming both amounts.
pub fn check_disk_space(available: u64, estimated_size: u64) -> (r: Result<(), String>)
    requires
        estimated_size + SPACE_MARGIN <= u64::MAX,
    ensures
        available >= required_space(estimated_size as nat) <==> r is Ok,
        r matches Err(m) ==> m@ == space_error(available as nat, required_space(estimated_size as nat)),
{
    let required = required_space_for(estimated_size);
    if available < required {
        let mut v: Vec<char> = vec!['D', 'i', 's', 'k', ' ', 's', 'p', 'a', 'c', 'e', ' ', 'i', 'n',
            's', 'u', 'f', 'f', 'i', 'c', 'i', 'e', 'n', 't', ':', ' ', 'a', 'v', 'a', 'i', 'l', 'a',
            'b', 'l', 'e', ' '];
        let a = crate::text::str_to_chars(format_bytes_simple(available).as_str());
        extend_chars(&mut v, a.as_slice());
        let mid: Vec<char> = vec![' ', '/', ' ', 'r', 'e', 'q', 'u', 'i', 'r', 'e', 'd', ' '];
        extend_chars(&mut v, mid.as_slice());
        let b = crate::text::str_to_chars(format_bytes_simple(required).as_str());
        extend_chars(&mut v, b.as_slice());
        proof {
            assert(v@ =~= space_error(available as nat, required as nat));
        }
        Err(chars_to_string(v.as_slice()))
    } else {
        Ok(())
    }
}

} // verus!
