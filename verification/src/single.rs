//! Single-precision numbers as bit patterns: the few operations that pads, levels and
//! remote control messages need, computed on integers and exact to the last bit.
//!
//! The magnitude of a finite pattern stands for `significand * 2^exponent`. Arithmetic
//! rounds to the nearest single, ties to the even one, as the hardware does.

use crate::rounding::{
    bit_length, lemma_bit_length, lemma_bit_length_bound, lemma_round_even, round_even,
};
use vstd::arithmetic::div_mod::{
    lemma_div_nonincreasing, lemma_fundamental_div_mod, lemma_fundamental_div_mod_converse,
};
use vstd::arithmetic::power2::{
    lemma2_to64, lemma2_to64_rest, lemma_pow2_adds, lemma_pow2_pos, lemma_pow2_strictly_increases,
    lemma_pow2_unfold, pow2,
};
use vstd::bits::lemma_u64_shl_is_mul;
use vstd::prelude::*;

verus! {

/// The pattern of 0.5.
pub const HALF: u32 = 0x3f00_0000;

/// The pattern of 1.0.
pub const ONE: u32 = 0x3f80_0000;

/// The pattern of infinity: every magnitude below it is finite, those above are not numbers.
pub const INFINITY: u32 = 0x7f80_0000;

/// The sign bit.
pub const SIGN: u32 = 0x8000_0000;

/// Whether the sign bit is set.
pub open spec fn negative(bits: u32) -> bool {
    bits >= SIGN
}

/// The pattern without its sign.
pub open spec fn magnitude(bits: u32) -> u32 {
    if bits >= SIGN {
        (bits - SIGN) as u32
    } else {
        bits
    }
}

/// Neither an infinity nor a NaN.
pub open spec fn finite(bits: u32) -> bool {
    magnitude(bits) < INFINITY
}

/// Not a number.
pub open spec fn not_a_number(bits: u32) -> bool {
    magnitude(bits) > INFINITY
}

/// The integer significand of a magnitude.
pub open spec fn significand(mag: nat) -> nat {
    if mag / 0x80_0000 == 0 {
        mag
    } else {
        mag % 0x80_0000 + 0x80_0000
    }
}

/// The power of two that scales the significand of a magnitude.
pub open spec fn exponent(mag: nat) -> int {
    if mag / 0x80_0000 == 0 {
        -149
    } else {
        mag / 0x80_0000 - 150
    }
}

/// The exponent of the last place that a single near `n * 2^e` can hold.
pub open spec fn quantum(n: nat, e: int) -> int {
    let q = bit_length(n) + e - 24;
    if q >= -149 {
        q
    } else {
        -149
    }
}

/// `n * 2^e` counted in units of its last place, rounded.
pub open spec fn rounded(n: nat, e: int) -> nat {
    let q = quantum(n, e);
    if e >= q {
        n * pow2((e - q) as nat)
    } else {
        round_even(n, pow2((q - e) as nat))
    }
}

/// The magnitude of the single nearest to `n * 2^e`, ties to the even one; values too
/// large for a single become infinity.
pub open spec fn nearest(n: nat, e: int) -> nat {
    if n == 0 {
        0
    } else {
        let mag = ((quantum(n, e) + 149) * 0x80_0000 + rounded(n, e)) as nat;
        if mag < INFINITY {
            mag
        } else {
            INFINITY as nat
        }
    }
}

/// The integer part of a magnitude.
pub open spec fn floor_of(mag: nat) -> nat {
    let e = exponent(mag);
    if e >= 0 {
        significand(mag) * pow2(e as nat)
    } else {
        significand(mag) / pow2((-e) as nat)
    }
}

/// A magnitude rounded to the nearest integer, halves away from zero.
pub open spec fn round_of(mag: nat) -> nat {
    let e = exponent(mag);
    if e >= 0 {
        significand(mag) * pow2(e as nat)
    } else {
        (2 * significand(mag) + pow2((-e) as nat)) / (2 * pow2((-e) as nat))
    }
}

/// A magnitude times a small integer, in single precision.
pub open spec fn times(mag: nat, k: nat) -> nat {
    nearest(significand(mag) * k, exponent(mag))
}

/// One plus a magnitude below 2^24, in single precision.
pub open spec fn one_plus(mag: nat) -> nat {
    nearest(pow2((-exponent(mag)) as nat) + significand(mag), exponent(mag))
}

/// What a rounded value weighs in units of its last place.
pub proof fn lemma_rounded_bounds(n: nat, e: int)
    requires
        n > 0,
    ensures
        rounded(n, e) <= 0x100_0000,
        quantum(n, e) > -149 ==> rounded(n, e) >= 0x80_0000,
{
    lemma2_to64();
    lemma_bit_length(n);
    let l = bit_length(n);
    let q = quantum(n, e);
    if e >= q {
        let s = (e - q) as nat;
        lemma_pow2_pos(s);
        lemma_pow2_adds(l, s);
        assert(l + s <= 24);
        if l + s < 24 {
            lemma_pow2_strictly_increases(l + s, 24);
        }
        assert(n * pow2(s) <= pow2(l) * pow2(s)) by (nonlinear_arith)
            requires
                n <= pow2(l),
                pow2(s) >= 0,
        ;
        if q > -149 {
            assert(l + s == 24);
            lemma_pow2_adds((l - 1) as nat, s);
            assert(n * pow2(s) >= pow2((l - 1) as nat) * pow2(s)) by (nonlinear_arith)
                requires
                    n >= pow2((l - 1) as nat),
                    pow2(s) >= 0,
            ;
        }
    } else {
        let k = (q - e) as nat;
        let d = pow2(k);
        lemma_pow2_pos(k);
        lemma_round_even(n, d);
        // n < 2^l and l - k <= 24
        assert(l <= 24 + k);
        if l < 24 + k {
            lemma_pow2_strictly_increases(l, 24 + k);
        }
        lemma_pow2_adds(24, k);
        assert(n / d < 0x100_0000) by (nonlinear_arith)
            requires
                n < 0x100_0000 * d,
                d > 0,
        ;
        if q > -149 {
            assert((l - 1) as nat == 23 + k);
            lemma_pow2_adds(23, k);
            assert(n / d >= 0x80_0000) by (nonlinear_arith)
                requires
                    n >= 0x80_0000 * d,
                    d > 0,
            ;
        }
    }
}

/// How large the exponent of a rounded value can get.
pub proof fn lemma_nearest_exponent(n: nat, e: int)
    requires
        n > 0,
    ensures
        exponent(nearest(n, e)) <= quantum(n, e) + 1,
        nearest(n, e) <= INFINITY,
{
    lemma_rounded_bounds(n, e);
    let q = quantum(n, e);
    let mag = ((q + 149) * 0x80_0000 + rounded(n, e)) as nat;
    assert(mag / 0x80_0000 <= q + 151);
    if mag >= INFINITY {
        assert(INFINITY as nat / 0x80_0000 == 255);
    }
}

/// The number of binary digits of `n`.
fn count_bits(n: u64) -> (r: u32)
    requires
        n < 0x8000_0000_0000_0000,
    ensures
        r == bit_length(n as nat),
        r <= 63,
{
    proof {
        lemma2_to64_rest();
        lemma_bit_length_bound(n as nat, 63);
    }
    let mut m: u64 = n;
    let mut r: u32 = 0;
    while m > 0
        invariant
            bit_length(n as nat) == r + bit_length(m as nat),
            bit_length(n as nat) <= 63,
        decreases m,
    {
        m = m / 2;
        r = r + 1;
    }
    r
}

/// `n / 2^k` rounded to the nearest integer, ties to the even one.
fn shift_round(n: u64, k: u32) -> (r: u64)
    requires
        n < 0x8000_0000_0000_0000,
    ensures
        r == round_even(n as nat, pow2(k as nat)),
{
    if k >= 64 {
        proof {
            lemma2_to64();
            if k > 64 {
                lemma_pow2_strictly_increases(64, k as nat);
            }
            let d = pow2(k as nat) as int;
            lemma_fundamental_div_mod_converse(n as int, d, 0, n as int);
        }
        return 0;
    }
    proof {
        lemma2_to64_rest();
        if k < 63 {
            lemma_pow2_strictly_increases(k as nat, 63);
        }
        lemma_pow2_pos(k as nat);
        lemma_u64_shl_is_mul(1, k as u64);
    }
    let d: u64 = 1u64 << (k as u64);
    let q: u64 = n / d;
    let rest: u64 = n % d;
    if 2 * rest < d || (2 * rest == d && q % 2 == 0) {
        q
    } else {
        proof {
            lemma_fundamental_div_mod(n as int, d as int);
            assert(q <= n) by (nonlinear_arith)
                requires
                    n == d * q + rest,
                    d >= 1,
                    rest >= 0,
                    q >= 0,
            ;
        }
        q + 1
    }
}

/// The magnitude of the single nearest to `n * 2^e`.
fn round_to_single(n: u64, e: i32) -> (r: u32)
    requires
        n < 0x8000_0000_0000_0000,
        -2000 <= e <= 2000,
    ensures
        r == nearest(n as nat, e as int),
{
    if n == 0 {
        return 0;
    }
    let len: u32 = count_bits(n);
    let top: i32 = len as i32 + e - 24;
    let q: i32 = if top >= -149 {
        top
    } else {
        -149
    };
    proof {
        lemma_bit_length(n as nat);
        lemma_rounded_bounds(n as nat, e as int);
    }
    let places: u64 = if e >= q {
        let s: u64 = (e - q) as u64;
        proof {
            lemma2_to64();
            assert(s <= 23);
            assert(n * pow2(s as nat) == rounded(n as nat, e as int));
            lemma_u64_shl_is_mul(n, s);
        }
        n << s
    } else {
        shift_round(n, (q - e) as u32)
    };
    let mag: u64 = (q + 149) as u64 * 0x80_0000 + places;
    if mag < INFINITY as u64 {
        mag as u32
    } else {
        INFINITY
    }
}

/// The significand and the exponent of a magnitude.
fn split_magnitude(mag: u32) -> (r: (u32, i32))
    requires
        mag <= INFINITY,
    ensures
        r.0 == significand(mag as nat),
        r.1 == exponent(mag as nat),
        r.0 < 0x100_0000,
        -149 <= r.1 <= 105,
{
    let field: u32 = mag / 0x80_0000;
    if field == 0 {
        (mag, -149)
    } else {
        (mag % 0x80_0000 + 0x80_0000, field as i32 - 150)
    }
}

/// Whether the number is neither an infinity nor a NaN.
pub fn is_finite(bits: u32) -> (r: bool)
    ensures
        r == finite(bits),
{
    let mag: u32 = if bits >= SIGN {
        bits - SIGN
    } else {
        bits
    };
    mag < INFINITY
}

/// What clamping a finite number to the interval from 0 to 1 leaves. A negative zero is
/// not below zero, so it stays.
pub open spec fn unit_clamped(bits: u32) -> u32 {
    if negative(bits) && magnitude(bits) > 0 {
        0
    } else if !negative(bits) && magnitude(bits) > ONE {
        ONE
    } else {
        bits
    }
}

/// A finite number clamped to the interval from 0 to 1.
pub fn clamp_unit(bits: u32) -> (r: u32)
    requires
        finite(bits),
    ensures
        r == unit_clamped(bits),
{
    if bits > SIGN {
        0
    } else if bits < SIGN && bits > ONE {
        ONE
    } else {
        bits
    }
}

/// Whether a finite number is at least one half.
pub open spec fn half_or_more(bits: u32) -> bool {
    !negative(bits) && magnitude(bits) >= HALF
}

/// Whether a finite number is at least one half.
pub fn is_half_or_more(bits: u32) -> (r: bool)
    requires
        finite(bits),
    ensures
        r == half_or_more(bits),
{
    bits < SIGN && bits >= HALF
}

/// A magnitude with a sign in front.
pub open spec fn signed(below_zero: bool, mag: nat) -> u32 {
    if below_zero {
        (mag + SIGN) as u32
    } else {
        mag as u32
    }
}

/// The single nearest to an integer.
pub open spec fn int_as_single(i: i32) -> u32 {
    if i < 0 {
        signed(true, nearest((-i) as nat, 0))
    } else {
        signed(false, nearest(i as nat, 0))
    }
}

/// An integer in single precision.
pub fn from_int(i: i32) -> (r: u32)
    ensures
        r == int_as_single(i),
        finite(r),
{
    let n: u64 = if i < 0 {
        (-(i as i64)) as u64
    } else {
        i as u64
    };
    let mag: u32 = round_to_single(n, 0);
    proof {
        if n > 0 {
            lemma2_to64();
            lemma_bit_length_bound(n as nat, 32);
            lemma_rounded_bounds(n as nat, 0);
        }
    }
    if i < 0 {
        SIGN + mag
    } else {
        mag
    }
}

/// The significand of the magnitude of a finite double.
pub open spec fn double_significand(mag: nat) -> nat {
    if mag / 0x10_0000_0000_0000 == 0 {
        mag
    } else {
        mag % 0x10_0000_0000_0000 + 0x10_0000_0000_0000
    }
}

/// The exponent of the magnitude of a finite double.
pub open spec fn double_exponent(mag: nat) -> int {
    if mag / 0x10_0000_0000_0000 == 0 {
        -1074
    } else {
        mag / 0x10_0000_0000_0000 - 1075
    }
}

/// The single nearest to a double, if it is finite.
pub open spec fn double_as_single(bits: u64) -> Option<u32> {
    let mag = (bits as nat) % 0x8000_0000_0000_0000;
    let near = nearest(double_significand(mag), double_exponent(mag));
    if mag >= 0x7ff0_0000_0000_0000 || near >= INFINITY {
        None
    } else {
        Some(signed(bits >= 0x8000_0000_0000_0000, near))
    }
}

/// A double narrowed to single precision; `None` where the result is not finite.
pub fn from_double(bits: u64) -> (r: Option<u32>)
    ensures
        r == double_as_single(bits),
        r matches Some(b) ==> finite(b),
{
    let mag: u64 = bits % 0x8000_0000_0000_0000;
    if mag >= 0x7ff0_0000_0000_0000 {
        return None;
    }
    let field: u64 = mag / 0x10_0000_0000_0000;
    let (n, e): (u64, i32) = if field == 0 {
        (mag, -1074)
    } else {
        (mag % 0x10_0000_0000_0000 + 0x10_0000_0000_0000, field as i32 - 1075)
    };
    let near: u32 = round_to_single(n, e);
    if near >= INFINITY {
        None
    } else if bits >= 0x8000_0000_0000_0000 {
        Some(SIGN + near)
    } else {
        Some(near)
    }
}

/// `n / 2^k`, rounded down.
fn shift_down(n: u64, k: u32) -> (r: u64)
    requires
        n < 0x8000_0000_0000_0000,
    ensures
        r == n as nat / pow2(k as nat),
        r <= n,
{
    if k >= 64 {
        proof {
            lemma2_to64();
            if k > 64 {
                lemma_pow2_strictly_increases(64, k as nat);
            }
            lemma_fundamental_div_mod_converse(n as int, pow2(k as nat) as int, 0, n as int);
        }
        return 0;
    }
    proof {
        lemma2_to64_rest();
        if k < 63 {
            lemma_pow2_strictly_increases(k as nat, 63);
        }
        lemma_pow2_pos(k as nat);
        lemma_u64_shl_is_mul(1, k as u64);
        lemma_div_nonincreasing(n as int, pow2(k as nat) as int);
    }
    n / (1u64 << (k as u64))
}

/// A product with a small integer, as long as it stays well below 2^24.
fn times_small(mag: u32, k: u32) -> (r: u32)
    requires
        mag < ONE,
        0 < k < 128,
    ensures
        r == times(mag as nat, k as nat),
        r <= INFINITY,
        exponent(r as nat) <= -16,
{
    let (n, e): (u32, i32) = split_magnitude(mag);
    assert(0 <= n * k <= 0xff_ffff * 127) by (nonlinear_arith)
        requires
            0 <= n <= 0xff_ffff,
            0 < k <= 127,
    ;
    let product: u64 = n as u64 * k as u64;
    proof {
        assert(e <= -24);
        if product > 0 {
            lemma2_to64();
            lemma_bit_length_bound(product as nat, 31);
            lemma_nearest_exponent(product as nat, e as int);
        }
    }
    round_to_single(product, e)
}

/// The nearest integer to a magnitude below 2^23, halves away from zero.
fn round_small(mag: u32) -> (r: u64)
    requires
        mag <= INFINITY,
        exponent(mag as nat) < 0,
    ensures
        r == round_of(mag as nat),
{
    let (n, e): (u32, i32) = split_magnitude(mag);
    let k: u32 = (-e) as u32;
    proof {
        lemma2_to64();
    }
    if k > 32 {
        proof {
            // 2 * n < 2^25 is less than half of the divisor
            let d = pow2(k as nat) as int;
            lemma_pow2_strictly_increases(32, k as nat);
            lemma_fundamental_div_mod_converse(2 * n + d, 2 * d, 0, 2 * n + d);
        }
        return 0;
    }
    proof {
        if k < 32 {
            lemma_pow2_strictly_increases(k as nat, 32);
        }
        lemma_u64_shl_is_mul(1, k as u64);
        lemma_pow2_unfold((k + 1) as nat);
    }
    let d: u64 = 1u64 << (k as u64);
    (2 * (n as u64) + d) / (2 * d)
}

/// Where a pad's horizontal position lies on a range of `top` scale degrees.
pub open spec fn degree_of(bits: u32, top: nat) -> nat {
    if not_a_number(bits) || negative(bits) {
        0
    } else if magnitude(bits) >= ONE {
        top
    } else {
        let r = round_of(times(magnitude(bits) as nat, top));
        if r <= top {
            r
        } else {
            top
        }
    }
}

/// A position from 0 to 1 scaled to `top` and rounded to the nearest integer.
pub fn scale_degree(bits: u32, top: u32) -> (r: u32)
    requires
        0 < top < 128,
    ensures
        r == degree_of(bits, top as nat),
        r <= top,
{
    if bits >= SIGN || bits > INFINITY {
        return 0;
    }
    if bits >= ONE {
        return top;
    }
    let r: u64 = round_small(times_small(bits, top));
    if r <= top as u64 {
        r as u32
    } else {
        top
    }
}

/// How many onsets a pad's vertical position asks for, up to `top + 1`.
pub open spec fn density_of(bits: u32, top: nat) -> nat {
    if not_a_number(bits) {
        0
    } else if negative(bits) {
        1
    } else if magnitude(bits) >= ONE {
        top + 1
    } else {
        let r = round_of(one_plus(times(magnitude(bits) as nat, top)));
        if r < 1 {
            1
        } else if r <= top + 1 {
            r
        } else {
            top + 1
        }
    }
}

/// Adding less than 2^-16 to one leaves a number that rounds to one.
pub proof fn lemma_one_plus_little(mag: nat)
    requires
        mag <= INFINITY,
        exponent(mag) < -40,
    ensures
        round_of(one_plus(mag)) == 1,
{
    let k = (-exponent(mag)) as nat;
    let sig = significand(mag);
    assert(sig < 0x100_0000);
    let n = pow2(k) + sig;
    lemma2_to64_rest();
    lemma2_to64();
    lemma_pow2_strictly_increases(40, k);
    lemma_pow2_unfold((k + 1) as nat);
    lemma_bit_length(n);
    let l = bit_length(n);
    lemma_bit_length_bound(n, k + 1);
    if l < k + 1 {
        if l < k {
            lemma_pow2_strictly_increases(l, k);
        }
    }
    assert(l == k + 1);
    assert(quantum(n, -(k as int)) == -23);
    let j = (k - 23) as nat;
    let d = pow2(j);
    lemma_pow2_adds(23, j);
    if j > 18 {
        lemma_pow2_strictly_increases(18, j);
    }
    lemma_round_even(n, d);
    assert(0x80_0000 <= n / d <= 0x80_0000 + 64) by (nonlinear_arith)
        requires
            n == 0x80_0000 * d + sig,
            0 <= sig < 0x100_0000,
            d >= 0x4_0000,
    ;
    let r = round_even(n, d);
    let near = nearest(n, -(k as int));
    assert(near == 126 * 0x80_0000 + r);
    assert(near / 0x80_0000 == 127);
    assert(significand(near) == r);
    assert(exponent(near) == -23);
    assert(pow2(23) == 0x80_0000);
    assert((2 * r + 0x80_0000) / 0x100_0000 == 1);
}

/// A position from 0 to 1 turned into a count of onsets, from 1 to `top + 1`.
pub fn scale_density(bits: u32, top: u32) -> (r: u32)
    requires
        0 < top < 128,
    ensures
        r == density_of(bits, top as nat),
        r <= top + 1,
{
    if bits > INFINITY && bits < SIGN || bits > SIGN && bits - SIGN > INFINITY {
        return 0;
    }
    if bits >= SIGN {
        return 1;
    }
    if bits >= ONE {
        return top + 1;
    }
    let p: u32 = times_small(bits, top);
    let (n, e): (u32, i32) = split_magnitude(p);
    if e < -40 {
        proof {
            lemma_one_plus_little(p as nat);
        }
        return 1;
    }
    let k: u32 = (-e) as u32;
    proof {
        lemma2_to64();
        lemma2_to64_rest();
        if k < 40 {
            lemma_pow2_strictly_increases(k as nat, 40);
        }
        lemma_pow2_pos(k as nat);
        lemma_u64_shl_is_mul(1, k as u64);
    }
    let sum: u64 = (1u64 << (k as u64)) + n as u64;
    let s: u32 = round_to_single(sum, e);
    proof {
        let l = (k + 9) as nat;
        lemma_pow2_adds(k as nat, 9);
        lemma_bit_length_bound(sum as nat, l);
        lemma_nearest_exponent(sum as nat, e as int);
        assert(exponent(s as nat) <= -14);
    }
    let r: u64 = round_small(s);
    if r < 1 {
        1
    } else if r <= top as u64 + 1 {
        r as u32
    } else {
        top + 1
    }
}

/// The seven-bit data byte of a level: 127 times the level, cut down to an integer.
pub open spec fn data_byte(bits: u32) -> nat {
    if not_a_number(bits) || negative(bits) {
        0
    } else if magnitude(bits) >= ONE {
        127
    } else {
        let r = floor_of(times(magnitude(bits) as nat, 127));
        if r <= 127 {
            r
        } else {
            127
        }
    }
}

/// A level from 0 to 1 as a seven-bit MIDI data byte.
pub fn level_to_data(bits: u32) -> (r: u8)
    ensures
        r == data_byte(bits),
        r <= 127,
{
    if bits >= SIGN || bits > INFINITY {
        return 0;
    }
    if bits >= ONE {
        return 127;
    }
    let p: u32 = times_small(bits, 127);
    let (n, e): (u32, i32) = split_magnitude(p);
    let r: u64 = shift_down(n as u64, (-e) as u32);
    if r <= 127 {
        r as u8
    } else {
        127
    }
}

} // verus!
