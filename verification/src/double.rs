//! Double-precision numbers as bit patterns: the arithmetic that the step clock needs,
//! computed on integers and exact to the last bit.

use crate::single::{exponent, magnitude, negative, significand, INFINITY, SIGN};
use crate::rounding::{
    bit_length, lemma_bit_length, lemma_bit_length_bound, lemma_round_even, round_even,
};
use vstd::arithmetic::div_mod::{lemma_fundamental_div_mod, lemma_fundamental_div_mod_converse};
use vstd::arithmetic::power2::{
    lemma2_to64, lemma2_to64_rest, lemma_pow2_adds, lemma_pow2_pos, lemma_pow2_strictly_increases,
    lemma_pow2_unfold, pow2,
};
use vstd::prelude::*;

verus! {

/// The pattern of infinity.
pub const INFINITE: u64 = 0x7ff0_0000_0000_0000;

/// The pattern that stands for every result that is not a number.
pub const NAN: u64 = 0x7ff8_0000_0000_0000;

/// The sign bit.
pub const SIGN_BIT: u64 = 0x8000_0000_0000_0000;

/// The first bit that a normal significand does not store.
pub const HIDDEN: u64 = 0x10_0000_0000_0000;

/// What a pattern stands for; a finite number is its sign, significand and exponent.
#[derive(PartialEq, Eq, Structural, Clone, Copy, Debug)]
pub enum Number {
    Nan,
    Infinite(bool),
    Finite(bool, u64, i32),
}

/// The pattern without its sign.
pub open spec fn size(bits: u64) -> u64 {
    if bits >= SIGN_BIT {
        (bits - SIGN_BIT) as u64
    } else {
        bits
    }
}

/// What a pattern stands for.
pub open spec fn meaning(bits: u64) -> Number {
    let neg = bits >= SIGN_BIT;
    let mag = size(bits);
    if mag > INFINITE {
        Number::Nan
    } else if mag == INFINITE {
        Number::Infinite(neg)
    } else if mag < HIDDEN {
        Number::Finite(neg, mag, -1074i32)
    } else {
        Number::Finite(neg, (mag % HIDDEN + HIDDEN) as u64, (mag / HIDDEN - 1075) as i32)
    }
}

/// A magnitude with a sign in front.
pub open spec fn with_sign(neg: bool, mag: nat) -> u64 {
    if neg {
        (mag + SIGN_BIT) as u64
    } else {
        mag as u64
    }
}

/// `2^k`, or 1 if `k` is negative.
pub open spec fn up(k: int) -> nat {
    if k > 0 {
        pow2(k as nat)
    } else {
        1
    }
}

/// The number of binary digits in front of the point of `a / b`; not positive for small
/// ratios.
pub open spec fn ratio_length(a: nat, b: nat) -> int {
    let d = bit_length(a) - bit_length(b);
    if a * up(-d) >= b * up(d) {
        d + 1
    } else {
        d
    }
}

/// The exponent of the last place that a double near `a / b * 2^e` can hold.
pub open spec fn last_place(a: nat, b: nat, e: int) -> int {
    let q = ratio_length(a, b) + e - 53;
    if q >= -1074 {
        q
    } else {
        -1074
    }
}

/// `a / b * 2^e` counted in units of its last place, rounded.
pub open spec fn in_places(a: nat, b: nat, e: int) -> nat {
    let q = last_place(a, b, e);
    round_even(a * up(e - q), b * up(q - e))
}

/// The magnitude of the double nearest to `a / b * 2^e`, ties to the even one; values too
/// large for a double become infinity.
pub open spec fn nearest_double(a: nat, b: nat, e: int) -> nat {
    if a == 0 {
        0
    } else {
        let mag = ((last_place(a, b, e) + 1074) * HIDDEN + in_places(a, b, e)) as nat;
        if mag < INFINITE {
            mag
        } else {
            INFINITE as nat
        }
    }
}

/// The product of two doubles.
pub open spec fn product(a: u64, b: u64) -> u64 {
    match meaning(a) {
        Number::Nan => NAN,
        Number::Infinite(s) => match meaning(b) {
            Number::Nan => NAN,
            Number::Infinite(t) => with_sign(s != t, INFINITE as nat),
            Number::Finite(t, n, f) => if n == 0 {
                NAN
            } else {
                with_sign(s != t, INFINITE as nat)
            },
        },
        Number::Finite(s, m, e) => match meaning(b) {
            Number::Nan => NAN,
            Number::Infinite(t) => if m == 0 {
                NAN
            } else {
                with_sign(s != t, INFINITE as nat)
            },
            Number::Finite(t, n, f) => with_sign(s != t, nearest_double((m * n) as nat, 1, e + f)),
        },
    }
}

/// The quotient of two doubles.
pub open spec fn quotient(a: u64, b: u64) -> u64 {
    match meaning(a) {
        Number::Nan => NAN,
        Number::Infinite(s) => match meaning(b) {
            Number::Finite(t, n, f) => with_sign(s != t, INFINITE as nat),
            _ => NAN,
        },
        Number::Finite(s, m, e) => match meaning(b) {
            Number::Nan => NAN,
            Number::Infinite(t) => with_sign(s != t, 0),
            Number::Finite(t, n, f) => if n == 0 {
                if m == 0 {
                    NAN
                } else {
                    with_sign(s != t, INFINITE as nat)
                }
            } else {
                with_sign(s != t, nearest_double(m as nat, n as nat, e - f))
            },
        },
    }
}

/// An integer with a sign in front.
pub open spec fn as_signed(neg: bool, n: nat) -> int {
    if neg {
        -(n as int)
    } else {
        n as int
    }
}

/// The exponent at which two finite magnitudes can be added: the smaller one, unless it
/// belongs to a zero.
pub open spec fn common_exponent(m: u64, e: int, n: u64, f: int) -> int {
    if m == 0 {
        f
    } else if n == 0 || e <= f {
        e
    } else {
        f
    }
}

/// The sum of two doubles.
pub open spec fn sum(a: u64, b: u64) -> u64 {
    match meaning(a) {
        Number::Nan => NAN,
        Number::Infinite(s) => match meaning(b) {
            Number::Nan => NAN,
            Number::Infinite(t) => if s == t {
                a
            } else {
                NAN
            },
            Number::Finite(t, n, f) => a,
        },
        Number::Finite(s, m, e) => match meaning(b) {
            Number::Nan => NAN,
            Number::Infinite(t) => b,
            Number::Finite(t, n, f) => {
                let base = common_exponent(m, e as int, n, f as int);
                let total = as_signed(s, m as nat * up(e - base)) + as_signed(
                    t,
                    n as nat * up(f - base),
                );
                if total == 0 {
                    with_sign(s && t, 0)
                } else if total < 0 {
                    with_sign(true, nearest_double((-total) as nat, 1, base))
                } else {
                    with_sign(false, nearest_double(total as nat, 1, base))
                }
            },
        },
    }
}

/// Two finite doubles whose exponents are not far apart, unless one of them is zero.
pub open spec fn near(a: u64, b: u64) -> bool {
    &&& meaning(a) is Finite
    &&& meaning(b) is Finite
    &&& meaning(a)->1 == 0 || meaning(b)->1 == 0 || -70 <= meaning(a)->2 - meaning(b)->2 <= 70
}

/// The double nearest to an integer.
pub open spec fn int_as_double(i: i64) -> u64 {
    if i < 0 {
        with_sign(true, nearest_double((-i) as nat, 1, 0))
    } else {
        with_sign(false, nearest_double(i as nat, 1, 0))
    }
}

/// An integer held to the range of 64 bits.
pub open spec fn saturated(n: int) -> i64 {
    if n < i64::MIN {
        i64::MIN
    } else if n > i64::MAX {
        i64::MAX
    } else {
        n as i64
    }
}

/// A finite magnitude's integer part.
pub open spec fn whole(m: u64, e: int) -> nat {
    if e >= 0 {
        m as nat * pow2(e as nat)
    } else {
        m as nat / pow2((-e) as nat)
    }
}

/// Whether a finite magnitude has anything behind the point.
pub open spec fn has_fraction(m: u64, e: int) -> bool {
    e < 0 && m as nat % pow2((-e) as nat) != 0
}

/// A finite magnitude rounded to the nearest integer, halves up.
pub open spec fn rounded_whole(m: u64, e: int) -> nat {
    if e >= 0 {
        m as nat * pow2(e as nat)
    } else {
        (2 * m as nat + pow2((-e) as nat)) / (2 * pow2((-e) as nat))
    }
}

/// A double rounded down to an integer of 64 bits.
pub open spec fn floor_int(bits: u64) -> i64 {
    match meaning(bits) {
        Number::Nan => 0,
        Number::Infinite(neg) => if neg {
            i64::MIN
        } else {
            i64::MAX
        },
        Number::Finite(neg, m, e) => if !neg {
            saturated(whole(m, e as int) as int)
        } else if has_fraction(m, e as int) {
            saturated(-whole(m, e as int) - 1)
        } else {
            saturated(-(whole(m, e as int) as int))
        },
    }
}

/// A double cut to an integer of 64 bits.
pub open spec fn truncated_int(bits: u64) -> i64 {
    match meaning(bits) {
        Number::Nan => 0,
        Number::Infinite(neg) => if neg {
            i64::MIN
        } else {
            i64::MAX
        },
        Number::Finite(neg, m, e) => if neg {
            saturated(-(whole(m, e as int) as int))
        } else {
            saturated(whole(m, e as int) as int)
        },
    }
}

/// A double rounded to the nearest integer of 64 bits, halves away from zero.
pub open spec fn rounded_int(bits: u64) -> i64 {
    match meaning(bits) {
        Number::Nan => 0,
        Number::Infinite(neg) => if neg {
            i64::MIN
        } else {
            i64::MAX
        },
        Number::Finite(neg, m, e) => if neg {
            saturated(-(rounded_whole(m, e as int) as int))
        } else {
            saturated(rounded_whole(m, e as int) as int)
        },
    }
}

/// What a pattern stands for.
fn decode(bits: u64) -> (r: Number)
    ensures
        r == meaning(bits),
        r matches Number::Finite(neg, m, e) ==> m < 0x20_0000_0000_0000 && -1074 <= e <= 971 && (e
            > -1074 ==> m >= HIDDEN),
{
    let neg = bits >= SIGN_BIT;
    let mag: u64 = if neg {
        bits - SIGN_BIT
    } else {
        bits
    };
    if mag > INFINITE {
        Number::Nan
    } else if mag == INFINITE {
        Number::Infinite(neg)
    } else if mag < HIDDEN {
        Number::Finite(neg, mag, -1074)
    } else {
        Number::Finite(neg, mag % HIDDEN + HIDDEN, (mag / HIDDEN) as i32 - 1075)
    }
}

/// A magnitude with a sign in front.
fn sign(neg: bool, mag: u64) -> (r: u64)
    requires
        mag < SIGN_BIT,
    ensures
        r == with_sign(neg, mag as nat),
{
    if neg {
        SIGN_BIT + mag
    } else {
        mag
    }
}

pub proof fn lemma_up_below(k: int, bound: nat)
    requires
        k <= bound,
    ensures
        1 <= up(k) <= pow2(bound),
{
    lemma_pow2_pos(bound);
    lemma2_to64();
    if k > 0 {
        lemma_pow2_pos(k as nat);
        if k < bound {
            lemma_pow2_strictly_increases(k as nat, bound);
        }
    } else if bound > 0 {
        lemma_pow2_strictly_increases(0, bound);
    }
}

/// `2^k`, or 1 if `k` is negative.
fn power(k: i32) -> (r: u128)
    requires
        k <= 126,
    ensures
        r == up(k as int),
{
    let mut r: u128 = 1;
    let mut i: i32 = 0;
    proof {
        lemma2_to64();
    }
    while i < k
        invariant
            0 <= i,
            k > 0 ==> i <= k,
            k <= 0 ==> i == 0,
            k <= 126,
            r == pow2(i as nat),
        decreases k - i,
    {
        proof {
            lemma_pow2_unfold((i + 1) as nat);
            lemma_pow2_adds(63, 63);
            lemma2_to64_rest();
            if i < 126 {
                lemma_pow2_strictly_increases(i as nat, 126);
            }
        }
        r = 2 * r;
        i += 1;
    }
    proof {
        lemma2_to64();
    }
    r
}

/// Powers of two of adjacent exponents, whatever their signs.
pub proof fn lemma_up_step(a: nat, b: nat, k: int, j: int)
    requires
        a * up(-k) < b * up(k),
        k <= j,
    ensures
        a * up(-j) < b * up(j),
{
    lemma2_to64();
    if j <= 0 {
        if k < j {
            let g = (j - k) as nat;
            lemma_pow2_pos(g);
            if j < 0 {
                lemma_pow2_adds((-j) as nat, g);
            }
            assert(up(-k) == up(-j) * pow2(g));
            assert(a * up(-j) <= a * up(-k)) by (nonlinear_arith)
                requires
                    up(-k) == up(-j) * pow2(g),
                    pow2(g) >= 1,
                    up(-j) >= 0,
                    a >= 0,
            ;
        }
    } else if k >= 0 {
        if k < j {
            let g = (j - k) as nat;
            lemma_pow2_pos(g);
            lemma_pow2_adds(k as nat, g);
            assert(up(j) == up(k) * pow2(g));
            assert(b * up(k) <= b * up(j)) by (nonlinear_arith)
                requires
                    up(j) == up(k) * pow2(g),
                    pow2(g) >= 1,
                    up(k) >= 0,
                    b >= 0,
            ;
        }
    } else {
        lemma_pow2_pos((-k) as nat);
        lemma_pow2_pos(j as nat);
        assert(a < b * up(j)) by (nonlinear_arith)
            requires
                a * up(-k) < b,
                up(-k) >= 1,
                up(j) >= 1,
                a >= 0,
                b >= 0,
        ;
    }
}

/// A ratio lies between the powers of two that its length names.
pub proof fn lemma_ratio_length(a: nat, b: nat)
    requires
        a > 0,
        b > 0,
    ensures
        ({
            let l = ratio_length(a, b);
            a * up(-l) < b * up(l) && b * up(l - 1) <= a * up(1 - l)
        }),
{
    lemma2_to64();
    lemma_bit_length(a);
    lemma_bit_length(b);
    let (la, lb) = (bit_length(a), bit_length(b));
    let d = la - lb;
    let pa = pow2((la - 1) as nat);
    let pb = pow2((lb - 1) as nat);
    lemma_pow2_unfold(la);
    lemma_pow2_unfold(lb);
    if a * up(-d) >= b * up(d) {
        let l = d + 1;
        assert(b * up(l - 1) <= a * up(1 - l));
        if d >= 0 {
            let k = (d + 1) as nat;
            lemma_pow2_adds((lb - 1) as nat, k);
            assert((lb - 1) as nat + k == la);
            assert(b * pow2(k) >= pb * pow2(k)) by (nonlinear_arith)
                requires
                    b >= pb,
                    pow2(k) >= 0,
            ;
            assert(up(l) == pow2(k) && up(-l) == 1);
        } else {
            let k = (-d - 1) as nat;
            lemma_pow2_pos(k);
            lemma_pow2_adds(la, k);
            assert(la + k == (lb - 1) as nat);
            assert(a * pow2(k) < pow2(la) * pow2(k)) by (nonlinear_arith)
                requires
                    a < pow2(la),
                    pow2(k) >= 1,
            ;
            assert(up(-l) == pow2(k) && up(l) == 1);
        }
    } else {
        let l = d;
        assert(a * up(-l) < b * up(l));
        if d >= 1 {
            let k = (d - 1) as nat;
            lemma_pow2_pos(k);
            lemma_pow2_adds(lb, k);
            assert(lb + k == (la - 1) as nat);
            assert(b * pow2(k) <= pow2(lb) * pow2(k)) by (nonlinear_arith)
                requires
                    b <= pow2(lb),
                    pow2(k) >= 1,
            ;
            assert(up(l - 1) == pow2(k) && up(1 - l) == 1);
        } else {
            let k = (1 - d) as nat;
            lemma_pow2_adds((la - 1) as nat, k);
            assert((la - 1) as nat + k == lb);
            assert(a * pow2(k) >= pa * pow2(k)) by (nonlinear_arith)
                requires
                    a >= pa,
                    pow2(k) >= 0,
            ;
            assert(up(1 - l) == pow2(k) && up(l - 1) == 1);
        }
    }
}

/// Scaled by `2^s`, a ratio stays below `2^53`, as long as its length allows.
proof fn lemma_scaled_below(a: nat, b: nat, l: int, s: int)
    requires
        a * up(-l) < b * up(l),
        s + l <= 53,
    ensures
        a * up(s) < b * up(-s) * pow2(53),
{
    lemma2_to64();
    lemma2_to64_rest();
    lemma_up_step(a, b, l, 53 - s);
    let j = 53 - s;
    if s > 53 {
        // a * 2^(s - 53) < b
        lemma_pow2_adds((s - 53) as nat, 53);
        assert(a * pow2(s as nat) < b * pow2(53)) by (nonlinear_arith)
            requires
                a * pow2((s - 53) as nat) < b,
                pow2(s as nat) == pow2((s - 53) as nat) * pow2(53),
                pow2(53) >= 1,
        ;
    } else if s > 0 {
        lemma_pow2_adds(s as nat, (53 - s) as nat);
        lemma_pow2_pos(s as nat);
        assert(a * pow2(s as nat) < b * pow2(53)) by (nonlinear_arith)
            requires
                a < b * up(53 - s),
                pow2(53) == pow2(s as nat) * up(53 - s),
                pow2(s as nat) >= 1,
        ;
    } else if s < 0 {
        lemma_pow2_adds((-s) as nat, 53);
        assert(b * pow2((-s) as nat) * pow2(53) == b * pow2((53 - s) as nat)) by (nonlinear_arith)
            requires
                pow2((53 - s) as nat) == pow2((-s) as nat) * pow2(53),
        ;
    }
}

/// What a rounded ratio weighs in units of its last place.
pub proof fn lemma_in_places_bound(a: nat, b: nat, e: int)
    requires
        a > 0,
        b > 0,
    ensures
        in_places(a, b, e) <= 0x20_0000_0000_0000,
{
    lemma2_to64_rest();
    lemma_ratio_length(a, b);
    let l = ratio_length(a, b);
    let q = last_place(a, b, e);
    let s = e - q;
    lemma_scaled_below(a, b, l, s);
    let n = a * up(s);
    let d = b * up(-s);
    if s < 0 {
        lemma_pow2_pos((-s) as nat);
    }
    assert(d > 0) by (nonlinear_arith)
        requires
            d == b * up(-s),
            b > 0,
            up(-s) >= 1,
    ;
    lemma_round_even(n, d);
    assert(n / d < 0x20_0000_0000_0000) by (nonlinear_arith)
        requires
            n < d * 0x20_0000_0000_0000,
            d > 0,
    ;
}

/// A ratio well below one half rounds to nothing.
proof fn lemma_rounds_to_nothing(a: nat, b: nat, s: int)
    requires
        a > 0,
        b > 0,
        -s >= bit_length(a) - bit_length(b) + 2,
    ensures
        round_even(a * up(s), b * up(-s)) == 0,
{
    lemma2_to64();
    lemma_bit_length(a);
    lemma_bit_length(b);
    let (la, lb) = (bit_length(a), bit_length(b));
    let n = a * up(s);
    let d = b * up(-s);
    // 2 * a * 2^s < 2^(la + 1 + s) <= 2^(lb - 1) <= b
    assert(2 * n < d) by {
        lemma_pow2_unfold(la + 1);
        if s >= 0 {
            lemma_pow2_adds(la + 1, s as nat);
            lemma_pow2_pos(s as nat);
            let t = la + 1 + s;
            if t < lb - 1 {
                lemma_pow2_strictly_increases(t as nat, (lb - 1) as nat);
            }
            assert(2 * n < pow2(t as nat)) by (nonlinear_arith)
                requires
                    n == a * up(s),
                    up(s) == pow2(s as nat),
                    2 * a < pow2(la + 1),
                    pow2(t as nat) == pow2(la + 1) * pow2(s as nat),
                    pow2(s as nat) >= 1,
            ;
        } else {
            let k = (-s) as nat;
            lemma_pow2_adds((lb - 1) as nat, k);
            lemma_pow2_pos(k);
            if la + 1 < lb - 1 + k {
                lemma_pow2_strictly_increases(la + 1, (lb - 1 + k) as nat);
            }
            assert(d >= pow2((lb - 1 + k) as nat)) by (nonlinear_arith)
                requires
                    d == b * up(-s),
                    up(-s) == pow2(k),
                    b >= pow2((lb - 1) as nat),
                    pow2((lb - 1 + k) as nat) == pow2((lb - 1) as nat) * pow2(k),
                    pow2(k) >= 1,
            ;
        }
    }
    lemma_fundamental_div_mod_converse(n as int, d as int, 0, n as int);
}

/// The number of binary digits of `n`.
fn count_digits(n: u128) -> (r: i32)
    requires
        n < 0x1000_0000_0000_0000_0000_0000_0000_0000,
    ensures
        r == bit_length(n as nat),
        r <= 124,
{
    proof {
        lemma2_to64_rest();
        lemma_pow2_adds(62, 62);
        lemma_bit_length_bound(n as nat, 124);
    }
    let mut m: u128 = n;
    let mut r: i32 = 0;
    while m > 0
        invariant
            0 <= r,
            bit_length(n as nat) == r + bit_length(m as nat),
            bit_length(n as nat) <= 124,
        decreases m,
    {
        m = m / 2;
        r = r + 1;
    }
    r
}

/// `n / d` rounded to the nearest integer, ties to the even one.
fn divide_round(n: u128, d: u128) -> (r: u128)
    requires
        0 < d < 0x4000_0000_0000_0000_0000_0000_0000_0000,
        n < 0x4000_0000_0000_0000_0000_0000_0000_0000,
    ensures
        r == round_even(n as nat, d as nat),
{
    let q: u128 = n / d;
    let rest: u128 = n % d;
    if 2 * rest < d || (2 * rest == d && q % 2 == 0) {
        q
    } else {
        proof {
            lemma_fundamental_div_mod(n as int, d as int);
            assert(q <= n) by (nonlinear_arith)
                requires
                    n == d * q + rest,
                    d >= 1,
                    rest >= 0,
                    q >= 0,
            ;
        }
        q + 1
    }
}

/// The numbers that the rounding of a ratio computes with stay small.
proof fn lemma_ratio_sizes(a: nat, b: nat, l: int, s: int)
    requires
        0 < a < 0x1000_0000_0000_0000_0000_0000_0000_0000,
        0 < b < 0x20_0000_0000_0000,
        a * up(-l) < b * up(l),
        s + l <= 53,
        -s < bit_length(a) - bit_length(b) + 2,
    ensures
        a * up(s) < 0x4000_0000_0000_0000_0000_0000_0000_0000,
        0 < b * up(-s) < 0x4000_0000_0000_0000_0000_0000_0000_0000,
{
    lemma2_to64();
    lemma2_to64_rest();
    lemma_pow2_adds(53, 53);
    lemma_pow2_adds(62, 62);
    lemma_pow2_adds(124, 1);
    lemma_pow2_adds(63, 63);
    lemma_scaled_below(a, b, l, s);
    lemma_bit_length(b);
    lemma_bit_length_bound(a, 124);
    if s < 0 {
        let k = (-s) as nat;
        lemma_pow2_pos(k);
        lemma_pow2_adds(bit_length(b), k);
        let t = bit_length(b) + k;
        assert(t <= 125);
        if t < 125 {
            lemma_pow2_strictly_increases(t, 125);
        }
        assert(0 < b * pow2(k) <= pow2(bit_length(b)) * pow2(k)) by (nonlinear_arith)
            requires
                0 < b <= pow2(bit_length(b)),
                pow2(k) >= 1,
        ;
    }
}

/// The magnitude of the double nearest to `a / b * 2^e`.
fn round_ratio(a: u128, b: u64, e: i32) -> (r: u64)
    requires
        a < 0x1000_0000_0000_0000_0000_0000_0000_0000,
        0 < b < 0x20_0000_0000_0000,
        -5000 <= e <= 5000,
    ensures
        r == nearest_double(a as nat, b as nat, e as int),
        r <= INFINITE,
{
    if a == 0 {
        return 0;
    }
    let la: i32 = count_digits(a);
    let lb: i32 = count_digits(b as u128);
    let d: i32 = la - lb;
    proof {
        lemma2_to64();
        lemma2_to64_rest();
        lemma_pow2_adds(62, 62);
        lemma_bit_length(a as nat);
        lemma_bit_length(b as nat);
        lemma_bit_length_bound(b as nat, 53);
        lemma_digits_align(a as nat, b as nat);
        lemma_ratio_length(a as nat, b as nat);
    }
    let len: i32 = if a * power(-d) >= b as u128 * power(d) {
        d + 1
    } else {
        d
    };
    let top: i32 = len + e - 53;
    let q: i32 = if top >= -1074 {
        top
    } else {
        -1074
    };
    let s: i32 = e - q;
    proof {
        lemma_in_places_bound(a as nat, b as nat, e as int);
    }
    let places: u128 = if -s >= d + 2 {
        proof {
            lemma_rounds_to_nothing(a as nat, b as nat, s as int);
        }
        0
    } else {
        proof {
            lemma_ratio_sizes(a as nat, b as nat, len as int, s as int);
        }
        divide_round(a * power(s), b as u128 * power(-s))
    };
    let field: u128 = (q + 1074) as u128;
    assert(field * HIDDEN == field * 0x10_0000_0000_0000);
    let mag: u128 = field * 0x10_0000_0000_0000 + places;
    if mag < INFINITE as u128 {
        mag as u64
    } else {
        INFINITE
    }
}

/// How far the exponent of a rounded number lies from where its digits begin.
pub proof fn lemma_rounded_exponent(neg: bool, a: nat, e: int)
    requires
        a > 0,
        bit_length(a) <= 64,
        -100 <= e <= 0,
    ensures
        meaning(with_sign(neg, nearest_double(a, 1, e))) is Finite,
        bit_length(a) + e - 54 <= meaning(with_sign(neg, nearest_double(a, 1, e)))->2
            <= bit_length(a) + e - 52,
{
    lemma2_to64();
    lemma_bit_length(a);
    let k = bit_length(a);
    assert(bit_length(1) == 1) by {
        reveal_with_fuel(bit_length, 2);
    }
    assert(ratio_length(a, 1) == k);
    lemma_in_places_bound(a, 1, e);
    let field = k + e - 53 + 1074;
    let places = in_places(a, 1, e);
    let mag = field * HIDDEN + places;
    assert(nearest_double(a, 1, e) == mag);
    assert(field <= mag / (HIDDEN as int) <= field + 2);
}

/// Two numbers brought to the same length stay below `2^124`.
proof fn lemma_digits_align(a: nat, b: nat)
    requires
        0 < a < 0x1000_0000_0000_0000_0000_0000_0000_0000,
        0 < b < 0x20_0000_0000_0000,
    ensures
        ({
            let d = bit_length(a) - bit_length(b);
            &&& -53 <= d <= 124
            &&& a * up(-d) <= 0x1000_0000_0000_0000_0000_0000_0000_0000
            &&& b * up(d) <= 0x1000_0000_0000_0000_0000_0000_0000_0000
        }),
{
    lemma2_to64();
    lemma2_to64_rest();
    lemma_pow2_adds(62, 62);
    lemma_bit_length(a);
    lemma_bit_length(b);
    lemma_bit_length_bound(a, 124);
    lemma_bit_length_bound(b, 53);
    let (la, lb) = (bit_length(a), bit_length(b));
    if la < lb {
        let k = (lb - la) as nat;
        lemma_pow2_adds(la, k);
        if lb < 124 {
            lemma_pow2_strictly_increases(lb, 124);
        }
        assert(a * pow2(k) <= pow2(la) * pow2(k)) by (nonlinear_arith)
            requires
                a <= pow2(la),
                pow2(k) >= 0,
        ;
    } else if la > lb {
        let k = (la - lb) as nat;
        lemma_pow2_adds(lb, k);
        if la < 124 {
            lemma_pow2_strictly_increases(la, 124);
        }
        assert(b * pow2(k) <= pow2(lb) * pow2(k)) by (nonlinear_arith)
            requires
                b <= pow2(lb),
                pow2(k) >= 0,
        ;
    }
}

/// The product of two doubles.
pub fn multiply(a: u64, b: u64) -> (r: u64)
    ensures
        r == product(a, b),
{
    match decode(a) {
        Number::Nan => NAN,
        Number::Infinite(s) => match decode(b) {
            Number::Nan => NAN,
            Number::Infinite(t) => sign(s != t, INFINITE),
            Number::Finite(t, n, _) => if n == 0 {
                NAN
            } else {
                sign(s != t, INFINITE)
            },
        },
        Number::Finite(s, m, e) => match decode(b) {
            Number::Nan => NAN,
            Number::Infinite(t) => if m == 0 {
                NAN
            } else {
                sign(s != t, INFINITE)
            },
            Number::Finite(t, n, f) => {
                assert(0 <= m * n < 0x1000_0000_0000_0000_0000_0000_0000_0000) by (nonlinear_arith)
                    requires
                        0 <= m < 0x20_0000_0000_0000,
                        0 <= n < 0x20_0000_0000_0000,
                ;
                sign(s != t, round_ratio(m as u128 * n as u128, 1, e + f))
            },
        },
    }
}

/// The quotient of two doubles.
pub fn divide(a: u64, b: u64) -> (r: u64)
    ensures
        r == quotient(a, b),
{
    match decode(a) {
        Number::Nan => NAN,
        Number::Infinite(s) => match decode(b) {
            Number::Finite(t, _, _) => sign(s != t, INFINITE),
            _ => NAN,
        },
        Number::Finite(s, m, e) => match decode(b) {
            Number::Nan => NAN,
            Number::Infinite(t) => sign(s != t, 0),
            Number::Finite(t, n, f) => if n == 0 {
                if m == 0 {
                    NAN
                } else {
                    sign(s != t, INFINITE)
                }
            } else {
                sign(s != t, round_ratio(m as u128, n, e - f))
            },
        },
    }
}

/// A finite number counted in units of `2^-k` of its last place.
fn shifted(neg: bool, m: u64, k: i32) -> (r: i128)
    requires
        m < 0x20_0000_0000_0000,
        m != 0 ==> k <= 70,
    ensures
        r == as_signed(neg, m as nat * up(k as int)),
        -0x800_0000_0000_0000_0000_0000_0000_0000 < r < 0x800_0000_0000_0000_0000_0000_0000_0000,
{
    if m == 0 {
        return 0;
    }
    proof {
        lemma2_to64_rest();
        lemma2_to64();
        lemma_pow2_adds(62, 8);
        lemma_up_below(k as int, 70);
        assert(0 <= m * up(k as int) < 0x800_0000_0000_0000_0000_0000_0000_0000) by (nonlinear_arith)
            requires
                0 <= m < 0x20_0000_0000_0000,
                1 <= up(k as int) <= 0x40_0000_0000_0000_0000,
        ;
    }
    let n: i128 = (m as u128 * power(k)) as i128;
    if neg {
        -n
    } else {
        n
    }
}

/// The sum of two doubles that are not too far apart.
pub fn add_near(a: u64, b: u64) -> (r: u64)
    requires
        near(a, b),
    ensures
        r == sum(a, b),
{
    match decode(a) {
        Number::Finite(s, m, e) => match decode(b) {
            Number::Finite(t, n, f) => {
                let base: i32 = if m == 0 {
                    f
                } else if n == 0 || e <= f {
                    e
                } else {
                    f
                };
                let total: i128 = shifted(s, m, e - base) + shifted(t, n, f - base);
                if total == 0 {
                    sign(s && t, 0)
                } else if total < 0 {
                    sign(true, round_ratio((-total) as u128, 1, base))
                } else {
                    sign(false, round_ratio(total as u128, 1, base))
                }
            },
            _ => NAN,
        },
        _ => NAN,
    }
}

/// An integer in double precision.
pub fn double_from_int(i: i64) -> (r: u64)
    ensures
        r == int_as_double(i),
{
    if i < 0 {
        sign(true, round_ratio((-(i as i128)) as u128, 1, 0))
    } else {
        sign(false, round_ratio(i as u128, 1, 0))
    }
}

/// The integer part of a finite magnitude that is not too large.
fn whole_part(m: u64, e: i32) -> (r: u128)
    requires
        m < 0x20_0000_0000_0000,
        -1074 <= e <= 66,
    ensures
        r == whole(m, e as int),
        r < 0x80_0000_0000_0000_0000_0000_0000_0000,
{
    proof {
        lemma2_to64();
        lemma2_to64_rest();
        lemma_pow2_adds(53, 66);
        lemma_pow2_adds(63, 3);
        lemma_pow2_adds(63, 53);
        lemma_pow2_adds(63, 56);
    }
    if e >= 0 {
        proof {
            lemma_up_below(e as int, 66);
            assert(m * up(e as int) <= 0x20_0000_0000_0000 * pow2(66)) by (nonlinear_arith)
                requires
                    0 <= m <= 0x20_0000_0000_0000,
                    0 <= up(e as int) <= pow2(66),
            ;
            assert(m * up(e as int) < 0x80_0000_0000_0000_0000_0000_0000_0000) by (nonlinear_arith)
                requires
                    0 <= m < 0x20_0000_0000_0000,
                    0 < up(e as int) <= pow2(66),
                    0x20_0000_0000_0000 * pow2(66) <= 0x80_0000_0000_0000_0000_0000_0000_0000,
            ;
        }
        m as u128 * power(e)
    } else if e < -64 {
        proof {
            lemma_pow2_strictly_increases(64, (-e) as nat);
            lemma_fundamental_div_mod_converse(m as int, pow2((-e) as nat) as int, 0, m as int);
        }
        0
    } else {
        proof {
            lemma_up_below((-e) as int, 64);
            vstd::arithmetic::div_mod::lemma_div_nonincreasing(m as int, up((-e) as int) as int);
        }
        m as u128 / power(-e)
    }
}

/// Whether a finite magnitude has anything behind the point.
fn is_broken(m: u64, e: i32) -> (r: bool)
    requires
        m < 0x20_0000_0000_0000,
        -1074 <= e <= 971,
    ensures
        r == has_fraction(m, e as int),
{
    proof {
        lemma2_to64();
        lemma2_to64_rest();
    }
    if e >= 0 {
        false
    } else if e < -64 {
        proof {
            lemma_pow2_strictly_increases(64, (-e) as nat);
            lemma_fundamental_div_mod_converse(m as int, pow2((-e) as nat) as int, 0, m as int);
        }
        m != 0
    } else {
        proof {
            lemma_up_below((-e) as int, 64);
        }
        m as u128 % power(-e) != 0
    }
}

/// An integer held to the range of 64 bits.
fn saturate(n: i128) -> (r: i64)
    ensures
        r == saturated(n as int),
{
    if n < i64::MIN as i128 {
        i64::MIN
    } else if n > i64::MAX as i128 {
        i64::MAX
    } else {
        n as i64
    }
}

/// A magnitude beyond the exponent 66 is beyond any integer of 64 bits.
proof fn lemma_huge(m: u64, e: int)
    requires
        m >= HIDDEN,
        e > 66,
    ensures
        whole(m, e) > 0x1_0000_0000_0000_0000,
        rounded_whole(m, e) > 0x1_0000_0000_0000_0000,
{
    lemma2_to64();
    lemma_pow2_strictly_increases(64, e as nat);
    assert(m * pow2(e as nat) > 0x1_0000_0000_0000_0000) by (nonlinear_arith)
        requires
            m >= 1,
            pow2(e as nat) > 0x1_0000_0000_0000_0000,
    ;
}

/// A double rounded down to an integer of 64 bits.
pub fn floor_to_int(bits: u64) -> (r: i64)
    ensures
        r == floor_int(bits),
{
    match decode(bits) {
        Number::Nan => 0,
        Number::Infinite(neg) => if neg {
            i64::MIN
        } else {
            i64::MAX
        },
        Number::Finite(neg, m, e) => {
            if e > 66 {
                proof {
                    lemma_huge(m, e as int);
                }
                return if neg {
                    i64::MIN
                } else {
                    i64::MAX
                };
            }
            let w: i128 = whole_part(m, e) as i128;
            if !neg {
                saturate(w)
            } else if is_broken(m, e) {
                saturate(-w - 1)
            } else {
                saturate(-w)
            }
        },
    }
}

/// A double cut to an integer of 64 bits.
pub fn truncate_to_int(bits: u64) -> (r: i64)
    ensures
        r == truncated_int(bits),
{
    match decode(bits) {
        Number::Nan => 0,
        Number::Infinite(neg) => if neg {
            i64::MIN
        } else {
            i64::MAX
        },
        Number::Finite(neg, m, e) => {
            if e > 66 {
                proof {
                    lemma_huge(m, e as int);
                }
                return if neg {
                    i64::MIN
                } else {
                    i64::MAX
                };
            }
            let w: i128 = whole_part(m, e) as i128;
            if neg {
                saturate(-w)
            } else {
                saturate(w)
            }
        },
    }
}

/// A double rounded to the nearest integer of 64 bits, halves away from zero.
pub fn round_to_int(bits: u64) -> (r: i64)
    ensures
        r == rounded_int(bits),
{
    match decode(bits) {
        Number::Nan => 0,
        Number::Infinite(neg) => if neg {
            i64::MIN
        } else {
            i64::MAX
        },
        Number::Finite(neg, m, e) => {
            if e > 66 {
                proof {
                    lemma_huge(m, e as int);
                }
                return if neg {
                    i64::MIN
                } else {
                    i64::MAX
                };
            }
            let w: i128 = if e >= 0 {
                whole_part(m, e) as i128
            } else if e < -64 {
                proof {
                    lemma2_to64();
                    lemma_pow2_strictly_increases(64, (-e) as nat);
                    let d = pow2((-e) as nat) as int;
                    lemma_fundamental_div_mod_converse(2 * m + d, 2 * d, 0, 2 * m + d);
                }
                0
            } else {
                proof {
                    lemma2_to64();
                    lemma_up_below((-e) as int, 64);
                    vstd::arithmetic::div_mod::lemma_div_nonincreasing(
                        2 * m + up((-e) as int),
                        2 * up((-e) as int) as int,
                    );
                }
                let d: u128 = power(-e);
                ((2 * (m as u128) + d) / (2 * d)) as i128
            };
            if neg {
                saturate(-w)
            } else {
                saturate(w)
            }
        },
    }
}

/// A single in double precision.
pub open spec fn single_as_double(bits: u32) -> u64 {
    let mag = magnitude(bits);
    if mag > INFINITY {
        NAN
    } else if mag == INFINITY {
        with_sign(negative(bits), INFINITE as nat)
    } else {
        with_sign(
            negative(bits),
            nearest_double(significand(mag as nat), 1, exponent(mag as nat)),
        )
    }
}

/// A single in double precision.
pub fn widen(bits: u32) -> (r: u64)
    ensures
        r == single_as_double(bits),
{
    let neg = bits >= SIGN;
    let mag: u32 = if neg {
        bits - SIGN
    } else {
        bits
    };
    if mag > INFINITY {
        return NAN;
    }
    if mag == INFINITY {
        return sign(neg, INFINITE);
    }
    let field: u32 = mag / 0x80_0000;
    if field == 0 {
        sign(neg, round_ratio(mag as u128, 1, -149))
    } else {
        sign(neg, round_ratio((mag % 0x80_0000 + 0x80_0000) as u128, 1, field as i32 - 150))
    }
}

} // verus!
