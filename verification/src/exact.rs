//! Exactness: what arithmetic on patterns gives lies next to the true result, and the step
//! clock is made of nothing else.

use crate::clock::{release_at, sample_at, step_at, step_length, FOUR, SIXTY};
use crate::double::{
    as_signed, common_exponent, floor_int, has_fraction, in_places, int_as_double, last_place,
    lemma_in_places_bound, meaning, nearest_double, product, quotient, rounded_int, rounded_whole,
    single_as_double, sum, truncated_int, up, whole, with_sign, Number, HIDDEN, INFINITE,
};
use crate::order::{ceiling, lemma_brackets, lemma_in_places_of_normal};
use crate::rounding::lemma_round_even;
use crate::single::{exponent, finite, magnitude, negative, significand};
use vstd::arithmetic::div_mod::lemma_fundamental_div_mod;
use vstd::arithmetic::power2::{
    lemma2_to64, lemma2_to64_rest, lemma_pow2_pos, lemma_pow2_unfold, pow2,
};
use vstd::prelude::*;

verus! {

/// `m * 2^f` is within half a unit of its last place of `a / b * 2^e`, and half a unit away
/// only if `m` is even.
pub open spec fn within_half(m: nat, f: int, a: nat, b: nat, e: int) -> bool {
    let x = m * b * up(f - e);
    let y = a * up(e - f);
    let unit = (b * up(f - e)) as int;
    &&& -unit <= 2 * (x - y) <= unit
    &&& 2 * (x - y) == unit || 2 * (x - y) == -unit ==> m % 2 == 0
}

/// A pattern stands for the double next to `a / b * 2^e`, with a sign in front; only what is
/// too large for a double is infinite.
pub open spec fn next_to(bits: u64, neg: bool, a: nat, b: nat, e: int) -> bool {
    match meaning(bits) {
        Number::Nan => false,
        Number::Infinite(s) => s == neg && a * up(e - 971) >= b * up(971 - e)
            * 0x1f_ffff_ffff_ffff,
        Number::Finite(s, m, f) => s == neg && within_half(m as nat, f as int, a, b, e),
    }
}

proof fn lemma_carry(b: nat, a: nat, e: int, q: int)
    requires
        within_half(0x20_0000_0000_0000, q, a, b, e),
    ensures
        within_half(0x10_0000_0000_0000, q + 1, a, b, e),
{
    lemma2_to64();
    let h = 0x10_0000_0000_0000int;
    if e - q >= 1 {
        let g = (e - q) as nat;
        lemma_pow2_unfold(g);
        assert(up(e - q) == 2 * up(e - (q + 1)));
        let (u, v) = (up(e - (q + 1)) as int, a as int);
        assert(a * up(e - q) == 2 * (a * up(e - (q + 1)))) by (nonlinear_arith)
            requires
                up(e - q) == 2 * up(e - (q + 1)),
        ;
        assert(0x20_0000_0000_0000 * b * up(q - e) == 2 * (h * b) && h * b * up(q + 1 - e) == h * b
            && b * up(q - e) == b && b * up(q + 1 - e) == b) by (nonlinear_arith)
            requires
                up(q - e) == 1,
                up(q + 1 - e) == 1,
                h == 0x10_0000_0000_0000,
        ;
    } else {
        let g = (q + 1 - e) as nat;
        lemma_pow2_unfold(g);
        assert(up(q + 1 - e) == 2 * up(q - e));
        assert(h * b * up(q + 1 - e) == 0x20_0000_0000_0000 * b * up(q - e) && b * up(q + 1 - e)
            == 2 * (b * up(q - e)) && b * up(q - e) >= 0) by (nonlinear_arith)
            requires
                up(q + 1 - e) == 2 * up(q - e),
                h == 0x10_0000_0000_0000,
                b >= 0,
                up(q - e) >= 0,
        ;
        assert(a * up(e - q) == a * up(e - (q + 1)));
    }
}

/// Rounding gives the double next to a number.
proof fn lemma_nearest_is_next(neg: bool, a: nat, b: nat, e: int)
    requires
        b > 0,
    ensures
        next_to(with_sign(neg, nearest_double(a, b, e)), neg, a, b, e),
{
    lemma2_to64();
    lemma2_to64_rest();
    if a == 0 {
        let bits = with_sign(neg, 0);
        assert(meaning(bits) == Number::Finite(neg, 0, -1074i32));
        let f = -1074int;
        if f > e {
            lemma_pow2_pos((f - e) as nat);
        }
        assert(0 * b * up(f - e) == 0 && a * up(e - f) == 0 && b * up(f - e) >= 0) by (nonlinear_arith)
            requires
                a == 0,
                up(f - e) >= 0,
                b >= 0,
        ;
    } else {
        let q = last_place(a, b, e);
        let places = in_places(a, b, e);
        lemma_in_places_bound(a, b, e);
        if q > -1074 {
            lemma_in_places_of_normal(a, b, e);
        }
        let s = e - q;
        if s < 0 {
            lemma_pow2_pos((-s) as nat);
        }
        let n = a * up(s);
        let d = b * up(-s);
        assert(d > 0) by (nonlinear_arith)
            requires
                d == b * up(-s),
                b > 0,
                up(-s) >= 1,
        ;
        lemma_round_even(n, d);
        assert(places * b * up(-s) == d * places) by (nonlinear_arith)
            requires
                d == b * up(-s),
        ;
        assert(2 * d * places == 2 * (d * places)) by (nonlinear_arith);
        assert(within_half(places, q, a, b, e));
        let mag = ((q + 1074) * HIDDEN + places) as nat;
        let bits = with_sign(neg, nearest_double(a, b, e));
        if mag < INFINITE {
            if places == 0x20_0000_0000_0000 {
                assert(mag == (q + 1076) * HIDDEN);
                assert(meaning(bits) == Number::Finite(neg, HIDDEN, (q + 1) as i32));
                lemma_carry(b, a, e, q);
            } else if places >= HIDDEN {
                assert(mag / HIDDEN as nat == q + 1075);
                assert(mag % HIDDEN as nat == places - HIDDEN);
                assert(meaning(bits) == Number::Finite(neg, places as u64, q as i32));
            } else {
                assert(q == -1074);
                assert(meaning(bits) == Number::Finite(neg, places as u64, -1074i32));
            }
        } else {
            assert(meaning(bits) == Number::Infinite(neg));
            lemma_overflow(a, b, e, q, places);
        }
    }
}

/// What becomes infinite is at least the largest double.
proof fn lemma_overflow(a: nat, b: nat, e: int, q: int, places: nat)
    requires
        b > 0,
        within_half(places, q, a, b, e),
        places <= 0x20_0000_0000_0000,
        places >= HIDDEN || q == -1074,
        (q + 1074) * HIDDEN + places >= INFINITE,
    ensures
        a * up(e - 971) >= b * up(971 - e) * 0x1f_ffff_ffff_ffff,
{
    lemma2_to64();
    assert(q >= 971);
    if q > 971 {
        // places * 2^q, less half a unit, in units of 2^971
        let k = (q - 971) as nat;
        lemma_pow2_unfold(k);
        lemma_pow2_pos((k - 1) as nat);
        lemma_shift_places(a, b, e, q, places, k);
        let p = pow2(k) as int;
        let x = a * up(e - 971);
        let u = b * up(971 - e);
        assert(x >= u * 0x1f_ffff_ffff_ffff) by (nonlinear_arith)
            requires
                2 * x >= (2 * places - 1) * u * p,
                places >= 0x10_0000_0000_0000,
                p >= 2,
                u >= 0,
        ;
    } else {
        assert(places == 0x20_0000_0000_0000);
        let u = b * up(971 - e);
        assert(places * b * up(q - e) == places * u) by (nonlinear_arith)
            requires
                u == b * up(q - e),
        ;
        assert(u >= 0) by (nonlinear_arith)
            requires
                u == b * up(971 - e),
        ;
        assert(places * u == 0x20_0000_0000_0000 * u);
    }
}

/// A lower bound moved to another unit.
proof fn lemma_shift_places(a: nat, b: nat, e: int, q: int, places: nat, k: nat)
    requires
        within_half(places, q, a, b, e),
        places >= 1,
    ensures
        2 * (a * up(e - (q - k))) >= (2 * places - 1) * (b * up(q - k - e)) * pow2(k),
    decreases k,
{
    lemma2_to64();
    if k == 0 {
        let u = b * up(q - e);
        assert(places * b * up(q - e) == places * u) by (nonlinear_arith)
            requires
                u == b * up(q - e),
        ;
        assert((2 * places - 1) * u * pow2(k) == 2 * (places * u) - u) by (nonlinear_arith)
            requires
                pow2(k) == 1,
        ;
    } else {
        let j = (k - 1) as nat;
        lemma_shift_places(a, b, e, q, places, j);
        lemma_pow2_unfold(k);
        let (x, y) = (a * up(e - (q - j)), a * up(e - (q - k)));
        let (u, v) = (b * up(q - j - e), b * up(q - k - e));
        let c = 2 * places - 1;
        if e - (q - k) >= 1 {
            lemma_pow2_unfold((e - (q - k)) as nat);
            assert(up(e - (q - k)) == 2 * up(e - (q - j)));
            assert(y == 2 * x) by (nonlinear_arith)
                requires
                    x == a * up(e - (q - j)),
                    y == a * up(e - (q - k)),
                    up(e - (q - k)) == 2 * up(e - (q - j)),
            ;
            assert(u == v);
            assert(c * v * pow2(k) == 2 * (c * u * pow2(j))) by (nonlinear_arith)
                requires
                    u == v,
                    pow2(k) == 2 * pow2(j),
            ;
        } else {
            lemma_pow2_unfold((q - j - e) as nat);
            assert(up(q - j - e) == 2 * up(q - k - e));
            assert(u == 2 * v) by (nonlinear_arith)
                requires
                    u == b * up(q - j - e),
                    v == b * up(q - k - e),
                    up(q - j - e) == 2 * up(q - k - e),
            ;
            assert(x == y);
            assert(c * v * pow2(k) == c * u * pow2(j)) by (nonlinear_arith)
                requires
                    u == 2 * v,
                    pow2(k) == 2 * pow2(j),
            ;
        }
    }
}

/// A product is the double next to the product of the two numbers.
pub proof fn law_products_are_exact(x: u64, y: u64)
    requires
        meaning(x) is Finite,
        meaning(y) is Finite,
    ensures
        next_to(
            product(x, y),
            meaning(x)->Finite_0 != meaning(y)->Finite_0,
            (meaning(x)->1 * meaning(y)->1) as nat,
            1,
            meaning(x)->2 + meaning(y)->2,
        ),
{
    lemma_nearest_is_next(
        meaning(x)->Finite_0 != meaning(y)->Finite_0,
        (meaning(x)->1 * meaning(y)->1) as nat,
        1,
        meaning(x)->2 + meaning(y)->2,
    );
}

/// A quotient is the double next to the quotient of the two numbers.
pub proof fn law_quotients_are_exact(x: u64, y: u64)
    requires
        meaning(x) is Finite,
        meaning(y) is Finite,
        meaning(y)->1 != 0,
    ensures
        next_to(
            quotient(x, y),
            meaning(x)->Finite_0 != meaning(y)->Finite_0,
            meaning(x)->1 as nat,
            meaning(y)->1 as nat,
            meaning(x)->2 - meaning(y)->2,
        ),
{
    lemma_nearest_is_next(
        meaning(x)->Finite_0 != meaning(y)->Finite_0,
        meaning(x)->1 as nat,
        meaning(y)->1 as nat,
        meaning(x)->2 - meaning(y)->2,
    );
}

/// An integer in double precision is the double next to it.
pub proof fn law_integers_are_exact(i: i64)
    ensures
        next_to(
            int_as_double(i),
            i < 0,
            if i < 0 {
                (-i) as nat
            } else {
                i as nat
            },
            1,
            0,
        ),
{
    let n: nat = if i < 0 {
        (-i) as nat
    } else {
        i as nat
    };
    lemma_nearest_is_next(i < 0, n, 1, 0);
}

/// A single in double precision is the double next to it.
pub proof fn law_widening_is_exact(bits: u32)
    requires
        finite(bits),
    ensures
        next_to(
            single_as_double(bits),
            negative(bits),
            significand(magnitude(bits) as nat),
            1,
            exponent(magnitude(bits) as nat),
        ),
{
    let mag = magnitude(bits) as nat;
    lemma_nearest_is_next(negative(bits), significand(mag), 1, exponent(mag));
}

/// A sum is the double next to the sum of the two numbers; a zero adds nothing.
pub proof fn law_sums_are_exact(x: u64, y: u64)
    requires
        meaning(x) is Finite,
        meaning(y) is Finite,
    ensures
        ({
            let (s, m, e) = (meaning(x)->Finite_0, meaning(x)->1, meaning(x)->2 as int);
            let (t, n, f) = (meaning(y)->Finite_0, meaning(y)->1, meaning(y)->2 as int);
            let base = if e <= f {
                e
            } else {
                f
            };
            let total = as_signed(s, m as nat * up(e - base)) + as_signed(t, n as nat * up(f - base));
            &&& m != 0 && n != 0 && total > 0 ==> next_to(sum(x, y), false, total as nat, 1, base)
            &&& m != 0 && n != 0 && total < 0 ==> next_to(sum(x, y), true, (-total) as nat, 1, base)
            &&& m != 0 && n != 0 && total == 0 ==> sum(x, y) == with_sign(s && t, 0)
            &&& m != 0 && n == 0 ==> next_to(sum(x, y), s, m as nat, 1, e)
            &&& m == 0 && n != 0 ==> next_to(sum(x, y), t, n as nat, 1, f)
        }),
{
    let (s, m, e) = (meaning(x)->Finite_0, meaning(x)->1, meaning(x)->2 as int);
    let (t, n, f) = (meaning(y)->Finite_0, meaning(y)->1, meaning(y)->2 as int);
    let base = common_exponent(m, e, n, f);
    let (p, q) = (m as nat * up(e - base), n as nat * up(f - base));
    if m == 0 {
        assert(p == 0) by (nonlinear_arith)
            requires
                p == m as nat * up(e - base),
                m == 0,
        ;
        assert(q == n) by (nonlinear_arith)
            requires
                q == n as nat * up(f - base),
                up(f - base) == 1,
        ;
    } else if n == 0 {
        assert(q == 0) by (nonlinear_arith)
            requires
                q == n as nat * up(f - base),
                n == 0,
        ;
        assert(p == m) by (nonlinear_arith)
            requires
                p == m as nat * up(e - base),
                up(e - base) == 1,
        ;
    }
    let total = as_signed(s, p) + as_signed(t, q);
    if total > 0 {
        lemma_nearest_is_next(false, total as nat, 1, base);
    } else if total < 0 {
        lemma_nearest_is_next(true, (-total) as nat, 1, base);
    }
}

/// The number of a finite double, counted in units of `2^-k` if its exponent is `-k`, and in
/// ones otherwise.
pub open spec fn counted(bits: u64) -> int {
    as_signed(meaning(bits)->Finite_0, meaning(bits)->1 as nat * up(meaning(bits)->2 as int))
}

/// How many of these units make one.
pub open spec fn units(bits: u64) -> int {
    up(-(meaning(bits)->2 as int)) as int
}

/// Rounded down, a double is the integer next below it; cut, the one next to it towards
/// zero; rounded, one that is at most half away, and of two the one further from zero. Only
/// what does not fit in 64 bits is held at the ends.
pub proof fn law_integers_lie_next_to_their_double(bits: u64)
    requires
        meaning(bits) is Finite,
    ensures
        ({
            let (v, u) = (counted(bits), units(bits));
            let (fl, tr, ro) = (floor_int(bits), truncated_int(bits), rounded_int(bits));
            &&& fl * u <= v < (fl + 1) * u || (fl == i64::MAX && v >= (fl + 1) * u) || (fl
                == i64::MIN && v < fl * u)
            &&& v >= 0 ==> tr * u <= v < (tr + 1) * u || (tr == i64::MAX && v >= (tr + 1) * u)
            &&& v <= 0 ==> (tr - 1) * u < v <= tr * u || (tr == i64::MIN && v <= (tr - 1) * u)
            &&& -u <= 2 * (ro * u - v) <= u || (ro == i64::MAX && 2 * v >= 2 * (ro * u) + u) || (ro
                == i64::MIN && 2 * v <= 2 * (ro * u) - u)
            &&& v > 0 && 2 * v == 2 * (ro * u) + u ==> ro == i64::MAX
            &&& v < 0 && 2 * v == 2 * (ro * u) - u ==> ro == i64::MIN
        }),
{
    lemma2_to64();
    let (neg, m, e) = (meaning(bits)->Finite_0, meaning(bits)->1, meaning(bits)->2 as int);
    lemma_brackets(m, e);
    let u = units(bits);
    let x = (m * up(e)) as int;
    assert(m as nat * up(e) == x);
    if e < 0 {
        lemma_pow2_pos((-e) as nat);
    }
    let w = whole(m, e) as int;
    let c = ceiling(m, e) as int;
    let r = rounded_whole(m, e) as int;
    assert(r * u * 2 <= 2 * x + u < (r + 1) * u * 2) by {
        if e >= 0 {
            assert(r == x && u == 1);
        } else {
            let n = 2 * m as nat + pow2((-e) as nat);
            let d = 2 * pow2((-e) as nat);
            lemma_fundamental_div_mod(n as int, d as int);
            assert(x == m) by (nonlinear_arith)
                requires
                    x == m * up(e),
                    up(e) == 1,
            ;
            assert(r * u * 2 <= n < (r + 1) * u * 2) by (nonlinear_arith)
                requires
                    n == d * r + n % d,
                    0 <= n % d < d,
                    d == 2 * u,
            ;
        }
    }
    assert(r * u * 2 == 2 * (r * u) && (r + 1) * u * 2 == 2 * (r * u) + 2 * u) by (nonlinear_arith);
    lemma_saturation(w, u, x);
    lemma_ceiling_saturation(c, u, x);
    lemma_round_saturation(r, u, x);
    assert((w + 1) * u == w * u + u) by (nonlinear_arith);
    assert((c - 1) * u == c * u - u) by (nonlinear_arith);
    assert((-w) * u == -(w * u) && (-c) * u == -(c * u) && (-r) * u == -(r * u)) by (nonlinear_arith);
    assert((-c + 1) * u == -(c * u) + u && (-w - 1) * u == -(w * u) - u) by (nonlinear_arith);
}

proof fn lemma_saturation(w: int, u: int, x: int)
    requires
        u >= 1,
        w * u <= x < (w + 1) * u,
    ensures
        w > i64::MAX ==> x >= (i64::MAX + 1) * u,
        w > -(i64::MIN as int) ==> -x <= (i64::MIN - 1) * u,
{
    if w > i64::MAX {
        assert((i64::MAX + 1) * u <= w * u) by (nonlinear_arith)
            requires
                w >= i64::MAX + 1,
                u >= 1,
        ;
    }
    if w > -(i64::MIN as int) {
        assert((1 - i64::MIN) * u <= w * u) by (nonlinear_arith)
            requires
                w >= 1 - i64::MIN,
                u >= 1,
        ;
        assert((i64::MIN - 1) * u == -((1 - i64::MIN) * u)) by (nonlinear_arith);
    }
}

proof fn lemma_ceiling_saturation(c: int, u: int, x: int)
    requires
        u >= 1,
        (c - 1) * u < x <= c * u,
    ensures
        c > -(i64::MIN as int) ==> -x < i64::MIN * u,
{
    if c > -(i64::MIN as int) {
        assert((-i64::MIN) * u <= (c - 1) * u) by (nonlinear_arith)
            requires
                c - 1 >= -i64::MIN,
                u >= 1,
        ;
        assert(i64::MIN * u == -((-i64::MIN) * u)) by (nonlinear_arith);
    }
}

proof fn lemma_round_saturation(r: int, u: int, x: int)
    requires
        u >= 1,
        2 * (r * u) <= 2 * x + u,
    ensures
        r > i64::MAX ==> 2 * x >= 2 * (i64::MAX * u) + u,
        r > -(i64::MIN as int) ==> 2 * (-x) <= 2 * (i64::MIN * u) - u,
{
    if r > i64::MAX {
        assert((i64::MAX + 1) * u <= r * u) by (nonlinear_arith)
            requires
                r >= i64::MAX + 1,
                u >= 1,
        ;
        assert((i64::MAX + 1) * u == i64::MAX * u + u) by (nonlinear_arith);
    }
    if r > -(i64::MIN as int) {
        assert((1 - i64::MIN) * u <= r * u) by (nonlinear_arith)
            requires
                r >= 1 - i64::MIN,
                u >= 1,
        ;
        assert((1 - i64::MIN) * u == u - i64::MIN * u) by (nonlinear_arith);
    }
}

/// `r` is next to the product of two finite doubles.
pub open spec fn is_product(r: u64, x: u64, y: u64) -> bool {
    next_to(
        r,
        meaning(x)->Finite_0 != meaning(y)->Finite_0,
        (meaning(x)->1 * meaning(y)->1) as nat,
        1,
        meaning(x)->2 + meaning(y)->2,
    )
}

/// `r` is next to the quotient of two finite doubles.
pub open spec fn is_quotient(r: u64, x: u64, y: u64) -> bool {
    next_to(
        r,
        meaning(x)->Finite_0 != meaning(y)->Finite_0,
        meaning(x)->1 as nat,
        meaning(y)->1 as nat,
        meaning(x)->2 - meaning(y)->2,
    )
}

/// `k` is the integer next below a double.
pub open spec fn is_floor(k: i64, bits: u64) -> bool {
    match meaning(bits) {
        Number::Nan => k == 0,
        Number::Infinite(neg) => k == if neg {
            i64::MIN
        } else {
            i64::MAX
        },
        Number::Finite(neg, m, e) => {
            let (v, u) = (counted(bits), units(bits));
            k * u <= v < (k + 1) * u || (k == i64::MAX && v >= (k + 1) * u) || (k == i64::MIN && v
                < k * u)
        },
    }
}

/// A step has sixty seconds over the tempo, times the sample rate, over four samples, each
/// of the three results rounded.
pub proof fn law_step_length(tempo: u64, sample_rate: u64)
    requires
        meaning(tempo) is Finite,
        meaning(tempo)->1 != 0,
        meaning(sample_rate) is Finite,
    ensures
        ({
            let beat = quotient(0x404e_0000_0000_0000, tempo);
            let samples = product(beat, sample_rate);
            &&& is_quotient(beat, 0x404e_0000_0000_0000, tempo)
            &&& meaning(beat) is Finite ==> is_product(samples, beat, sample_rate)
            &&& meaning(beat) is Finite && meaning(samples) is Finite ==> is_quotient(
                step_length(tempo, sample_rate),
                samples,
                0x4010_0000_0000_0000,
            )
        }),
{
    reveal(step_length);
    let beat = quotient(SIXTY, tempo);
    let samples = product(beat, sample_rate);
    assert(meaning(SIXTY) == Number::Finite(false, 0x1e_0000_0000_0000, -47i32));
    assert(meaning(FOUR) == Number::Finite(false, HIDDEN, -50i32));
    law_quotients_are_exact(SIXTY, tempo);
    if meaning(beat) is Finite {
        law_products_are_exact(beat, sample_rate);
        if meaning(samples) is Finite {
            law_quotients_are_exact(samples, FOUR);
        }
    }
}

/// A sample falls on the step that its position, over the length of a step and rounded,
/// counts. Where steps have no end every sample is on the first one, and where their length
/// is no number too.
pub proof fn law_steps_count_samples(global: i64, sps: u64)
    ensures
        meaning(sps) is Finite && meaning(sps)->1 != 0 ==> exists|x: u64|
            #[trigger] is_quotient(x, int_as_double(global), sps) && is_floor(
                step_at(global, sps),
                x,
            ),
        !(meaning(sps) is Finite) ==> step_at(global, sps) == 0,
{
    reveal(step_at);
    lemma_ints_are_finite(global);
    let x = quotient(int_as_double(global), sps);
    if meaning(sps) is Finite && meaning(sps)->1 != 0 {
        law_quotients_are_exact(int_as_double(global), sps);
        assert(is_quotient(x, int_as_double(global), sps));
        if meaning(x) is Finite {
            law_integers_lie_next_to_their_double(x);
        }
        assert(is_floor(step_at(global, sps), x));
    } else if !(meaning(sps) is Finite) {
        if meaning(sps) is Infinite {
            let neg = x >= crate::double::SIGN_BIT;
            assert(meaning(x) == Number::Finite(neg, 0, -1074i32));
            assert(whole(0, -1074) == 0) by {
                lemma_pow2_pos(1074);
                lemma_fundamental_div_mod(0, pow2(1074) as int);
                vstd::arithmetic::div_mod::lemma_div_basics(pow2(1074) as int);
            }
            assert(!has_fraction(0, -1074)) by {
                lemma_pow2_pos(1074);
                vstd::arithmetic::div_mod::lemma_small_mod(0, pow2(1074));
            }
        }
    }
}

proof fn lemma_ints_are_finite(i: i64)
    ensures
        meaning(int_as_double(i)) is Finite,
{
    lemma2_to64();
    let n: nat = if i < 0 {
        (-i) as nat
    } else {
        i as nat
    };
    if n > 0 {
        crate::rounding::lemma_bit_length_bound(n, 64);
        crate::double::lemma_rounded_exponent(i < 0, n, 0);
    }
}

/// A note is released at its step and its length, times the length of a step, each of the
/// two results rounded, cut to a sample.
pub proof fn law_releases_count_samples(stp: i64, note_len: u32, sps: u64)
    requires
        finite(note_len),
        meaning(sps) is Finite,
    ensures
        ({
            let end = sum(int_as_double(stp), single_as_double(note_len));
            meaning(end) is Finite ==> exists|x: u64|
                {
                    &&& #[trigger] is_product(x, end, sps)
                    &&& meaning(x) is Finite && counted(x) >= 0 ==> is_floor(
                        release_at(stp, note_len, sps),
                        x,
                    )
                    &&& meaning(x) is Finite && counted(x) < 0 ==> {
                        let k = release_at(stp, note_len, sps);
                        (k - 1) * units(x) < counted(x) <= k * units(x) || (k == i64::MIN
                            && counted(x) <= (k - 1) * units(x))
                    }
                }
        }),
{
    reveal(release_at);
    let end = sum(int_as_double(stp), single_as_double(note_len));
    if meaning(end) is Finite {
        let x = product(end, sps);
        law_products_are_exact(end, sps);
        assert(is_product(x, end, sps));
        if meaning(x) is Finite {
            law_integers_lie_next_to_their_double(x);
        }
    }
}

/// A beat falls on the sample that four steps a beat make, each of the two results rounded,
/// rounded to a sample.
pub proof fn law_beats_count_samples(beat: u64, tempo: u64, sample_rate: u64)
    requires
        meaning(beat) is Finite,
        meaning(step_length(tempo, sample_rate)) is Finite,
    ensures
        ({
            let steps = product(beat, 0x4010_0000_0000_0000);
            let x = product(steps, step_length(tempo, sample_rate));
            let k = sample_at(beat, tempo, sample_rate);
            let (v, u) = (counted(x), units(x));
            &&& is_product(steps, beat, 0x4010_0000_0000_0000)
            &&& meaning(steps) is Finite ==> is_product(x, steps, step_length(tempo, sample_rate))
            &&& meaning(steps) is Finite && meaning(x) is Finite ==> -u <= 2 * (k * u - v) <= u || (k
                == i64::MAX && 2 * v >= 2 * (k * u) + u) || (k == i64::MIN && 2 * v <= 2 * (k * u)
                - u)
        }),
{
    let steps = product(beat, FOUR);
    let sps = step_length(tempo, sample_rate);
    let x = product(steps, sps);
    assert(meaning(FOUR) == Number::Finite(false, HIDDEN, -50i32));
    law_products_are_exact(beat, FOUR);
    if meaning(steps) is Finite {
        law_products_are_exact(steps, sps);
        if meaning(x) is Finite {
            law_integers_lie_next_to_their_double(x);
        }
    }
}

/// Whether a pattern stands for a zero.
pub open spec fn is_zero(bits: u64) -> bool {
    meaning(bits) is Finite && meaning(bits)->1 == 0
}

/// What is no number stays none; infinity swallows what is finite, and keeps its sign or, in
/// a product or quotient, takes that of the two; a finite number over infinity is zero, and
/// over zero infinity; zero times infinity, infinity over infinity, infinity less infinity
/// and zero over zero are no numbers; and a sum of zeros is a negative one only if both are.
pub proof fn law_special_numbers(x: u64, y: u64)
    ensures
        ({
            let (s, t) = (x >= 0x8000_0000_0000_0000, y >= 0x8000_0000_0000_0000);
            let (a, b) = (meaning(x), meaning(y));
            let (p, q, r) = (meaning(product(x, y)), meaning(quotient(x, y)), meaning(sum(x, y)));
            &&& a is Nan || b is Nan ==> p is Nan && q is Nan && r is Nan
            &&& a is Infinite && is_zero(y) || is_zero(x) && b is Infinite ==> p is Nan
            &&& a is Infinite && !(b is Nan) && !is_zero(y) ==> p == Number::Infinite(s != t)
            &&& b is Infinite && !(a is Nan) && !is_zero(x) ==> p == Number::Infinite(s != t)
            &&& a is Infinite && b is Infinite ==> q is Nan
            &&& a is Infinite && b is Finite ==> q == Number::Infinite(s != t)
            &&& a is Finite && b is Infinite ==> is_zero(quotient(x, y)) && (quotient(x, y)
                >= 0x8000_0000_0000_0000 <==> s != t)
            &&& is_zero(x) && is_zero(y) ==> q is Nan
            &&& a is Finite && !is_zero(x) && is_zero(y) ==> q == Number::Infinite(s != t)
            &&& a is Infinite && b is Infinite && s != t ==> r is Nan
            &&& a is Infinite && !(b is Nan) && !(b is Infinite && s != t) ==> r == a
            &&& b is Infinite && !(a is Nan) && !(a is Infinite && s != t) ==> r == b
            &&& is_zero(x) && is_zero(y) ==> is_zero(sum(x, y)) && (sum(x, y)
                >= 0x8000_0000_0000_0000 <==> s && t)
        }),
{
    if is_zero(x) && is_zero(y) {
        let (e, f) = (meaning(x)->2 as int, meaning(y)->2 as int);
        let base = common_exponent(0, e, 0, f);
        assert(0nat * up(e - base) == 0 && 0nat * up(f - base) == 0) by (nonlinear_arith);
    }
}

/// As an integer what is no number is zero, and an infinity the last one on its side; a single
/// that is no number or an infinity is the same as a double.
pub proof fn law_special_conversions(bits: u64, single: u32)
    ensures
        meaning(bits) is Nan ==> floor_int(bits) == 0 && truncated_int(bits) == 0 && rounded_int(
            bits,
        ) == 0,
        meaning(bits) == Number::Infinite(false) ==> floor_int(bits) == i64::MAX && truncated_int(
            bits,
        ) == i64::MAX && rounded_int(bits) == i64::MAX,
        meaning(bits) == Number::Infinite(true) ==> floor_int(bits) == i64::MIN && truncated_int(
            bits,
        ) == i64::MIN && rounded_int(bits) == i64::MIN,
        single % 0x8000_0000 > 0x7f80_0000 ==> meaning(single_as_double(single)) is Nan,
        single % 0x8000_0000 == 0x7f80_0000 ==> meaning(single_as_double(single))
            == Number::Infinite(single >= 0x8000_0000),
{
}

} // verus!
