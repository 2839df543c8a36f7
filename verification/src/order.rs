//! Order: rounding never turns two numbers round, and neither does the step clock.

use crate::clock::{step_at, step_length, timeline, Transport, FOUR, SIXTY};
use crate::double::{
    floor_int, has_fraction, in_places, last_place, lemma_in_places_bound, lemma_ratio_length,
    lemma_rounded_exponent, lemma_up_step, meaning, nearest_double, product, quotient,
    ratio_length, single_as_double, up, whole, with_sign, Number, HIDDEN, INFINITE, SIGN_BIT,
};
use crate::params::TrackParams;
use crate::rounding::{
    bit_length, lemma_bit_length, lemma_bit_length_bound, lemma_round_even, round_even,
};
use crate::single::{
    data_byte, degree_of, density_of, exponent, floor_of, lemma_nearest_exponent,
    lemma_one_plus_little, lemma_rounded_bounds, nearest, one_plus, quantum, round_of, rounded,
    significand, times, INFINITY, ONE, SIGN,
};
use vstd::arithmetic::div_mod::{lemma_fundamental_div_mod, lemma_fundamental_div_mod_converse};
use vstd::arithmetic::power2::{
    lemma2_to64, lemma2_to64_rest, lemma_pow2_adds, lemma_pow2_pos,
    lemma_pow2_strictly_increases, lemma_pow2_unfold, pow2,
};
use vstd::prelude::*;

verus! {

/// Rounding to an integer keeps order.
proof fn lemma_round_even_keeps_order(n: nat, k: nat, d: nat)
    requires
        d > 0,
        n <= k,
    ensures
        round_even(n, d) <= round_even(k, d),
{
    lemma_fundamental_div_mod(n as int, d as int);
    lemma_fundamental_div_mod(k as int, d as int);
    let (q, r) = (n / d, n % d);
    let (p, t) = (k / d, k % d);
    assert(q <= p) by (nonlinear_arith)
        requires
            d * q + r <= d * p + t,
            0 <= r,
            0 <= t < d,
            d > 0,
    ;
    if q == p {
        assert(r <= t);
    }
}

/// Rounding goes by the ratio alone.
proof fn lemma_round_even_of_ratio(n: nat, d: nat, c: nat)
    requires
        d > 0,
        c > 0,
    ensures
        round_even(n * c, d * c) == round_even(n, d),
{
    lemma_fundamental_div_mod(n as int, d as int);
    let (q, r) = (n / d, n % d);
    assert(n * c == q * (d * c) + r * c) by (nonlinear_arith)
        requires
            n == d * q + r,
    ;
    assert(0 <= r * c < d * c) by (nonlinear_arith)
        requires
            0 <= r < d,
            c > 0,
    ;
    lemma_fundamental_div_mod_converse((n * c) as int, (d * c) as int, q as int, (r * c) as int);
    assert(2 * (r * c) < d * c <==> 2 * r < d) by (nonlinear_arith)
        requires
            c > 0,
    ;
    assert(2 * (r * c) == d * c <==> 2 * r == d) by (nonlinear_arith)
        requires
            c > 0,
    ;
}

/// A ratio has no other length than the one that fits.
proof fn lemma_length_is_unique(a: nat, b: nat, l: int)
    requires
        a > 0,
        b > 0,
        a * up(-l) < b * up(l),
        b * up(l - 1) <= a * up(1 - l),
    ensures
        ratio_length(a, b) == l,
{
    lemma_ratio_length(a, b);
    let k = ratio_length(a, b);
    if k < l {
        lemma_up_step(a, b, k, l - 1);
    } else if l < k {
        lemma_up_step(a, b, l, k - 1);
    }
}

/// Doubling `k` times moves the length on by `k`.
proof fn lemma_length_of_multiple(a: nat, b: nat, k: nat)
    requires
        a > 0,
        b > 0,
    ensures
        a * pow2(k) > 0,
        ratio_length(a * pow2(k), b) == ratio_length(a, b) + k,
{
    lemma2_to64();
    lemma_pow2_pos(k);
    lemma_ratio_length(a, b);
    let l = ratio_length(a, b);
    let c = a * pow2(k);
    assert(c > 0) by (nonlinear_arith)
        requires
            c == a * pow2(k),
            a > 0,
            pow2(k) > 0,
    ;
    lemma_shift_inequality(a, b, l, k);
    lemma_shift_inequality_back(a, b, l - 1, k);
    lemma_length_is_unique(c, b, l + k);
}

proof fn lemma_shift_inequality(a: nat, b: nat, l: int, k: nat)
    requires
        a * up(-l) < b * up(l),
    ensures
        (a * pow2(k)) * up(-(l + k)) < b * up(l + k),
{
    lemma2_to64();
    lemma_pow2_pos(k);
    let p = pow2(k);
    if l >= 0 {
        lemma_pow2_adds(l as nat, k);
        assert(up(l + k) == up(l) * p);
        assert((a * p) * up(-(l + k)) < b * (up(l) * p)) by (nonlinear_arith)
            requires
                a * up(-l) < b * up(l),
                up(-l) == 1,
                up(-(l + k)) == 1,
                p >= 1,
        ;
    } else if l + k <= 0 {
        lemma_pow2_adds((-(l + k)) as nat, k);
        assert(up(-l) == up(-(l + k)) * p);
        assert((a * p) * up(-(l + k)) < b * up(l + k)) by (nonlinear_arith)
            requires
                a * up(-l) < b * up(l),
                up(-l) == up(-(l + k)) * p,
                up(l) == 1,
                up(l + k) == 1,
        ;
    } else {
        // -l < k: a * 2^k = a * 2^-l * 2^(l + k)
        lemma_pow2_adds((-l) as nat, (l + k) as nat);
        lemma_pow2_pos((l + k) as nat);
        assert(p == up(-l) * up(l + k));
        assert((a * p) * up(-(l + k)) < b * up(l + k)) by (nonlinear_arith)
            requires
                a * up(-l) < b * up(l),
                up(l) == 1,
                up(-(l + k)) == 1,
                p == up(-l) * up(l + k),
                up(l + k) >= 1,
        ;
    }
}

proof fn lemma_shift_inequality_back(a: nat, b: nat, l: int, k: nat)
    requires
        b * up(l) <= a * up(-l),
    ensures
        b * up(l + k) <= (a * pow2(k)) * up(-(l + k)),
{
    lemma2_to64();
    lemma_pow2_pos(k);
    let p = pow2(k);
    if l >= 0 {
        lemma_pow2_adds(l as nat, k);
        assert(up(l + k) == up(l) * p);
        assert(b * (up(l) * p) <= (a * p) * up(-(l + k))) by (nonlinear_arith)
            requires
                b * up(l) <= a * up(-l),
                up(-l) == 1,
                up(-(l + k)) == 1,
                p >= 1,
        ;
    } else if l + k <= 0 {
        lemma_pow2_adds((-(l + k)) as nat, k);
        assert(up(-l) == up(-(l + k)) * p);
        assert((a * p) * up(-(l + k)) == a * (up(-(l + k)) * p)) by (nonlinear_arith);
    } else {
        lemma_pow2_adds((-l) as nat, (l + k) as nat);
        lemma_pow2_pos((l + k) as nat);
        assert(p == up(-l) * up(l + k));
        assert(b * up(l + k) <= a * p) by (nonlinear_arith)
            requires
                b <= a * up(-l),
                p == up(-l) * up(l + k),
                up(l + k) >= 1,
        ;
    }
}

/// The nearest double goes by the value alone: a numerator doubled `k` times and an
/// exponent lowered by `k` make no difference.
proof fn lemma_nearest_of_multiple(a: nat, b: nat, e: int, k: nat)
    requires
        b > 0,
    ensures
        nearest_double(a * pow2(k), b, e - k) == nearest_double(a, b, e),
{
    lemma2_to64();
    lemma_pow2_pos(k);
    if a == 0 {
        assert(a * pow2(k) == 0) by (nonlinear_arith)
            requires
                a == 0,
        ;
    } else {
        lemma_length_of_multiple(a, b, k);
        let q = last_place(a, b, e);
        let c = a * pow2(k);
        assert(last_place(c, b, e - k) == q);
        let s = e - q;
        // round_even(c * up(s - k), b * up(k - s)) against round_even(a * up(s), b * up(-s))
        if s <= 0 {
            lemma_pow2_adds((-s) as nat, k);
            assert(up(k - s) == up(-s) * pow2(k));
            assert(b * up(k - s) == (b * up(-s)) * pow2(k)) by (nonlinear_arith)
                requires
                    up(k - s) == up(-s) * pow2(k),
            ;
            if s < 0 {
                lemma_pow2_pos((-s) as nat);
            }
            assert(b * up(-s) > 0) by (nonlinear_arith)
                requires
                    b > 0,
                    up(-s) >= 1,
            ;
            assert(c * up(s - k) == (a * up(s)) * pow2(k)) by (nonlinear_arith)
                requires
                    c == a * pow2(k),
                    up(s - k) == 1,
                    up(s) == 1,
            ;
            lemma_round_even_of_ratio(a * up(s), b * up(-s), pow2(k));
        } else if s >= k {
            lemma_pow2_adds((s - k) as nat, k);
            assert(up(s) == up(s - k) * pow2(k));
            assert(c * up(s - k) == a * up(s)) by (nonlinear_arith)
                requires
                    c == a * pow2(k),
                    up(s) == up(s - k) * pow2(k),
            ;
        } else {
            // 0 < s < k: both sides carry 2^(k - s)
            let g = (k - s) as nat;
            lemma_pow2_adds(s as nat, g);
            lemma_pow2_pos(g);
            assert(pow2(k) == up(s) * pow2(g));
            assert(c * up(s - k) == (a * up(s)) * pow2(g)) by (nonlinear_arith)
                requires
                    c == a * pow2(k),
                    pow2(k) == up(s) * pow2(g),
                    up(s - k) == 1,
            ;
            assert(b * up(k - s) == (b * up(-s)) * pow2(g)) by (nonlinear_arith)
                requires
                    up(k - s) == pow2(g),
                    up(-s) == 1,
            ;
            lemma_round_even_of_ratio(a * up(s), b * up(-s), pow2(g));
        }
        assert(in_places(c, b, e - k) == in_places(a, b, e));
    }
}

/// A ratio of full length counts at least `2^52` last places.
proof fn lemma_scaled_above(a: nat, b: nat, l: int)
    requires
        b * up(l - 1) <= a * up(1 - l),
    ensures
        b * up(l - 53) * pow2(52) <= a * up(53 - l),
{
    lemma2_to64();
    lemma2_to64_rest();
    if l <= 1 {
        lemma_pow2_adds(52, (1 - l) as nat);
        assert(up(53 - l) == pow2(52) * up(1 - l));
        assert(b * up(l - 53) * pow2(52) <= a * up(53 - l)) by (nonlinear_arith)
            requires
                b * up(l - 1) <= a * up(1 - l),
                up(l - 1) == 1,
                up(l - 53) == 1,
                up(53 - l) == pow2(52) * up(1 - l),
                pow2(52) >= 1,
        ;
    } else if l < 53 {
        lemma_pow2_adds((l - 1) as nat, (53 - l) as nat);
        lemma_pow2_pos((53 - l) as nat);
        assert(b * up(l - 53) * pow2(52) <= a * up(53 - l)) by (nonlinear_arith)
            requires
                b * up(l - 1) <= a * up(1 - l),
                up(1 - l) == 1,
                up(l - 53) == 1,
                pow2(52) == up(l - 1) * up(53 - l),
                up(53 - l) >= 1,
        ;
    } else {
        lemma_pow2_adds((l - 53) as nat, 52);
        assert(b * up(l - 53) * pow2(52) <= a * up(53 - l)) by (nonlinear_arith)
            requires
                b * up(l - 1) <= a * up(1 - l),
                up(1 - l) == 1,
                up(53 - l) == 1,
                up(l - 1) == up(l - 53) * pow2(52),
        ;
    }
}

/// A ratio whose last place lies above the lowest one counts at least `2^52` of them.
pub proof fn lemma_in_places_of_normal(a: nat, b: nat, e: int)
    requires
        a > 0,
        b > 0,
        last_place(a, b, e) > -1074,
    ensures
        in_places(a, b, e) >= HIDDEN,
{
    lemma2_to64_rest();
    lemma_ratio_length(a, b);
    let l = ratio_length(a, b);
    let q = last_place(a, b, e);
    lemma_scaled_above(a, b, l);
    let n = a * up(e - q);
    let d = b * up(q - e);
    assert(e - q == 53 - l);
    if l > 53 {
        lemma_pow2_pos((l - 53) as nat);
    }
    assert(d > 0) by (nonlinear_arith)
        requires
            d == b * up(q - e),
            b > 0,
            up(q - e) >= 1,
    ;
    lemma_round_even(n, d);
    assert(n / d >= 0x10_0000_0000_0000) by (nonlinear_arith)
        requires
            n >= d * 0x10_0000_0000_0000,
            d > 0,
    ;
}

/// The nearest double keeps order.
proof fn lemma_nearest_keeps_order_here(a: nat, c: nat, b: nat, e: int)
    requires
        b > 0,
        a <= c,
    ensures
        nearest_double(a, b, e) <= nearest_double(c, b, e),
{
    if a > 0 {
        lemma_ratio_length(a, b);
        lemma_ratio_length(c, b);
        let (l, k) = (ratio_length(a, b), ratio_length(c, b));
        if l > k {
            lemma_up_step(c, b, k, l - 1);
            assert(a * up(1 - l) <= c * up(1 - l)) by (nonlinear_arith)
                requires
                    a <= c,
            ;
        }
        let (q, p) = (last_place(a, b, e), last_place(c, b, e));
        assert(q <= p);
        lemma_in_places_bound(a, b, e);
        if q < p {
            lemma_in_places_of_normal(c, b, e);
        } else {
            lemma2_to64();
            let s = e - q;
            if s < 0 {
                lemma_pow2_pos((-s) as nat);
            }
            assert(b * up(-s) > 0) by (nonlinear_arith)
                requires
                    b > 0,
                    up(-s) >= 1,
            ;
            assert(a * up(s) <= c * up(s)) by (nonlinear_arith)
                requires
                    a <= c,
            ;
            lemma_round_even_keeps_order(a * up(s), c * up(s), b * up(-s));
        }
    }
}

/// The nearest double keeps order, whatever the exponents.
proof fn lemma_nearest_keeps_order(a: nat, e: int, c: nat, f: int, b: nat)
    requires
        b > 0,
        a * up(e - f) <= c * up(f - e),
    ensures
        nearest_double(a, b, e) <= nearest_double(c, b, f),
{
    lemma2_to64();
    if e <= f {
        let k = (f - e) as nat;
        lemma_nearest_of_multiple(c, b, f, k);
        assert(a <= c * pow2(k)) by (nonlinear_arith)
            requires
                a * up(e - f) <= c * up(f - e),
                up(e - f) == 1,
                up(f - e) == pow2(k),
        ;
        lemma_nearest_keeps_order_here(a, c * pow2(k), b, e);
    } else {
        let k = (e - f) as nat;
        lemma_nearest_of_multiple(a, b, e, k);
        assert(a * pow2(k) <= c) by (nonlinear_arith)
            requires
                a * up(e - f) <= c * up(f - e),
                up(f - e) == 1,
                up(e - f) == pow2(k),
        ;
        lemma_nearest_keeps_order_here(a * pow2(k), c, b, f);
    }
}

/// Larger patterns stand for larger numbers.
proof fn lemma_patterns_are_ordered(x: u64, y: u64)
    requires
        x <= y < INFINITE,
    ensures
        ({
            let (a, b) = (meaning(x), meaning(y));
            &&& a is Finite && b is Finite
            &&& !a->Finite_0 && !b->Finite_0
            &&& a->2 <= b->2
            &&& a->1 * up(a->2 - b->2) <= b->1 * up(b->2 - a->2)
        }),
{
    lemma2_to64();
    let (m, e) = (meaning(x)->1, meaning(x)->2);
    let (n, f) = (meaning(y)->1, meaning(y)->2);
    assert(x / HIDDEN <= y / HIDDEN);
    assert(x == HIDDEN * (x / HIDDEN) + x % HIDDEN && y == HIDDEN * (y / HIDDEN) + y % HIDDEN);
    assert(meaning(x) is Finite && meaning(y) is Finite && e <= f);
    assert(m < 2 * HIDDEN);
    if e < f {
        assert(n >= HIDDEN);
        let k = (f - e) as nat;
        if k > 1 {
            lemma_pow2_strictly_increases(1, k);
        }
        assert(m * up(e - f) <= n * up(f - e)) by (nonlinear_arith)
            requires
                0 <= m <= 2 * n,
                up(e - f) == 1,
                up(f - e) >= 2,
                n >= 0,
        ;
    } else {
        assert(e == f && m <= n);
        assert(m * up(e - f) <= n * up(f - e)) by (nonlinear_arith)
            requires
                m <= n,
                up(e - f) == 1,
                up(f - e) == 1,
        ;
    }
}

/// A finite magnitude rounded up to an integer.
pub open spec fn ceiling(m: u64, e: int) -> nat {
    if has_fraction(m, e) {
        whole(m, e) + 1
    } else {
        whole(m, e)
    }
}

/// The integers next to a number.
pub proof fn lemma_brackets(m: u64, e: int)
    ensures
        whole(m, e) * up(-e) <= m * up(e) < (whole(m, e) + 1) * up(-e),
        (ceiling(m, e) - 1) * up(-e) < m * up(e) <= ceiling(m, e) * up(-e),
{
    lemma2_to64();
    if e >= 0 {
        assert(whole(m, e) == m * up(e));
        assert(up(-e) == 1);
        let w = whole(m, e) as int;
        assert(w * up(-e) == w && (w + 1) * up(-e) == w + 1 && (w - 1) * up(-e) == w - 1)
            by (nonlinear_arith)
            requires
                up(-e) == 1,
        ;
    } else {
        let d = pow2((-e) as nat) as int;
        lemma_pow2_pos((-e) as nat);
        lemma_fundamental_div_mod(m as int, d);
        let w = whole(m, e) as int;
        let r = m as int % d;
        assert(m * up(e) == m) by (nonlinear_arith)
            requires
                up(e) == 1,
        ;
        assert(w * d == m - r && (w + 1) * d == m - r + d && (w - 1) * d == m - r - d)
            by (nonlinear_arith)
            requires
                m == d * w + r,
        ;
    }
}

/// Rounding down and rounding up to integers keep order.
proof fn lemma_integers_keep_order(m: u64, e: int, n: u64, f: int)
    requires
        e <= f,
        m * up(e - f) <= n * up(f - e),
    ensures
        whole(m, e) <= whole(n, f),
        ceiling(m, e) <= ceiling(n, f),
{
    lemma2_to64();
    lemma_brackets(m, e);
    lemma_brackets(n, f);
    if e < 0 {
        lemma_pow2_pos((-e) as nat);
    }
    if f < 0 {
        lemma_pow2_pos((-f) as nat);
    }
    assert(up(f - e) * (up(e) * up(-f)) == up(f) * up(-e)) by {
        if e >= 0 {
            lemma_pow2_adds((f - e) as nat, e as nat);
            assert(up(f - e) * (up(e) * up(-f)) == up(f) * up(-e)) by (nonlinear_arith)
                requires
                    up(f - e) * up(e) == up(f),
                    up(-f) == 1,
                    up(-e) == 1,
            ;
        } else if f <= 0 {
            lemma_pow2_adds((f - e) as nat, (-f) as nat);
            assert(up(f - e) * (up(e) * up(-f)) == up(f) * up(-e)) by (nonlinear_arith)
                requires
                    up(f - e) * up(-f) == up(-e),
                    up(e) == 1,
                    up(f) == 1,
            ;
        } else {
            lemma_pow2_adds(f as nat, (-e) as nat);
            assert(up(f - e) * (up(e) * up(-f)) == up(f) * up(-e)) by (nonlinear_arith)
                requires
                    up(f) * up(-e) == up(f - e),
                    up(e) == 1,
                    up(-f) == 1,
            ;
        }
    }
    let (x, y) = (m * up(e), n * up(f));
    let (c, d) = (up(-e) as int, up(-f) as int);
    assert(x * d <= y * c) by (nonlinear_arith)
        requires
            x == m * up(e),
            y == n * up(f),
            d == up(-f),
            c == up(-e),
            m * up(e - f) <= n * up(f - e),
            up(e - f) == 1,
            up(f - e) * (up(e) * up(-f)) == up(f) * up(-e),
            up(e) >= 0,
            up(-f) >= 0,
    ;
    let (w, v) = (whole(m, e) as int, whole(n, f) as int);
    assert(w < v + 1) by (nonlinear_arith)
        requires
            w * c <= x,
            x * d <= y * c,
            y < (v + 1) * d,
            c >= 1,
            d >= 1,
    ;
    let (p, q) = (ceiling(m, e) as int, ceiling(n, f) as int);
    assert(p - 1 < q) by (nonlinear_arith)
        requires
            (p - 1) * c < x,
            x * d <= y * c,
            y <= q * d,
            c >= 1,
            d >= 1,
    ;
}

/// Rounding a double down to an integer keeps order, on either side of zero.
proof fn lemma_floor_keeps_order(x: u64, y: u64)
    requires
        x <= y <= INFINITE,
    ensures
        0 <= floor_int(x) <= floor_int(y),
        floor_int(with_sign(true, y as nat)) <= floor_int(with_sign(true, x as nat)) <= 0,
{
    if y < INFINITE {
        lemma_patterns_are_ordered(x, y);
        let (a, b) = (meaning(x), meaning(y));
        lemma_integers_keep_order(a->1, a->2 as int, b->1, b->2 as int);
    } else if x < INFINITE {
        lemma_patterns_are_ordered(x, x);
    }
}

/// The magnitude of a whole number.
spec fn count(n: nat) -> u64 {
    nearest_double(n, 1, 0) as u64
}

/// Whole numbers of 64 bits stay in order, and finite.
proof fn lemma_counts_are_ordered(n: nat, k: nat)
    requires
        n <= k <= 0x8000_0000_0000_0000,
    ensures
        count(n) <= count(k) < INFINITE,
        count(n) == nearest_double(n, 1, 0),
        count(k) == nearest_double(k, 1, 0),
{
    lemma2_to64();
    lemma_nearest_keeps_order_here(n, k, 1, 0);
    if k > 0 {
        lemma_bit_length(k);
        lemma_bit_length_bound(k, 64);
        lemma_rounded_exponent(false, k, 0);
    }
}

/// Dividing by a length of time keeps order, on either side of zero.
proof fn lemma_steps_keep_order(x: u64, y: u64, sps: u64)
    requires
        x <= y < INFINITE,
        sps < SIGN_BIT,
    ensures
        0 <= floor_int(quotient(x, sps)) <= floor_int(quotient(y, sps)),
        floor_int(quotient(with_sign(true, y as nat), sps)) <= floor_int(
            quotient(with_sign(true, x as nat), sps),
        ) <= 0,
{
    lemma_patterns_are_ordered(x, y);
    let (a, b) = (meaning(x), meaning(y));
    assert(meaning(with_sign(true, x as nat)) == Number::Finite(true, a->1, a->2));
    assert(meaning(with_sign(true, y as nat)) == Number::Finite(true, b->1, b->2));
    match meaning(sps) {
        Number::Nan => {},
        Number::Infinite(t) => {
            lemma_floor_keeps_order(0, 0);
        },
        Number::Finite(t, n, f) => {
            if n == 0 {
                lemma_floor_keeps_order(0, INFINITE);
            } else {
                let (p, q) = (
                    nearest_double(a->1 as nat, n as nat, a->2 - f),
                    nearest_double(b->1 as nat, n as nat, b->2 - f),
                );
                lemma_nearest_keeps_order(
                    a->1 as nat,
                    a->2 - f,
                    b->1 as nat,
                    b->2 - f,
                    n as nat,
                );
                lemma_floor_keeps_order(p as u64, q as u64);
            }
        },
    }
}

/// The clock never goes back: of two samples, the later one falls on the same step or on a
/// later one.
pub proof fn law_steps_never_go_back(earlier: i64, later: i64, sps: u64)
    requires
        earlier <= later,
        sps < SIGN_BIT,
    ensures
        step_at(earlier, sps) <= step_at(later, sps),
{
    reveal(step_at);
    if earlier >= 0 {
        lemma_counts_are_ordered(earlier as nat, later as nat);
        lemma_steps_keep_order(count(earlier as nat), count(later as nat), sps);
    } else if later < 0 {
        lemma_counts_are_ordered((-later) as nat, (-earlier) as nat);
        lemma_steps_keep_order(count((-later) as nat), count((-earlier) as nat), sps);
    } else {
        lemma_counts_are_ordered((-earlier) as nat, (-earlier) as nat);
        lemma_counts_are_ordered(later as nat, later as nat);
        let (x, y) = (count((-earlier) as nat), count(later as nat));
        lemma_steps_keep_order(x, x, sps);
        lemma_steps_keep_order(y, y, sps);
    }
}

/// A step is not of negative length, unless the tempo or the sample rate is negative.
proof fn lemma_step_length_has_no_sign(tempo: u64, sample_rate: u64)
    requires
        tempo < SIGN_BIT,
        sample_rate < SIGN_BIT,
    ensures
        step_length(tempo, sample_rate) < SIGN_BIT,
{
    reveal(step_length);
    let beat = quotient(SIXTY, tempo);
    assert(beat < SIGN_BIT);
    let samples = product(beat, sample_rate);
    assert(samples < SIGN_BIT);
    assert(meaning(FOUR) == Number::Finite(false, HIDDEN, -50i32));
}

/// While the transport runs, the playhead never goes back: along a block the steps rise or
/// stay, and the next block, which starts where this one ends, goes on from there.
pub proof fn law_playheads_never_go_back(
    transport: Transport,
    samples: nat,
    sample_rate: u32,
    params: Seq<TrackParams>,
    i: int,
    j: int,
)
    requires
        transport.playing,
        transport.tempo < SIGN_BIT,
        sample_rate < SIGN,
        0 <= i <= j < samples,
        transport.pos + samples <= i64::MAX,
    ensures
        ({
            let steps = timeline(transport, samples, sample_rate, params).steps;
            let next = Transport { pos: (transport.pos + samples) as i64, ..transport };
            &&& steps[i] <= steps[j]
            &&& steps[j] <= timeline(next, 1, sample_rate, params).steps[0]
        }),
{
    let sps = step_length(transport.tempo, single_as_double(sample_rate));
    assert(single_as_double(sample_rate) < SIGN_BIT);
    lemma_step_length_has_no_sign(transport.tempo, single_as_double(sample_rate));
    law_steps_never_go_back((transport.pos + i) as i64, (transport.pos + j) as i64, sps);
    law_steps_never_go_back((transport.pos + j) as i64, (transport.pos + samples) as i64, sps);
}

/// A smaller number has no more digits.
proof fn lemma_bit_length_keeps_order(n: nat, k: nat)
    requires
        n <= k,
    ensures
        bit_length(n) <= bit_length(k),
    decreases n,
{
    if n > 0 {
        lemma_bit_length_keeps_order(n / 2, k / 2);
    }
}

/// Doubling `k` times adds `k` digits.
proof fn lemma_bit_length_of_multiple(n: nat, k: nat)
    requires
        n > 0,
    ensures
        n * pow2(k) > 0,
        bit_length(n * pow2(k)) == bit_length(n) + k,
    decreases k,
{
    lemma2_to64();
    lemma_pow2_pos(k);
    assert(n * pow2(k) > 0) by (nonlinear_arith)
        requires
            n > 0,
            pow2(k) > 0,
    ;
    if k == 0 {
        assert(n * pow2(k) == n) by (nonlinear_arith)
            requires
                pow2(k) == 1,
        ;
    } else {
        let j = (k - 1) as nat;
        lemma_bit_length_of_multiple(n, j);
        lemma_pow2_unfold(k);
        assert(n * pow2(k) == 2 * (n * pow2(j))) by (nonlinear_arith)
            requires
                pow2(k) == 2 * pow2(j),
        ;
        assert((n * pow2(k)) / 2 == n * pow2(j));
    }
}

/// The nearest single goes by the value alone.
proof fn lemma_single_of_multiple(n: nat, e: int, k: nat)
    ensures
        nearest(n * pow2(k), e - k) == nearest(n, e),
{
    lemma2_to64();
    lemma_pow2_pos(k);
    if n == 0 {
        assert(n * pow2(k) == 0) by (nonlinear_arith)
            requires
                n == 0,
        ;
    } else {
        lemma_bit_length_of_multiple(n, k);
        let c = n * pow2(k);
        let q = quantum(n, e);
        assert(quantum(c, e - k) == q);
        let s = e - q;
        if s >= k {
            lemma_pow2_adds((s - k) as nat, k);
            assert(c * pow2((s - k) as nat) == n * pow2(s as nat)) by (nonlinear_arith)
                requires
                    c == n * pow2(k),
                    pow2(s as nat) == pow2((s - k) as nat) * pow2(k),
            ;
        } else if s >= 0 {
            let g = (k - s) as nat;
            let m = n * pow2(s as nat);
            lemma_pow2_adds(s as nat, g);
            lemma_pow2_pos(g);
            assert(c == m * pow2(g)) by (nonlinear_arith)
                requires
                    c == n * pow2(k),
                    m == n * pow2(s as nat),
                    pow2(k) == pow2(s as nat) * pow2(g),
            ;
            lemma_round_even_of_ratio(m, 1, pow2(g));
            assert(round_even(m, 1) == m);
            assert(1 * pow2(g) == pow2(g));
        } else {
            let g = (-s) as nat;
            lemma_pow2_adds(g, k);
            lemma_pow2_pos(g);
            lemma_round_even_of_ratio(n, pow2(g), pow2(k));
        }
        assert(rounded(c, e - k) == rounded(n, e));
    }
}

/// The nearest single keeps order.
proof fn lemma_single_keeps_order_here(n: nat, k: nat, e: int)
    requires
        n <= k,
    ensures
        nearest(n, e) <= nearest(k, e),
{
    if n > 0 {
        lemma_bit_length_keeps_order(n, k);
        lemma_rounded_bounds(n, e);
        lemma_rounded_bounds(k, e);
        let (q, p) = (quantum(n, e), quantum(k, e));
        if q == p {
            if e >= q {
                assert(n * pow2((e - q) as nat) <= k * pow2((e - q) as nat)) by (nonlinear_arith)
                    requires
                        n <= k,
                ;
            } else {
                lemma_pow2_pos((q - e) as nat);
                lemma_round_even_keeps_order(n, k, pow2((q - e) as nat));
            }
        }
    }
}

/// The nearest single keeps order, whatever the exponents.
proof fn lemma_single_keeps_order(n: nat, e: int, k: nat, f: int)
    requires
        e <= f,
        n <= k * up(f - e),
    ensures
        nearest(n, e) <= nearest(k, f),
{
    lemma2_to64();
    let g = (f - e) as nat;
    assert(up(f - e) == pow2(g));
    lemma_single_of_multiple(k, f, g);
    lemma_single_keeps_order_here(n, k * pow2(g), e);
}

/// Larger patterns of singles stand for larger numbers.
proof fn lemma_single_patterns_are_ordered(x: nat, y: nat)
    requires
        x <= y,
    ensures
        exponent(x) <= exponent(y),
        significand(x) <= significand(y) * up(exponent(y) - exponent(x)),
{
    lemma2_to64();
    let (m, e) = (significand(x), exponent(x));
    let (n, f) = (significand(y), exponent(y));
    assert(x / 0x80_0000 <= y / 0x80_0000);
    assert(m < 0x100_0000);
    if e < f {
        assert(n >= 0x80_0000);
        let k = (f - e) as nat;
        if k > 1 {
            lemma_pow2_strictly_increases(1, k);
        }
        assert(m <= n * up(f - e)) by (nonlinear_arith)
            requires
                0 <= m <= 2 * n,
                up(f - e) >= 2,
                n >= 0,
        ;
    } else {
        assert(m <= n * up(f - e)) by (nonlinear_arith)
            requires
                m <= n,
                up(f - e) == 1,
        ;
    }
}

/// A product with a small integer keeps order.
proof fn lemma_times_keeps_order(x: nat, y: nat, k: nat)
    requires
        x <= y,
    ensures
        times(x, k) <= times(y, k),
{
    lemma_single_patterns_are_ordered(x, y);
    let (m, e) = (significand(x), exponent(x));
    let (n, f) = (significand(y), exponent(y));
    assert(m * k <= (n * k) * up(f - e)) by (nonlinear_arith)
        requires
            m <= n * up(f - e),
            k >= 0,
    ;
    lemma_single_keeps_order(m * k, e, n * k, f);
}

/// Adding one keeps order.
proof fn lemma_one_plus_keeps_order(x: nat, y: nat)
    requires
        x <= y,
        exponent(y) <= 0,
    ensures
        one_plus(x) <= one_plus(y),
{
    lemma2_to64();
    lemma_single_patterns_are_ordered(x, y);
    let (m, e) = (significand(x), exponent(x));
    let (n, f) = (significand(y), exponent(y));
    let g = (f - e) as nat;
    lemma_pow2_adds((-f) as nat, g);
    assert(pow2((-e) as nat) == pow2((-f) as nat) * up(f - e));
    assert(pow2((-e) as nat) + m <= (pow2((-f) as nat) + n) * up(f - e)) by (nonlinear_arith)
        requires
            pow2((-e) as nat) == pow2((-f) as nat) * up(f - e),
            m <= n * up(f - e),
    ;
    lemma_single_keeps_order(pow2((-e) as nat) + m, e, pow2((-f) as nat) + n, f);
}

/// The nearest integers keep order: `x` and `y` are the two numbers, each over a
/// denominator, and `r` and `s` are what they round to.
proof fn lemma_nearest_integers_keep_order(x: int, c: int, y: int, d: int, r: int, s: int)
    by (nonlinear_arith)
    requires
        c >= 1,
        d >= 1,
        x * d <= y * c,
        r * (2 * c) <= 2 * x + c,
        2 * y + d < (s + 1) * (2 * d),
    ensures
        r <= s,
{
    assert(r * (2 * c) * d <= (2 * x + c) * d);
    assert((2 * x + c) * d <= c * (2 * y + d));
    assert(c * (2 * y + d) < c * ((s + 1) * (2 * d)));
}

/// What a small magnitude rounds to lies next to it.
pub proof fn lemma_round_brackets(mag: nat)
    requires
        exponent(mag) < 0,
    ensures
        ({
            let c = pow2((-exponent(mag)) as nat);
            &&& c >= 1
            &&& round_of(mag) * (2 * c) <= 2 * significand(mag) + c < (round_of(mag) + 1) * (2 * c)
        }),
{
    let c = pow2((-exponent(mag)) as nat);
    lemma_pow2_pos((-exponent(mag)) as nat);
    let n = 2 * significand(mag) + c;
    lemma_fundamental_div_mod(n as int, (2 * c) as int);
    let r = round_of(mag);
    assert(r * (2 * c) <= n < (r + 1) * (2 * c)) by (nonlinear_arith)
        requires
            n == (2 * c) * r + n % (2 * c),
            0 <= n % (2 * c) < 2 * c,
    ;
}

/// Rounding a small magnitude to an integer keeps order, and so does cutting it.
proof fn lemma_small_integers_keep_order(x: nat, y: nat)
    requires
        x <= y,
        exponent(y) < 0,
    ensures
        round_of(x) <= round_of(y),
        floor_of(x) <= floor_of(y),
{
    lemma2_to64();
    lemma_single_patterns_are_ordered(x, y);
    let (m, e) = (significand(x), exponent(x));
    let (n, f) = (significand(y), exponent(y));
    let (c, d) = (pow2((-e) as nat), pow2((-f) as nat));
    lemma_round_brackets(x);
    lemma_round_brackets(y);
    lemma_pow2_adds((-f) as nat, (f - e) as nat);
    assert(c == d * up(f - e));
    assert(m * d <= n * c) by (nonlinear_arith)
        requires
            m <= n * up(f - e),
            c == d * up(f - e),
            d >= 0,
    ;
    lemma_nearest_integers_keep_order(
        m as int,
        c as int,
        n as int,
        d as int,
        round_of(x) as int,
        round_of(y) as int,
    );
    lemma_fundamental_div_mod(m as int, c as int);
    lemma_fundamental_div_mod(n as int, d as int);
    let (w, v) = (floor_of(x) as int, floor_of(y) as int);
    assert(w < v + 1) by (nonlinear_arith)
        requires
            m == c * w + m % c,
            m % c >= 0,
            m * d <= n * c,
            n == d * v + n % d,
            n % d < d,
            c >= 1,
            d >= 1,
    {
        assert(c * w <= m);
        assert(n < d * (v + 1));
    }
}

/// A number below one, times a small integer, has digits behind the point.
pub proof fn lemma_times_is_small(mag: nat, k: nat)
    requires
        mag < ONE,
        k < 128,
    ensures
        exponent(times(mag, k)) <= -16,
{
    lemma2_to64();
    let n = significand(mag) * k;
    assert(significand(mag) < 0x100_0000);
    assert(exponent(mag) <= -24);
    assert(0 <= n <= 0xff_ffff * 127) by (nonlinear_arith)
        requires
            n == significand(mag) * k,
            0 <= significand(mag) <= 0xff_ffff,
            0 <= k <= 127,
    ;
    if n > 0 {
        lemma_bit_length_bound(n, 31);
        lemma_nearest_exponent(n, exponent(mag));
    }
}

/// A number below 128 plus one has digits behind the point.
pub proof fn lemma_one_plus_is_small(mag: nat)
    requires
        exponent(mag) <= -16,
    ensures
        exponent(one_plus(mag)) < 0,
{
    lemma2_to64();
    let k = (-exponent(mag)) as nat;
    let n = pow2(k) + significand(mag);
    assert(significand(mag) < 0x100_0000);
    lemma_pow2_pos(k);
    lemma_pow2_adds(k, 9);
    if k > 16 {
        lemma_pow2_strictly_increases(16, k);
    }
    lemma_bit_length_bound(n, k + 9);
    lemma_nearest_exponent(n, exponent(mag));
}

/// The pad follows the hand: further to the right is no lower in pitch or chance, further
/// up is no less dense; and a higher level is no softer.
pub proof fn law_pads_and_levels_keep_order(x: u32, y: u32, top: nat)
    requires
        x <= y <= INFINITY,
        0 < top < 128,
    ensures
        degree_of(x, top) <= degree_of(y, top),
        density_of(x, top) <= density_of(y, top),
        data_byte(x) <= data_byte(y),
{
    if y < ONE {
        let (a, b) = (times(x as nat, top), times(y as nat, top));
        lemma_times_keeps_order(x as nat, y as nat, top);
        lemma_times_is_small(y as nat, top);
        lemma_small_integers_keep_order(a, b);
        lemma_one_plus_keeps_order(a, b);
        lemma_one_plus_is_small(b);
        lemma_small_integers_keep_order(one_plus(a), one_plus(b));
        lemma_times_keeps_order(x as nat, y as nat, 127);
        lemma_times_is_small(y as nat, 127);
        lemma_small_integers_keep_order(times(x as nat, 127), times(y as nat, 127));
    }
}

/// The edges of the pad reach the ends of the ranges, and so do silence and full level.
pub proof fn law_pads_and_levels_span_their_ranges(top: nat)
    requires
        0 < top < 128,
    ensures
        degree_of(0, top) == 0,
        degree_of(ONE, top) == top,
        density_of(0, top) == 1,
        density_of(ONE, top) == top + 1,
        data_byte(0) == 0,
        data_byte(ONE) == 127,
{
    lemma2_to64();
    lemma_pow2_pos(149);
    let d = pow2(149) as int;
    assert(significand(0) == 0 && exponent(0) == -149);
    assert(times(0, top) == 0 && times(0, 127) == 0);
    lemma_fundamental_div_mod_converse(d, 2 * d, 0, d);
    lemma_fundamental_div_mod_converse(0, d, 0, 0);
    lemma_one_plus_little(0);
}

} // verus!
