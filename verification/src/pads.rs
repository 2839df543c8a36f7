//! Pads and levels: how far a degree, a density or a data byte lies from the position or the
//! level that it is made of.

use crate::double::{meaning, size, up, Number};
use crate::order::lemma_times_is_small;
use crate::rounding::{lemma_bit_length_bound, lemma_round_even};
use crate::single::{
    data_byte, degree_of, density_of, double_as_single, double_exponent, double_significand,
    exponent, floor_of, int_as_single, lemma_nearest_exponent, lemma_rounded_bounds, nearest,
    one_plus, quantum, round_of, rounded, significand, times, INFINITY, ONE,
};
use vstd::arithmetic::div_mod::lemma_fundamental_div_mod;
use vstd::arithmetic::power2::{
    lemma2_to64, lemma2_to64_rest, lemma_pow2_adds, lemma_pow2_pos, lemma_pow2_strictly_increases,
    lemma_pow2_unfold, pow2,
};
use vstd::prelude::*;

verus! {

/// A rounded number, as significand and exponent, lies within half a unit of its last place,
/// and half a unit away only if the significand is even.
proof fn lemma_nearest_is_near(n: nat, e: int)
    requires
        nearest(n, e) < INFINITY,
    ensures
        ({
            let p = nearest(n, e);
            let (m, f) = (significand(p), exponent(p));
            let twice = 2 * (m * up(f - e) - n * up(e - f));
            &&& -up(f - e) <= twice <= up(f - e)
            &&& twice == up(f - e) || twice == -up(f - e) ==> m % 2 == 0
        }),
{
    lemma2_to64();
    let p = nearest(n, e);
    let (m, f) = (significand(p), exponent(p));
    if n == 0 {
        assert(m * up(f - e) == 0 && n * up(e - f) == 0) by (nonlinear_arith)
            requires
                m == 0,
                n == 0,
        ;
        if f > e {
            lemma_pow2_pos((f - e) as nat);
        }
    } else {
        lemma_rounded_bounds(n, e);
        let q = quantum(n, e);
        let r = rounded(n, e);
        assert(p == (q + 149) * 0x80_0000 + r);
        let twice = 2 * (r * up(q - e) - n * up(e - q));
        assert(-up(q - e) <= twice <= up(q - e) && (twice == up(q - e) || twice == -up(q - e)
            ==> r % 2 == 0)) by {
            if e >= q {
                assert(r * up(q - e) == r && up(e - q) == pow2((e - q) as nat)) by (nonlinear_arith)
                    requires
                        up(q - e) == 1,
                        up(e - q) == pow2((e - q) as nat),
                ;
            } else {
                let d = pow2((q - e) as nat);
                lemma_pow2_pos((q - e) as nat);
                lemma_round_even(n, d);
                assert(n * up(e - q) == n) by (nonlinear_arith)
                    requires
                        up(e - q) == 1,
                ;
                assert(2 * d * r == 2 * (r * up(q - e))) by (nonlinear_arith)
                    requires
                        d == up(q - e),
                ;
            }
        }
        if r == 0x100_0000 {
            assert(p == (q + 151) * 0x80_0000);
            assert(m == 0x80_0000 && f == q + 1);
            if e - q >= 1 {
                lemma_pow2_unfold((e - q) as nat);
                assert(up(e - q) == 2 * up(e - f));
                assert(n * up(e - q) == 2 * (n * up(e - f))) by (nonlinear_arith)
                    requires
                        up(e - q) == 2 * up(e - f),
                ;
                assert(up(q - e) == 1 && up(f - e) == 1);
                assert(r * up(q - e) == 0x100_0000 && m * up(f - e) == 0x80_0000);
            } else {
                lemma_pow2_unfold((f - e) as nat);
                lemma_pow2_pos((f - e) as nat);
                assert(up(f - e) == 2 * up(q - e));
                assert(r * up(q - e) == m * up(f - e)) by (nonlinear_arith)
                    requires
                        r == 0x100_0000,
                        m == 0x80_0000,
                        up(f - e) == 2 * up(q - e),
                ;
                assert(up(e - q) == 1 && up(e - f) == 1);
            }
        } else if r >= 0x80_0000 {
            assert(p / 0x80_0000 == (q + 150) as nat);
            assert(m == r && f == q);
        } else {
            assert(q == -149);
            assert(m == r && f == q);
        }
    }
}

/// The same against the unit of the number that was rounded, for results with at least
/// `b` digits behind the point.
proof fn lemma_nearest_error(n: nat, e: int, b: nat)
    requires
        nearest(n, e) < INFINITY,
        e < 0,
        exponent(nearest(n, e)) <= -(b as int),
        b > 0,
    ensures
        ({
            let p = nearest(n, e);
            let (m, f) = (significand(p), exponent(p));
            let (d, c) = (pow2((-e) as nat), pow2((-f) as nat));
            let slip = 2 * (m * d - n * c) * pow2(b);
            -(d * c) <= slip <= d * c
        }),
{
    lemma2_to64();
    lemma_nearest_is_near(n, e);
    let p = nearest(n, e);
    let (m, f) = (significand(p), exponent(p));
    let (d, c) = (pow2((-e) as nat), pow2((-f) as nat));
    lemma_pow2_pos((-e) as nat);
    lemma_pow2_pos((-f) as nat);
    lemma_pow2_pos(b);
    // c is a multiple of 2^b
    let h = pow2((-f - b) as nat);
    lemma_pow2_adds(b, (-f - b) as nat);
    lemma_pow2_pos((-f - b) as nat);
    assert(c == pow2(b) * h);
    if f >= e {
        let g = up(f - e);
        lemma_pow2_adds((-f) as nat, (f - e) as nat);
        assert(d == c * g);
        assert(n * up(e - f) == n) by (nonlinear_arith)
            requires
                up(e - f) == 1,
        ;
        let x = m * g - n;
        assert(2 * (m * d - n * c) * pow2(b) == 2 * x * c * pow2(b)) by (nonlinear_arith)
            requires
                d == c * g,
                x == m * g - n,
        ;
        assert(-(d * c) <= 2 * x * c * pow2(b) <= d * c) by (nonlinear_arith)
            requires
                -g <= 2 * x <= g,
                d == c * g,
                c == pow2(b) * h,
                h >= 1,
                pow2(b) >= 1,
                g >= 0,
        ;
    } else {
        let g = up(e - f);
        lemma_pow2_adds((-e) as nat, (e - f) as nat);
        assert(c == d * g);
        assert(m * up(f - e) == m) by (nonlinear_arith)
            requires
                up(f - e) == 1,
        ;
        assert(m == n * g);
        assert(m * d == n * c) by (nonlinear_arith)
            requires
                m == n * g,
                c == d * g,
        ;
        assert(2 * (m * d - n * c) * pow2(b) == 0) by (nonlinear_arith)
            requires
                m * d - n * c == 0,
        ;
        assert(d * c >= 0) by (nonlinear_arith)
            requires
                d >= 0,
                c >= 0,
        ;
    }
}

/// What a number rounds to, rounded to single precision before, lies half and a little away
/// from it.
proof fn lemma_round_error(n: nat, e: int, b: nat)
    requires
        nearest(n, e) < INFINITY,
        e < 0,
        exponent(nearest(n, e)) <= -(b as int),
        b > 0,
    ensures
        ({
            let d = pow2((-e) as nat);
            let r = round_of(nearest(n, e));
            -(d * (pow2(b) + 1)) <= 2 * (r * d - n) * pow2(b) <= d * (pow2(b) + 1)
        }),
{
    lemma_nearest_error(n, e, b);
    let p = nearest(n, e);
    let (m, f) = (significand(p), exponent(p));
    let (d, c) = (pow2((-e) as nat), pow2((-f) as nat));
    lemma_pow2_pos((-e) as nat);
    crate::order::lemma_round_brackets(p);
    let r = round_of(p);
    let pb = pow2(b) as int;
    lemma_pow2_pos(b);
    lemma_combine(r as int, m as int, n as int, c as int, d as int, pb);
}

proof fn lemma_combine(r: int, m: int, n: int, c: int, d: int, pb: int)
    requires
        c >= 1,
        d >= 1,
        pb >= 1,
        r * (2 * c) <= 2 * m + c < (r + 1) * (2 * c),
        -(d * c) <= 2 * (m * d - n * c) * pb <= d * c,
    ensures
        -(d * (pb + 1)) <= 2 * (r * d - n) * pb <= d * (pb + 1),
{
    let y = 2 * (m * d - n * c) * pb;
    // 2 (r d - n) c pb = 2 (r c - m) d pb + y
    let z = 2 * (r * c - m);
    assert(-c <= z <= c) by (nonlinear_arith)
        requires
            r * (2 * c) <= 2 * m + c < (r + 1) * (2 * c),
            z == 2 * (r * c - m),
    ;
    let x = 2 * (r * d - n) * pb;
    let (p, q, s) = (((r * d) * pb) * c, (n * pb) * c, (m * d) * pb);
    assert(x * c == 2 * p - 2 * q) by (nonlinear_arith)
        requires
            x == 2 * (r * d - n) * pb,
            p == ((r * d) * pb) * c,
            q == (n * pb) * c,
    ;
    assert(z * (d * pb) == 2 * p - 2 * s) by (nonlinear_arith)
        requires
            z == 2 * (r * c - m),
            p == ((r * d) * pb) * c,
            s == (m * d) * pb,
    ;
    assert(y == 2 * s - 2 * q) by (nonlinear_arith)
        requires
            y == 2 * (m * d - n * c) * pb,
            s == (m * d) * pb,
            q == (n * pb) * c,
    ;
    let w = d * pb;
    assert(w >= 1) by (nonlinear_arith)
        requires
            w == d * pb,
            d >= 1,
            pb >= 1,
    ;
    assert(-(c * w) <= z * w <= c * w) by (nonlinear_arith)
        requires
            -c <= z <= c,
            w >= 1,
    ;
    assert(x <= w + d) by (nonlinear_arith)
        requires
            x * c <= c * w + d * c,
            c >= 1,
    ;
    assert(x >= -(w + d)) by (nonlinear_arith)
        requires
            x * c >= -(c * w) - d * c,
            c >= 1,
    ;
    assert(d * (pb + 1) == w + d) by (nonlinear_arith)
        requires
            w == d * pb,
    ;
}

/// The degree under a position below the right edge lies within half a degree of the
/// position's share of the range, but for one part in 2^17.
pub proof fn law_degrees_lie_under_the_hand(x: u32, top: nat)
    requires
        x < ONE,
        0 < top < 128,
    ensures
        ({
            let (m, d) = (significand(x as nat), pow2((-exponent(x as nat)) as nat));
            let r = degree_of(x, top);
            -(d * 0x1_0001) <= 2 * (r * d - top * m) * 0x1_0000 <= d * 0x1_0001
        }),
{
    lemma2_to64();
    lemma_times_is_small(x as nat, top);
    let (m, e) = (significand(x as nat), exponent(x as nat));
    let n = m * top;
    let d = pow2((-e) as nat);
    lemma_pow2_pos((-e) as nat);
    let p = times(x as nat, top);
    lemma_finite(p);
    lemma_round_error(n, e, 16);
    assert(top * m == n) by (nonlinear_arith)
        requires
            n == m * top,
    ;
    let r = round_of(p);
    lemma_below_one(x);
    assert(top * m <= top * d) by (nonlinear_arith)
        requires
            m <= d,
            top >= 0,
    ;
    if r > top {
        assert(top * d <= r * d) by (nonlinear_arith)
            requires
                top <= r,
                d >= 0,
        ;
        assert(0 <= 2 * (top * d - top * m) * 0x1_0000 <= 2 * (r * d - n) * 0x1_0000);
    }
}

proof fn lemma_finite(p: nat)
    requires
        exponent(p) <= -14,
    ensures
        p < INFINITY,
{
}

/// A number below one.
proof fn lemma_below_one(x: u32)
    requires
        x < ONE,
    ensures
        significand(x as nat) <= pow2((-exponent(x as nat)) as nat),
        exponent(x as nat) <= -24,
{
    lemma2_to64();
    let k = (-exponent(x as nat)) as nat;
    if k > 24 {
        lemma_pow2_strictly_increases(24, k);
    }
}

/// The data byte of a level below full lies next below 127 times the level, but for one part
/// in 2^17.
pub proof fn law_data_bytes_lie_under_the_level(x: u32)
    requires
        x < ONE,
    ensures
        ({
            let (m, d) = (significand(x as nat), pow2((-exponent(x as nat)) as nat));
            let w = data_byte(x);
            &&& (w * d - 127 * m) * 0x2_0000 <= d
            &&& (127 * m - (w + 1) * d) * 0x2_0000 <= d
        }),
{
    lemma2_to64();
    lemma_times_is_small(x as nat, 127);
    let (m, e) = (significand(x as nat), exponent(x as nat));
    let n = m * 127;
    let d = pow2((-e) as nat);
    lemma_pow2_pos((-e) as nat);
    let p = times(x as nat, 127);
    lemma_finite(p);
    lemma_nearest_error(n, e, 16);
    lemma_below_one(x);
    let (s, f) = (significand(p), exponent(p));
    let c = pow2((-f) as nat);
    lemma_pow2_pos((-f) as nat);
    lemma_fundamental_div_mod(s as int, c as int);
    let w = floor_of(p) as int;
    let y = 2 * (s * d - n * c) * 0x1_0000;
    assert((w * d - n) * 0x2_0000 <= d) by (nonlinear_arith)
        requires
            s == c * w + s % c,
            s % c >= 0,
            c >= 1,
            d >= 1,
            2 * (s * d - n * c) * 0x1_0000 <= d * c,
    {
        assert(c * w * d <= s * d);
        assert((w * d - n) * c * 0x2_0000 <= d * c);
    }
    assert((n - (w + 1) * d) * 0x2_0000 <= d) by (nonlinear_arith)
        requires
            s == c * w + s % c,
            s % c < c,
            c >= 1,
            d >= 1,
            2 * (s * d - n * c) * 0x1_0000 >= -(d * c),
    {
        assert(s * d <= c * (w + 1) * d);
        assert((n - (w + 1) * d) * c * 0x2_0000 <= d * c);
    }
    if w > 127 {
        assert(128 * d <= w * d) by (nonlinear_arith)
            requires
                128 <= w,
                d >= 0,
        ;
    }
}

/// A number below 128 plus one has at least fourteen digits behind the point.
proof fn lemma_one_plus_exponent(mag: nat)
    requires
        exponent(mag) <= -16,
    ensures
        exponent(one_plus(mag)) <= -14,
        one_plus(mag) < INFINITY,
{
    lemma2_to64();
    let k = (-exponent(mag)) as nat;
    let n = pow2(k) + significand(mag);
    assert(significand(mag) < 0x100_0000);
    lemma_pow2_pos(k);
    lemma_pow2_adds(k, 9);
    if k > 16 {
        lemma_pow2_strictly_increases(16, k);
    }
    lemma_bit_length_bound(n, k + 9);
    lemma_nearest_exponent(n, exponent(mag));
}

/// The density under a position below the upper edge lies within half an onset of one more
/// than the position's share of the range, but for five parts in 2^17.
pub proof fn law_densities_lie_under_the_hand(y: u32, top: nat)
    requires
        y < ONE,
        0 < top < 128,
    ensures
        ({
            let (m, d) = (significand(y as nat), pow2((-exponent(y as nat)) as nat));
            let r = density_of(y, top);
            -(d * 0x1_0005) <= 2 * (r * d - d - top * m) * 0x1_0000 <= d * 0x1_0005
        }),
{
    lemma2_to64();
    lemma_times_is_small(y as nat, top);
    let (m, e) = (significand(y as nat), exponent(y as nat));
    let n = m * top;
    let d = pow2((-e) as nat);
    lemma_pow2_pos((-e) as nat);
    let p = times(y as nat, top);
    lemma_finite(p);
    lemma_nearest_error(n, e, 16);
    lemma_below_one(y);
    let (s, f) = (significand(p), exponent(p));
    let c = pow2((-f) as nat);
    lemma_pow2_pos((-f) as nat);
    lemma_one_plus_exponent(p);
    lemma_round_error(c + s, f, 14);
    let r = round_of(one_plus(p)) as int;
    let a = 2 * (r * c - (c + s)) * 0x4000;
    let b = 2 * (s * d - n * c) * 0x1_0000;
    let x = 2 * (r * d - d - n) * 0x1_0000;
    let (rcd, cd, sd, nc) = ((r * c) * d, c * d, s * d, n * c);
    assert(a * d == 0x8000 * (rcd - cd - sd)) by (nonlinear_arith)
        requires
            a == 2 * (r * c - (c + s)) * 0x4000,
            rcd == (r * c) * d,
            cd == c * d,
            sd == s * d,
    ;
    assert(x * c == 0x2_0000 * (rcd - cd - nc)) by (nonlinear_arith)
        requires
            x == 2 * (r * d - d - n) * 0x1_0000,
            rcd == (r * c) * d,
            cd == c * d,
            nc == n * c,
    ;
    assert(-(cd * 0x4001) <= a * d <= cd * 0x4001) by (nonlinear_arith)
        requires
            -(c * 0x4001) <= a <= c * 0x4001,
            cd == c * d,
            d >= 1,
    ;
    assert(d * c == cd) by (nonlinear_arith)
        requires
            cd == c * d,
    ;
    assert(-(d * 0x1_0005) <= x <= d * 0x1_0005) by (nonlinear_arith)
        requires
            -(cd * 0x1_0005) <= x * c <= cd * 0x1_0005,
            cd == c * d,
            c >= 1,
    ;
    assert(top * m == n) by (nonlinear_arith)
        requires
            n == m * top,
    ;
    assert(top * m <= top * d) by (nonlinear_arith)
        requires
            m <= d,
            top >= 0,
    ;
    if r > top + 1 {
        assert(top * d + d <= r * d) by (nonlinear_arith)
            requires
                top + 1 <= r,
                d >= 0,
        ;
        assert((top + 1) * d == top * d + d) by (nonlinear_arith);
    }
}

/// Past the edges a pad stays at the ends of its ranges, and a level at silence or full
/// level; what is no number counts for nothing.
pub proof fn law_pads_and_levels_end_at_the_edges(x: u32, top: nat)
    requires
        0 < top < 128,
    ensures
        ONE <= x <= INFINITY ==> {
            &&& degree_of(x, top) == top
            &&& density_of(x, top) == top + 1
            &&& data_byte(x) == 127
        },
        0x8000_0000 <= x <= 0xff80_0000 ==> {
            &&& degree_of(x, top) == 0
            &&& density_of(x, top) == 1
            &&& data_byte(x) == 0
        },
        INFINITY < x < 0x8000_0000 || 0xff80_0000 < x ==> {
            &&& degree_of(x, top) == 0
            &&& density_of(x, top) == 0
            &&& data_byte(x) == 0
        },
{
}

/// An integer in single precision lies within half a unit of the single's last place, half a
/// unit away only if that place is even, and has its sign.
pub proof fn law_integers_lie_next_to_their_single(i: i32)
    ensures
        ({
            let n: int = if i < 0 {
                -i
            } else {
                i as int
            };
            let mag = if i < 0 {
                int_as_single(i) - 0x8000_0000
            } else {
                int_as_single(i) as int
            };
            let (m, f) = (significand(mag as nat), exponent(mag as nat));
            let twice = 2 * (m * up(f) - n * up(-f));
            &&& 0 <= mag < INFINITY
            &&& -up(f) <= twice <= up(f)
            &&& twice == up(f) || twice == -up(f) ==> m % 2 == 0
        }),
{
    let n: nat = if i < 0 {
        (-i) as nat
    } else {
        i as nat
    };
    lemma2_to64();
    if n > 0 {
        lemma_bit_length_bound(n, 32);
        lemma_nearest_exponent(n, 0);
        lemma_rounded_bounds(n, 0);
    }
    lemma_nearest_is_near(n, 0);
}

/// A double that is narrowed lies within half a unit of the single's last place, half a unit
/// away only if that place is even, and keeps its sign. Every one below 2^127 can be narrowed; infinities and what is no number cannot.
pub proof fn law_doubles_lie_next_to_their_single(bits: u64)
    ensures
        double_as_single(bits) is Some ==> meaning(bits) is Finite,
        meaning(bits) is Finite && size(bits) < 0x47e0_0000_0000_0000 ==> double_as_single(
            bits,
        ) is Some,
        double_as_single(bits) matches Some(b) ==> {
            let (neg, n, e) = (meaning(bits)->Finite_0, meaning(bits)->1, meaning(bits)->2);
            let mag = if neg {
                b - 0x8000_0000
            } else {
                b as int
            };
            let (m, f) = (significand(mag as nat), exponent(mag as nat));
            let twice = 2 * (m * up(f - e) - n * up(e - f));
            &&& 0 <= mag < INFINITY
            &&& -up(f - e) <= twice <= up(f - e)
            &&& twice == up(f - e) || twice == -up(f - e) ==> m % 2 == 0
        },
{
    let mag = (bits as nat) % 0x8000_0000_0000_0000;
    let (n, e) = (double_significand(mag), double_exponent(mag));
    assert(mag == size(bits));
    if mag < 0x7ff0_0000_0000_0000 {
        assert(meaning(bits) == Number::Finite(bits >= 0x8000_0000_0000_0000, n as u64, e as i32));
        if nearest(n, e) < INFINITY {
            lemma_nearest_is_near(n, e);
        }
        if mag < 0x47e0_0000_0000_0000 && n > 0 {
            lemma2_to64_rest();
            lemma_bit_length_bound(n, 53);
            lemma_rounded_bounds(n, e);
        }
    }
}

/// A position is rounded to the integer that is at most half below or less than half above:
/// halves go up.
pub proof fn law_halves_go_up(mag: nat)
    requires
        exponent(mag) < 0,
    ensures
        ({
            let (m, d) = (significand(mag), pow2((-exponent(mag)) as nat));
            let r = round_of(mag);
            2 * (r * d) - d <= 2 * m < 2 * (r * d) + d
        }),
{
    crate::order::lemma_round_brackets(mag);
    let (m, d) = (significand(mag), pow2((-exponent(mag)) as nat));
    let r = round_of(mag);
    assert(r * (2 * d) == 2 * (r * d) && (r + 1) * (2 * d) == 2 * (r * d) + 2 * d) by (nonlinear_arith);
}

} // verus!
