//! Euclidean rhythms: `pulses` onsets spread as evenly as possible over `steps`.

use vstd::arithmetic::div_mod::{
    lemma_fundamental_div_mod, lemma_fundamental_div_mod_converse, lemma_mod_bound,
    lemma_mod_multiples_vanish, lemma_mul_mod_noop_left, lemma_small_mod,
};
use vstd::prelude::*;

verus! {

/// The number of onsets in a pattern: never more than there are steps.
pub open spec fn capped(pulses: nat, steps: nat) -> nat {
    if pulses <= steps {
        pulses
    } else {
        steps
    }
}

/// Whether step `i` of the unrotated pattern, continued in both directions, is an onset.
pub open spec fn onset(pulses: nat, steps: nat, i: int) -> bool {
    (i * capped(pulses, steps)) % (steps as int) < capped(pulses, steps)
}

/// The pattern of `pulses` onsets over `steps` steps, with an onset on step 0.
pub open spec fn pattern(pulses: nat, steps: nat) -> Seq<bool> {
    Seq::new(steps, |i: int| onset(pulses, steps, i))
}

/// `pattern` rotated right by `rot` steps.
pub open spec fn rotated_pattern(pulses: nat, steps: nat, rot: nat) -> Seq<bool> {
    Seq::new(steps, |i: int| pattern(pulses, steps)[(i - rot) % (steps as int)])
}

/// The number of onsets in a stretch of a pattern.
pub open spec fn count_onsets(s: Seq<bool>) -> nat
    decreases s.len(),
{
    if s.len() == 0 {
        0
    } else {
        count_onsets(s.drop_last()) + if s.last() {
            1nat
        } else {
            0nat
        }
    }
}

/// Bjorklund (Bresenham form): `pulses` onsets spread evenly over `steps`, onset on
/// step 0. The products that place the onsets have to fit in a `usize`.
pub fn euclid(pulses: usize, steps: usize) -> (r: Vec<bool>)
    requires
        steps > 0 ==> (steps - 1) * capped(pulses as nat, steps as nat) <= usize::MAX,
    ensures
        r@ == pattern(pulses as nat, steps as nat),
{
    let mut r: Vec<bool> = Vec::new();
    if steps == 0 {
        return r;
    }
    let p: usize = if pulses < steps {
        pulses
    } else {
        steps
    };
    let mut i: usize = 0;
    while i < steps
        invariant
            i <= steps,
            0 < steps,
            p == capped(pulses as nat, steps as nat),
            (steps - 1) * p <= usize::MAX,
            r@.len() == i,
            forall|j: int| 0 <= j < i ==> r@[j] == onset(pulses as nat, steps as nat, j),
        decreases steps - i,
    {
        assert(0 <= i * p <= (steps - 1) * p) by (nonlinear_arith)
            requires
                0 <= i <= steps - 1,
                0 <= p,
        ;
        r.push((i * p) % steps < p);
        i += 1;
    }
    r
}

/// Euclidean pattern rotated right by `rot` steps (`rot` 0: onset on step 0).
pub fn rotated(pulses: usize, steps: usize, rot: usize) -> (r: Vec<bool>)
    requires
        steps > 0 ==> (steps - 1) * capped(pulses as nat, steps as nat) <= usize::MAX,
        2 * steps - 1 <= usize::MAX,
    ensures
        r@ == rotated_pattern(pulses as nat, steps as nat, rot as nat),
{
    let mut r: Vec<bool> = Vec::new();
    if steps == 0 {
        return r;
    }
    let base = euclid(pulses, steps);
    let shift: usize = rot % steps;
    let mut i: usize = 0;
    while i < steps
        invariant
            i <= steps,
            0 < steps,
            2 * steps - 1 <= usize::MAX,
            shift == rot % steps,
            base@ == pattern(pulses as nat, steps as nat),
            r@.len() == i,
            forall|j: int|
                0 <= j < i ==> r@[j] == rotated_pattern(
                    pulses as nat,
                    steps as nat,
                    rot as nat,
                )[j],
        decreases steps - i,
    {
        proof {
            lemma_rotation_index(i as int, steps as int, rot as int);
        }
        r.push(base[(i + steps - shift) % steps]);
        i += 1;
    }
    r
}

proof fn lemma_rotation_index(i: int, steps: int, rot: int)
    requires
        0 < steps,
        0 <= rot,
    ensures
        (i + steps - rot % steps) % steps == (i - rot) % steps,
{
    lemma_fundamental_div_mod(rot, steps);
    let k = rot / steps;
    assert(i + steps - rot % steps == steps * (k + 1) + (i - rot)) by (nonlinear_arith)
        requires
            rot == steps * k + rot % steps,
    ;
    lemma_mod_multiples_vanish(k + 1, i - rot, steps);
}

/// How many onsets there are before the end of step `j`, counted from an origin.
spec fn onsets_until(pulses: nat, steps: nat, j: int) -> int {
    (j * capped(pulses, steps)) / (steps as int)
}

/// An onset is where the running count of onsets goes up, and it goes up by one.
proof fn lemma_onset_is_increment(pulses: nat, steps: nat, j: int)
    requires
        0 < steps,
    ensures
        onsets_until(pulses, steps, j) - onsets_until(pulses, steps, j - 1) == if onset(
            pulses,
            steps,
            j,
        ) {
            1int
        } else {
            0int
        },
{
    let p = capped(pulses, steps) as int;
    let s = steps as int;
    let a = j * p;
    let q = a / s;
    let r = a % s;
    lemma_fundamental_div_mod(a, s);
    lemma_mod_bound(a, s);
    assert((j - 1) * p == a - p) by (nonlinear_arith)
        requires
            a == j * p,
    ;
    if r < p {
        assert(a - p == (q - 1) * s + (s + r - p)) by (nonlinear_arith)
            requires
                a == s * q + r,
        ;
        lemma_fundamental_div_mod_converse(a - p, s, q - 1, s + r - p);
    } else {
        assert(a - p == q * s + (r - p)) by (nonlinear_arith)
            requires
                a == s * q + r,
        ;
        lemma_fundamental_div_mod_converse(a - p, s, q, r - p);
    }
}

/// What stands on step `i` of a rotated pattern.
proof fn lemma_rotated_step(pulses: nat, steps: nat, rot: nat, i: int)
    requires
        0 <= i < steps,
    ensures
        rotated_pattern(pulses, steps, rot)[i] == onset(pulses, steps, i - rot),
{
    let p = capped(pulses, steps) as int;
    let s = steps as int;
    lemma_mod_bound(i - rot, s);
    lemma_mul_mod_noop_left(i - rot, p, s);
}

/// The onsets of a stretch of a rotated pattern, from the running count.
proof fn lemma_count_window(pulses: nat, steps: nat, rot: nat, from: int, to: int)
    requires
        0 <= from <= to <= steps,
        0 < steps,
    ensures
        count_onsets(rotated_pattern(pulses, steps, rot).subrange(from, to)) == onsets_until(
            pulses,
            steps,
            to - 1 - rot,
        ) - onsets_until(pulses, steps, from - 1 - rot),
    decreases to - from,
{
    let whole = rotated_pattern(pulses, steps, rot);
    if from < to {
        lemma_count_window(pulses, steps, rot, from, to - 1);
        assert(whole.subrange(from, to).drop_last() =~= whole.subrange(from, to - 1));
        lemma_rotated_step(pulses, steps, rot, to - 1);
        lemma_onset_is_increment(pulses, steps, to - 1 - rot);
    }
}

/// A pattern rotated by 0 is the pattern.
pub proof fn law_rotation_by_zero(pulses: nat, steps: nat)
    ensures
        rotated_pattern(pulses, steps, 0) == pattern(pulses, steps),
{
    assert forall|i: int| 0 <= i < steps implies rotated_pattern(pulses, steps, 0)[i] == pattern(
        pulses,
        steps,
    )[i] by {
        lemma_small_mod(i as nat, steps);
    }
    assert(rotated_pattern(pulses, steps, 0) =~= pattern(pulses, steps));
}

/// Rotation moves every step of the pattern right by `rot`, round the end.
pub proof fn law_rotation_moves_steps(pulses: nat, steps: nat, rot: nat, i: int)
    requires
        0 <= i < steps,
    ensures
        rotated_pattern(pulses, steps, rot)[(i + rot) % (steps as int)] == pattern(
            pulses,
            steps,
        )[i],
{
    let s = steps as int;
    let j = (i + rot) % s;
    lemma_mod_bound(i + rot, s);
    lemma_fundamental_div_mod(i + rot, s);
    let k = (i + rot) / s;
    assert(j - rot == s * (-k) + i) by (nonlinear_arith)
        requires
            i + rot == s * k + j,
    ;
    lemma_mod_multiples_vanish(-k, i, s);
    lemma_small_mod(i as nat, steps);
}

/// Rotating by a whole turn more changes nothing.
pub proof fn law_rotation_has_period(pulses: nat, steps: nat, rot: nat)
    ensures
        rotated_pattern(pulses, steps, rot + steps) == rotated_pattern(pulses, steps, rot),
{
    assert forall|i: int| 0 <= i < steps implies rotated_pattern(pulses, steps, rot + steps)[i]
        == rotated_pattern(pulses, steps, rot)[i] by {
        assert(i - (rot + steps) == steps * (-1) + (i - rot));
        lemma_mod_multiples_vanish(-1, i - rot, steps as int);
    }
    assert(rotated_pattern(pulses, steps, rot + steps) =~= rotated_pattern(pulses, steps, rot));
}

/// With at least one pulse the unrotated pattern starts on the downbeat.
pub proof fn law_downbeat(pulses: nat, steps: nat)
    requires
        0 < steps,
    ensures
        pattern(pulses, steps)[0] == (pulses > 0),
{
    lemma_small_mod(0, steps);
}

/// A pattern holds exactly the pulses asked for, as far as there are steps for them,
/// however it is rotated.
pub proof fn law_onset_count(pulses: nat, steps: nat, rot: nat)
    ensures
        count_onsets(rotated_pattern(pulses, steps, rot)) == capped(pulses, steps),
{
    let whole = rotated_pattern(pulses, steps, rot);
    if steps > 0 {
        let p = capped(pulses, steps) as int;
        let s = steps as int;
        assert(whole.subrange(0, s) =~= whole);
        lemma_count_window(pulses, steps, rot, 0, s);
        let a = (-1 - rot) * p;
        assert((s - 1 - rot) * p == p * s + a) by (nonlinear_arith)
            requires
                a == (-1 - rot) * p,
        ;
        lemma_fundamental_div_mod(a, s);
        lemma_mod_bound(a, s);
        assert(p * s + a == (p + a / s) * s + a % s) by (nonlinear_arith)
            requires
                a == s * (a / s) + a % s,
        ;
        lemma_fundamental_div_mod_converse(p * s + a, s, p + a / s, a % s);
    }
}

/// The onsets lie evenly: any stretch of a pattern, rotated or not, holds its share of
/// the onsets to within less than one.
pub proof fn law_onsets_are_even(pulses: nat, steps: nat, rot: nat, from: int, to: int)
    requires
        0 <= from <= to <= steps,
        0 < steps,
    ensures
        ({
            let found = count_onsets(rotated_pattern(pulses, steps, rot).subrange(from, to));
            let share = (to - from) * capped(pulses, steps);
            -(steps as int) < found * steps - share < steps
        }),
{
    let p = capped(pulses, steps) as int;
    let s = steps as int;
    lemma_count_window(pulses, steps, rot, from, to);
    let a = (to - 1 - rot) * p;
    let b = (from - 1 - rot) * p;
    lemma_fundamental_div_mod(a, s);
    lemma_mod_bound(a, s);
    lemma_fundamental_div_mod(b, s);
    lemma_mod_bound(b, s);
    assert(a - b == (to - from) * p) by (nonlinear_arith)
        requires
            a == (to - 1 - rot) * p,
            b == (from - 1 - rot) * p,
    ;
    let found = a / s - b / s;
    assert(found * s - (a - b) == b % s - a % s) by (nonlinear_arith)
        requires
            a == s * (a / s) + a % s,
            b == s * (b / s) + b % s,
            found == a / s - b / s,
    ;
}

/// Whether the `k`-th of `onsets` onsets, dealt out over `steps` steps, falls on step `i`: on
/// the first step that is not before its share of the steps.
pub open spec fn falls_on(onsets: nat, steps: nat, k: int, i: int) -> bool {
    (i - 1) * onsets < k * steps <= i * onsets
}

/// A step is an onset if and only if one of the onsets falls on it; no more onsets are dealt
/// out than asked for, and no more than there are steps.
pub proof fn law_onsets_fall_on_their_shares(pulses: nat, steps: nat, onsets: nat, i: int)
    requires
        0 <= i < steps,
        onsets <= pulses,
        onsets <= steps,
        onsets == pulses || onsets == steps,
    ensures
        capped(pulses, steps) == onsets,
        pattern(pulses, steps).len() == steps,
        pattern(pulses, steps)[i] <==> exists|k: int|
            0 <= k < onsets && #[trigger] falls_on(onsets, steps, k, i),
{
    let p = capped(pulses, steps);
    let s = steps as int;
    let a = i * p;
    lemma_fundamental_div_mod(a, s);
    lemma_mod_bound(a, s);
    let q = a / s;
    assert((i - 1) * p == a - p) by (nonlinear_arith)
        requires
            a == i * p,
    ;
    assert(q * s == s * q) by (nonlinear_arith);
    assert(0 <= a && (p > 0 ==> a < p * s)) by (nonlinear_arith)
        requires
            a == i * p,
            0 <= i < s,
            p >= 0,
    ;
    if a % s < p {
        assert(0 <= q < p) by (nonlinear_arith)
            requires
                0 <= a < p * s,
                a == q * s + a % s,
                0 <= a % s < s,
        ;
        assert(falls_on(p, steps, q, i));
    }
    assert forall|k: int| 0 <= k < p && #[trigger] falls_on(p, steps, k, i) implies a % s < p by {
        assert(k == q) by (nonlinear_arith)
            requires
                a - p < k * s <= a,
                a == q * s + a % s,
                0 <= a % s < s,
                p <= s,
        ;
    }
}

} // verus!
