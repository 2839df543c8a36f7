//! Rounding to the nearest, ties to even, on which both number formats rest.

use vstd::arithmetic::div_mod::lemma_fundamental_div_mod;
use vstd::arithmetic::power2::{
    lemma2_to64, lemma_pow2_strictly_increases, lemma_pow2_unfold, pow2,
};
use vstd::prelude::*;

verus! {

/// `n / d` rounded to the nearest integer, ties to the even one.
pub open spec fn round_even(n: nat, d: nat) -> nat {
    let q = n / d;
    let r = n % d;
    if 2 * r < d || (2 * r == d && q % 2 == 0) {
        q
    } else {
        q + 1
    }
}

/// The number of binary digits of `n`.
pub open spec fn bit_length(n: nat) -> nat
    decreases n,
{
    if n == 0 {
        0
    } else {
        1 + bit_length(n / 2)
    }
}

/// A number lies between the powers of two that its length names.
pub proof fn lemma_bit_length(n: nat)
    requires
        n > 0,
    ensures
        bit_length(n) >= 1,
        pow2((bit_length(n) - 1) as nat) <= n < pow2(bit_length(n)),
    decreases n,
{
    lemma2_to64();
    if n > 1 {
        lemma_bit_length(n / 2);
        lemma_pow2_unfold(bit_length(n));
        lemma_pow2_unfold((bit_length(n) - 1) as nat);
    } else {
        assert(bit_length(1) == 1 + bit_length(0));
    }
}

/// A number below a power of two has no more digits than its exponent.
pub proof fn lemma_bit_length_bound(n: nat, k: nat)
    requires
        n < pow2(k),
    ensures
        bit_length(n) <= k,
{
    if n > 0 {
        lemma_bit_length(n);
        if bit_length(n) > k {
            if bit_length(n) - 1 > k {
                lemma_pow2_strictly_increases(k, (bit_length(n) - 1) as nat);
            }
        }
    }
}

/// Rounding moves a quotient by at most half, and by a half only to an even number.
pub proof fn lemma_round_even(n: nat, d: nat)
    requires
        d > 0,
    ensures
        2 * n - d <= 2 * d * round_even(n, d) <= 2 * n + d,
        round_even(n, d) <= n / d + 1,
        round_even(n, d) >= n / d,
        2 * d * round_even(n, d) == 2 * n - d || 2 * d * round_even(n, d) == 2 * n + d
            ==> round_even(n, d) % 2 == 0,
{
    lemma_fundamental_div_mod(n as int, d as int);
    let q = (n / d) as int;
    let r = (n % d) as int;
    assert(2 * d * q == 2 * n - 2 * r) by (nonlinear_arith)
        requires
            n == d * q + r,
    ;
    assert(2 * d * (q + 1) == 2 * n - 2 * r + 2 * d) by (nonlinear_arith)
        requires
            n == d * q + r,
    ;
}

} // verus!
