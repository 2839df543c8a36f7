//! The hit dice of percussive tracks.

use crate::scale::PITCH_RANGE;
use vstd::prelude::*;

verus! {

/// The generator's next state: one xorshift round.
pub open spec fn next_state(x: u64) -> u64 {
    let a = x ^ (x << 13);
    let b = a ^ (a >> 7);
    b ^ (b << 17)
}

/// The roll that a state shows: the 24 bits that make a number from 0 up to 1.
pub open spec fn roll_of(state: u64) -> u32 {
    (state / 0x100_0000_0000) as u32
}

/// Tiny xorshift: advances the state and returns a roll out of 2^24.
pub fn xorshift(state: &mut u64) -> (r: u32)
    ensures
        *final(state) == next_state(*old(state)),
        r == roll_of(*final(state)),
        r < 0x100_0000,
{
    let mut x: u64 = *state;
    x = x ^ (x << 13);
    x = x ^ (x >> 7);
    x = x ^ (x << 17);
    *state = x;
    (x / 0x100_0000_0000) as u32
}

/// Whether a roll hits at a pad position: the chance is `degree` in `PITCH_RANGE`.
pub open spec fn is_hit(roll: u32, degree: int) -> bool {
    PITCH_RANGE * roll < degree * 0x100_0000
}

/// Whether a roll hits at a pad position.
pub fn hits(roll: u32, degree: i32) -> (r: bool)
    ensures
        r == is_hit(roll, degree as int),
{
    let range: i64 = PITCH_RANGE as i64;
    assert(range == 15);
    range * (roll as i64) < degree as i64 * 0x100_0000
}

/// A generator that is not at zero never gets stuck there.
pub proof fn law_state_stays_alive(x: u64)
    requires
        x != 0,
    ensures
        next_state(x) != 0,
{
    assert(x != 0 ==> x ^ (x << 13) != 0) by (bit_vector);
    let a = x ^ (x << 13);
    assert(a != 0 ==> a ^ (a >> 7) != 0) by (bit_vector);
    let b = a ^ (a >> 7);
    assert(b != 0 ==> b ^ (b << 17) != 0) by (bit_vector);
}

/// No two states share a successor.
pub proof fn law_states_never_merge(x: u64, y: u64)
    requires
        next_state(x) == next_state(y),
    ensures
        x == y,
{
    let (a, c) = (x ^ (x << 13), y ^ (y << 13));
    let (b, d) = (a ^ (a >> 7), c ^ (c >> 7));
    assert(b ^ (b << 17) == d ^ (d << 17) ==> b == d) by (bit_vector);
    assert(a ^ (a >> 7) == c ^ (c >> 7) ==> a == c) by (bit_vector);
    assert(x ^ (x << 13) == y ^ (y << 13) ==> x == y) by (bit_vector);
}

/// At the left edge of the pad nothing hits, at the right edge everything does, and in
/// between moving right never loses a hit.
pub proof fn law_chance_follows_position(roll: u32, degree: int, further: int)
    requires
        roll < 0x100_0000,
        degree <= further,
    ensures
        !is_hit(roll, 0),
        is_hit(roll, PITCH_RANGE as int),
        is_hit(roll, degree) ==> is_hit(roll, further),
{
}

/// The state before a state: what each of the three shifts did, undone in turn.
pub open spec fn previous_state(x: u64) -> u64 {
    let b = x ^ (x << 17) ^ (x << 34) ^ (x << 51);
    let a = b ^ (b >> 7) ^ (b >> 14) ^ (b >> 21) ^ (b >> 28) ^ (b >> 35) ^ (b >> 42) ^ (b >> 49)
        ^ (b >> 56) ^ (b >> 63);
    a ^ (a << 13) ^ (a << 26) ^ (a << 39) ^ (a << 52)
}

/// The generator can be run back: every state is the one before its successor, and the
/// successor of the one before it.
pub proof fn law_the_generator_runs_back(x: u64)
    ensures
        previous_state(next_state(x)) == x,
        next_state(previous_state(x)) == x,
{
    let a = x ^ (x << 13);
    let b = a ^ (a >> 7);
    let y = b ^ (b << 17);
    assert(y == b ^ (b << 17) ==> y ^ (y << 17) ^ (y << 34) ^ (y << 51) == b) by (bit_vector);
    assert(b == a ^ (a >> 7) ==> b ^ (b >> 7) ^ (b >> 14) ^ (b >> 21) ^ (b >> 28) ^ (b >> 35) ^ (b
        >> 42) ^ (b >> 49) ^ (b >> 56) ^ (b >> 63) == a) by (bit_vector);
    assert(a == x ^ (x << 13) ==> a ^ (a << 13) ^ (a << 26) ^ (a << 39) ^ (a << 52) == x)
        by (bit_vector);
    let c = x ^ (x << 17) ^ (x << 34) ^ (x << 51);
    let d = c ^ (c >> 7) ^ (c >> 14) ^ (c >> 21) ^ (c >> 28) ^ (c >> 35) ^ (c >> 42) ^ (c >> 49)
        ^ (c >> 56) ^ (c >> 63);
    let w = d ^ (d << 13) ^ (d << 26) ^ (d << 39) ^ (d << 52);
    assert(c == x ^ (x << 17) ^ (x << 34) ^ (x << 51) ==> c ^ (c << 17) == x) by (bit_vector);
    assert(d == c ^ (c >> 7) ^ (c >> 14) ^ (c >> 21) ^ (c >> 28) ^ (c >> 35) ^ (c >> 42) ^ (c
        >> 49) ^ (c >> 56) ^ (c >> 63) ==> d ^ (d >> 7) == c) by (bit_vector);
    assert(w == d ^ (d << 13) ^ (d << 26) ^ (d << 39) ^ (d << 52) ==> w ^ (w << 13) == d)
        by (bit_vector);
}

/// A roll is the state's share of 2^24, cut to an integer.
pub proof fn law_rolls_are_shares(state: u64)
    ensures
        roll_of(state) * 0x100_0000_0000 <= state < (roll_of(state) + 1) * 0x100_0000_0000,
        roll_of(state) < 0x100_0000,
{
}

/// The chance of a hit is the degree's share of fifteen: out of the 2^24 rolls the lowest
/// ones hit, as many as make up the share, rounded up.
pub proof fn law_hits_are_the_lowest_rolls(degree: int, hitting: int)
    requires
        0 <= degree <= 15,
        15 * (hitting - 1) < degree * 0x100_0000 <= 15 * hitting,
    ensures
        0 <= hitting <= 0x100_0000,
        forall|roll: u32| #[trigger] is_hit(roll, degree) <==> roll < hitting,
{
}

} // verus!
