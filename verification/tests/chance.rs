use trafalgar::chance::{hits, xorshift};

#[test]
fn xorshift_in_unit_range() {
    let mut s = 1u64;
    for _ in 0..1000 {
        let v = xorshift(&mut s) as f32 / (1u64 << 24) as f32;
        assert!((0.0..1.0).contains(&v), "{v} out of range");
    }
}

#[test]
fn the_dice_are_those_of_a_xorshift() {
    let mut s = 1u64;
    assert_eq!(xorshift(&mut s), 0);
    assert_eq!(s, 0x4082_2041);
    let mut state = 0x9E37_79B9_7F4A_7C15u64;
    for _ in 0..1000 {
        let mut x = state;
        x ^= x << 13;
        x ^= x >> 7;
        x ^= x << 17;
        let roll = xorshift(&mut state);
        assert_eq!(state, x);
        assert_eq!(roll as u64, x >> 40);
        assert_ne!(state, 0);
    }
}

#[test]
fn different_states_stay_different() {
    let (mut a, mut b) = (5u64, 6u64);
    for _ in 0..1000 {
        xorshift(&mut a);
        xorshift(&mut b);
        assert_ne!(a, b);
    }
}

#[test]
fn hits_agree_with_a_comparison_of_singles() {
    for degree in 0..=15i32 {
        let prob = degree as f32 / 15.0;
        let edge = (degree as i64 * (1 << 24) / 15) as i64;
        let mut rolls = vec![0i64, 1, (1 << 24) - 1];
        for d in -3..=3 {
            rolls.push(edge + d);
        }
        let mut r = 0i64;
        while r < 1 << 24 {
            rolls.push(r);
            r += 4099;
        }
        for roll in rolls {
            if (0..1 << 24).contains(&roll) {
                let v = roll as f32 / (1u64 << 24) as f32;
                assert_eq!(hits(roll as u32, degree), v < prob, "{roll} at {degree}");
            }
        }
    }
}

#[test]
fn the_edges_of_the_pad_never_and_always_hit() {
    for roll in [0u32, 1, 12_345, (1 << 24) - 1] {
        assert!(!hits(roll, 0));
        assert!(hits(roll, 15));
    }
    // a third of the way along, a third of the rolls
    assert!(hits(5_592_405, 5));
    assert!(!hits(5_592_406, 5));
}
