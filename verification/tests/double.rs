use trafalgar::double::{
    add_near, divide, double_from_int, floor_to_int, multiply, round_to_int, truncate_to_int, widen,
};

/// Doubles of every kind: special ones, whole and broken ones, huge and tiny ones.
fn doubles() -> Vec<f64> {
    let mut v = vec![
        0.0,
        -0.0,
        1.0,
        -1.0,
        0.5,
        -0.5,
        1.5,
        -1.5,
        2.5,
        -2.5,
        0.49999999999999994,
        4503599627370497.5,
        9007199254740993.0,
        9.223372036854775e18,
        9.223372036854776e18,
        -9.223372036854776e18,
        1.0e300,
        -1.0e300,
        f64::MAX,
        f64::MIN_POSITIVE,
        5e-324,
        -5e-324,
        2.2e-308,
        1e-310,
        f64::INFINITY,
        f64::NEG_INFINITY,
        f64::NAN,
        60.0,
        120.0,
        5512.5,
        44100.0,
        std::f64::consts::PI,
    ];
    // a walk over patterns that shares no period with the exponent field
    let mut b: u64 = 0x0123_4567_89ab_cdef;
    for _ in 0..120 {
        b = b.wrapping_mul(6364136223846793005).wrapping_add(1442695040888963407);
        v.push(f64::from_bits(b));
        // the same digits near 1
        v.push(f64::from_bits(b & 0x000f_ffff_ffff_ffff | 0x3ff0_0000_0000_0000));
    }
    v
}

/// Equal patterns, or no number on both sides.
fn same(got: u64, want: f64) -> bool {
    if want.is_nan() {
        f64::from_bits(got).is_nan()
    } else {
        got == want.to_bits()
    }
}

#[test]
fn products_and_quotients_agree_with_the_hardware() {
    for a in doubles() {
        for b in doubles() {
            assert!(same(multiply(a.to_bits(), b.to_bits()), a * b), "{a} * {b}");
            assert!(same(divide(a.to_bits(), b.to_bits()), a / b), "{a} / {b}");
        }
    }
}

#[test]
fn integers_agree_with_the_hardware() {
    for x in doubles() {
        for d in [x, x * 1e-290, x * 1e15] {
            assert_eq!(floor_to_int(d.to_bits()), d.floor() as i64, "floor of {d}");
            assert_eq!(truncate_to_int(d.to_bits()), d as i64, "integer part of {d}");
            assert_eq!(round_to_int(d.to_bits()), d.round() as i64, "{d} rounded");
        }
    }
    let mut i: i64 = 1;
    for _ in 0..2000 {
        i = i.wrapping_mul(6364136223846793005).wrapping_add(1442695040888963407);
        for n in [i, i >> 10, i >> 40, -(i >> 1)] {
            assert_eq!(double_from_int(n), (n as f64).to_bits(), "{n}");
        }
    }
    assert_eq!(double_from_int(i64::MIN), (i64::MIN as f64).to_bits());
    assert_eq!(double_from_int(i64::MAX), (i64::MAX as f64).to_bits());
    assert_eq!(double_from_int(0), 0);
}

#[test]
fn sums_agree_with_the_hardware() {
    let lengths = [0.05f32, 0.07, 0.1, 0.25, 0.333, 0.5, 0.75, 0.99, 1.0];
    for len in lengths {
        let mut i: i64 = 7;
        for _ in 0..500 {
            i = i.wrapping_mul(6364136223846793005).wrapping_add(1442695040888963407);
            for n in [0, 1, -1, 15, -16, i, i >> 5, i >> 11, i >> 13, i >> 40, i >> 55, i64::MAX, i64::MIN] {
                let want = n as f64 + len as f64;
                assert_eq!(add_near(double_from_int(n), widen(len.to_bits())), want.to_bits(), "{n} + {len}");
            }
        }
    }
    assert_eq!(add_near(1.0f64.to_bits(), (-1.0f64).to_bits()), 0.0f64.to_bits());
    assert_eq!(add_near((-0.0f64).to_bits(), (-0.0f64).to_bits()), (-0.0f64).to_bits());
}

#[test]
fn singles_widen_as_on_the_hardware() {
    let mut b: u32 = 0;
    for _ in 0..100_000 {
        b = b.wrapping_mul(1664525).wrapping_add(1013904223);
        for bits in [b, b & 0x807f_ffff, b | 0x7f00_0000] {
            assert!(same(widen(bits), f32::from_bits(bits) as f64), "{bits:x}");
        }
    }
}
