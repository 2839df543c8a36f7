use trafalgar::single::{
    clamp_unit, from_double, from_int, is_finite, is_half_or_more, level_to_data, scale_degree,
    scale_density,
};

/// A spread of patterns: a coarse walk over all of them, and a fine one below 1.0.
fn patterns() -> Vec<u32> {
    let mut v: Vec<u32> = Vec::new();
    let mut b: u64 = 0;
    while b < 1 << 32 {
        v.push(b as u32);
        b += 65_521;
    }
    let mut b: u32 = 0x3b00_0000;
    while b < 0x3f90_0000 {
        v.push(b);
        b += 641;
    }
    for k in 1..=127u32 {
        for top in [15u32, 127] {
            for half in [0.0f32, 0.5] {
                let near = ((k as f32 + half) / top as f32).to_bits();
                for d in 0..5 {
                    v.push(near + d - 2);
                }
            }
        }
    }
    v
}

#[test]
fn tests_on_patterns_agree_with_the_hardware() {
    for b in patterns() {
        let x = f32::from_bits(b);
        assert_eq!(is_finite(b), x.is_finite());
        if x.is_finite() {
            assert_eq!(is_half_or_more(b), x >= 0.5);
            assert_eq!(clamp_unit(b), x.clamp(0.0, 1.0).to_bits());
        }
    }
}

#[test]
fn scaling_agrees_with_the_hardware() {
    for b in patterns() {
        let x = f32::from_bits(b);
        assert_eq!(scale_degree(b, 15), (x * 15.0).round().clamp(0.0, 15.0) as u32, "degree of {x}");
        assert_eq!(scale_density(b, 15), (1.0 + x * 15.0).round().clamp(1.0, 16.0) as u32, "density of {x}");
        assert_eq!(level_to_data(b), (x * 127.0).clamp(0.0, 127.0) as u8, "data of {x}");
    }
}

#[test]
fn conversions_agree_with_the_hardware() {
    for i in [0, 1, -1, 2, 16_777_216, 16_777_217, 16_777_219, -16_777_217, 33_554_433, i32::MAX, i32::MIN, 123_456_789] {
        assert_eq!(from_int(i), (i as f32).to_bits(), "{i}");
    }
    for b in patterns() {
        // the same magnitudes, and magnitudes between two singles
        let x = f32::from_bits(b) as f64;
        for d in [x, x * 1.000_000_03, x * 1e-30, x * 1e-38, x * 1.0e10] {
            let s = d as f32;
            let want = if s.is_finite() { Some(s.to_bits()) } else { None };
            assert_eq!(from_double(d.to_bits()), want, "{d}");
        }
    }
    assert_eq!(from_double(f64::MAX.to_bits()), None);
    assert_eq!(from_double((-0.0f64).to_bits()), Some(0x8000_0000));
    assert_eq!(from_double(5e-324f64.to_bits()), Some(0));
}
