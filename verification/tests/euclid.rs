use trafalgar::euclid::{euclid, rotated};

#[test]
fn euclid_onsets() {
    assert_eq!(euclid(4, 16).iter().filter(|&&b| b).count(), 4);
    assert!(euclid(4, 16)[0], "downbeat on step 0");
    assert_eq!(euclid(3, 8), [true, false, false, true, false, false, true, false]);
    assert_eq!(euclid(0, 8), vec![false; 8]);
    assert_eq!(euclid(8, 8), vec![true; 8]);
}

#[test]
fn rotation_shifts_onset() {
    assert!(rotated(4, 16, 0)[0]);
    assert!(rotated(4, 16, 1)[1]);
    assert!(rotated(4, 16, 15)[15]);
    assert_eq!(rotated(3, 8, 3).iter().filter(|&&b| b).count(), 3);
}

#[test]
fn onsets_are_even_and_keep_their_number() {
    for steps in 1..=16usize {
        for pulses in 0..=20usize {
            let onsets = pulses.min(steps);
            for rot in 0..20usize {
                let p = rotated(pulses, steps, rot);
                assert_eq!(p.len(), steps);
                assert_eq!(p.iter().filter(|&&b| b).count(), onsets);
                // any two windows of the same length differ by at most one onset
                for len in 1..steps {
                    let counts: Vec<usize> =
                        (0..=steps - len).map(|i| p[i..i + len].iter().filter(|&&b| b).count()).collect();
                    assert!(counts.iter().max().unwrap() - counts.iter().min().unwrap() <= 1);
                }
            }
        }
    }
}

#[test]
fn rotation_moves_the_pattern_right_and_comes_round() {
    let base = euclid(5, 16);
    assert_eq!(rotated(5, 16, 0), base);
    assert_eq!(rotated(5, 16, 16), base);
    assert_eq!(rotated(5, 16, 35), rotated(5, 16, 3));
    for i in 0..13 {
        assert_eq!(rotated(5, 16, 3)[i + 3], base[i]);
    }
}

#[test]
fn empty_and_overfull_patterns() {
    assert!(euclid(3, 0).is_empty());
    assert!(rotated(3, 0, 7).is_empty());
    assert_eq!(euclid(99, 4), [true; 4]);
    assert_eq!(euclid(1, 1), [true]);
    assert_eq!(euclid(5, 8), [true, false, true, false, true, true, false, true]);
}
