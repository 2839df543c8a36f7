use trafalgar::scale::{note_name, scale_note, Scale, PITCH_RANGE};

const ALL: [Scale; 6] = [
    Scale::MinorPentatonic,
    Scale::MajorPentatonic,
    Scale::Major,
    Scale::Minor,
    Scale::Dorian,
    Scale::Chromatic,
];

#[test]
fn pitch_in_range() {
    for scale in [Scale::MinorPentatonic, Scale::Major, Scale::Dorian, Scale::Chromatic] {
        for d in 0..=PITCH_RANGE as u8 {
            assert!(scale_note(60, scale, d) <= 127);
        }
    }
}

#[test]
fn note_names() {
    assert_eq!(note_name(36), "36/C2");
    assert_eq!(note_name(60), "60/C4");
    assert_eq!(note_name(0), "0/C-1");
    assert_eq!(note_name(69), "69/A4");
}

#[test]
fn note_names_below_zero_and_at_the_ends() {
    assert_eq!(note_name(127), "127/G9");
    assert_eq!(note_name(61), "61/C#4");
    assert_eq!(note_name(-1), "-1/B-2");
    assert_eq!(note_name(-12), "-12/C-2");
    let names = ["C", "C#", "D", "D#", "E", "F", "F#", "G", "G#", "A", "A#", "B"];
    for v in [i32::MIN, i32::MIN + 7, -1000, 1000, i32::MAX] {
        let want = format!("{}/{}{}", v, names[v.rem_euclid(12) as usize], v.div_euclid(12) - 1);
        assert_eq!(note_name(v), want);
    }
}

#[test]
fn degrees_land_on_the_scale() {
    let minor = [36, 39, 41, 43, 46, 48, 51, 53, 55, 58, 60, 63, 65, 67, 70, 72];
    for d in 0..16u8 {
        assert_eq!(scale_note(36, Scale::MinorPentatonic, d), minor[d as usize]);
        assert_eq!(scale_note(36, Scale::Chromatic, d), 36 + d);
    }
    assert_eq!(scale_note(60, Scale::Major, 7), 72);
    assert_eq!(scale_note(60, Scale::Dorian, 6), 70);
    assert_eq!(scale_note(120, Scale::Major, 15), 127);
    assert_eq!(scale_note(255, Scale::Major, 255), 127);
}

#[test]
fn scales_rise_from_the_root_within_an_octave() {
    for scale in ALL {
        let steps = scale.steps();
        assert_eq!(steps[0], 0);
        assert!(steps.windows(2).all(|w| w[0] < w[1]));
        assert!(steps.iter().all(|&s| s < 12));
    }
    let counts: Vec<usize> = ALL.iter().map(|s| s.steps().len()).collect();
    assert_eq!(counts, [5, 5, 7, 7, 7, 12]);
}

#[test]
fn one_turn_is_an_octave_and_degrees_rise() {
    for scale in ALL {
        let len = scale.steps().len() as u8;
        for d in 0..20u8 {
            assert_eq!(scale_note(20, scale, d + len), scale_note(20, scale, d) + 12);
            assert!(scale_note(20, scale, d) < scale_note(20, scale, d + 1));
            assert!(scale_note(110, scale, d) <= scale_note(110, scale, d + 1));
        }
    }
}
