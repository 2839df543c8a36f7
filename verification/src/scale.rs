//! Scales, and the MIDI notes that their degrees name.

use crate::text::{decimal, push_decimal, push_str};
use vstd::arithmetic::div_mod::{lemma_fundamental_div_mod, lemma_fundamental_div_mod_converse};
use vstd::prelude::*;

verus! {

/// Scale degrees that the pitch parameter spans.
pub const PITCH_RANGE: i32 = 15;

/// Selectable scales. The number of notes varies per scale (5 for the pentatonics, 7 for
/// the modes, 12 for the chromatic scale), so the same pitch range spans more or fewer
/// octaves.
#[derive(PartialEq, Eq, Structural, Clone, Copy, Debug)]
pub enum Scale {
    MinorPentatonic,
    MajorPentatonic,
    Major,
    Minor,
    Dorian,
    Chromatic,
}

/// The semitone offsets of a scale within an octave.
pub open spec fn offsets(scale: Scale) -> Seq<u8> {
    match scale {
        Scale::MinorPentatonic => seq![0u8, 3u8, 5u8, 7u8, 10u8],
        Scale::MajorPentatonic => seq![0u8, 2u8, 4u8, 7u8, 9u8],
        Scale::Major => seq![0u8, 2u8, 4u8, 5u8, 7u8, 9u8, 11u8],
        Scale::Minor => seq![0u8, 2u8, 3u8, 5u8, 7u8, 8u8, 10u8],
        Scale::Dorian => seq![0u8, 2u8, 3u8, 5u8, 7u8, 9u8, 10u8],
        Scale::Chromatic => seq![
            0u8,
            1u8,
            2u8,
            3u8,
            4u8,
            5u8,
            6u8,
            7u8,
            8u8,
            9u8,
            10u8,
            11u8,
        ],
    }
}

/// The semitones from the root up to a scale degree, whatever the octave.
pub open spec fn semitones(scale: Scale, degree: nat) -> int {
    12 * (degree / offsets(scale).len()) + offsets(scale)[(degree % offsets(scale).len()) as int]
}

/// The MIDI note of a scale degree above `base`, held at the top of the MIDI range.
pub open spec fn degree_note(base: u8, scale: Scale, degree: u8) -> u8 {
    let n = base + semitones(scale, degree as nat);
    if n <= 127 {
        n as u8
    } else {
        127
    }
}

impl Scale {
    /// The semitone offsets of the scale.
    pub fn steps(self) -> (r: &'static [u8])
        ensures
            r@ == offsets(self),
    {
        match self {
            Scale::MinorPentatonic => &[0, 3, 5, 7, 10],
            Scale::MajorPentatonic => &[0, 2, 4, 7, 9],
            Scale::Major => &[0, 2, 4, 5, 7, 9, 11],
            Scale::Minor => &[0, 2, 3, 5, 7, 8, 10],
            Scale::Dorian => &[0, 2, 3, 5, 7, 9, 10],
            Scale::Chromatic => &[0, 1, 2, 3, 4, 5, 6, 7, 8, 9, 10, 11],
        }
    }
}

/// Every offset lies within the octave.
proof fn lemma_offsets_in_octave(scale: Scale, i: int)
    requires
        0 <= i < offsets(scale).len(),
    ensures
        0 <= offsets(scale)[i] < 12,
{
}

/// Maps a scale degree onto a MIDI note in `scale`, rooted at `base`.
pub fn scale_note(base: u8, scale: Scale, degree: u8) -> (r: u8)
    ensures
        r == degree_note(base, scale, degree),
        r <= 127,
{
    let steps = scale.steps();
    let oct: usize = degree as usize / steps.len();
    let pos: usize = degree as usize % steps.len();
    proof {
        lemma_offsets_in_octave(scale, pos as int);
        lemma_fundamental_div_mod(degree as int, steps@.len() as int);
        assert(oct <= degree) by (nonlinear_arith)
            requires
                degree == steps@.len() * oct + pos,
                steps@.len() >= 1,
                pos >= 0,
                oct >= 0,
        ;
    }
    let n: usize = base as usize + 12 * oct + steps[pos] as usize;
    if n <= 127 {
        n as u8
    } else {
        127
    }
}

/// A scale starts on its root and rises within the octave.
pub proof fn law_scale_rises(scale: Scale, i: int, j: int)
    requires
        0 <= i < j < offsets(scale).len(),
    ensures
        offsets(scale)[0] == 0,
        offsets(scale)[i] < offsets(scale)[j] < 12,
{
}

/// One turn through the scale is an octave.
pub proof fn law_octave(scale: Scale, degree: nat)
    ensures
        semitones(scale, degree + offsets(scale).len()) == semitones(scale, degree) + 12,
{
    let len = offsets(scale).len();
    lemma_fundamental_div_mod(degree as int, len as int);
    let q = (degree / len) as int;
    let r = (degree % len) as int;
    assert(degree + len == len * (q + 1) + r) by (nonlinear_arith)
        requires
            degree == len * q + r,
    ;
    lemma_fundamental_div_mod_converse(
        degree + len as int,
        len as int,
        q + 1,
        r,
    );
}

/// A higher degree never sounds lower, and sounds higher as long as neither note is held
/// at the top of the MIDI range.
pub proof fn law_degrees_rise(base: u8, scale: Scale, low: u8, high: u8)
    requires
        low < high,
    ensures
        semitones(scale, low as nat) < semitones(scale, high as nat),
        degree_note(base, scale, low) <= degree_note(base, scale, high),
        degree_note(base, scale, high) < 127 ==> degree_note(base, scale, low) < degree_note(
            base,
            scale,
            high,
        ),
{
    let len = offsets(scale).len();
    lemma_fundamental_div_mod(low as int, len as int);
    lemma_fundamental_div_mod(high as int, len as int);
    let (q1, r1) = ((low as nat / len) as int, (low as nat % len) as int);
    let (q2, r2) = ((high as nat / len) as int, (high as nat % len) as int);
    lemma_offsets_in_octave(scale, r1);
    lemma_offsets_in_octave(scale, r2);
    assert(q1 < q2 || (q1 == q2 && r1 < r2)) by (nonlinear_arith)
        requires
            len * q1 + r1 < len * q2 + r2,
            0 <= r1 < len,
            0 <= r2 < len,
    ;
    if q1 == q2 {
        law_scale_rises(scale, r1, r2);
    }
}

/// The names of the notes within an octave.
pub open spec fn note_letters() -> Seq<Seq<char>> {
    seq![
        "C"@,
        "C#"@,
        "D"@,
        "D#"@,
        "E"@,
        "F"@,
        "F#"@,
        "G"@,
        "G#"@,
        "A"@,
        "A#"@,
        "B"@,
    ]
}

/// The text of a note number: the number, the name and the octave, which counts so that
/// 60 is C4.
pub open spec fn note_text(v: int) -> Seq<char> {
    decimal(v) + "/"@ + note_letters()[v % 12] + decimal(v / 12 - 1)
}

/// Human-readable MIDI note, e.g. 36 -> "36/C2" (scientific pitch, C4 = 60).
pub fn note_name(v: i32) -> (r: String)
    ensures
        r@ == note_text(v as int),
{
    let rest: i32 = v % 12;
    let n: i32 = if rest < 0 {
        rest + 12
    } else {
        rest
    };
    let octave: i64 = (v as i64 - n as i64) / 12 - 1;
    let letter = match n {
        0 => "C",
        1 => "C#",
        2 => "D",
        3 => "D#",
        4 => "E",
        5 => "F",
        6 => "F#",
        7 => "G",
        8 => "G#",
        9 => "A",
        10 => "A#",
        _ => "B",
    };
    let mut r = String::new();
    push_decimal(&mut r, v as i64);
    push_str(&mut r, "/");
    push_str(&mut r, letter);
    push_decimal(&mut r, octave);
    r
}

/// The semitones from the root up to a degree of a scale that is told by its intervals,
/// which start over when all are climbed.
pub open spec fn climbed(intervals: Seq<int>, degree: nat) -> int
    decreases degree,
{
    if degree == 0 {
        0
    } else {
        climbed(intervals, (degree - 1) as nat) + intervals[(degree - 1) % intervals.len() as int]
    }
}

/// Whether a scale climbs by the intervals given, from the root on, octave after octave.
pub open spec fn climbs_by(scale: Scale, intervals: Seq<int>) -> bool {
    &&& offsets(scale).len() == intervals.len()
    &&& forall|degree: nat| #[trigger] semitones(scale, degree) == climbed(intervals, degree)
}

proof fn lemma_climb(scale: Scale, intervals: Seq<int>, degree: nat)
    requires
        offsets(scale).len() == intervals.len(),
        offsets(scale)[0] == 0,
        forall|i: int|
            0 <= i < intervals.len() ==> #[trigger] intervals[i] == if i + 1 < intervals.len() {
                offsets(scale)[i + 1] - offsets(scale)[i]
            } else {
                12 - offsets(scale)[i]
            },
    ensures
        semitones(scale, degree) == climbed(intervals, degree),
    decreases degree,
{
    let len = intervals.len() as int;
    if degree > 0 {
        let d = degree - 1;
        lemma_climb(scale, intervals, d as nat);
        lemma_fundamental_div_mod(d, len);
        let (q, r) = (d / len, d % len);
        let up = intervals[r];
        if r + 1 < len {
            assert(degree == q * len + (r + 1)) by (nonlinear_arith)
                requires
                    degree == d + 1,
                    d == len * q + r,
            ;
            lemma_fundamental_div_mod_converse(degree as int, len, q, r + 1);
        } else {
            assert(degree == (q + 1) * len + 0) by (nonlinear_arith)
                requires
                    degree == d + 1,
                    d == len * q + r,
                    r + 1 == len,
            ;
            lemma_fundamental_div_mod_converse(degree as int, len, q + 1, 0);
        }
    } else {
        vstd::arithmetic::div_mod::lemma_small_mod(0, len as nat);
        vstd::arithmetic::div_mod::lemma_div_basics(len);
    }
}

/// What each scale is: the semitones from each of its degrees to the next, up to the octave.
pub proof fn law_scales_climb_by_their_intervals()
    ensures
        climbs_by(Scale::MinorPentatonic, seq![3, 2, 2, 3, 2]),
        climbs_by(Scale::MajorPentatonic, seq![2, 2, 3, 2, 3]),
        climbs_by(Scale::Major, seq![2, 2, 1, 2, 2, 2, 1]),
        climbs_by(Scale::Minor, seq![2, 1, 2, 2, 1, 2, 2]),
        climbs_by(Scale::Dorian, seq![2, 1, 2, 2, 2, 1, 2]),
        climbs_by(Scale::Chromatic, seq![1, 1, 1, 1, 1, 1, 1, 1, 1, 1, 1, 1]),
{
    assert forall|degree: nat|
        #[trigger] semitones(Scale::MinorPentatonic, degree) == climbed(
            seq![3, 2, 2, 3, 2],
            degree,
        ) by {
        lemma_climb(Scale::MinorPentatonic, seq![3, 2, 2, 3, 2], degree);
    }
    assert forall|degree: nat|
        #[trigger] semitones(Scale::MajorPentatonic, degree) == climbed(
            seq![2, 2, 3, 2, 3],
            degree,
        ) by {
        lemma_climb(Scale::MajorPentatonic, seq![2, 2, 3, 2, 3], degree);
    }
    assert forall|degree: nat|
        #[trigger] semitones(Scale::Major, degree) == climbed(
            seq![2, 2, 1, 2, 2, 2, 1],
            degree,
        ) by {
        lemma_climb(Scale::Major, seq![2, 2, 1, 2, 2, 2, 1], degree);
    }
    assert forall|degree: nat|
        #[trigger] semitones(Scale::Minor, degree) == climbed(
            seq![2, 1, 2, 2, 1, 2, 2],
            degree,
        ) by {
        lemma_climb(Scale::Minor, seq![2, 1, 2, 2, 1, 2, 2], degree);
    }
    assert forall|degree: nat|
        #[trigger] semitones(Scale::Dorian, degree) == climbed(
            seq![2, 1, 2, 2, 2, 1, 2],
            degree,
        ) by {
        lemma_climb(Scale::Dorian, seq![2, 1, 2, 2, 2, 1, 2], degree);
    }
    assert forall|degree: nat|
        #[trigger] semitones(Scale::Chromatic, degree) == climbed(
            seq![1, 1, 1, 1, 1, 1, 1, 1, 1, 1, 1, 1],
            degree,
        ) by {
        lemma_climb(Scale::Chromatic, seq![1, 1, 1, 1, 1, 1, 1, 1, 1, 1, 1, 1], degree);
    }
}

/// The intervals of every scale close the octave, and the note of a degree lies as many
/// semitones above the root as the degrees up to it climb, unless that is past the top of
/// the MIDI range, where it stays.
pub proof fn law_degrees_climb_from_the_root(base: u8, scale: Scale, degree: u8)
    ensures
        semitones(scale, offsets(scale).len()) == 12,
        degree == 0 && base <= 127 ==> degree_note(base, scale, degree) == base,
        base + semitones(scale, degree as nat) <= 127 ==> degree_note(base, scale, degree) - base
            == semitones(scale, degree as nat),
        base + semitones(scale, degree as nat) > 127 ==> degree_note(base, scale, degree) == 127,
        semitones(scale, degree as nat) >= 0,
{
    let len = offsets(scale).len();
    lemma_fundamental_div_mod(degree as int, len as int);
    lemma_offsets_in_octave(scale, degree as int % len as int);
    law_octave(scale, 0);
    vstd::arithmetic::div_mod::lemma_small_mod(0, len);
    vstd::arithmetic::div_mod::lemma_div_basics(len as int);
}

/// The text of a note starts with its number and a slash, ends with the octave, which goes up
/// by one every twelve notes and is 4 from 60 to 71, and has the letters of a C up to a B in
/// between.
pub proof fn law_notes_are_named_by_octave(octave: int, note: u8)
    requires
        note < 12,
    ensures
        ({
            let v = 12 * (octave + 1) + note;
            let letter = match note {
                0 => "/C"@,
                1 => "/C#"@,
                2 => "/D"@,
                3 => "/D#"@,
                4 => "/E"@,
                5 => "/F"@,
                6 => "/F#"@,
                7 => "/G"@,
                8 => "/G#"@,
                9 => "/A"@,
                10 => "/A#"@,
                _ => "/B"@,
            };
            note_text(v) == decimal(v) + letter + decimal(octave)
        }),
{
    let v = 12 * (octave + 1) + note;
    assert(v % 12 == note && v / 12 - 1 == octave);
    reveal_strlit("/");
    reveal_strlit("C");
    reveal_strlit("C#");
    reveal_strlit("D");
    reveal_strlit("D#");
    reveal_strlit("E");
    reveal_strlit("F");
    reveal_strlit("F#");
    reveal_strlit("G");
    reveal_strlit("G#");
    reveal_strlit("A");
    reveal_strlit("A#");
    reveal_strlit("B");
    reveal_strlit("/C");
    reveal_strlit("/C#");
    reveal_strlit("/D");
    reveal_strlit("/D#");
    reveal_strlit("/E");
    reveal_strlit("/F");
    reveal_strlit("/F#");
    reveal_strlit("/G");
    reveal_strlit("/G#");
    reveal_strlit("/A");
    reveal_strlit("/A#");
    reveal_strlit("/B");
    let letter = match note {
        0 => "/C"@,
        1 => "/C#"@,
        2 => "/D"@,
        3 => "/D#"@,
        4 => "/E"@,
        5 => "/F"@,
        6 => "/F#"@,
        7 => "/G"@,
        8 => "/G#"@,
        9 => "/A"@,
        10 => "/A#"@,
        _ => "/B"@,
    };
    assert("/"@ + note_letters()[note as int] =~= letter);
    assert(note_text(v) =~= decimal(v) + letter + decimal(octave));
}

} // verus!
