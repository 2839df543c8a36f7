//! The parameters of a track, as plain values.

use crate::gesture::{MAX_BARS, NUM_TRACKS, STEPS};
use crate::scale::{Scale, PITCH_RANGE};
use crate::single::ONE;
use vstd::prelude::*;

verus! {

/// The pattern of 0.7, the velocity that tracks start with.
pub const DEFAULT_VELOCITY: u32 = 0x3f33_3333;

/// The pattern of 0.05, the shortest note length.
pub const SHORTEST: u32 = 0x3d4c_cccd;

/// One euclidean voice. Levels and the note length are single-precision patterns.
#[derive(Clone, Copy, Debug)]
pub struct TrackParams {
    pub density: i32,
    pub rotation: i32,
    pub pitch: i32,
    pub accent: i32,
    pub base_vel: u32,
    pub accent_vel: u32,
    /// On: latched. Off: only sounds while the pad is touched.
    pub hold: bool,
    /// Percussive: fixed drum note, X axis = hit probability. Melodic: X = scale pitch.
    pub percussive: bool,
    /// Percussive: the drum note. Melodic: the root note that the scale sits on.
    pub note: i32,
    pub scale: Scale,
    /// Armed: touching the pad writes the outcome into the loop at the playhead.
    pub record: bool,
    /// Gesture loop length in bars; the euclidean rhythm still repeats every bar.
    pub length: i32,
    /// Note length as a fraction of one step. Ignored when portamento is on.
    pub note_len: u32,
    /// Legato: the next note starts before the current one is released.
    pub portamento: bool,
    /// MIDI output channel, 1 to 16.
    pub channel: i32,
}

impl TrackParams {
    /// Every parameter lies in its range.
    pub open spec fn wf(self) -> bool {
        &&& 1 <= self.density <= STEPS
        &&& 0 <= self.rotation < STEPS
        &&& 0 <= self.pitch <= PITCH_RANGE
        &&& 0 <= self.accent <= STEPS
        &&& 0 <= self.note <= 127
        &&& 1 <= self.length <= MAX_BARS
        &&& SHORTEST <= self.note_len <= ONE
        &&& 1 <= self.channel <= 16
    }

    /// The steps that the gesture loop runs through.
    pub open spec fn loop_steps(self) -> int {
        self.length * STEPS
    }

    /// The parameters that a track starts with.
    pub open spec fn initial(track: int) -> TrackParams {
        TrackParams {
            density: 4,
            rotation: 0,
            pitch: 5,
            accent: 2,
            base_vel: DEFAULT_VELOCITY,
            accent_vel: ONE,
            hold: true,
            percussive: false,
            note: 36,
            scale: Scale::MinorPentatonic,
            record: false,
            length: 1,
            note_len: ONE,
            portamento: false,
            channel: (track % 16 + 1) as i32,
        }
    }

    /// The parameters that a track starts with. The channel follows the track number, so
    /// the tracks land on channels of their own.
    pub fn new(track: usize) -> (r: Self)
        requires
            track <= i32::MAX,
        ensures
            r == Self::initial(track as int),
            r.wf(),
    {
        TrackParams {
            density: 4,
            rotation: 0,
            pitch: 5,
            accent: 2,
            base_vel: DEFAULT_VELOCITY,
            accent_vel: ONE,
            hold: true,
            percussive: false,
            note: 36,
            scale: Scale::MinorPentatonic,
            record: false,
            length: 1,
            note_len: ONE,
            portamento: false,
            channel: track as i32 % 16 + 1,
        }
    }
}

impl Default for TrackParams {
    /// The parameters of the first track.
    fn default() -> (r: Self)
        ensures
            r == TrackParams::initial(0),
            r.wf(),
    {
        TrackParams::new(0)
    }
}

/// Out of the box every track has a channel of its own.
pub proof fn law_tracks_start_on_their_own_channels(a: int, b: int)
    requires
        0 <= a < b < NUM_TRACKS,
    ensures
        TrackParams::initial(a).channel == a + 1,
        TrackParams::initial(a).channel != TrackParams::initial(b).channel,
{
}

/// Every track starts alike but for its channel: four onsets, unrotated, on the fifth degree of
/// the minor pentatonic scale on note 36, two accents at full level over 0.7, latched,
/// melodic, not armed, with a loop of one bar, notes of a whole step and no portamento. The
/// channels go round from 1 to 16.
pub proof fn law_tracks_start_alike(track: int)
    requires
        track >= 0,
    ensures
        ({
            let p = TrackParams::initial(track);
            &&& p.wf()
            &&& p.density == 4 && p.rotation == 0 && p.pitch == 5 && p.accent == 2
            &&& p.base_vel == 0x3f33_3333 && p.accent_vel == 0x3f80_0000
            &&& p.hold && !p.percussive && !p.record && !p.portamento
            &&& p.note == 36 && p.scale == Scale::MinorPentatonic
            &&& p.length == 1 && p.note_len == 0x3f80_0000
            &&& 1 <= p.channel <= 16
            &&& TrackParams::initial(track + 1).channel == if p.channel == 16 {
                1
            } else {
                p.channel + 1
            }
            &&& (TrackParams { channel: TrackParams::initial(track + 1).channel, ..p })
                == TrackParams::initial(track + 1)
        }),
{
}

} // verus!
