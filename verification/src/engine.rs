//! The sequencer: four voices that turn a block of clock ticks into note events.

use crate::chance::{hits, is_hit, next_state, roll_of, xorshift};
use crate::euclid::{euclid, pattern, rotated, rotated_pattern};
use crate::gesture::{Gesture, EMPTY, LOOP_CELLS, NUM_TRACKS, REST, STEPS};
use crate::params::TrackParams;
use crate::scale::{degree_note, scale_note, PITCH_RANGE};
use crate::shared::{packed_x, packed_y, same_controls, Shared};
use crate::single::{degree_of, density_of, scale_degree, scale_density, ONE};
use vstd::arithmetic::div_mod::lemma_mod_bound;
use vstd::prelude::*;

verus! {

/// The MIDI controller that switches portamento.
pub const PORTAMENTO_CC: u8 = 65;

/// No release is pending: the note is held until the next onset.
pub const NEVER: i64 = i64::MAX;

/// The step of a voice that is not playing.
pub const IDLE: i64 = -1;

/// An event for the host and the MIDI port. `timing` counts samples from the start of the
/// block; velocities and controller values are single-precision patterns.
#[derive(PartialEq, Eq, Structural, Clone, Copy, Debug)]
pub enum NoteEvent {
    NoteOn { timing: u32, channel: u8, note: u8, velocity: u32 },
    NoteOff { timing: u32, channel: u8, note: u8, velocity: u32 },
    MidiCC { timing: u32, channel: u8, cc: u8, value: u32 },
}

/// A note as it is mirrored over OSC.
#[derive(PartialEq, Eq, Structural, Clone, Copy, Debug)]
pub struct Note {
    pub track: u8,
    pub note: u8,
    pub vel: u32,
}

/// What the sequencer puts out, in order.
#[derive(PartialEq, Eq, Structural, Clone, Copy, Debug)]
pub enum Output {
    Event(NoteEvent),
    Osc(Note),
}

/// What a voice remembers from block to block.
#[derive(PartialEq, Eq, Clone, Copy, Debug)]
pub struct Voice {
    /// The step that sounded last; -1 = idle.
    pub last_step: i64,
    /// The sounding note with the channel that it was started on, so that its release
    /// goes out on that channel even if the channel parameter has changed.
    pub playing_note: Option<(u8, u8)>,
    /// The absolute sample at which the sounding note is released.
    pub note_off_at: i64,
    /// The state of the hit dice.
    pub rng: u64,
}

/// How a track is played during one block.
#[derive(Clone, Copy)]
pub struct Performance {
    pub params: TrackParams,
    pub touching: bool,
    pub live_pitch: i32,
    pub density: usize,
    pub erase: bool,
    pub has_rec: bool,
}

/// A voice with its gesture loop.
#[verifier::ext_equal]
pub struct Lane {
    pub voice: Voice,
    pub cells: Seq<i32>,
}

/// Whether anything is recorded in the part of a loop that is played.
pub open spec fn has_recording(cells: Seq<i32>, loop_steps: int) -> bool {
    exists|i: int| 0 <= i < loop_steps && #[trigger] cells[i] != EMPTY
}

/// How a track is played: while its pad is touched, pitch and density come from the pad,
/// otherwise from the parameters.
pub open spec fn performance(
    params: TrackParams,
    touching: bool,
    pos: u64,
    erase: bool,
    cells: Seq<i32>,
) -> Performance {
    Performance {
        params,
        touching,
        live_pitch: if touching {
            degree_of(packed_x(pos), PITCH_RANGE as nat) as i32
        } else {
            params.pitch
        },
        density: if touching {
            density_of(packed_y(pos), (STEPS - 1) as nat) as usize
        } else {
            params.density as usize
        },
        erase,
        has_rec: has_recording(cells, params.loop_steps()),
    }
}

impl Performance {
    /// The values that a performance can hold.
    pub open spec fn wf(self) -> bool {
        &&& self.params.wf()
        &&& 0 <= self.live_pitch <= PITCH_RANGE
        &&& self.density <= STEPS
    }

    /// A track sounds if it is held, touched, or has a loop recorded.
    pub open spec fn gate_open(self) -> bool {
        self.params.hold || self.touching || self.has_rec
    }

    /// Whether a step of the bar is an onset.
    pub open spec fn onset(self, idx: int) -> bool {
        rotated_pattern(self.density as nat, STEPS as nat, self.params.rotation as nat)[idx]
    }

    /// Whether a step of the bar is accented.
    pub open spec fn accented(self, idx: int) -> bool {
        pattern(self.params.accent as nat, STEPS as nat)[idx]
    }

    /// The velocity of a note on a step of the bar.
    pub open spec fn velocity(self, idx: int) -> u32 {
        if self.accented(idx) {
            self.params.accent_vel
        } else {
            self.params.base_vel
        }
    }

    /// The channel on the wire: the parameter counts from 1, MIDI from 0.
    pub open spec fn channel(self) -> u8 {
        (self.params.channel - 1) as u8
    }

    /// What the live generator plays on a step of the bar, and the dice afterwards: onsets
    /// come from the euclidean pattern; melodic tracks play the scale degree, percussive
    /// ones roll for their note.
    pub open spec fn generated(self, idx: int, degree: i32, rng: u64) -> (Option<u8>, u64) {
        if !self.onset(idx) {
            (None, rng)
        } else if self.params.percussive {
            if is_hit(roll_of(next_state(rng)), degree as int) {
                (Some(self.params.note as u8), next_state(rng))
            } else {
                (None, next_state(rng))
            }
        } else {
            (Some(degree_note(self.params.note as u8, self.params.scale, degree as u8)), rng)
        }
    }

    /// What sounds on a step, given the cell of the loop under the playhead: the live
    /// generator while touched, else the recorded loop, else the latched generator.
    pub open spec fn sounded(self, idx: int, cell: i32, rng: u64) -> (Option<u8>, u64) {
        if self.touching {
            self.generated(idx, self.live_pitch, rng)
        } else if self.has_rec {
            (recorded_note(cell), rng)
        } else {
            self.generated(idx, self.params.pitch, rng)
        }
    }
}

/// The note that a cell plays. A cell that was loaded from elsewhere may hold more than a
/// byte; its low eight bits count.
pub open spec fn recorded_note(cell: i32) -> Option<u8> {
    if cell >= 0 {
        Some((cell % 256) as u8)
    } else {
        None
    }
}

/// The cell that records an outcome: the note that fired, or a rest.
pub open spec fn recorded_cell(outcome: Option<u8>) -> i32 {
    match outcome {
        Some(n) => n as i32,
        None => REST,
    }
}

/// The events that release the sounding note, if there is one.
pub open spec fn release(playing_note: Option<(u8, u8)>, timing: u32) -> Seq<Output> {
    match playing_note {
        Some((note, channel)) => seq![
            Output::Event(NoteEvent::NoteOff { timing, channel, note, velocity: 0 }),
        ],
        None => Seq::empty(),
    }
}

/// A voice after its sounding note is released.
pub open spec fn silenced(voice: Voice) -> Voice {
    Voice { playing_note: None, note_off_at: NEVER, ..voice }
}

/// The note-length gate: releases the note when its sample has come.
pub open spec fn gate_phase(voice: Voice, global: int, timing: u32) -> (Voice, Seq<Output>) {
    if global >= voice.note_off_at {
        (silenced(voice), release(voice.playing_note, timing))
    } else {
        (voice, Seq::empty())
    }
}

/// What a voice puts out when a note fires on a step, and how it goes on. With portamento
/// the new note starts before the old one is released, and is held; without, the old one
/// goes first and the new one gets its release time.
pub open spec fn fire(
    pf: Performance,
    voice: Voice,
    track: u8,
    note: u8,
    idx: int,
    release_at: i64,
    timing: u32,
) -> (Voice, Seq<Output>) {
    let channel = pf.channel();
    let velocity = pf.velocity(idx);
    let porta = pf.params.portamento;
    let cc = Output::Event(
        NoteEvent::MidiCC {
            timing,
            channel,
            cc: PORTAMENTO_CC,
            value: if porta {
                ONE
            } else {
                0
            },
        },
    );
    let on = Output::Event(NoteEvent::NoteOn { timing, channel, note, velocity });
    let off = release(voice.playing_note, timing);
    let mirror = Output::Osc(Note { track, note, vel: velocity });
    (
        Voice {
            playing_note: Some((note, channel)),
            note_off_at: if porta {
                NEVER
            } else {
                release_at
            },
            ..voice
        },
        if porta {
            seq![cc, on] + off + seq![mirror]
        } else {
            seq![cc] + off + seq![on, mirror]
        },
    )
}

/// What a voice does when the clock reaches a new step.
#[verifier::opaque]
pub open spec fn step_phase(
    pf: Performance,
    lane: Lane,
    track: u8,
    stp: i64,
    release_at: i64,
    timing: u32,
) -> (Lane, Seq<Output>) {
    let idx = stp as int % STEPS as int;
    let gidx = stp as int % pf.params.loop_steps();
    let cell = if pf.erase {
        EMPTY
    } else {
        lane.cells[gidx]
    };
    let (outcome, rng) = pf.sounded(idx, cell, lane.voice.rng);
    let written = if pf.touching && pf.params.record {
        recorded_cell(outcome)
    } else {
        cell
    };
    let voice = Voice { last_step: stp, rng, ..lane.voice };
    let (after, out) = match outcome {
        Some(note) => fire(pf, voice, track, note, idx, release_at, timing),
        None => if pf.params.portamento {
            (voice, Seq::empty())
        } else {
            (silenced(voice), release(voice.playing_note, timing))
        },
    };
    (Lane { voice: after, cells: lane.cells.update(gidx, written) }, out)
}

/// What a voice does on one sample: the note-length gate, then, where the clock has moved
/// on to another step, that step.
#[verifier::opaque]
pub open spec fn sample_phase(
    pf: Performance,
    lane: Lane,
    track: u8,
    global: int,
    stp: i64,
    release_at: i64,
    timing: u32,
) -> (Lane, Seq<Output>) {
    let (gated, off) = gate_phase(lane.voice, global, timing);
    let ready = Lane { voice: gated, cells: lane.cells };
    if stp == gated.last_step {
        (ready, off)
    } else {
        let (after, out) = step_phase(pf, ready, track, stp, release_at, timing);
        (after, off + out)
    }
}

/// How an event of a sample is timed: the sample's number within the block, in 32 bits.
pub open spec fn label(s: nat) -> u32 {
    (s % 0x1_0000_0000) as u32
}

/// What a voice does on the first `n` samples of a block.
pub open spec fn run(
    pf: Performance,
    start: Lane,
    track: u8,
    pos: int,
    steps: Seq<i64>,
    releases: Seq<i64>,
    n: nat,
) -> (Lane, Seq<Output>)
    decreases n,
{
    if n == 0 {
        (start, Seq::empty())
    } else {
        let s = (n - 1) as nat;
        let (lane, before) = run(pf, start, track, pos, steps, releases, s);
        let (after, out) = sample_phase(
            pf,
            lane,
            track,
            pos + s,
            steps[s as int],
            releases[s as int],
            label(s),
        );
        (after, before + out)
    }
}

/// What one block does to a track.
#[verifier::ext_equal]
pub struct TrackPass {
    pub lane: Lane,
    pub step: i64,
    pub out: Seq<Output>,
}

/// What one block does to a track: a track that is stopped or closed falls silent and
/// goes idle, any other runs through the block.
pub open spec fn track_pass(
    pf: Performance,
    start: Lane,
    track: u8,
    playing: bool,
    pos: int,
    steps: Seq<i64>,
    releases: Seq<i64>,
) -> TrackPass {
    if !playing || !pf.gate_open() {
        TrackPass {
            lane: Lane {
                voice: Voice { last_step: IDLE, ..silenced(start.voice) },
                cells: start.cells,
            },
            step: IDLE,
            out: release(start.voice.playing_note, 0),
        }
    } else {
        let (lane, out) = run(pf, start, track, pos, steps, releases, steps.len());
        TrackPass { lane, step: lane.voice.last_step, out }
    }
}

/// Puts out the release of the sounding note, if there is one.
fn push_release(out: &mut Vec<Output>, playing_note: Option<(u8, u8)>, timing: u32)
    ensures
        final(out)@ == old(out)@ + release(playing_note, timing),
{
    if let Some((note, channel)) = playing_note {
        out.push(Output::Event(NoteEvent::NoteOff { timing, channel, note, velocity: 0 }));
    }
    assert(out@ =~= old(out)@ + release(playing_note, timing));
}

/// `a` modulo a positive `m`, never negative.
pub fn wrap(a: i64, m: usize) -> (r: usize)
    requires
        0 < m <= i64::MAX,
    ensures
        r == a as int % m as int,
        r < m,
{
    proof {
        lemma_mod_bound(a as int, m as int);
    }
    match a.checked_rem_euclid(m as i64) {
        Some(r) => r as usize,
        None => 0,
    }
}

/// How a track is played during the coming block.
fn perform(params: &TrackParams, shared: &Shared, track: usize) -> (r: Performance)
    requires
        params.wf(),
        track < NUM_TRACKS,
    ensures
        r == performance(
            *params,
            shared.gate@[track as int],
            shared.pos@[track as int],
            shared.erase@[track as int],
            shared.gesture@[track as int],
        ),
        r.wf(),
{
    let loop_steps: usize = params.length as usize * STEPS;
    let mut has_rec: bool = false;
    let mut i: usize = 0;
    while i < loop_steps
        invariant
            i <= loop_steps <= LOOP_CELLS,
            track < NUM_TRACKS,
            has_rec == has_recording(shared.gesture@[track as int], i as int),
        decreases loop_steps - i,
    {
        if shared.gesture.load(track, i) != EMPTY {
            has_rec = true;
        }
        i += 1;
    }
    let touching = shared.gate[track];
    let pos: u64 = shared.pos[track];
    let x: u32 = (pos / 0x1_0000_0000) as u32;
    let y: u32 = (pos % 0x1_0000_0000) as u32;
    Performance {
        params: *params,
        touching,
        live_pitch: if touching {
            scale_degree(x, PITCH_RANGE as u32) as i32
        } else {
            params.pitch
        },
        density: if touching {
            scale_density(y, (STEPS - 1) as u32) as usize
        } else {
            params.density as usize
        },
        erase: shared.erase[track],
        has_rec,
    }
}

impl Performance {
    /// Plays the live generator on a step of the bar.
    fn generate(&self, onsets: &Vec<bool>, idx: usize, degree: i32, rng: &mut u64) -> (r: Option<
        u8,
    >)
        requires
            self.wf(),
            onsets@ == rotated_pattern(
                self.density as nat,
                STEPS as nat,
                self.params.rotation as nat,
            ),
            idx < STEPS,
            0 <= degree <= PITCH_RANGE,
        ensures
            (r, *final(rng)) == self.generated(idx as int, degree, *old(rng)),
    {
        if !onsets[idx] {
            return None;
        }
        if self.params.percussive {
            let roll: u32 = xorshift(rng);
            if hits(roll, degree) {
                Some(self.params.note as u8)
            } else {
                None
            }
        } else {
            Some(scale_note(self.params.note as u8, self.params.scale, degree as u8))
        }
    }

    /// Plays what sounds on a step.
    fn sound(&self, onsets: &Vec<bool>, idx: usize, cell: i32, rng: &mut u64) -> (r: Option<u8>)
        requires
            self.wf(),
            onsets@ == rotated_pattern(
                self.density as nat,
                STEPS as nat,
                self.params.rotation as nat,
            ),
            idx < STEPS,
        ensures
            (r, *final(rng)) == self.sounded(idx as int, cell, *old(rng)),
    {
        if self.touching {
            self.generate(onsets, idx, self.live_pitch, rng)
        } else if self.has_rec {
            if cell >= 0 {
                Some((cell % 256) as u8)
            } else {
                None
            }
        } else {
            self.generate(onsets, idx, self.params.pitch, rng)
        }
    }
}

/// Plays one step of a voice.
fn play_step(
    pf: &Performance,
    onsets: &Vec<bool>,
    accents: &Vec<bool>,
    voice: &mut Voice,
    gesture: &mut Gesture,
    track: usize,
    stp: i64,
    release_at: i64,
    timing: u32,
    out: &mut Vec<Output>,
)
    requires
        pf.wf(),
        onsets@ == rotated_pattern(
            pf.density as nat,
            STEPS as nat,
            pf.params.rotation as nat,
        ),
        accents@ == pattern(pf.params.accent as nat, STEPS as nat),
        track < NUM_TRACKS,
    ensures
        ({
            let start = Lane { voice: *old(voice), cells: old(gesture)@[track as int] };
            let (lane, played) = step_phase(*pf, start, track as u8, stp, release_at, timing);
            &&& *final(voice) == lane.voice
            &&& final(gesture)@ == old(gesture)@.update(track as int, lane.cells)
            &&& final(out)@ == old(out)@ + played
        }),
{
    reveal(step_phase);
    let ghost start = Lane { voice: *voice, cells: gesture@[track as int] };
    let ghost before = gesture@;
    let ghost out0 = out@;
    let idx: usize = wrap(stp, STEPS);
    let gidx: usize = wrap(stp, pf.params.length as usize * STEPS);
    if pf.erase {
        gesture.store(track, gidx, EMPTY);
    }
    let cell: i32 = gesture.load(track, gidx);
    let mut rng: u64 = voice.rng;
    let outcome = pf.sound(onsets, idx, cell, &mut rng);
    voice.rng = rng;
    voice.last_step = stp;
    if pf.touching && pf.params.record {
        let written: i32 = match outcome {
            Some(n) => n as i32,
            None => REST,
        };
        gesture.store(track, gidx, written);
    }
    let ghost (lane, played) = step_phase(*pf, start, track as u8, stp, release_at, timing);
    assert(gesture@ =~= before.update(track as int, lane.cells)) by {
        assert(gesture@[track as int] =~= lane.cells);
    }
    if let Some(note) = outcome {
        let channel: u8 = (pf.params.channel - 1) as u8;
        let velocity: u32 = if accents[idx] {
            pf.params.accent_vel
        } else {
            pf.params.base_vel
        };
        let porta = pf.params.portamento;
        let value: u32 = if porta {
            ONE
        } else {
            0
        };
        out.push(Output::Event(NoteEvent::MidiCC { timing, channel, cc: PORTAMENTO_CC, value }));
        let on = Output::Event(NoteEvent::NoteOn { timing, channel, note, velocity });
        if porta {
            out.push(on);
            push_release(out, voice.playing_note, timing);
            voice.note_off_at = NEVER;
        } else {
            push_release(out, voice.playing_note, timing);
            out.push(on);
            voice.note_off_at = release_at;
        }
        out.push(Output::Osc(Note { track: track as u8, note, vel: velocity }));
        voice.playing_note = Some((note, channel));
        assert(out@ =~= out0 + played);
    } else if !pf.params.portamento {
        push_release(out, voice.playing_note, timing);
        voice.playing_note = None;
        voice.note_off_at = NEVER;
    } else {
        assert(out@ =~= out0 + played);
    }
}

/// Plays one sample of a voice.
fn play_sample(
    pf: &Performance,
    onsets: &Vec<bool>,
    accents: &Vec<bool>,
    voice: &mut Voice,
    gesture: &mut Gesture,
    track: usize,
    global: i64,
    stp: i64,
    release_at: i64,
    timing: u32,
    out: &mut Vec<Output>,
)
    requires
        pf.wf(),
        onsets@ == rotated_pattern(
            pf.density as nat,
            STEPS as nat,
            pf.params.rotation as nat,
        ),
        accents@ == pattern(pf.params.accent as nat, STEPS as nat),
        track < NUM_TRACKS,
    ensures
        ({
            let start = Lane { voice: *old(voice), cells: old(gesture)@[track as int] };
            let (lane, played) = sample_phase(
                *pf,
                start,
                track as u8,
                global as int,
                stp,
                release_at,
                timing,
            );
            &&& *final(voice) == lane.voice
            &&& final(gesture)@ == old(gesture)@.update(track as int, lane.cells)
            &&& final(out)@ == old(out)@ + played
        }),
{
    reveal(sample_phase);
    let ghost start = Lane { voice: *voice, cells: gesture@[track as int] };
    let ghost out0 = out@;
    let ghost (gated, off) = gate_phase(*voice, global as int, timing);
    if global >= voice.note_off_at {
        push_release(out, voice.playing_note, timing);
        voice.playing_note = None;
        voice.note_off_at = NEVER;
    }
    assert(out@ =~= out0 + off);
    assert(*voice == gated);
    if stp != voice.last_step {
        play_step(
            pf,
            onsets,
            accents,
            voice,
            gesture,
            track,
            stp,
            release_at,
            timing,
            out,
        );
        proof {
            let ready = Lane { voice: gated, cells: start.cells };
            let played = step_phase(*pf, ready, track as u8, stp, release_at, timing).1;
            assert(out0 + off + played =~= out0 + (off + played));
        }
    } else {
        assert(gesture@ =~= old(gesture)@.update(track as int, start.cells));
    }
}

/// A block of the transport: its first sample, and for each sample the step that the
/// clock is on and, per track, the sample at which a note of that step is released.
pub struct Block {
    pub playing: bool,
    pub pos: i64,
    pub steps: Vec<i64>,
    pub releases: Vec<Vec<i64>>,
}

/// A block as sequences.
#[verifier::ext_equal]
pub struct Timeline {
    pub playing: bool,
    pub pos: int,
    pub steps: Seq<i64>,
    pub releases: Seq<Seq<i64>>,
}

impl View for Block {
    type V = Timeline;

    open spec fn view(&self) -> Timeline {
        Timeline {
            playing: self.playing,
            pos: self.pos as int,
            steps: self.steps@,
            releases: self.releases@.map_values(|v: Vec<i64>| v@),
        }
    }
}

impl Block {
    /// Release times for every track and sample; while the clock runs, samples whose
    /// positions fit.
    pub open spec fn wf(self) -> bool {
        &&& self.releases@.len() == NUM_TRACKS
        &&& forall|t: int|
            0 <= t < NUM_TRACKS ==> #[trigger] self.releases@[t]@.len() == self.steps@.len()
        &&& self.playing ==> countable(self.pos as int, self.steps@.len())
    }
}

/// Whether the samples of a block that starts at `pos` have positions that fit.
pub open spec fn countable(pos: int, samples: nat) -> bool {
    &&& samples <= i64::MAX
    &&& pos + samples - 1 <= i64::MAX
}

/// The sequencer's own state.
#[derive(Clone, Copy)]
pub struct Trafalgar {
    pub voices: [Voice; NUM_TRACKS],
    /// Monotonic sample counter.
    pub sample_clock: u64,
}

/// How a track of the sequencer is played.
pub open spec fn performance_of(shared: Shared, params: Seq<TrackParams>, t: int) -> Performance {
    performance(params[t], shared.gate@[t], shared.pos@[t], shared.erase@[t], shared.gesture@[t])
}

/// Whether any track sounds.
pub open spec fn opens(shared: Shared, params: Seq<TrackParams>) -> bool {
    exists|t: int| 0 <= t < NUM_TRACKS && (#[trigger] performance_of(shared, params, t)).gate_open()
}

/// Whether any track sounds: only then is the position of a block looked at.
pub fn any_open(shared: &Shared, params: &[TrackParams; NUM_TRACKS]) -> (r: bool)
    requires
        forall|t: int| 0 <= t < NUM_TRACKS ==> #[trigger] params@[t].wf(),
    ensures
        r == opens(*shared, params@),
{
    let mut t: usize = 0;
    while t < NUM_TRACKS
        invariant
            t <= NUM_TRACKS,
            forall|t: int| 0 <= t < NUM_TRACKS ==> #[trigger] params@[t].wf(),
            forall|u: int|
                0 <= u < t ==> !(#[trigger] performance_of(*shared, params@, u)).gate_open(),
        decreases NUM_TRACKS - t,
    {
        assert(params@[t as int].wf());
        let pf = perform(&params[t], shared, t);
        assert(pf == performance_of(*shared, params@, t as int));
        if pf.params.hold || pf.touching || pf.has_rec {
            return true;
        }
        t += 1;
    }
    false
}

/// What one block does to a track of the sequencer.
pub open spec fn pass_of(
    voices: Seq<Voice>,
    shared: Shared,
    params: Seq<TrackParams>,
    line: Timeline,
    t: int,
) -> TrackPass {
    track_pass(
        performance_of(shared, params, t),
        Lane { voice: voices[t], cells: shared.gesture@[t] },
        t as u8,
        line.playing,
        line.pos,
        line.steps,
        line.releases[t],
    )
}

/// What the first `n` tracks put out during one block, track after track.
pub open spec fn outputs_of(
    voices: Seq<Voice>,
    shared: Shared,
    params: Seq<TrackParams>,
    line: Timeline,
    n: nat,
) -> Seq<Output>
    decreases n,
{
    if n == 0 {
        Seq::empty()
    } else {
        outputs_of(voices, shared, params, line, (n - 1) as nat) + pass_of(
            voices,
            shared,
            params,
            line,
            n - 1,
        ).out
    }
}

/// Runs one track through a block.
fn process_track(
    voice: &mut Voice,
    shared: &mut Shared,
    params: &TrackParams,
    block: &Block,
    track: usize,
    out: &mut Vec<Output>,
)
    requires
        params.wf(),
        block.wf(),
        track < NUM_TRACKS,
    ensures
        ({
            let pass = track_pass(
                performance(
                    *params,
                    old(shared).gate@[track as int],
                    old(shared).pos@[track as int],
                    old(shared).erase@[track as int],
                    old(shared).gesture@[track as int],
                ),
                Lane { voice: *old(voice), cells: old(shared).gesture@[track as int] },
                track as u8,
                block.playing,
                block.pos as int,
                block.steps@,
                block.releases@[track as int]@,
            );
            &&& *final(voice) == pass.lane.voice
            &&& final(shared).gesture@ == old(shared).gesture@.update(
                track as int,
                pass.lane.cells,
            )
            &&& final(shared).step@ == old(shared).step@.update(track as int, pass.step)
            &&& final(out)@ == old(out)@ + pass.out
            &&& same_controls(*final(shared), *old(shared))
        }),
{
    let pf = perform(params, shared, track);
    let ghost start = Lane { voice: *voice, cells: shared.gesture@[track as int] };
    let ghost loops = shared.gesture@;
    let ghost out0 = out@;
    if !block.playing || !(params.hold || pf.touching || pf.has_rec) {
        push_release(out, voice.playing_note, 0);
        voice.playing_note = None;
        voice.note_off_at = NEVER;
        voice.last_step = IDLE;
        shared.step[track] = IDLE;
        assert(shared.gesture@ =~= loops.update(track as int, start.cells));
        return ;
    }
    let onsets = rotated(pf.density, STEPS, params.rotation as usize);
    let accents = euclid(params.accent as usize, STEPS);
    let ghost steps = block.steps@;
    let ghost rels = block.releases@[track as int]@;
    let mut s: usize = 0;
    assert(shared.gesture@ =~= loops.update(track as int, start.cells));
    assert(out@ =~= out0 + Seq::<Output>::empty());
    while s < block.steps.len()
        invariant
            s <= block.steps@.len(),
            block.playing,
            block.wf(),
            pf.wf(),
            track < NUM_TRACKS,
            steps == block.steps@,
            rels == block.releases@[track as int]@,
            rels.len() == steps.len(),
            loops.len() == NUM_TRACKS,
            onsets@ == rotated_pattern(
                pf.density as nat,
                STEPS as nat,
                pf.params.rotation as nat,
            ),
            accents@ == pattern(pf.params.accent as nat, STEPS as nat),
            *voice == run(
                pf,
                start,
                track as u8,
                block.pos as int,
                steps,
                rels,
                s as nat,
            ).0.voice,
            shared.gesture@ == loops.update(
                track as int,
                run(pf, start, track as u8, block.pos as int, steps, rels, s as nat).0.cells,
            ),
            out@ == out0 + run(
                pf,
                start,
                track as u8,
                block.pos as int,
                steps,
                rels,
                s as nat,
            ).1,
            shared.step == old(shared).step,
            same_controls(*shared, *old(shared)),
        decreases block.steps@.len() - s,
    {
        let ghost (lane, before) = run(
            pf,
            start,
            track as u8,
            block.pos as int,
            steps,
            rels,
            s as nat,
        );
        play_sample(
            &pf,
            &onsets,
            &accents,
            voice,
            &mut shared.gesture,
            track,
            block.pos + s as i64,
            block.steps[s],
            block.releases[track][s],
            (s as u64 % 0x1_0000_0000) as u32,
            out,
        );
        proof {
            let (next, played) = sample_phase(
                pf,
                lane,
                track as u8,
                block.pos + s,
                steps[s as int],
                rels[s as int],
                label(s as nat),
            );
            assert(run(pf, start, track as u8, block.pos as int, steps, rels, (s + 1) as nat) == (
                next,
                before + played,
            ));
            assert(out0 + before + played =~= out0 + (before + played));
            assert(shared.gesture@ =~= loops.update(track as int, next.cells));
        }
        s += 1;
    }
    shared.step[track] = voice.last_step;
}

/// What the first `n` voices put out when they are silenced at the start of a block.
pub open spec fn releases_of(voices: Seq<Voice>, n: nat) -> Seq<Output>
    decreases n,
{
    if n == 0 {
        Seq::empty()
    } else {
        releases_of(voices, (n - 1) as nat) + release(voices[n - 1].playing_note, 0)
    }
}

/// What the sequencer is asked to play: the state and the parameters that it finds, and the
/// block, if there is a transport to follow.
#[verifier::ext_equal]
pub struct Call {
    pub shared: Shared,
    pub params: Seq<TrackParams>,
    pub line: Option<Timeline>,
}

/// What a call does to a track. Without a transport the sounding note is released and the
/// playhead goes idle.
pub open spec fn call_pass(voices: Seq<Voice>, call: Call, t: int) -> TrackPass {
    match call.line {
        Some(line) => pass_of(voices, call.shared, call.params, line, t),
        None => TrackPass {
            lane: Lane { voice: silenced(voices[t]), cells: call.shared.gesture@[t] },
            step: IDLE,
            out: release(voices[t].playing_note, 0),
        },
    }
}

/// What the first `n` tracks put out during a call, track after track.
pub open spec fn call_outputs(voices: Seq<Voice>, call: Call, n: nat) -> Seq<Output>
    decreases n,
{
    if n == 0 {
        Seq::empty()
    } else {
        call_outputs(voices, call, (n - 1) as nat) + call_pass(voices, call, n - 1).out
    }
}

/// The voices after a call.
pub open spec fn call_voices(voices: Seq<Voice>, call: Call) -> Seq<Voice> {
    Seq::new(NUM_TRACKS as nat, |t: int| call_pass(voices, call, t).lane.voice)
}

/// What a call leaves behind: the voices, the loops and the playheads of every track, and
/// what they put out, track after track. The rest of the shared state stays.
pub open spec fn call_result(
    voices: Seq<Voice>,
    call: Call,
    after: Seq<Voice>,
    shared: Shared,
    out: Seq<Output>,
) -> bool {
    &&& out == call_outputs(voices, call, NUM_TRACKS as nat)
    &&& after == call_voices(voices, call)
    &&& forall|t: int|
        #![trigger shared.gesture@[t]]
        #![trigger shared.step@[t]]
        0 <= t < NUM_TRACKS ==> {
            let pass = call_pass(voices, call, t);
            &&& shared.gesture@[t] == pass.lane.cells
            &&& shared.step@[t] == pass.step
        }
    &&& same_controls(shared, call.shared)
}

/// No voice sounds.
pub open spec fn all_silent(voices: Seq<Voice>) -> bool {
    forall|t: int| 0 <= t < NUM_TRACKS ==> (#[trigger] voices[t]).playing_note is None
}

/// The state that a track's dice start in.
pub open spec fn seed(track: int) -> u64 {
    ((0x9E37_79B9_7F4A_7C15 + track * 0x1234_5678_9ABC_DEF1) % 0x1_0000_0000_0000_0000) as u64
}

/// The voice that a track starts with.
pub open spec fn initial_voice(track: int) -> Voice {
    Voice { last_step: IDLE, playing_note: None, note_off_at: NEVER, rng: seed(track) }
}

/// The voice that a track starts with.
fn new_voice(track: usize) -> (r: Voice)
    requires
        track < NUM_TRACKS,
    ensures
        r == initial_voice(track as int),
{
    let rng: u64 = 0x9E37_79B9_7F4A_7C15u64.wrapping_add(
        (track as u64).wrapping_mul(0x1234_5678_9ABC_DEF1),
    );
    Voice { last_step: IDLE, playing_note: None, note_off_at: NEVER, rng }
}

impl Default for Trafalgar {
    /// Four idle voices.
    fn default() -> (r: Self)
        ensures
            r.voices@ == Seq::new(NUM_TRACKS as nat, |t: int| initial_voice(t)),
            all_silent(r.voices@),
            r.sample_clock == 0,
    {
        let r = Trafalgar {
            voices: [new_voice(0), new_voice(1), new_voice(2), new_voice(3)],
            sample_clock: 0,
        };
        assert(r.voices@ =~= Seq::new(NUM_TRACKS as nat, |t: int| initial_voice(t)));
        r
    }
}

/// A voice that has forgotten what it was playing.
pub open spec fn forgotten(voice: Voice) -> Voice {
    Voice { last_step: IDLE, ..silenced(voice) }
}

/// The sample counter after a block: it starts over after 2^64 samples.
pub open spec fn advanced(clock: u64, samples: u64) -> u64 {
    ((clock + samples) % 0x1_0000_0000_0000_0000) as u64
}

impl Trafalgar {
    /// Forgets what is playing. The dice go on from where they are.
    pub fn reset(&mut self)
        ensures
            final(self).voices@ == Seq::new(
                NUM_TRACKS as nat,
                |t: int| Voice { last_step: IDLE, ..silenced(old(self).voices@[t]) },
            ),
            forall|t: int|
                0 <= t < NUM_TRACKS ==> #[trigger] final(self).voices@[t] == forgotten(
                    old(self).voices@[t],
                ),
            all_silent(final(self).voices@),
            final(self).sample_clock == old(self).sample_clock,
    {
        let mut t: usize = 0;
        let ghost goal = Seq::new(
            NUM_TRACKS as nat,
            |t: int| Voice { last_step: IDLE, ..silenced(old(self).voices@[t]) },
        );
        while t < NUM_TRACKS
            invariant
                t <= NUM_TRACKS,
                goal == Seq::new(
                    NUM_TRACKS as nat,
                    |t: int| Voice { last_step: IDLE, ..silenced(old(self).voices@[t]) },
                ),
                forall|u: int| 0 <= u < t ==> self.voices@[u] == goal[u],
                forall|u: int| t <= u < NUM_TRACKS ==> self.voices@[u] == old(self).voices@[u],
                self.sample_clock == old(self).sample_clock,
            decreases NUM_TRACKS - t,
        {
            let rng: u64 = self.voices[t].rng;
            self.voices[t] = Voice { last_step: IDLE, playing_note: None, note_off_at: NEVER, rng };
            t += 1;
        }
        assert(self.voices@ =~= goal);
    }

    /// Moves the sample counter on by a block and returns where the block starts.
    pub fn advance(&mut self, samples: u64) -> (r: u64)
        ensures
            r == old(self).sample_clock,
            final(self).sample_clock == (old(self).sample_clock + samples) % 0x1_0000_0000_0000_0000,
            final(self).sample_clock == advanced(old(self).sample_clock, samples),
            final(self).voices == old(self).voices,
    {
        let start: u64 = self.sample_clock;
        self.sample_clock = start.wrapping_add(samples);
        start
    }

    /// Without a transport there is nothing to follow: every sounding note is released and
    /// every playhead goes idle.
    pub fn halt(&mut self, shared: &mut Shared) -> (r: Vec<Output>)
        ensures
            r@ == releases_of(old(self).voices@, NUM_TRACKS as nat),
            final(self).voices@ == Seq::new(
                NUM_TRACKS as nat,
                |t: int| silenced(old(self).voices@[t]),
            ),
            final(self).sample_clock == old(self).sample_clock,
            final(shared).step@ == Seq::new(NUM_TRACKS as nat, |t: int| IDLE),
            final(shared).gesture == old(shared).gesture,
            same_controls(*final(shared), *old(shared)),
    {
        let mut r: Vec<Output> = Vec::new();
        let mut t: usize = 0;
        let ghost before = self.voices@;
        while t < NUM_TRACKS
            invariant
                t <= NUM_TRACKS,
                before == old(self).voices@,
                r@ == releases_of(before, t as nat),
                forall|u: int| 0 <= u < t ==> self.voices@[u] == silenced(before[u]),
                forall|u: int| t <= u < NUM_TRACKS ==> self.voices@[u] == before[u],
                forall|u: int| 0 <= u < t ==> shared.step@[u] == IDLE,
                self.sample_clock == old(self).sample_clock,
                shared.gesture == old(shared).gesture,
                same_controls(*shared, *old(shared)),
            decreases NUM_TRACKS - t,
        {
            let v = self.voices[t];
            push_release(&mut r, v.playing_note, 0);
            self.voices[t] = Voice {
                last_step: v.last_step,
                playing_note: None,
                note_off_at: NEVER,
                rng: v.rng,
            };
            shared.step[t] = IDLE;
            t += 1;
        }
        assert(self.voices@ =~= Seq::new(NUM_TRACKS as nat, |t: int| silenced(before[t])));
        assert(shared.step@ =~= Seq::new(NUM_TRACKS as nat, |t: int| IDLE));
        r
    }

    /// Plays every track through a block and returns what they put out, track after track.
    pub fn play(
        &mut self,
        shared: &mut Shared,
        params: &[TrackParams; NUM_TRACKS],
        block: &Block,
    ) -> (r: Vec<Output>)
        requires
            block.wf(),
            forall|t: int| 0 <= t < NUM_TRACKS ==> #[trigger] params@[t].wf(),
        ensures
            r@ == outputs_of(
                old(self).voices@,
                *old(shared),
                params@,
                block@,
                NUM_TRACKS as nat,
            ),
            forall|t: int|
                0 <= t < NUM_TRACKS ==> {
                    let pass = pass_of(old(self).voices@, *old(shared), params@, block@, t);
                    &&& #[trigger] final(self).voices@[t] == pass.lane.voice
                    &&& final(shared).gesture@[t] == pass.lane.cells
                    &&& final(shared).step@[t] == pass.step
                },
            final(self).sample_clock == old(self).sample_clock,
            same_controls(*final(shared), *old(shared)),
    {
        let mut r: Vec<Output> = Vec::new();
        let mut t: usize = 0;
        let ghost before = self.voices@;
        let ghost world = *shared;
        while t < NUM_TRACKS
            invariant
                t <= NUM_TRACKS,
                block.wf(),
                forall|t: int| 0 <= t < NUM_TRACKS ==> #[trigger] params@[t].wf(),
                before == old(self).voices@,
                world == *old(shared),
                r@ == outputs_of(before, world, params@, block@, t as nat),
                forall|u: int|
                    0 <= u < t ==> {
                        let pass = pass_of(before, world, params@, block@, u);
                        &&& #[trigger] self.voices@[u] == pass.lane.voice
                        &&& shared.gesture@[u] == pass.lane.cells
                        &&& shared.step@[u] == pass.step
                    },
                forall|u: int| t <= u < NUM_TRACKS ==> self.voices@[u] == before[u],
                forall|u: int|
                    t <= u < NUM_TRACKS ==> #[trigger] shared.gesture@[u] == world.gesture@[u],
                self.sample_clock == old(self).sample_clock,
                same_controls(*shared, world),
            decreases NUM_TRACKS - t,
        {
            let mut voice = self.voices[t];
            process_track(&mut voice, shared, &params[t], block, t, &mut r);
            self.voices[t] = voice;
            t += 1;
        }
        r
    }
}

} // verus!
