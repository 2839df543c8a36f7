//! Which notes sound, told from the parameters, the pads and the loops alone.

use crate::chance::next_state;
use crate::engine::{
    advanced, call_outputs, call_pass, call_voices, fire, forgotten, gate_phase, initial_voice,
    label, opens, pass_of, performance, performance_of, release, run, sample_phase, seed, step_phase, Call, Lane, Note,
    NoteEvent, Output, Performance, Timeline, Voice,
};
use crate::euclid::pattern;
use crate::gesture::{LOOP_CELLS, NUM_TRACKS};
use crate::laws::timing_of;
use crate::params::TrackParams;
use crate::scale::semitones;
use crate::shared::Shared;
use crate::single::{degree_of, density_of};
use vstd::arithmetic::div_mod::lemma_mod_bound;
use vstd::prelude::*;

verus! {

/// What a track is given for a block: its parameters, its pad and its loop.
#[verifier::ext_equal]
pub struct Given {
    pub params: TrackParams,
    pub touched: bool,
    pub pad: u64,
    pub erase: bool,
    pub cells: Seq<i32>,
}

/// What a track of the sequencer is given.
pub open spec fn given(shared: Shared, params: Seq<TrackParams>, t: int) -> Given {
    Given {
        params: params[t],
        touched: shared.gate@[t],
        pad: shared.pos@[t],
        erase: shared.erase@[t],
        cells: shared.gesture@[t],
    }
}

impl Given {
    /// Something is recorded in the bars that the loop plays.
    pub open spec fn recorded(self) -> bool {
        exists|i: int| 0 <= i < 16 * self.params.length && #[trigger] self.cells[i] != -1
    }

    /// The loop plays by itself.
    pub open spec fn replays(self) -> bool {
        !self.touched && self.recorded()
    }

    /// The scale degree asked for: the pad's while it is touched.
    pub open spec fn degree(self) -> int {
        if self.touched {
            degree_of((self.pad / 0x1_0000_0000) as u32, 15) as int
        } else {
            self.params.pitch as int
        }
    }

    /// The onsets asked for: the pad's while it is touched.
    pub open spec fn onsets(self) -> int {
        if self.touched {
            density_of((self.pad % 0x1_0000_0000) as u32, 15) as int
        } else {
            self.params.density as int
        }
    }

    /// The cell of the loop that a step stands over.
    pub open spec fn cell(self, stp: int) -> i32 {
        self.cells[stp % (16 * self.params.length)]
    }

    /// A step that the generator plays on.
    pub open spec fn struck(self, stp: int) -> bool {
        ((stp - self.params.rotation) % 16 * self.onsets()) % 16 < self.onsets()
    }

    /// A step that must sound, whatever the dice say.
    pub open spec fn must_sound(self, stp: int) -> bool {
        if self.replays() {
            !self.erase && self.cell(stp) >= 0
        } else {
            self.struck(stp) && !self.params.percussive
        }
    }

    /// The note that a step sounds if it sounds.
    pub open spec fn note(self, stp: int) -> int {
        if self.replays() {
            self.cell(stp) as int % 256
        } else if self.params.percussive {
            self.params.note as int
        } else {
            let n = self.params.note + semitones(self.params.scale, self.degree() as nat);
            if n < 127 {
                n
            } else {
                127
            }
        }
    }

    /// The velocity of a step: the accent level where the accents fall.
    pub open spec fn velocity(self, stp: int) -> u32 {
        if (stp % 16 * self.params.accent) % 16 < self.params.accent {
            self.params.accent_vel
        } else {
            self.params.base_vel
        }
    }

    /// A step that sounds at all.
    pub open spec fn may_sound(self, stp: int) -> bool {
        if self.replays() {
            !self.erase && self.cell(stp) >= 0
        } else {
            self.struck(stp)
        }
    }
}

/// The start of a note that a step calls for.
pub open spec fn start_of(g: Given, stp: int, timing: u32) -> Output {
    Output::Event(
        NoteEvent::NoteOn {
            timing,
            channel: (g.params.channel - 1) as u8,
            note: g.note(stp) as u8,
            velocity: g.velocity(stp),
        },
    )
}

/// The clock comes to another step on sample `i`.
pub open spec fn turns(last_step: i64, steps: Seq<i64>, i: int) -> bool {
    steps[i] != if i == 0 {
        last_step
    } else {
        steps[i - 1]
    }
}

/// How what is given is played.
pub open spec fn played_as(g: Given) -> Performance {
    performance(g.params, g.touched, g.pad, g.erase, g.cells)
}

/// What the cell under a step holds after erasing.
spec fn under(pf: Performance, lane: Lane, stp: i64) -> i32 {
    if pf.erase {
        -1i32
    } else {
        lane.cells[stp as int % pf.params.loop_steps()]
    }
}

proof fn lemma_outcome_of_given(g: Given, lane: Lane, stp: i64)
    requires
        g.params.wf(),
        g.cells.len() == LOOP_CELLS,
        lane.cells.len() == LOOP_CELLS,
        !g.touched && !g.erase ==> lane.cells == g.cells,
    ensures
        ({
            let pf = played_as(g);
            let (outcome, rng) = pf.sounded(
                stp as int % 16,
                under(pf, lane, stp),
                lane.voice.rng,
            );
            let rolls = g.params.percussive && !g.replays() && g.struck(stp as int);
            &&& rng == if rolls {
                next_state(lane.voice.rng)
            } else {
                lane.voice.rng
            }
            &&& rolls ==> (outcome is Some <==> 15 * (rng / 0x100_0000_0000) < g.degree()
                * 0x100_0000)
            &&& !rolls ==> (outcome is Some <==> g.may_sound(stp as int))
            &&& outcome matches Some(n) ==> n == g.note(stp as int)
            &&& 0 <= g.note(stp as int) <= 255
        }),
{
    let pf = played_as(g);
    lemma_mod_bound(stp as int, pf.params.loop_steps());
    let idx = stp as int % 16;
    assert(pf.params.loop_steps() == 16 * g.params.length);
    assert(pf.has_rec == g.recorded());
    assert((idx - g.params.rotation) % 16 == (stp - g.params.rotation) % 16);
    assert(pf.density == g.onsets());
    assert(pf.onset(idx) == g.struck(stp as int));
}

proof fn lemma_velocity_of_given(g: Given, stp: i64)
    requires
        g.params.wf(),
    ensures
        played_as(g).velocity(stp as int % 16) == g.velocity(stp as int),
        played_as(g).channel() == g.params.channel - 1,
{
}

/// The one note that a step starts is that of its outcome.
proof fn lemma_starts_of_step(
    pf: Performance,
    lane: Lane,
    track: u8,
    stp: i64,
    release_at: i64,
    timing: u32,
)
    ensures
        ({
            let out = step_phase(pf, lane, track, stp, release_at, timing).1;
            let idx = stp as int % 16;
            let outcome = pf.sounded(idx, under(pf, lane, stp), lane.voice.rng).0;
            let on = Output::Event(
                NoteEvent::NoteOn {
                    timing,
                    channel: pf.channel(),
                    note: outcome->0,
                    velocity: pf.velocity(idx),
                },
            );
            &&& forall|i: int|
                0 <= i < out.len() ==> (#[trigger] out[i] matches Output::Event(
                    NoteEvent::NoteOn { .. },
                ) ==> outcome is Some && out[i] == on)
            &&& outcome is Some ==> out.contains(on)
        }),
{
    reveal(step_phase);
    let idx = stp as int % 16;
    let (outcome, rng) = pf.sounded(idx, under(pf, lane, stp), lane.voice.rng);
    let voice = Voice { last_step: stp, rng, ..lane.voice };
    let out = step_phase(pf, lane, track, stp, release_at, timing).1;
    if let Some(note) = outcome {
        let fired = fire(pf, voice, track, note, idx, release_at, timing).1;
        assert(out == fired);
        let at: int = if pf.params.portamento {
            1
        } else {
            1 + release(voice.playing_note, timing).len() as int
        };
        assert(0 <= at < out.len());
        assert(out[at] == Output::Event(
            NoteEvent::NoteOn {
                timing,
                channel: pf.channel(),
                note,
                velocity: pf.velocity(idx),
            },
        ));
    }
}

proof fn lemma_step_of_given(
    g: Given,
    lane: Lane,
    track: u8,
    stp: i64,
    release_at: i64,
    timing: u32,
)
    requires
        g.params.wf(),
        g.cells.len() == LOOP_CELLS,
        lane.cells.len() == LOOP_CELLS,
        !g.touched && !g.erase ==> lane.cells == g.cells,
    ensures
        ({
            let pf = played_as(g);
            let out = step_phase(pf, lane, track, stp, release_at, timing).1;
            let outcome = pf.sounded(stp as int % 16, under(pf, lane, stp), lane.voice.rng).0;
            &&& forall|i: int|
                0 <= i < out.len() ==> (#[trigger] out[i] matches Output::Event(
                    NoteEvent::NoteOn { .. },
                ) ==> g.may_sound(stp as int) && out[i] == start_of(g, stp as int, timing))
            &&& g.must_sound(stp as int) ==> out.contains(start_of(g, stp as int, timing))
            &&& outcome is Some <==> out.contains(start_of(g, stp as int, timing))
        }),
{
    let pf = played_as(g);
    lemma_outcome_of_given(g, lane, stp);
    lemma_velocity_of_given(g, stp);
    lemma_starts_of_step(pf, lane, track, stp, release_at, timing);
}

proof fn lemma_run_of_given(
    g: Given,
    start: Lane,
    track: u8,
    pos: int,
    steps: Seq<i64>,
    releases: Seq<i64>,
    n: nat,
)
    requires
        g.params.wf(),
        g.cells.len() == LOOP_CELLS,
        start.cells == g.cells,
        n <= 0x1_0000_0000,
    ensures
        ({
            let (lane, out) = run(played_as(g), start, track, pos, steps, releases, n);
            &&& lane.cells.len() == LOOP_CELLS
            &&& !g.touched && !g.erase ==> lane.cells == g.cells
            &&& lane.voice.last_step == if n == 0 {
                start.voice.last_step
            } else {
                steps[n - 1]
            }
            &&& forall|j: int|
                0 <= j < out.len() ==> (#[trigger] out[j] matches Output::Event(
                    NoteEvent::NoteOn { timing, channel, note, velocity },
                ) ==> {
                    &&& timing < n
                    &&& turns(start.voice.last_step, steps, timing as int)
                    &&& g.may_sound(steps[timing as int] as int)
                    &&& out[j] == start_of(g, steps[timing as int] as int, timing)
                })
            &&& forall|i: int|
                0 <= i < n && #[trigger] turns(start.voice.last_step, steps, i) && g.must_sound(
                    steps[i] as int,
                ) ==> out.contains(start_of(g, steps[i] as int, i as u32))
        }),
    decreases n,
{
    let pf = played_as(g);
    if n > 0 {
        let s = (n - 1) as nat;
        lemma_run_of_given(g, start, track, pos, steps, releases, s);
        let (lane, before) = run(pf, start, track, pos, steps, releases, s);
        let (stp, rel) = (steps[s as int], releases[s as int]);
        let (after, out) = sample_phase(pf, lane, track, pos + s, stp, rel, label(s));
        let (_, all) = run(pf, start, track, pos, steps, releases, n);
        assert(label(s) == s);
        assert(all == before + out);
        reveal(sample_phase);
        let (gated, off) = gate_phase(lane.voice, pos + s, label(s));
        let ready = Lane { voice: gated, cells: lane.cells };
        assert(forall|j: int|
            0 <= j < off.len() ==> (#[trigger] off[j] matches Output::Event(
                NoteEvent::NoteOff { .. },
            )));
        if stp != gated.last_step {
            assert(turns(start.voice.last_step, steps, s as int));
            lemma_step_of_given(g, ready, track, stp, rel, label(s));
            let played = step_phase(pf, ready, track, stp, rel, label(s)).1;
            assert(out == off + played);
            lemma_mod_bound(stp as int, pf.params.loop_steps());
            assert(after.cells.len() == LOOP_CELLS && after.voice.last_step == stp) by {
                reveal(step_phase);
            }
            if !g.touched && !g.erase {
                assert(after.cells =~= g.cells) by {
                    reveal(step_phase);
                }
            }
            assert forall|j: int| 0 <= j < all.len() implies (#[trigger] all[j] matches Output::Event(
                NoteEvent::NoteOn { timing, channel, note, velocity },
            ) ==> {
                &&& timing < n
                &&& turns(start.voice.last_step, steps, timing as int)
                &&& g.may_sound(steps[timing as int] as int)
                &&& all[j] == start_of(g, steps[timing as int] as int, timing)
            }) by {
                if j < before.len() {
                    assert(all[j] == before[j]);
                } else if j < before.len() + off.len() {
                    assert(all[j] == off[j - before.len()]);
                } else {
                    assert(all[j] == played[j - before.len() - off.len()]);
                }
            }
        } else {
            assert(out == off);
            assert forall|j: int| 0 <= j < all.len() implies (#[trigger] all[j] matches Output::Event(
                NoteEvent::NoteOn { timing, channel, note, velocity },
            ) ==> {
                &&& timing < n
                &&& turns(start.voice.last_step, steps, timing as int)
                &&& g.may_sound(steps[timing as int] as int)
                &&& all[j] == start_of(g, steps[timing as int] as int, timing)
            }) by {
                if j < before.len() {
                    assert(all[j] == before[j]);
                } else {
                    assert(all[j] == off[j - before.len()]);
                }
            }
        }
        assert forall|i: int|
            0 <= i < n && #[trigger] turns(start.voice.last_step, steps, i) && g.must_sound(
                steps[i] as int,
            ) implies all.contains(start_of(g, steps[i] as int, i as u32)) by {
            let on = start_of(g, steps[i] as int, i as u32);
            if i < s {
                let j = choose|j: int| 0 <= j < before.len() && before[j] == on;
                assert(all[j] == on);
            } else {
                let played = step_phase(pf, ready, track, stp, rel, label(s)).1;
                let j = choose|j: int| 0 <= j < played.len() && played[j] == on;
                assert(all[before.len() + off.len() + j] == on);
            }
        }
    }
}

/// Every note that a track starts is called for: the clock is running and has come to
/// another step; the track is held, touched or has something recorded; the step is struck
/// by the pattern, or recorded; and the note, its channel and its velocity are those of the
/// step, with the accent level where the accents fall and the base velocity elsewhere. And
/// every note that is called for is started: a recorded one, or one that a melodic track is
/// struck for.
pub proof fn law_the_right_notes_start(
    voices: Seq<Voice>,
    shared: Shared,
    params: Seq<TrackParams>,
    line: Timeline,
    t: int,
)
    requires
        0 <= t < NUM_TRACKS,
        params[t].wf(),
        line.steps.len() <= 0x1_0000_0000,
    ensures
        ({
            let g = given(shared, params, t);
            let out = pass_of(voices, shared, params, line, t).out;
            let last = voices[t].last_step;
            &&& forall|j: int|
                0 <= j < out.len() ==> (#[trigger] out[j] matches Output::Event(
                    NoteEvent::NoteOn { timing, channel, note, velocity },
                ) ==> {
                    let stp = line.steps[timing as int] as int;
                    &&& line.playing
                    &&& g.params.hold || g.touched || g.recorded()
                    &&& timing < line.steps.len()
                    &&& turns(last, line.steps, timing as int)
                    &&& g.may_sound(stp)
                    &&& channel == g.params.channel - 1
                    &&& note == g.note(stp)
                    &&& velocity == g.velocity(stp)
                })
            &&& line.playing && (g.params.hold || g.touched || g.recorded()) ==> forall|i: int|
                0 <= i < line.steps.len() && #[trigger] turns(last, line.steps, i) && g.must_sound(
                    line.steps[i] as int,
                ) ==> out.contains(start_of(g, line.steps[i] as int, i as u32))
        }),
{
    let g = given(shared, params, t);
    let pf = performance_of(shared, params, t);
    let start = Lane { voice: voices[t], cells: shared.gesture@[t] };
    assert(pf == played_as(g));
    assert(pf.has_rec == g.recorded());
    let out = pass_of(voices, shared, params, line, t).out;
    if line.playing && pf.gate_open() {
        lemma_run_of_given(
            g,
            start,
            t as u8,
            line.pos,
            line.steps,
            line.releases[t],
            line.steps.len(),
        );
        assert forall|j: int| 0 <= j < out.len() implies (#[trigger] out[j] matches Output::Event(
            NoteEvent::NoteOn { timing, channel, note, velocity },
        ) ==> {
            let stp = line.steps[timing as int] as int;
            &&& channel == g.params.channel - 1
            &&& note == g.note(stp)
            &&& velocity == g.velocity(stp)
        }) by {
            if let Output::Event(NoteEvent::NoteOn { timing, channel, note, velocity }) = out[j] {
                let stp = line.steps[timing as int] as int;
                assert(out[j] == start_of(g, stp, timing));
                assert(0 <= g.note(stp) <= 255);
            }
        }
    } else {
        assert(out == release(voices[t].playing_note, 0));
    }
}

/// What a step leaves behind. The dice roll once where a percussive track is struck, and at
/// no other time; the roll hits if, out of 2^24, it lies below the degree's share of fifteen.
/// A touched and armed track writes what it sounds over its cell, or a rest; otherwise an
/// erased track empties its cell; no other cell changes.
pub proof fn law_a_step_keeps_books(
    g: Given,
    lane: Lane,
    track: u8,
    stp: i64,
    release_at: i64,
    timing: u32,
)
    requires
        g.params.wf(),
        g.cells.len() == LOOP_CELLS,
        lane.cells.len() == LOOP_CELLS,
        !g.touched && !g.erase ==> lane.cells == g.cells,
    ensures
        ({
            let (after, out) = step_phase(played_as(g), lane, track, stp, release_at, timing);
            let rolls = g.params.percussive && !g.replays() && g.struck(stp as int);
            let roll = after.voice.rng / 0x100_0000_0000;
            let sounds = out.contains(start_of(g, stp as int, timing));
            let here = stp as int % (16 * g.params.length);
            &&& after.voice.last_step == stp
            &&& after.voice.rng == if rolls {
                next_state(lane.voice.rng)
            } else {
                lane.voice.rng
            }
            &&& rolls ==> (sounds <==> 15 * roll < g.degree() * 0x100_0000)
            &&& !rolls ==> (sounds <==> g.may_sound(stp as int))
            &&& after.cells.len() == LOOP_CELLS
            &&& forall|i: int|
                0 <= i < LOOP_CELLS && i != here ==> #[trigger] after.cells[i] == lane.cells[i]
            &&& after.cells[here] == if g.touched && g.params.record {
                if sounds {
                    g.note(stp as int)
                } else {
                    -2
                }
            } else if g.erase {
                -1
            } else {
                lane.cells[here] as int
            }
            &&& sounds ==> after.voice.playing_note == Some(
                (g.note(stp as int) as u8, (g.params.channel - 1) as u8),
            )
            &&& sounds && !g.params.portamento ==> after.voice.note_off_at == release_at
            &&& sounds && g.params.portamento ==> after.voice.note_off_at == i64::MAX
            &&& !sounds && !g.params.portamento ==> after.voice.playing_note is None
            &&& !sounds && g.params.portamento ==> after.voice.playing_note
                == lane.voice.playing_note && after.voice.note_off_at == lane.voice.note_off_at
        }),
{
    let pf = played_as(g);
    lemma_outcome_of_given(g, lane, stp);
    lemma_step_of_given(g, lane, track, stp, release_at, timing);
    lemma_mod_bound(stp as int, pf.params.loop_steps());
    assert(pf.params.loop_steps() == 16 * g.params.length);
    reveal(step_phase);
}

/// A note sounds until its release time comes: from the step that it starts on to the last
/// sample before the one at or past that time, as long as the clock stays on the step. With
/// portamento it is held on.
pub proof fn law_a_note_sounds_until_its_release(
    g: Given,
    start: Lane,
    track: u8,
    pos: int,
    steps: Seq<i64>,
    releases: Seq<i64>,
    k: nat,
    n: nat,
)
    requires
        g.params.wf(),
        g.cells.len() == LOOP_CELLS,
        start.cells == g.cells,
        k < n <= steps.len() <= 0x1_0000_0000,
        pos + n <= i64::MAX,
        turns(start.voice.last_step, steps, k as int),
        g.must_sound(steps[k as int] as int),
        forall|j: int| k < j < n ==> #[trigger] steps[j] == steps[k as int],
    ensures
        ({
            let stp = steps[k as int] as int;
            let sounding = run(
                played_as(g),
                start,
                track,
                pos,
                steps,
                releases,
                n,
            ).0.voice.playing_note;
            let note = Some((g.note(stp) as u8, (g.params.channel - 1) as u8));
            let over = exists|j: int|
                k < j < n && #[trigger] steps[j] == stp && pos + j >= releases[k as int];
            sounding == if !g.params.portamento && over {
                None
            } else {
                note
            }
        }),
{
    lemma_note_sounds(g, start, track, pos, steps, releases, k, n);
}

proof fn lemma_note_sounds(
    g: Given,
    start: Lane,
    track: u8,
    pos: int,
    steps: Seq<i64>,
    releases: Seq<i64>,
    k: nat,
    n: nat,
)
    requires
        g.params.wf(),
        g.cells.len() == LOOP_CELLS,
        start.cells == g.cells,
        k < n <= steps.len() <= 0x1_0000_0000,
        pos + n <= i64::MAX,
        turns(start.voice.last_step, steps, k as int),
        g.must_sound(steps[k as int] as int),
        forall|j: int| k < j < n ==> #[trigger] steps[j] == steps[k as int],
    ensures
        ({
            let stp = steps[k as int] as int;
            let voice = run(played_as(g), start, track, pos, steps, releases, n).0.voice;
            let note = Some((g.note(stp) as u8, (g.params.channel - 1) as u8));
            let over = exists|j: int|
                k < j < n && #[trigger] steps[j] == stp && pos + j >= releases[k as int];
            if !g.params.portamento && over {
                voice.playing_note is None
            } else {
                &&& voice.playing_note == note
                &&& voice.note_off_at == if g.params.portamento {
                    i64::MAX
                } else {
                    releases[k as int]
                }
            }
        }),
    decreases n,
{
    let pf = played_as(g);
    let s = (n - 1) as nat;
    lemma_run_of_given(g, start, track, pos, steps, releases, s);
    let lane = run(pf, start, track, pos, steps, releases, s).0;
    let gated = gate_phase(lane.voice, pos + s, label(s)).0;
    reveal(sample_phase);
    if s == k {
        let ready = Lane { voice: gated, cells: lane.cells };
        law_a_step_keeps_books(
            g,
            ready,
            track,
            steps[k as int],
            releases[k as int],
            label(s),
        );
        lemma_step_of_given(
            g,
            ready,
            track,
            steps[k as int],
            releases[k as int],
            label(s),
        );
    } else {
        lemma_note_sounds(g, start, track, pos, steps, releases, k, s);
        assert(steps[s as int] == steps[k as int]);
        let stp = steps[k as int] as int;
        let before = exists|j: int|
            k < j < s && #[trigger] steps[j] == stp && pos + j >= releases[k as int];
        let over = exists|j: int|
            k < j < n && #[trigger] steps[j] == stp && pos + j >= releases[k as int];
        if before {
            assert(over);
        } else if over {
            let j = choose|j: int|
                k < j < n && #[trigger] steps[j] == stp && pos + j >= releases[k as int];
            assert(j == s);
        }
    }
}

/// The release of a sounding note, on the channel that it was started on.
pub open spec fn end_of(playing_note: Option<(u8, u8)>, timing: u32) -> Seq<Output> {
    if playing_note is Some {
        seq![
            Output::Event(
                NoteEvent::NoteOff {
                    timing,
                    channel: (playing_note->0).1,
                    note: (playing_note->0).0,
                    velocity: 0,
                },
            ),
        ]
    } else {
        Seq::empty()
    }
}

/// What a step puts out. Where a note starts, the portamento switch goes first, controller
/// 65 at full level or at zero, and the note is mirrored last; in between the old note ends
/// before the new one starts, or after it with portamento. Where none starts the old note
/// ends, unless portamento holds it.
pub proof fn law_a_step_puts_its_note_out(
    g: Given,
    lane: Lane,
    track: u8,
    stp: i64,
    release_at: i64,
    timing: u32,
)
    requires
        g.params.wf(),
        g.cells.len() == LOOP_CELLS,
        lane.cells.len() == LOOP_CELLS,
        !g.touched && !g.erase ==> lane.cells == g.cells,
    ensures
        ({
            let out = step_phase(played_as(g), lane, track, stp, release_at, timing).1;
            let porta = g.params.portamento;
            let cc = Output::Event(
                NoteEvent::MidiCC {
                    timing,
                    channel: (g.params.channel - 1) as u8,
                    cc: 65,
                    value: if porta {
                        0x3f80_0000
                    } else {
                        0
                    },
                },
            );
            let on = start_of(g, stp as int, timing);
            let off = end_of(lane.voice.playing_note, timing);
            let mirror = Output::Osc(
                Note { track, note: g.note(stp as int) as u8, vel: g.velocity(stp as int) },
            );
            out == if out.contains(on) {
                if porta {
                    seq![cc, on] + off + seq![mirror]
                } else {
                    seq![cc] + off + seq![on, mirror]
                }
            } else if porta {
                Seq::empty()
            } else {
                off
            }
        }),
{
    let pf = played_as(g);
    lemma_outcome_of_given(g, lane, stp);
    lemma_velocity_of_given(g, stp);
    lemma_step_of_given(g, lane, track, stp, release_at, timing);
    lemma_mod_bound(stp as int, pf.params.loop_steps());
    assert(pf.params.loop_steps() == 16 * g.params.length);
    reveal(step_phase);
}

/// A voice whose note has ended.
pub open spec fn ended(voice: Voice) -> Voice {
    Voice { playing_note: None, note_off_at: i64::MAX, ..voice }
}

/// What a sample does: first the sounding note ends if its release time has come, and then,
/// where the clock has come to another step, that step is played. On any other sample nothing
/// else happens.
pub proof fn law_a_sample_ends_what_is_due(
    pf: Performance,
    lane: Lane,
    track: u8,
    global: int,
    stp: i64,
    release_at: i64,
    timing: u32,
)
    ensures
        ({
            let due = lane.voice.note_off_at <= global;
            let off = if due {
                end_of(lane.voice.playing_note, timing)
            } else {
                Seq::empty()
            };
            let ready = if due {
                Lane { voice: ended(lane.voice), cells: lane.cells }
            } else {
                lane
            };
            let played = step_phase(pf, ready, track, stp, release_at, timing);
            sample_phase(pf, lane, track, global, stp, release_at, timing) == if stp
                == lane.voice.last_step {
                (ready, off)
            } else {
                (played.0, off + played.1)
            }
        }),
{
    reveal(sample_phase);
}

/// A block is played sample by sample: what is put out on a sample comes behind what was put
/// out before it, and every event of sample `n` is timed at `n`.
pub proof fn law_samples_play_in_turn(
    pf: Performance,
    start: Lane,
    track: u8,
    pos: int,
    steps: Seq<i64>,
    releases: Seq<i64>,
    n: nat,
)
    requires
        n < steps.len() <= 0x1_0000_0000,
    ensures
        run(pf, start, track, pos, steps, releases, 0) == (start, Seq::<Output>::empty()),
        ({
            let (lane, before) = run(pf, start, track, pos, steps, releases, n);
            let (after, out) = sample_phase(
                pf,
                lane,
                track,
                pos + n,
                steps[n as int],
                releases[n as int],
                n as u32,
            );
            &&& run(pf, start, track, pos, steps, releases, n + 1) == (after, before + out)
            &&& after.voice.last_step == steps[n as int]
            &&& forall|i: int|
                0 <= i < out.len() ==> (#[trigger] out[i] matches Output::Event(ev)
                    ==> timing_of(ev) == n)
        }),
{
    reveal(sample_phase);
    reveal(step_phase);
    assert(label(n) == n as u32);
}

/// The playhead shows the step of the block's last sample while a track plays; a track that
/// has no samples to play keeps its step.
pub proof fn law_playheads_show_the_last_step(
    voices: Seq<Voice>,
    shared: Shared,
    params: Seq<TrackParams>,
    line: Timeline,
    t: int,
)
    requires
        0 <= t < NUM_TRACKS,
        line.steps.len() <= 0x1_0000_0000,
    ensures
        ({
            let g = given(shared, params, t);
            let pass = pass_of(voices, shared, params, line, t);
            let open = g.params.hold || g.touched || g.recorded();
            &&& pass.step == pass.lane.voice.last_step
            &&& line.playing && open && line.steps.len() > 0 ==> pass.step == line.steps.last()
            &&& line.playing && open && line.steps.len() == 0 ==> {
                &&& pass.out == Seq::<Output>::empty()
                &&& pass.lane == (Lane { voice: voices[t], cells: shared.gesture@[t] })
            }
            &&& !(line.playing && open) ==> {
                &&& pass.step == -1
                &&& pass.lane.voice.rng == voices[t].rng
                &&& pass.lane.voice.playing_note is None
                &&& pass.lane.voice.note_off_at == i64::MAX
                &&& pass.lane.cells == shared.gesture@[t]
                &&& pass.out == end_of(voices[t].playing_note, 0)
            }
        }),
{
    let g = given(shared, params, t);
    let pf = performance_of(shared, params, t);
    assert(pf == played_as(g));
    assert(pf.has_rec == g.recorded());
    if line.playing && pf.gate_open() && line.steps.len() > 0 {
        law_samples_play_in_turn(
            pf,
            Lane { voice: voices[t], cells: shared.gesture@[t] },
            t as u8,
            line.pos,
            line.steps,
            line.releases[t],
            (line.steps.len() - 1) as nat,
        );
    }
}

/// A call plays the four tracks one after the other, each as if it were alone. Without a
/// transport every sounding note ends at the start of the block, every playhead goes idle,
/// and the loops, the dice and the steps stay as they are.
pub proof fn law_calls_play_the_tracks_in_order(voices: Seq<Voice>, call: Call, t: int)
    requires
        0 <= t < NUM_TRACKS,
    ensures
        call_outputs(voices, call, NUM_TRACKS as nat) == call_pass(voices, call, 0).out + call_pass(
            voices,
            call,
            1,
        ).out + call_pass(voices, call, 2).out + call_pass(voices, call, 3).out,
        call_voices(voices, call).len() == 4,
        call_voices(voices, call)[t] == call_pass(voices, call, t).lane.voice,
        call.line matches Some(line) ==> call_pass(voices, call, t) == pass_of(
            voices,
            call.shared,
            call.params,
            line,
            t,
        ),
        call.line is None ==> {
            let pass = call_pass(voices, call, t);
            &&& pass.out == end_of(voices[t].playing_note, 0)
            &&& pass.lane.voice == ended(voices[t])
            &&& pass.lane.cells == call.shared.gesture@[t]
            &&& pass.step == -1
        },
{
    reveal_with_fuel(call_outputs, 5);
    assert(call_outputs(voices, call, 4) =~= call_pass(voices, call, 0).out + call_pass(
        voices,
        call,
        1,
    ).out + call_pass(voices, call, 2).out + call_pass(voices, call, 3).out);
}

/// Voices start idle and silent. The dice of the first track start at the golden ratio of
/// 2^64, those of each other track a fixed stride further round.
pub proof fn law_voices_start_idle(track: int)
    requires
        0 <= track < NUM_TRACKS,
    ensures
        initial_voice(track).playing_note is None,
        initial_voice(track).note_off_at == i64::MAX,
        initial_voice(track).last_step == -1,
        initial_voice(track).rng == seed(track),
        seed(0) == 0x9E37_79B9_7F4A_7C15,
        (seed(track + 1) - seed(track)) % 0x1_0000_0000_0000_0000 == 0x1234_5678_9ABC_DEF1,
{
}

/// Forgetting starts a voice over but for its dice, and forgetting twice is forgetting once.
pub proof fn law_forgetting_starts_over(voice: Voice, track: int)
    ensures
        forgotten(voice) == (Voice { rng: voice.rng, ..initial_voice(track) }),
        forgotten(forgotten(voice)) == forgotten(voice),
{
}

/// The sample counter counts the samples of all blocks, however they are cut, and moves by
/// the length of each.
pub proof fn law_the_counter_counts_samples(clock: u64, a: u64, b: u64)
    ensures
        a + b <= u64::MAX ==> advanced(advanced(clock, a), b) == advanced(clock, (a + b) as u64),
        (advanced(clock, a) - clock) % 0x1_0000_0000_0000_0000 == a,
{
}

/// The transport's position matters only where a track sounds: one that is held, touched or
/// has something recorded.
pub proof fn law_tracks_open(shared: Shared, params: Seq<TrackParams>)
    ensures
        opens(shared, params) <==> exists|t: int|
            0 <= t < NUM_TRACKS && {
                let g = #[trigger] given(shared, params, t);
                g.params.hold || g.touched || g.recorded()
            },
{
    assert forall|t: int| 0 <= t < NUM_TRACKS implies performance_of(
        shared,
        params,
        t,
    ).gate_open() == {
        let g = #[trigger] given(shared, params, t);
        g.params.hold || g.touched || g.recorded()
    } by {
        let g = given(shared, params, t);
        let pf = performance_of(shared, params, t);
        assert(pf == played_as(g));
        assert(pf.params.loop_steps() == 16 * g.params.length);
        assert(pf.has_rec == g.recorded());
    }
    if opens(shared, params) {
        let t = choose|t: int|
            0 <= t < NUM_TRACKS && (#[trigger] performance_of(shared, params, t)).gate_open();
        let g = given(shared, params, t);
        assert(g.params.hold || g.touched || g.recorded());
    }
}

/// Every note that a track starts has the track's accent level where its accents, dealt out
/// evenly over the bar, fall on the step of the bar, and the track's base velocity on any
/// other step; and it is on the track's channel.
pub proof fn law_notes_have_the_level_of_their_step(
    voices: Seq<Voice>,
    shared: Shared,
    params: Seq<TrackParams>,
    line: Timeline,
    t: int,
)
    requires
        0 <= t < NUM_TRACKS,
        params[t].wf(),
        line.steps.len() <= 0x1_0000_0000,
    ensures
        ({
            let out = pass_of(voices, shared, params, line, t).out;
            forall|j: int|
                0 <= j < out.len() ==> (#[trigger] out[j] matches Output::Event(
                    NoteEvent::NoteOn { timing, channel, note, velocity },
                ) ==> {
                    let step_of_bar = line.steps[timing as int] as int % 16;
                    let accented = pattern(params[t].accent as nat, 16)[step_of_bar];
                    &&& timing < line.steps.len()
                    &&& channel == params[t].channel - 1
                    &&& accented ==> velocity == params[t].accent_vel
                    &&& !accented ==> velocity == params[t].base_vel
                })
        }),
{
    law_the_right_notes_start(voices, shared, params, line, t);
    let out = pass_of(voices, shared, params, line, t).out;
    assert forall|j: int| 0 <= j < out.len() implies (#[trigger] out[j] matches Output::Event(
        NoteEvent::NoteOn { timing, channel, note, velocity },
    ) ==> {
        let step_of_bar = line.steps[timing as int] as int % 16;
        velocity == if pattern(params[t].accent as nat, 16)[step_of_bar] {
            params[t].accent_vel
        } else {
            params[t].base_vel
        }
    }) by {
        if let Output::Event(NoteEvent::NoteOn { timing, channel, note, velocity }) = out[j] {
            let step_of_bar = line.steps[timing as int] as int % 16;
            lemma_mod_bound(line.steps[timing as int] as int, 16);
            assert(pattern(params[t].accent as nat, 16)[step_of_bar] == ((step_of_bar
                * params[t].accent) % 16 < params[t].accent));
        }
    }
}

} // verus!
