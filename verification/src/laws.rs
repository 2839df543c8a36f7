//! What holds of the sequencer's output and memory, whatever is played.

use crate::clock::{block_call, timeline, Transport};
use crate::engine::{
    all_silent, call_pass, call_result, call_voices, fire, gate_phase, has_recording, label,
    pass_of, performance_of, recorded_cell, recorded_note, release, run, sample_phase, seed,
    step_phase, track_pass, Call, Lane, Note, NoteEvent, Output, Performance, Timeline, Voice,
    NEVER, PORTAMENTO_CC,
};
use crate::gesture::{EMPTY, LOOP_CELLS, NUM_TRACKS, STEPS};
use crate::params::TrackParams;
use crate::route::{mirrored, notes_of};
use crate::shared::{same_controls, Shared};
use crate::single::ONE;
use vstd::arithmetic::div_mod::{lemma_fundamental_div_mod, lemma_mod_bound};
use vstd::prelude::*;

verus! {

/// The notes that an output starts, each with its channel.
pub open spec fn started(o: Output) -> Seq<(u8, u8)> {
    match o {
        Output::Event(NoteEvent::NoteOn { timing, channel, note, velocity }) => seq![
            (note, channel),
        ],
        _ => Seq::empty(),
    }
}

/// The notes that an output releases, each with its channel.
pub open spec fn released(o: Output) -> Seq<(u8, u8)> {
    match o {
        Output::Event(NoteEvent::NoteOff { timing, channel, note, velocity }) => seq![
            (note, channel),
        ],
        _ => Seq::empty(),
    }
}

/// The notes that a track starts, as they are to be mirrored.
pub open spec fn audible(o: Output, track: u8) -> Seq<Note> {
    match o {
        Output::Event(NoteEvent::NoteOn { timing, channel, note, velocity }) => seq![
            Note { track, note, vel: velocity },
        ],
        _ => Seq::empty(),
    }
}

/// The notes started in a run of outputs, in order.
pub open spec fn all_started(out: Seq<Output>) -> Seq<(u8, u8)>
    decreases out.len(),
{
    if out.len() == 0 {
        Seq::empty()
    } else {
        all_started(out.drop_last()) + started(out.last())
    }
}

/// The notes released in a run of outputs, in order.
pub open spec fn all_released(out: Seq<Output>) -> Seq<(u8, u8)>
    decreases out.len(),
{
    if out.len() == 0 {
        Seq::empty()
    } else {
        all_released(out.drop_last()) + released(out.last())
    }
}

/// The notes started in a run of outputs, as they are to be mirrored.
pub open spec fn all_audible(out: Seq<Output>, track: u8) -> Seq<Note>
    decreases out.len(),
{
    if out.len() == 0 {
        Seq::empty()
    } else {
        all_audible(out.drop_last(), track) + audible(out.last(), track)
    }
}

/// The sounding note as a run of none or one.
pub open spec fn held(playing_note: Option<(u8, u8)>) -> Seq<(u8, u8)> {
    match playing_note {
        Some(n) => seq![n],
        None => Seq::empty(),
    }
}

proof fn lemma_concat(a: Seq<Output>, b: Seq<Output>, track: u8)
    ensures
        all_started(a + b) == all_started(a) + all_started(b),
        all_released(a + b) == all_released(a) + all_released(b),
        all_audible(a + b, track) == all_audible(a, track) + all_audible(b, track),
        notes_of(a + b) == notes_of(a) + notes_of(b),
    decreases b.len(),
{
    if b.len() == 0 {
        assert(a + b =~= a);
        assert(all_started(a) + all_started(b) =~= all_started(a));
        assert(all_released(a) + all_released(b) =~= all_released(a));
        assert(all_audible(a, track) + all_audible(b, track) =~= all_audible(a, track));
        assert(notes_of(a) + notes_of(b) =~= notes_of(a));
    } else {
        lemma_concat(a, b.drop_last(), track);
        assert((a + b).drop_last() =~= a + b.drop_last());
        assert((a + b).last() == b.last());
        assert(all_started(a + b) =~= all_started(a) + all_started(b));
        assert(all_released(a + b) =~= all_released(a) + all_released(b));
        assert(all_audible(a + b, track) =~= all_audible(a, track) + all_audible(b, track));
        assert(notes_of(a + b) =~= notes_of(a) + notes_of(b));
    }
}

proof fn lemma_single(o: Output, track: u8)
    ensures
        all_started(seq![o]) == started(o),
        all_released(seq![o]) == released(o),
        all_audible(seq![o], track) == audible(o, track),
        notes_of(seq![o]) == mirrored(o),
{
    let s = seq![o];
    assert(s.drop_last() =~= Seq::<Output>::empty());
    assert(s.last() == o);
    assert(all_started(s.drop_last()) =~= Seq::empty());
    assert(all_released(s.drop_last()) =~= Seq::empty());
    assert(all_audible(s.drop_last(), track) =~= Seq::empty());
    assert(notes_of(s.drop_last()) =~= Seq::empty());
    assert(all_started(s) =~= started(o));
    assert(all_released(s) =~= released(o));
    assert(all_audible(s, track) =~= audible(o, track));
    assert(notes_of(s) =~= mirrored(o));
}

/// A release releases the held note, and does nothing else.
proof fn lemma_release(playing_note: Option<(u8, u8)>, timing: u32, track: u8)
    ensures
        all_started(release(playing_note, timing)) == Seq::<(u8, u8)>::empty(),
        all_released(release(playing_note, timing)) == held(playing_note),
        all_audible(release(playing_note, timing), track) == Seq::<Note>::empty(),
        notes_of(release(playing_note, timing)) == Seq::<Note>::empty(),
{
    match playing_note {
        Some((note, channel)) => {
            lemma_single(
                Output::Event(NoteEvent::NoteOff { timing, channel, note, velocity: 0 }),
                track,
            );
        },
        None => {},
    }
}

/// Nothing is released before it is started: at every point of a run of outputs the notes
/// released so far are the first of those held before or started so far.
pub open spec fn released_in_order(before: Option<(u8, u8)>, out: Seq<Output>) -> bool {
    forall|i: int|
        0 <= i <= out.len() ==> all_released(#[trigger] out.take(i)).is_prefix_of(
            held(before) + all_started(out.take(i)),
        )
}

/// What balance means: the note held before and those started are, in order, those
/// released and the note held afterwards; nothing is released before it is started; and
/// every start is mirrored.
pub open spec fn balanced(
    before: Option<(u8, u8)>,
    out: Seq<Output>,
    after: Option<(u8, u8)>,
    track: u8,
) -> bool {
    &&& held(before) + all_started(out) == all_released(out) + held(after)
    &&& released_in_order(before, out)
    &&& notes_of(out) == all_audible(out, track)
}

proof fn lemma_balance_chain(
    a: Option<(u8, u8)>,
    x: Seq<Output>,
    b: Option<(u8, u8)>,
    y: Seq<Output>,
    c: Option<(u8, u8)>,
    track: u8,
)
    requires
        balanced(a, x, b, track),
        balanced(b, y, c, track),
    ensures
        balanced(a, x + y, c, track),
{
    lemma_concat(x, y, track);
    assert(held(a) + (all_started(x) + all_started(y)) =~= (held(a) + all_started(x))
        + all_started(y));
    assert((all_released(x) + held(b)) + all_started(y) =~= all_released(x) + (held(b)
        + all_started(y)));
    assert(all_released(x) + (all_released(y) + held(c)) =~= (all_released(x) + all_released(y))
        + held(c));
    let out = x + y;
    assert forall|i: int| 0 <= i <= out.len() implies all_released(
        #[trigger] out.take(i),
    ).is_prefix_of(held(a) + all_started(out.take(i))) by {
        if i <= x.len() {
            assert(out.take(i) =~= x.take(i));
        } else {
            let j = i - x.len();
            let z = y.take(j);
            assert(out.take(i) =~= x + z);
            lemma_concat(x, z, track);
            assert(all_released(z).is_prefix_of(held(b) + all_started(z)));
            assert(held(a) + (all_started(x) + all_started(z)) =~= (held(a) + all_started(x))
                + all_started(z));
            assert((all_released(x) + held(b)) + all_started(z) =~= all_released(x) + (held(b)
                + all_started(z)));
        }
    }
}

proof fn lemma_balance_of_nothing(a: Option<(u8, u8)>, track: u8)
    ensures
        balanced(a, Seq::empty(), a, track),
{
    let none = Seq::<Output>::empty();
    assert forall|i: int| 0 <= i <= none.len() implies all_released(
        #[trigger] none.take(i),
    ).is_prefix_of(held(a) + all_started(none.take(i))) by {
        assert(none.take(i) =~= none);
    }
    assert(held(a) + Seq::empty() =~= Seq::empty() + held(a));
}

proof fn lemma_balance_of_release(a: Option<(u8, u8)>, timing: u32, track: u8)
    ensures
        balanced(a, release(a, timing), None, track),
{
    lemma_release(a, timing, track);
    assert(held(a) + Seq::<(u8, u8)>::empty() =~= held(a));
    let out = release(a, timing);
    assert forall|i: int| 0 <= i <= out.len() implies all_released(
        #[trigger] out.take(i),
    ).is_prefix_of(held(a) + all_started(out.take(i))) by {
        if i == 0 {
            assert(out.take(i) =~= Seq::<Output>::empty());
        } else {
            assert(out.take(i) =~= out);
        }
    }
}

/// One output more.
proof fn lemma_take_step(out: Seq<Output>, i: int)
    requires
        0 <= i < out.len(),
    ensures
        all_released(out.take(i + 1)) == all_released(out.take(i)) + released(out[i]),
        out.take(0) == Seq::<Output>::empty(),
{
    assert(out.take(i + 1).drop_last() =~= out.take(i));
    assert(out.take(i + 1).last() == out[i]);
    assert(out.take(0) =~= Seq::<Output>::empty());
}

proof fn lemma_balance_of_fire(
    pf: Performance,
    voice: Voice,
    track: u8,
    note: u8,
    idx: int,
    release_at: i64,
    timing: u32,
)
    ensures
        ({
            let (after, out) = fire(pf, voice, track, note, idx, release_at, timing);
            balanced(voice.playing_note, out, after.playing_note, track)
        }),
{
    let channel = pf.channel();
    let velocity = pf.velocity(idx);
    let value = if pf.params.portamento {
        ONE
    } else {
        0
    };
    let cc = Output::Event(NoteEvent::MidiCC { timing, channel, cc: PORTAMENTO_CC, value });
    let on = Output::Event(NoteEvent::NoteOn { timing, channel, note, velocity });
    let mirror = Output::Osc(Note { track, note, vel: velocity });
    let off = release(voice.playing_note, timing);
    lemma_single(cc, track);
    lemma_single(on, track);
    lemma_single(mirror, track);
    lemma_release(voice.playing_note, timing, track);
    let out = fire(pf, voice, track, note, idx, release_at, timing).1;
    if pf.params.portamento {
        assert(out =~= seq![cc] + seq![on] + off + seq![mirror]);
        lemma_concat(seq![cc], seq![on], track);
        lemma_concat(seq![cc] + seq![on], off, track);
        lemma_concat(seq![cc] + seq![on] + off, seq![mirror], track);
    } else {
        assert(out =~= seq![cc] + off + seq![on] + seq![mirror]);
        lemma_concat(seq![cc], off, track);
        lemma_concat(seq![cc] + off, seq![on], track);
        lemma_concat(seq![cc] + off + seq![on], seq![mirror], track);
    }
    assert(all_started(out) =~= seq![(note, channel)]);
    assert(all_released(out) =~= held(voice.playing_note));
    let h = held(voice.playing_note);
    assert forall|i: int| 0 <= i <= out.len() implies all_released(
        #[trigger] out.take(i),
    ).is_prefix_of(h + all_started(out.take(i))) by {
        assert(3 <= out.len() <= 4);
        lemma_take_step(out, 0);
        lemma_take_step(out, 1);
        lemma_take_step(out, 2);
        if out.len() == 4 {
            lemma_take_step(out, 3);
        }
        let r = all_released(out.take(i));
        assert(r =~= Seq::empty() || r =~= h);
        assert(r.is_prefix_of(h + all_started(out.take(i))));
    }
    assert(notes_of(out) =~= seq![Note { track, note, vel: velocity }]);
    assert(all_audible(out, track) =~= seq![Note { track, note, vel: velocity }]);
}

proof fn lemma_balance_of_sample(
    pf: Performance,
    lane: Lane,
    track: u8,
    global: int,
    stp: i64,
    release_at: i64,
    timing: u32,
)
    ensures
        ({
            let (after, out) = sample_phase(pf, lane, track, global, stp, release_at, timing);
            balanced(lane.voice.playing_note, out, after.voice.playing_note, track)
        }),
{
    reveal(sample_phase);
    reveal(step_phase);
    let (gated, off) = gate_phase(lane.voice, global, timing);
    if global >= lane.voice.note_off_at {
        lemma_balance_of_release(lane.voice.playing_note, timing, track);
    } else {
        lemma_balance_of_nothing(lane.voice.playing_note, track);
    }
    if stp != gated.last_step {
        let ready = Lane { voice: gated, cells: lane.cells };
        let idx = stp as int % STEPS as int;
        let gidx = stp as int % pf.params.loop_steps();
        let cell = if pf.erase {
            EMPTY
        } else {
            lane.cells[gidx]
        };
        let (outcome, rng) = pf.sounded(idx, cell, gated.rng);
        let voice = Voice { last_step: stp, rng, ..gated };
        match outcome {
            Some(note) => {
                lemma_balance_of_fire(pf, voice, track, note, idx, release_at, timing);
            },
            None => {
                if pf.params.portamento {
                    lemma_balance_of_nothing(voice.playing_note, track);
                } else {
                    lemma_balance_of_release(voice.playing_note, timing, track);
                }
            },
        }
        let (after, out) = step_phase(pf, ready, track, stp, release_at, timing);
        lemma_balance_chain(
            lane.voice.playing_note,
            off,
            gated.playing_note,
            out,
            after.voice.playing_note,
            track,
        );
    }
}

proof fn lemma_balance_of_run(
    pf: Performance,
    start: Lane,
    track: u8,
    pos: int,
    steps: Seq<i64>,
    releases: Seq<i64>,
    n: nat,
)
    ensures
        ({
            let (after, out) = run(pf, start, track, pos, steps, releases, n);
            balanced(start.voice.playing_note, out, after.voice.playing_note, track)
        }),
    decreases n,
{
    if n == 0 {
        lemma_balance_of_nothing(start.voice.playing_note, track);
    } else {
        let s = (n - 1) as nat;
        lemma_balance_of_run(pf, start, track, pos, steps, releases, s);
        let (lane, before) = run(pf, start, track, pos, steps, releases, s);
        lemma_balance_of_sample(
            pf,
            lane,
            track,
            pos + s,
            steps[s as int],
            releases[s as int],
            label(s),
        );
        let (after, out) = sample_phase(
            pf,
            lane,
            track,
            pos + s,
            steps[s as int],
            releases[s as int],
            label(s),
        );
        lemma_balance_chain(
            start.voice.playing_note,
            before,
            lane.voice.playing_note,
            out,
            after.voice.playing_note,
            track,
        );
    }
}

/// Every note that is started is released once, in the order of starting and on the
/// channel it was started on, but for the one that still sounds at the end of the block;
/// and every start, and nothing else, is mirrored over OSC with its track and velocity.
pub proof fn law_notes_balance(
    voices: Seq<Voice>,
    shared: Shared,
    params: Seq<TrackParams>,
    line: Timeline,
    track: int,
)
    requires
        0 <= track < NUM_TRACKS,
    ensures
        ({
            let pass = pass_of(voices, shared, params, line, track);
            balanced(
                voices[track].playing_note,
                pass.out,
                pass.lane.voice.playing_note,
                track as u8,
            )
        }),
{
    let pf = performance_of(shared, params, track);
    let start = Lane { voice: voices[track], cells: shared.gesture@[track] };
    if !line.playing || !pf.gate_open() {
        lemma_balance_of_release(voices[track].playing_note, 0, track as u8);
    } else {
        lemma_balance_of_run(
            pf,
            start,
            track as u8,
            line.pos,
            line.steps,
            line.releases[track],
            line.steps.len(),
        );
    }
}

/// The voices after a session: calls one after the other, with the state and the
/// parameters changed freely in between.
pub open spec fn session_voices(start: Seq<Voice>, calls: Seq<Call>) -> Seq<Voice>
    decreases calls.len(),
{
    if calls.len() == 0 {
        start
    } else {
        call_voices(session_voices(start, calls.drop_last()), calls.last())
    }
}

/// What a track puts out during a session.
pub open spec fn session_out(start: Seq<Voice>, calls: Seq<Call>, track: int) -> Seq<Output>
    decreases calls.len(),
{
    if calls.len() == 0 {
        Seq::empty()
    } else {
        session_out(start, calls.drop_last(), track) + call_pass(
            session_voices(start, calls.drop_last()),
            calls.last(),
            track,
        ).out
    }
}

proof fn lemma_session_balance(start: Seq<Voice>, calls: Seq<Call>, track: int)
    requires
        0 <= track < NUM_TRACKS,
    ensures
        balanced(
            start[track].playing_note,
            session_out(start, calls, track),
            session_voices(start, calls)[track].playing_note,
            track as u8,
        ),
    decreases calls.len(),
{
    if calls.len() == 0 {
        lemma_balance_of_nothing(start[track].playing_note, track as u8);
    } else {
        let before = calls.drop_last();
        let call = calls.last();
        lemma_session_balance(start, before, track);
        let voices = session_voices(start, before);
        match call.line {
            Some(line) => {
                law_notes_balance(voices, call.shared, call.params, line, track);
            },
            None => {
                lemma_balance_of_release(voices[track].playing_note, 0, track as u8);
            },
        }
        let pass = call_pass(voices, call, track);
        assert(session_voices(start, calls)[track] == pass.lane.voice);
        lemma_balance_chain(
            start[track].playing_note,
            session_out(start, before, track),
            voices[track].playing_note,
            pass.out,
            pass.lane.voice.playing_note,
            track as u8,
        );
    }
}

/// Over a whole session, from the start or from a reset on and whatever is changed between
/// the blocks: at every point of a track's output the notes released so far are the first of
/// those started so far, each on the channel it was started on; after every block all but
/// the sounding note have been released; and every start, and nothing else, is mirrored.
pub proof fn law_sessions_balance(start: Seq<Voice>, calls: Seq<Call>, track: int)
    requires
        all_silent(start),
        0 <= track < NUM_TRACKS,
    ensures
        ({
            let out = session_out(start, calls, track);
            let sounding = session_voices(start, calls)[track].playing_note;
            &&& all_started(out) == all_released(out) + held(sounding)
            &&& all_started(out).len() - all_released(out).len() == if sounding is Some {
                1int
            } else {
                0
            }
            &&& forall|i: int|
                0 <= i <= out.len() ==> all_released(#[trigger] out.take(i)).is_prefix_of(
                    all_started(out.take(i)),
                )
            &&& notes_of(out) == all_audible(out, track as u8)
        }),
{
    lemma_session_balance(start, calls, track);
    let out = session_out(start, calls, track);
    assert(start[track].playing_note is None);
    assert(held(start[track].playing_note) + all_started(out) =~= all_started(out));
    assert forall|i: int| 0 <= i <= out.len() implies all_released(
        #[trigger] out.take(i),
    ).is_prefix_of(all_started(out.take(i))) by {
        assert(held(start[track].playing_note) + all_started(out.take(i)) =~= all_started(
            out.take(i),
        ));
    }
}

/// When the transport stops, or a track's gate closes, the track falls silent at once: the
/// sounding note is released at the start of the block and nothing else is put out.
pub proof fn law_stopping_silences(
    pf: Performance,
    start: Lane,
    track: u8,
    playing: bool,
    pos: int,
    steps: Seq<i64>,
    releases: Seq<i64>,
)
    requires
        !playing || !pf.gate_open(),
    ensures
        ({
            let pass = track_pass(pf, start, track, playing, pos, steps, releases);
            &&& pass.lane.voice.playing_note is None
            &&& pass.lane.voice.note_off_at == NEVER
            &&& pass.out == release(start.voice.playing_note, 0)
            &&& pass.lane.cells == start.cells
        }),
{
}

/// What was played while recording is what the loop plays back: the step records its
/// outcome in the loop, and whenever the playhead comes to that cell again, untouched and
/// not erasing, the same note sounds, or the same rest is kept.
pub proof fn law_playback_repeats_the_recording(
    rec: Performance,
    lane: Lane,
    track: u8,
    stp: i64,
    release_at: i64,
    timing: u32,
    play: Performance,
    again: i64,
    rng: u64,
)
    requires
        rec.wf(),
        play.wf(),
        lane.cells.len() == LOOP_CELLS,
        rec.touching && rec.params.record,
        !play.touching && play.has_rec,
        play.params.length == rec.params.length,
        again as int % rec.params.loop_steps() == stp as int % rec.params.loop_steps(),
    ensures
        ({
            let outcome = outcome_at(rec, lane, stp);
            let after = step_phase(rec, lane, track, stp, release_at, timing).0;
            let cell = after.cells[again as int % play.params.loop_steps()];
            &&& has_recording(after.cells, play.params.loop_steps())
            &&& play.sounded(again as int % STEPS as int, cell, rng) == (outcome, rng)
        }),
{
    reveal(step_phase);
    lemma_mod_bound(stp as int, rec.params.loop_steps());
    let gidx = stp as int % rec.params.loop_steps();
    let after = step_phase(rec, lane, track, stp, release_at, timing).0;
    assert(after.cells[gidx] != EMPTY);
}

/// Two numbers less than `m` apart leave different remainders.
proof fn lemma_remainders_differ(x: int, y: int, m: int)
    requires
        x < y < x + m,
    ensures
        x % m != y % m,
{
    lemma_fundamental_div_mod(x, m);
    lemma_fundamental_div_mod(y, m);
    let (p, q) = (x / m, y / m);
    if x % m == y % m {
        assert(false) by (nonlinear_arith)
            requires
                y - x == m * q - m * p,
                0 < y - x < m,
        ;
    }
}

/// A voice that has played a sample is on the step of that sample.
proof fn lemma_voice_is_on_its_step(
    pf: Performance,
    start: Lane,
    track: u8,
    pos: int,
    steps: Seq<i64>,
    releases: Seq<i64>,
    n: nat,
)
    requires
        n > 0,
    ensures
        run(pf, start, track, pos, steps, releases, n).0.voice.last_step == steps[n - 1],
{
    reveal(sample_phase);
    reveal(step_phase);
}

/// Playing keeps the length of the loop.
proof fn lemma_run_keeps_the_length(
    pf: Performance,
    start: Lane,
    track: u8,
    pos: int,
    steps: Seq<i64>,
    releases: Seq<i64>,
    n: nat,
)
    requires
        pf.wf(),
        start.cells.len() == LOOP_CELLS,
    ensures
        run(pf, start, track, pos, steps, releases, n).0.cells.len() == LOOP_CELLS,
    decreases n,
{
    if n > 0 {
        lemma_run_keeps_the_length(pf, start, track, pos, steps, releases, (n - 1) as nat);
        lemma_mod_bound(steps[n - 1] as int, pf.params.loop_steps());
        reveal(sample_phase);
        reveal(step_phase);
    }
}

/// What a step sounds, with the loop and the dice that a lane holds.
pub open spec fn outcome_at(pf: Performance, lane: Lane, stp: i64) -> Option<u8> {
    let under = if pf.erase {
        EMPTY
    } else {
        lane.cells[stp as int % pf.params.loop_steps()]
    };
    pf.sounded(stp as int % STEPS as int, under, lane.voice.rng).0
}

/// A take lasts until the playhead comes round again: while a track records, the outcome of
/// every step it reaches is in the loop afterwards, as long as the clock, which never goes
/// back, has not run through the whole loop since.
pub proof fn law_a_take_is_kept(
    pf: Performance,
    start: Lane,
    track: u8,
    pos: int,
    steps: Seq<i64>,
    releases: Seq<i64>,
    i: nat,
    n: nat,
)
    requires
        pf.wf(),
        pf.touching && pf.params.record,
        start.cells.len() == LOOP_CELLS,
        i < n <= steps.len(),
        forall|j: int, k: int| 0 <= j <= k < steps.len() ==> steps[j] <= steps[k],
        steps[n - 1] - steps[i as int] < pf.params.loop_steps(),
        steps[i as int] != run(pf, start, track, pos, steps, releases, i).0.voice.last_step,
    ensures
        ({
            let lane = run(pf, start, track, pos, steps, releases, i).0;
            let after = run(pf, start, track, pos, steps, releases, n).0;
            after.cells[steps[i as int] as int % pf.params.loop_steps()] == recorded_cell(
                outcome_at(pf, lane, steps[i as int]),
            )
        }),
    decreases n,
{
    let stp = steps[i as int];
    let gidx = stp as int % pf.params.loop_steps();
    lemma_mod_bound(stp as int, pf.params.loop_steps());
    let s = (n - 1) as nat;
    let before = run(pf, start, track, pos, steps, releases, s).0;
    lemma_run_keeps_the_length(pf, start, track, pos, steps, releases, s);
    reveal(sample_phase);
    if s == i {
        reveal(step_phase);
    } else {
        law_a_take_is_kept(pf, start, track, pos, steps, releases, i, s);
        lemma_voice_is_on_its_step(pf, start, track, pos, steps, releases, s);
        let now = steps[s as int];
        assert(steps[i as int] <= steps[s - 1] <= steps[s as int]);
        if now != stp {
            lemma_remainders_differ(stp as int, now as int, pf.params.loop_steps());
            let gated = gate_phase(before.voice, pos + s, label(s)).0;
            let ready = Lane { voice: gated, cells: before.cells };
            law_a_step_touches_one_cell(
                pf,
                ready,
                track,
                now,
                releases[s as int],
                label(s),
                gidx,
            );
        }
    }
}

/// A recorded outcome is read back as it was written.
pub proof fn law_cells_round_trip(outcome: Option<u8>)
    ensures
        recorded_note(recorded_cell(outcome)) == outcome,
        recorded_cell(outcome) != EMPTY,
{
}

/// While the Erase button is held and nothing is recorded, the step under the playhead is
/// emptied, and a recorded loop is silent there.
pub proof fn law_erasing_empties_the_cell(
    pf: Performance,
    lane: Lane,
    track: u8,
    stp: i64,
    release_at: i64,
    timing: u32,
)
    requires
        pf.wf(),
        lane.cells.len() == LOOP_CELLS,
        pf.erase,
        !(pf.touching && pf.params.record),
    ensures
        step_phase(pf, lane, track, stp, release_at, timing).0.cells == lane.cells.update(
            stp as int % pf.params.loop_steps(),
            EMPTY,
        ),
        recorded_note(EMPTY) is None,
{
    reveal(step_phase);
}

/// A loop changes only by recording or erasing.
pub proof fn law_playing_leaves_the_loop_alone(
    pf: Performance,
    start: Lane,
    track: u8,
    playing: bool,
    pos: int,
    steps: Seq<i64>,
    releases: Seq<i64>,
)
    requires
        pf.wf(),
        start.cells.len() == LOOP_CELLS,
        !pf.erase,
        !(pf.touching && pf.params.record),
    ensures
        track_pass(pf, start, track, playing, pos, steps, releases).lane.cells == start.cells,
{
    lemma_run_leaves_the_loop_alone(pf, start, track, pos, steps, releases, steps.len());
}

proof fn lemma_run_leaves_the_loop_alone(
    pf: Performance,
    start: Lane,
    track: u8,
    pos: int,
    steps: Seq<i64>,
    releases: Seq<i64>,
    n: nat,
)
    requires
        pf.wf(),
        start.cells.len() == LOOP_CELLS,
        !pf.erase,
        !(pf.touching && pf.params.record),
    ensures
        run(pf, start, track, pos, steps, releases, n).0.cells == start.cells,
    decreases n,
{
    if n > 0 {
        let s = (n - 1) as nat;
        lemma_run_leaves_the_loop_alone(pf, start, track, pos, steps, releases, s);
        let lane = run(pf, start, track, pos, steps, releases, s).0;
        reveal(sample_phase);
        reveal(step_phase);
        let stp = steps[s as int];
        lemma_mod_bound(stp as int, pf.params.loop_steps());
        let gidx = stp as int % pf.params.loop_steps();
        assert(lane.cells.update(gidx, lane.cells[gidx]) =~= lane.cells);
    }
}

/// The recorded cells of other steps stay as they are when a step is played.
pub proof fn law_a_step_touches_one_cell(
    pf: Performance,
    lane: Lane,
    track: u8,
    stp: i64,
    release_at: i64,
    timing: u32,
    other: int,
)
    requires
        pf.wf(),
        lane.cells.len() == LOOP_CELLS,
        0 <= other < LOOP_CELLS,
        other != stp as int % pf.params.loop_steps(),
    ensures
        step_phase(pf, lane, track, stp, release_at, timing).0.cells[other] == lane.cells[other],
{
    reveal(step_phase);
    lemma_mod_bound(stp as int, pf.params.loop_steps());
}

/// The note-length gate: no note sounds past the sample at which it is to be released.
pub proof fn law_no_note_outlives_its_length(voice: Voice, global: int, timing: u32)
    ensures
        ({
            let gated = gate_phase(voice, global, timing).0;
            gated.playing_note is Some ==> global < gated.note_off_at
        }),
{
}

/// A voice that stays on its step, with no release due, puts out nothing.
pub proof fn law_a_step_sounds_once(
    pf: Performance,
    lane: Lane,
    track: u8,
    global: int,
    release_at: i64,
    timing: u32,
)
    requires
        global < lane.voice.note_off_at,
    ensures
        sample_phase(pf, lane, track, global, lane.voice.last_step, release_at, timing) == (
            lane,
            Seq::<Output>::empty(),
        ),
{
    reveal(sample_phase);
}

/// An output put off by some samples.
pub open spec fn later(o: Output, by: int) -> Output {
    match o {
        Output::Event(NoteEvent::NoteOn { timing, channel, note, velocity }) => Output::Event(
            NoteEvent::NoteOn { timing: ((timing + by) % 0x1_0000_0000) as u32, channel, note, velocity },
        ),
        Output::Event(NoteEvent::NoteOff { timing, channel, note, velocity }) => Output::Event(
            NoteEvent::NoteOff { timing: ((timing + by) % 0x1_0000_0000) as u32, channel, note, velocity },
        ),
        Output::Event(NoteEvent::MidiCC { timing, channel, cc, value }) => Output::Event(
            NoteEvent::MidiCC { timing: ((timing + by) % 0x1_0000_0000) as u32, channel, cc, value },
        ),
        Output::Osc(n) => o,
    }
}

/// A run of outputs put off by some samples.
pub open spec fn all_later(out: Seq<Output>, by: int) -> Seq<Output> {
    out.map_values(|o: Output| later(o, by))
}

/// Labels of samples counted from a later one.
proof fn lemma_label(n: nat, k: nat)
    ensures
        label(n + k) == ((label(k) + n) % 0x1_0000_0000) as u32,
{
}

/// A run that is cut in two, track by track.
proof fn lemma_run_can_be_cut(
    pf: Performance,
    start: Lane,
    track: u8,
    pos: int,
    steps: Seq<i64>,
    releases: Seq<i64>,
    n: nat,
    m: nat,
)
    requires
        n + m <= steps.len(),
        steps.len() == releases.len(),
    ensures
        ({
            let (middle, before) = run(pf, start, track, pos, steps, releases, n);
            let (end, after) = run(
                pf,
                middle,
                track,
                pos + n,
                steps.skip(n as int),
                releases.skip(n as int),
                m,
            );
            run(pf, start, track, pos, steps, releases, n + m) == (
                end,
                before + all_later(after, n as int),
            )
        }),
    decreases m,
{
    let (middle, before) = run(pf, start, track, pos, steps, releases, n);
    let (rest, rels) = (steps.skip(n as int), releases.skip(n as int));
    if m == 0 {
        assert(before + all_later(Seq::empty(), n as int) =~= before);
    } else {
        let k = (m - 1) as nat;
        lemma_run_can_be_cut(pf, start, track, pos, steps, releases, n, k);
        let (lane, sofar) = run(pf, middle, track, pos + n, rest, rels, k);
        let (stp, rel) = (steps[(n + k) as int], releases[(n + k) as int]);
        assert(rest[k as int] == stp);
        assert(rels[k as int] == rel);
        assert((n + m) as nat - 1 == n + k);
        lemma_label(n, k);
        lemma_timing_is_only_a_label(pf, lane, track, pos + n + k, stp, rel, label(k), n as int);
        let out = sample_phase(pf, lane, track, pos + n + k, stp, rel, label(k)).1;
        assert(all_later(sofar + out, n as int) =~= all_later(sofar, n as int) + all_later(
            out,
            n as int,
        ));
        assert(before + (all_later(sofar, n as int) + all_later(out, n as int)) =~= before
            + all_later(sofar, n as int) + all_later(out, n as int));
    }
}

/// A run looks no further than it goes.
proof fn lemma_run_of_prefix(
    pf: Performance,
    start: Lane,
    track: u8,
    pos: int,
    steps: Seq<i64>,
    releases: Seq<i64>,
    k: nat,
    n: nat,
)
    requires
        n <= k <= steps.len(),
        steps.len() == releases.len(),
    ensures
        run(pf, start, track, pos, steps.take(k as int), releases.take(k as int), n) == run(
            pf,
            start,
            track,
            pos,
            steps,
            releases,
            n,
        ),
    decreases n,
{
    if n > 0 {
        lemma_run_of_prefix(pf, start, track, pos, steps, releases, k, (n - 1) as nat);
    }
}

proof fn lemma_performance_wf(shared: Shared, params: Seq<TrackParams>, track: int)
    requires
        params[track].wf(),
    ensures
        performance_of(shared, params, track).wf(),
{
}

/// The timelines of a block that is cut in two.
proof fn lemma_timeline_can_be_cut(
    params: Seq<TrackParams>,
    tr: Transport,
    n: nat,
    m: nat,
    sample_rate: u32,
    track: int,
)
    requires
        0 <= track < params.len(),
        tr.playing,
        tr.pos + n <= i64::MAX,
    ensures
        ({
            let next = Transport { pos: (tr.pos + n) as i64, ..tr };
            let whole = timeline(tr, n + m, sample_rate, params);
            let first = timeline(tr, n, sample_rate, params);
            let second = timeline(next, m, sample_rate, params);
            &&& whole.steps.len() == n + m
            &&& whole.releases[track].len() == n + m
            &&& first.steps == whole.steps.take(n as int)
            &&& first.releases[track] == whole.releases[track].take(n as int)
            &&& second.steps == whole.steps.skip(n as int)
            &&& second.releases[track] == whole.releases[track].skip(n as int)
        }),
{
    let next = Transport { pos: (tr.pos + n) as i64, ..tr };
    let whole = timeline(tr, n + m, sample_rate, params);
    let first = timeline(tr, n, sample_rate, params);
    let second = timeline(next, m, sample_rate, params);
    assert(first.steps =~= whole.steps.take(n as int));
    assert(first.releases[track] =~= whole.releases[track].take(n as int));
    assert(second.steps =~= whole.steps.skip(n as int));
    assert(second.releases[track] =~= whole.releases[track].skip(n as int));
}

proof fn lemma_pass_can_be_cut(
    voices: Seq<Voice>,
    shared: Shared,
    params: Seq<TrackParams>,
    tr: Transport,
    n: nat,
    m: nat,
    sample_rate: u32,
    half_voices: Seq<Voice>,
    half: Shared,
    track: int,
)
    requires
        0 <= track < NUM_TRACKS,
        params.len() == NUM_TRACKS,
        params[track].wf(),
        tr.pos + n <= i64::MAX,
        !shared.erase@[track],
        !(shared.gate@[track] && params[track].record),
        same_controls(half, shared),
        ({
            let first = pass_of(
                voices,
                shared,
                params,
                timeline(tr, n, sample_rate, params),
                track,
            );
            half_voices[track] == first.lane.voice && half.gesture@[track] == first.lane.cells
        }),
    ensures
        ({
            let next = Transport { pos: (tr.pos + n) as i64, ..tr };
            let line = timeline(tr, n + m, sample_rate, params);
            let whole = pass_of(voices, shared, params, line, track);
            let line = timeline(tr, n, sample_rate, params);
            let first = pass_of(voices, shared, params, line, track);
            let line = timeline(next, m, sample_rate, params);
            let second = pass_of(half_voices, half, params, line, track);
            &&& whole.lane == second.lane
            &&& whole.step == second.step
            &&& whole.out == first.out + all_later(second.out, n as int)
        }),
{
    let next = Transport { pos: (tr.pos + n) as i64, ..tr };
    let whole = timeline(tr, n + m, sample_rate, params);
    let first = timeline(tr, n, sample_rate, params);
    let second = timeline(next, m, sample_rate, params);
    let pf = performance_of(shared, params, track);
    let start = Lane { voice: voices[track], cells: shared.gesture@[track] };
    let t = track as u8;
    lemma_performance_wf(shared, params, track);
    law_playing_leaves_the_loop_alone(
        pf,
        start,
        t,
        first.playing,
        first.pos,
        first.steps,
        first.releases[track],
    );
    assert(performance_of(half, params, track) == pf);
    if tr.playing && pf.gate_open() {
        let (steps, releases) = (whole.steps, whole.releases[track]);
        lemma_timeline_can_be_cut(params, tr, n, m, sample_rate, track);
        lemma_run_of_prefix(pf, start, t, whole.pos, steps, releases, n, n);
        lemma_run_can_be_cut(pf, start, t, whole.pos, steps, releases, n, m);
    } else {
        let out = release(voices[track].playing_note, 0);
        assert(out + all_later(Seq::empty(), n as int) =~= out);
    }
}

/// How the host cuts the music into blocks makes no difference: a block of `n + m` samples
/// leaves every voice, loop and playhead as a block of `n` and then one of `m` samples do,
/// and every track puts out the same at the same samples. That is as long as the parameters
/// stay, nothing is erased, and no armed track is touched.
pub proof fn law_blocks_can_be_cut(
    voices: Seq<Voice>,
    shared: Shared,
    params: Seq<TrackParams>,
    tr: Transport,
    n: nat,
    m: nat,
    sample_rate: u32,
    once_voices: Seq<Voice>,
    once: Shared,
    once_out: Seq<Output>,
    half_voices: Seq<Voice>,
    half: Shared,
    half_out: Seq<Output>,
    end_voices: Seq<Voice>,
    end: Shared,
    end_out: Seq<Output>,
)
    requires
        params.len() == NUM_TRACKS,
        forall|t: int| 0 <= t < NUM_TRACKS ==> #[trigger] params[t].wf(),
        forall|t: int| 0 <= t < NUM_TRACKS ==> !#[trigger] shared.erase@[t],
        forall|t: int|
            0 <= t < NUM_TRACKS ==> !(#[trigger] shared.gate@[t] && params[t].record),
        tr.pos + n <= i64::MAX,
        call_result(
            voices,
            block_call(shared, params, Some(tr), n + m, sample_rate),
            once_voices,
            once,
            once_out,
        ),
        call_result(
            voices,
            block_call(shared, params, Some(tr), n, sample_rate),
            half_voices,
            half,
            half_out,
        ),
        call_result(
            half_voices,
            block_call(
                half,
                params,
                Some(Transport { pos: (tr.pos + n) as i64, ..tr }),
                m,
                sample_rate,
            ),
            end_voices,
            end,
            end_out,
        ),
    ensures
        once_voices == end_voices,
        once.gesture@ == end.gesture@,
        once.step@ == end.step@,
        ({
            let next = Transport { pos: (tr.pos + n) as i64, ..tr };
            let whole = block_call(shared, params, Some(tr), n + m, sample_rate);
            let first = block_call(shared, params, Some(tr), n, sample_rate);
            let second = block_call(half, params, Some(next), m, sample_rate);
            forall|t: int|
                0 <= t < NUM_TRACKS ==> (#[trigger] call_pass(voices, whole, t)).out == call_pass(
                    voices,
                    first,
                    t,
                ).out + all_later(call_pass(half_voices, second, t).out, n as int)
        }),
{
    let next = Transport { pos: (tr.pos + n) as i64, ..tr };
    let whole = block_call(shared, params, Some(tr), n + m, sample_rate);
    let first = block_call(shared, params, Some(tr), n, sample_rate);
    let second = block_call(half, params, Some(next), m, sample_rate);
    assert forall|t: int| 0 <= t < NUM_TRACKS implies {
        let (a, b, c) = (
            #[trigger] call_pass(voices, whole, t),
            call_pass(voices, first, t),
            call_pass(half_voices, second, t),
        );
        &&& a.lane == c.lane
        &&& a.step == c.step
        &&& a.out == b.out + all_later(c.out, n as int)
        &&& once_voices[t] == end_voices[t]
        &&& once.gesture@[t] == end.gesture@[t]
        &&& once.step@[t] == end.step@[t]
    } by {
        assert(params[t].wf() && !shared.erase@[t]);
        assert(!(shared.gate@[t] && params[t].record));
        assert(half.gesture@[t] == call_pass(voices, first, t).lane.cells);
        lemma_pass_can_be_cut(
            voices,
            shared,
            params,
            tr,
            n,
            m,
            sample_rate,
            half_voices,
            half,
            t,
        );
        assert(once.gesture@[t] == call_pass(voices, whole, t).lane.cells);
        assert(end.gesture@[t] == call_pass(half_voices, second, t).lane.cells);
    }
    assert forall|t: int| 0 <= t < NUM_TRACKS implies once_voices[t] == end_voices[t]
        && #[trigger] once.gesture@[t] == end.gesture@[t] && once.step@[t] == end.step@[t] by {
        let a = call_pass(voices, whole, t);
        assert(a.lane == call_pass(half_voices, second, t).lane);
    }
    assert(once_voices =~= end_voices);
    assert(once.gesture@ =~= end.gesture@);
    assert(once.step@ =~= end.step@);
}

proof fn lemma_timing_is_only_a_label(
    pf: Performance,
    lane: Lane,
    track: u8,
    global: int,
    stp: i64,
    release_at: i64,
    timing: u32,
    by: int,
)
    requires
        by >= 0,
    ensures
        ({
            let (after, out) = sample_phase(pf, lane, track, global, stp, release_at, timing);
            sample_phase(pf, lane, track, global, stp, release_at, ((timing + by) % 0x1_0000_0000) as u32) == (
                after,
                all_later(out, by),
            )
        }),
{
    reveal(sample_phase);
    reveal(step_phase);
    let then = ((timing + by) % 0x1_0000_0000) as u32;
    let (gated, off) = gate_phase(lane.voice, global, timing);
    let off_then = gate_phase(lane.voice, global, then).1;
    assert(off_then =~= all_later(off, by));
    if stp != gated.last_step {
        let ready = Lane { voice: gated, cells: lane.cells };
        let (after, out) = step_phase(pf, ready, track, stp, release_at, timing);
        let (after_then, out_then) = step_phase(pf, ready, track, stp, release_at, then);
        assert(out_then =~= all_later(out, by));
        assert(all_later(off + out, by) =~= all_later(off, by) + all_later(out, by));
    }
}

/// The sample within the block that an event belongs to.
pub open spec fn timing_of(ev: NoteEvent) -> u32 {
    match ev {
        NoteEvent::NoteOn { timing, channel, note, velocity } => timing,
        NoteEvent::NoteOff { timing, channel, note, velocity } => timing,
        NoteEvent::MidiCC { timing, channel, cc, value } => timing,
    }
}

/// The events of a run of outputs are in time order, none before `from`, all before `to`.
pub open spec fn in_time(out: Seq<Output>, from: int, to: int) -> bool {
    &&& forall|i: int|
        0 <= i < out.len() ==> (#[trigger] out[i] matches Output::Event(ev) ==> from <= timing_of(
            ev,
        ) < to)
    &&& forall|i: int, j: int|
        0 <= i < j < out.len() ==> (#[trigger] out[i] matches Output::Event(a) ==> (
        #[trigger] out[j] matches Output::Event(b) ==> timing_of(a) <= timing_of(b)))
}

proof fn lemma_sample_in_time(
    pf: Performance,
    lane: Lane,
    track: u8,
    global: int,
    stp: i64,
    release_at: i64,
    timing: u32,
)
    ensures
        in_time(
            sample_phase(pf, lane, track, global, stp, release_at, timing).1,
            timing as int,
            timing + 1,
        ),
{
    reveal(sample_phase);
    reveal(step_phase);
}

proof fn lemma_run_in_time(
    pf: Performance,
    start: Lane,
    track: u8,
    pos: int,
    steps: Seq<i64>,
    releases: Seq<i64>,
    n: nat,
)
    requires
        n <= 0x1_0000_0000,
    ensures
        in_time(run(pf, start, track, pos, steps, releases, n).1, 0, n as int),
    decreases n,
{
    if n > 0 {
        let s = (n - 1) as nat;
        lemma_run_in_time(pf, start, track, pos, steps, releases, s);
        let lane = run(pf, start, track, pos, steps, releases, s).0;
        lemma_sample_in_time(
            pf,
            lane,
            track,
            pos + s,
            steps[s as int],
            releases[s as int],
            label(s),
        );
    }
}

/// A track's events come in time order and lie within the block.
pub proof fn law_events_are_in_time(
    voices: Seq<Voice>,
    shared: Shared,
    params: Seq<TrackParams>,
    line: Timeline,
    track: int,
)
    requires
        0 < line.steps.len() <= 0x1_0000_0000,
    ensures
        in_time(
            pass_of(voices, shared, params, line, track).out,
            0,
            line.steps.len() as int,
        ),
{
    lemma_run_in_time(
        performance_of(shared, params, track),
        Lane { voice: voices[track], cells: shared.gesture@[track] },
        track as u8,
        line.pos,
        line.steps,
        line.releases[track],
        line.steps.len(),
    );
}

/// Every note starts on the track's channel, and the portamento switch is sent just before
/// on the same channel and at the same sample, in the position of the toggle.
pub open spec fn well_led(out: Seq<Output>, pf: Performance) -> bool {
    forall|i: int|
        0 <= i < out.len() ==> (#[trigger] out[i] matches Output::Event(
            NoteEvent::NoteOn { timing, channel, note, velocity },
        ) ==> {
            &&& channel == pf.params.channel - 1
            &&& exists|j: int|
                0 <= j < i && #[trigger] out[j] == Output::Event(
                    NoteEvent::MidiCC {
                        timing,
                        channel,
                        cc: 65,
                        value: if pf.params.portamento {
                            0x3f80_0000u32
                        } else {
                            0
                        },
                    },
                )
        })
}

proof fn lemma_well_led_concat(a: Seq<Output>, b: Seq<Output>, pf: Performance)
    requires
        well_led(a, pf),
        well_led(b, pf),
    ensures
        well_led(a + b, pf),
{
    let out = a + b;
    let value = if pf.params.portamento {
        ONE
    } else {
        0
    };
    assert forall|i: int| 0 <= i < out.len() implies (#[trigger] out[i] matches Output::Event(
        NoteEvent::NoteOn { timing, channel, note, velocity },
    ) ==> {
        &&& channel == pf.params.channel - 1
        &&& exists|j: int|
            0 <= j < i && #[trigger] out[j] == Output::Event(
                NoteEvent::MidiCC { timing, channel, cc: PORTAMENTO_CC, value },
            )
    }) by {
        if let Output::Event(NoteEvent::NoteOn { timing, channel, note, velocity }) = out[i] {
            let lead = Output::Event(
                NoteEvent::MidiCC { timing, channel, cc: PORTAMENTO_CC, value },
            );
            if i < a.len() {
                assert(a[i] == out[i]);
                let j = choose|j: int| 0 <= j < i && #[trigger] a[j] == lead;
                assert(out[j] == lead);
            } else {
                let k = i - a.len();
                assert(b[k] == out[i]);
                let j = choose|j: int| 0 <= j < k && #[trigger] b[j] == lead;
                assert(out[j + a.len()] == lead);
            }
        }
    }
}

proof fn lemma_sample_well_led(
    pf: Performance,
    lane: Lane,
    track: u8,
    global: int,
    stp: i64,
    release_at: i64,
    timing: u32,
)
    requires
        pf.wf(),
    ensures
        well_led(sample_phase(pf, lane, track, global, stp, release_at, timing).1, pf),
{
    reveal(sample_phase);
    reveal(step_phase);
    let out = sample_phase(pf, lane, track, global, stp, release_at, timing).1;
    let (gated, off) = gate_phase(lane.voice, global, timing);
    if stp != gated.last_step {
        let ready = Lane { voice: gated, cells: lane.cells };
        let played = step_phase(pf, ready, track, stp, release_at, timing).1;
        assert(well_led(off, pf));
        assert(well_led(played, pf)) by {
            if played.len() > 0 && played[0] is Event {
                assert(played[0] == played[0]);
            }
        }
        lemma_well_led_concat(off, played, pf);
    }
}

/// Every note that a track starts goes out on the track's channel, behind the portamento
/// switch.
pub proof fn law_notes_are_well_led(
    pf: Performance,
    start: Lane,
    track: u8,
    playing: bool,
    pos: int,
    steps: Seq<i64>,
    releases: Seq<i64>,
)
    requires
        pf.wf(),
    ensures
        well_led(track_pass(pf, start, track, playing, pos, steps, releases).out, pf),
{
    lemma_run_well_led(pf, start, track, pos, steps, releases, steps.len());
}

proof fn lemma_run_well_led(
    pf: Performance,
    start: Lane,
    track: u8,
    pos: int,
    steps: Seq<i64>,
    releases: Seq<i64>,
    n: nat,
)
    requires
        pf.wf(),
    ensures
        well_led(run(pf, start, track, pos, steps, releases, n).1, pf),
    decreases n,
{
    if n > 0 {
        let s = (n - 1) as nat;
        lemma_run_well_led(pf, start, track, pos, steps, releases, s);
        let (lane, before) = run(pf, start, track, pos, steps, releases, s);
        lemma_sample_well_led(
            pf,
            lane,
            track,
            pos + s,
            steps[s as int],
            releases[s as int],
            label(s),
        );
        let out = sample_phase(
            pf,
            lane,
            track,
            pos + s,
            steps[s as int],
            releases[s as int],
            label(s),
        ).1;
        lemma_well_led_concat(before, out, pf);
    }
}

/// Portamento is legato: the new note starts before the old one is released, and is held
/// whatever the note length. Without it the old note ends first, and the new one gets its
/// release time.
pub proof fn law_portamento_is_legato(
    pf: Performance,
    voice: Voice,
    track: u8,
    note: u8,
    idx: int,
    release_at: i64,
    timing: u32,
)
    requires
        voice.playing_note is Some,
    ensures
        ({
            let (after, out) = fire(pf, voice, track, note, idx, release_at, timing);
            let on = Output::Event(
                NoteEvent::NoteOn {
                    timing,
                    channel: pf.channel(),
                    note,
                    velocity: pf.velocity(idx),
                },
            );
            let off = release(voice.playing_note, timing)[0];
            &&& pf.params.portamento ==> out[1] == on && out[2] == off && after.note_off_at == NEVER
            &&& !pf.params.portamento ==> out[1] == off && out[2] == on && after.note_off_at
                == release_at
        }),
{
}

/// The tracks are independent: what a track does in a block depends on its own voice,
/// parameters, pad and loop, and on the clock, and on nothing else.
pub proof fn law_tracks_are_independent(
    voices: Seq<Voice>,
    shared: Shared,
    params: Seq<TrackParams>,
    others: Seq<Voice>,
    world: Shared,
    settings: Seq<TrackParams>,
    line: Timeline,
    track: int,
)
    requires
        0 <= track < NUM_TRACKS,
        others[track] == voices[track],
        settings[track] == params[track],
        world.gate@[track] == shared.gate@[track],
        world.pos@[track] == shared.pos@[track],
        world.erase@[track] == shared.erase@[track],
        world.gesture@[track] == shared.gesture@[track],
    ensures
        pass_of(others, world, settings, line, track) == pass_of(
            voices,
            shared,
            params,
            line,
            track,
        ),
{
}

/// The rhythm repeats every bar, however long the loop is: a step one bar later has the
/// same onset, accent and velocity, and the generator plays the same on it.
pub proof fn law_rhythm_repeats_every_bar(pf: Performance, stp: int, degree: i32, rng: u64)
    ensures
        ({
            let (here, there) = (stp % STEPS as int, (stp + STEPS) % STEPS as int);
            &&& pf.onset(there) == pf.onset(here)
            &&& pf.velocity(there) == pf.velocity(here)
            &&& pf.generated(there, degree, rng) == pf.generated(here, degree, rng)
        }),
{
}

/// Touch to play: a track that is not held, not touched and has nothing recorded puts out
/// no new note, however long the clock runs.
pub proof fn law_untouched_tracks_stay_silent(
    pf: Performance,
    start: Lane,
    track: u8,
    playing: bool,
    pos: int,
    steps: Seq<i64>,
    releases: Seq<i64>,
)
    requires
        !pf.params.hold,
        !pf.touching,
        !pf.has_rec,
    ensures
        all_started(track_pass(pf, start, track, playing, pos, steps, releases).out) == Seq::<
            (u8, u8),
        >::empty(),
{
    lemma_release(start.voice.playing_note, 0, track);
}

/// The generator only plays notes of the MIDI range.
pub proof fn law_generated_notes_are_midi_notes(pf: Performance, idx: int, degree: i32, rng: u64)
    requires
        pf.wf(),
    ensures
        pf.generated(idx, degree, rng).0 matches Some(n) ==> n <= 127,
{
}

/// The dice of every track start alive and apart from those of the others.
pub proof fn law_seeds_are_alive_and_apart(a: int, b: int)
    requires
        0 <= a < b < NUM_TRACKS,
    ensures
        seed(a) != 0,
        seed(b) != 0,
        seed(a) != seed(b),
{
    assert(seed(0) == 0x9E37_79B9_7F4A_7C15);
    assert(seed(1) == 0xB06B_D032_1A07_5B06);
    assert(seed(2) == 0xC2A0_26AA_B4C4_39F7);
    assert(seed(3) == 0xD4D4_7D23_4F81_18E8);
}

} // verus!
