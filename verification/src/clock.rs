//! The step clock: which step of the pattern each sample of a block falls on, and when a
//! note of that step is released. Tempi, beats and the length of a step are
//! double-precision patterns.

use crate::double::{
    add_near, divide, double_from_int, floor_int, floor_to_int, int_as_double,
    lemma_rounded_exponent, multiply, near, product, quotient, round_to_int, rounded_int,
    single_as_double, sum, truncate_to_int, truncated_int, widen,
};
use crate::engine::{
    any_open, call_outputs, call_pass, call_result, call_voices, countable, opens, outputs_of,
    pass_of, performance_of, releases_of, Block, Call, Output, Timeline, Trafalgar, Voice,
};
use crate::gesture::NUM_TRACKS;
use crate::params::{TrackParams, SHORTEST};
use crate::rounding::{bit_length, lemma_bit_length, lemma_bit_length_bound};
use crate::shared::{same_controls, Shared};
use crate::single::{exponent, significand, ONE};
use vstd::arithmetic::power2::{lemma2_to64, lemma2_to64_rest};
use vstd::prelude::*;

verus! {

/// The pattern of 60.0, the seconds of a minute.
pub const SIXTY: u64 = 0x404e_0000_0000_0000;

/// The pattern of 4.0, the steps of a beat.
pub const FOUR: u64 = 0x4010_0000_0000_0000;

/// The samples of a step, a sixteenth note, at a tempo in beats per minute.
#[verifier::opaque]
pub open spec fn step_length(tempo: u64, sample_rate: u64) -> u64 {
    quotient(product(quotient(SIXTY, tempo), sample_rate), FOUR)
}

/// The step that a sample falls on.
#[verifier::opaque]
pub open spec fn step_at(global: i64, sps: u64) -> i64 {
    floor_int(quotient(int_as_double(global), sps))
}

/// The sample at which a note of a step is released.
#[verifier::opaque]
pub open spec fn release_at(stp: i64, note_len: u32, sps: u64) -> i64 {
    truncated_int(product(sum(int_as_double(stp), single_as_double(note_len)), sps))
}

/// The sample that a beat falls on.
pub open spec fn sample_at(beat: u64, tempo: u64, sample_rate: u64) -> i64 {
    rounded_int(product(product(beat, FOUR), step_length(tempo, sample_rate)))
}

/// The samples of a step, a sixteenth note, at a tempo in beats per minute.
pub fn samples_per_step(tempo: u64, sample_rate: u64) -> (r: u64)
    ensures
        r == step_length(tempo, sample_rate),
{
    reveal(step_length);
    divide(multiply(divide(SIXTY, tempo), sample_rate), FOUR)
}

/// The step that a sample falls on.
pub fn step_of(global: i64, sps: u64) -> (r: i64)
    ensures
        r == step_at(global, sps),
{
    reveal(step_at);
    floor_to_int(divide(double_from_int(global), sps))
}

/// A step number and a note length are close enough to be added.
proof fn lemma_step_and_length_are_near(stp: i64, note_len: u32)
    requires
        SHORTEST <= note_len <= ONE,
    ensures
        near(int_as_double(stp), single_as_double(note_len)),
{
    lemma2_to64();
    lemma2_to64_rest();
    let n: nat = if stp < 0 {
        (-stp) as nat
    } else {
        stp as nat
    };
    let m = significand(note_len as nat);
    let x = exponent(note_len as nat);
    assert(0x80_0000 <= m < 0x100_0000 && -28 <= x <= -23);
    lemma_bit_length(m);
    lemma_bit_length_bound(m, 24);
    assert(bit_length(m) == 24);
    lemma_rounded_exponent(false, m, x);
    if n > 0 {
        lemma_bit_length(n);
        lemma_bit_length_bound(n, 64);
        lemma_rounded_exponent(stp < 0, n, 0);
    }
}

/// The sample at which a note of a step is released.
pub fn release_of(stp: i64, note_len: u32, sps: u64) -> (r: i64)
    requires
        SHORTEST <= note_len <= ONE,
    ensures
        r == release_at(stp, note_len, sps),
{
    proof {
        reveal(release_at);
        lemma_step_and_length_are_near(stp, note_len);
    }
    truncate_to_int(multiply(add_near(double_from_int(stp), widen(note_len)), sps))
}

/// The sample that a beat falls on.
pub fn position_of_beat(beat: u64, tempo: u64, sample_rate: u64) -> (r: i64)
    ensures
        r == sample_at(beat, tempo, sample_rate),
{
    round_to_int(multiply(multiply(beat, FOUR), samples_per_step(tempo, sample_rate)))
}

/// What the host says of its transport; it may not know its tempo or where it is.
#[derive(Clone, Copy, Debug)]
pub struct Host {
    pub tempo: Option<u64>,
    pub pos: Option<i64>,
    pub playing: bool,
}

/// The tempo and the beat of a Link session.
#[derive(Clone, Copy, Debug)]
pub struct Session {
    pub tempo: u64,
    pub beat: u64,
}

/// What a block is played by: the tempo, its first sample, and whether the clock runs.
#[derive(Clone, Copy, Debug)]
pub struct Transport {
    pub tempo: u64,
    pub pos: i64,
    pub playing: bool,
}

/// A Link session that is joined dictates tempo and position, and always plays; otherwise
/// the host does, if it knows both.
pub open spec fn followed(session: Option<Session>, host: Host, sample_rate: u32) -> Option<
    Transport,
> {
    match session {
        Some(s) => Some(
            Transport {
                tempo: s.tempo,
                pos: sample_at(s.beat, s.tempo, single_as_double(sample_rate)),
                playing: true,
            },
        ),
        None => match (host.tempo, host.pos) {
            (Some(tempo), Some(pos)) => Some(Transport { tempo, pos, playing: host.playing }),
            _ => None,
        },
    }
}

/// Decides what the coming block is played by.
pub fn follow(session: Option<Session>, host: Host, sample_rate: u32) -> (r: Option<Transport>)
    ensures
        r == followed(session, host, sample_rate),
{
    if let Some(s) = session {
        let pos: i64 = position_of_beat(s.beat, s.tempo, widen(sample_rate));
        return Some(Transport { tempo: s.tempo, pos, playing: true });
    }
    match (host.tempo, host.pos) {
        (Some(tempo), Some(pos)) => Some(Transport { tempo, pos, playing: host.playing }),
        _ => None,
    }
}

/// A block of the transport, sample by sample. While the transport stands still no sample
/// has a step.
pub open spec fn timeline(
    transport: Transport,
    samples: nat,
    sample_rate: u32,
    params: Seq<TrackParams>,
) -> Timeline {
    let sps = step_length(transport.tempo, single_as_double(sample_rate));
    let n = if transport.playing {
        samples
    } else {
        0
    };
    let steps = Seq::new(n, |s: int| step_at((transport.pos + s) as i64, sps));
    Timeline {
        playing: transport.playing,
        pos: transport.pos as int,
        steps,
        releases: Seq::new(
            params.len(),
            |t: int| Seq::new(n, |s: int| release_at(steps[s], params[t].note_len, sps)),
        ),
    }
}

/// The sample at which notes of each step of a block are released.
fn release_times(steps: &Vec<i64>, note_len: u32, sps: u64) -> (r: Vec<i64>)
    requires
        SHORTEST <= note_len <= ONE,
    ensures
        r@ == Seq::new(steps@.len(), |s: int| release_at(steps@[s], note_len, sps)),
{
    let mut r: Vec<i64> = Vec::new();
    let mut s: usize = 0;
    while s < steps.len()
        invariant
            s <= steps@.len(),
            r@.len() == s,
            SHORTEST <= note_len <= ONE,
            forall|k: int| 0 <= k < s ==> r@[k] == release_at(steps@[k], note_len, sps),
        decreases steps@.len() - s,
    {
        let at: i64 = if s > 0 && steps[s] == steps[s - 1] {
            r[s - 1]
        } else {
            release_of(steps[s], note_len, sps)
        };
        r.push(at);
        s += 1;
    }
    assert(r@ =~= Seq::new(steps@.len(), |s: int| release_at(steps@[s], note_len, sps)));
    r
}

/// Lays a block of the transport out, sample by sample.
pub fn lay_out(
    transport: Transport,
    samples: usize,
    sample_rate: u32,
    params: &[TrackParams; NUM_TRACKS],
) -> (r: Block)
    requires
        transport.playing ==> countable(transport.pos as int, samples as nat),
        forall|t: int| 0 <= t < NUM_TRACKS ==> #[trigger] params@[t].wf(),
    ensures
        r@ == timeline(transport, samples as nat, sample_rate, params@),
        r.wf(),
{
    let sps: u64 = samples_per_step(transport.tempo, widen(sample_rate));
    let ghost line = timeline(transport, samples as nat, sample_rate, params@);
    let n: usize = if transport.playing {
        samples
    } else {
        0
    };
    let mut steps: Vec<i64> = Vec::new();
    let mut s: usize = 0;
    while s < n
        invariant
            s <= n,
            n > 0 ==> countable(transport.pos as int, n as nat),
            steps@.len() == s,
            forall|k: int| 0 <= k < s ==> steps@[k] == step_at((transport.pos + k) as i64, sps),
        decreases n - s,
    {
        steps.push(step_of(transport.pos + s as i64, sps));
        s += 1;
    }
    assert(steps@ =~= line.steps);
    let mut releases: Vec<Vec<i64>> = Vec::new();
    let mut t: usize = 0;
    while t < NUM_TRACKS
        invariant
            t <= NUM_TRACKS,
            releases@.len() == t,
            forall|t: int| 0 <= t < NUM_TRACKS ==> #[trigger] params@[t].wf(),
            forall|k: int|
                0 <= k < t ==> #[trigger] releases@[k]@ == Seq::new(
                    steps@.len(),
                    |s: int| release_at(steps@[s], params@[k].note_len, sps),
                ),
        decreases NUM_TRACKS - t,
    {
        assert(params@[t as int].wf());
        releases.push(release_times(&steps, params[t].note_len, sps));
        t += 1;
    }
    let r = Block { playing: transport.playing, pos: transport.pos, steps, releases };
    assert forall|k: int| 0 <= k < NUM_TRACKS implies #[trigger] r@.releases[k] == line.releases[k] by {
        assert(r@.releases[k] == releases@[k]@);
        assert(r@.releases[k] =~= line.releases[k]);
    }
    assert(r@.releases =~= line.releases);
    r
}

/// Where no track sounds it makes no difference whether the transport runs.
proof fn lemma_closed_tracks_stand_still(
    voices: Seq<Voice>,
    shared: Shared,
    params: Seq<TrackParams>,
    line: Timeline,
    idle: Timeline,
    n: nat,
)
    requires
        n <= NUM_TRACKS,
        !opens(shared, params),
        !idle.playing,
    ensures
        outputs_of(voices, shared, params, idle, n) == outputs_of(voices, shared, params, line, n),
        forall|t: int|
            0 <= t < n ==> #[trigger] pass_of(voices, shared, params, idle, t) == pass_of(
                voices,
                shared,
                params,
                line,
                t,
            ),
    decreases n,
{
    if n > 0 {
        lemma_closed_tracks_stand_still(voices, shared, params, line, idle, (n - 1) as nat);
        assert(!performance_of(shared, params, n - 1).gate_open());
    }
}

/// What a call puts out, with a transport and without one.
proof fn lemma_call_outputs(voices: Seq<Voice>, call: Call, n: nat)
    ensures
        call_outputs(voices, call, n) == match call.line {
            Some(line) => outputs_of(voices, call.shared, call.params, line, n),
            None => releases_of(voices, n),
        },
    decreases n,
{
    if n > 0 {
        lemma_call_outputs(voices, call, (n - 1) as nat);
    }
}

/// The call that plays a block of the transport.
pub open spec fn block_call(
    shared: Shared,
    params: Seq<TrackParams>,
    transport: Option<Transport>,
    samples: nat,
    sample_rate: u32,
) -> Call {
    Call {
        shared,
        params,
        line: match transport {
            Some(tr) => Some(timeline(tr, samples, sample_rate, params)),
            None => None,
        },
    }
}

impl Trafalgar {
    /// Plays one block of a transport.
    fn play_transport(
        &mut self,
        shared: &mut Shared,
        params: &[TrackParams; NUM_TRACKS],
        tr: Transport,
        samples: usize,
        sample_rate: u32,
    ) -> (r: Vec<Output>)
        requires
            tr.playing && opens(*old(shared), params@) ==> countable(
                tr.pos as int,
                samples as nat,
            ),
            forall|t: int| 0 <= t < NUM_TRACKS ==> #[trigger] params@[t].wf(),
        ensures
            ({
                let line = timeline(tr, samples as nat, sample_rate, params@);
                &&& r@ == outputs_of(
                    old(self).voices@,
                    *old(shared),
                    params@,
                    line,
                    NUM_TRACKS as nat,
                )
                &&& forall|t: int|
                    0 <= t < NUM_TRACKS ==> {
                        let pass = pass_of(old(self).voices@, *old(shared), params@, line, t);
                        &&& #[trigger] final(self).voices@[t] == pass.lane.voice
                        &&& final(shared).gesture@[t] == pass.lane.cells
                        &&& final(shared).step@[t] == pass.step
                    }
            }),
            final(self).sample_clock == old(self).sample_clock,
            same_controls(*final(shared), *old(shared)),
    {
        let playing = tr.playing && any_open(shared, params);
        let running = Transport { tempo: tr.tempo, pos: tr.pos, playing };
        let block = lay_out(running, samples, sample_rate, params);
        proof {
            if playing == tr.playing {
                assert(running == tr);
            } else {
                lemma_closed_tracks_stand_still(
                    self.voices@,
                    *shared,
                    params@,
                    timeline(tr, samples as nat, sample_rate, params@),
                    block@,
                    NUM_TRACKS as nat,
                );
            }
        }
        self.play(shared, params, &block)
    }

    /// Plays one block and returns what the tracks put out, track after track. Without a
    /// transport every sounding note is released and every playhead goes idle. While the
    /// transport runs and a track sounds, the positions of the samples have to fit.
    pub fn process(
        &mut self,
        shared: &mut Shared,
        params: &[TrackParams; NUM_TRACKS],
        transport: Option<Transport>,
        samples: usize,
        sample_rate: u32,
    ) -> (r: Vec<Output>)
        requires
            transport matches Some(tr) ==> (tr.playing && opens(*old(shared), params@)
                ==> countable(tr.pos as int, samples as nat)),
            forall|t: int| 0 <= t < NUM_TRACKS ==> #[trigger] params@[t].wf(),
        ensures
            call_result(
                old(self).voices@,
                block_call(*old(shared), params@, transport, samples as nat, sample_rate),
                final(self).voices@,
                *final(shared),
                r@,
            ),
            final(self).sample_clock == old(self).sample_clock,
    {
        let ghost before = self.voices@;
        let ghost call = block_call(*shared, params@, transport, samples as nat, sample_rate);
        proof {
            lemma_call_outputs(before, call, NUM_TRACKS as nat);
        }
        let r = match transport {
            Some(tr) => self.play_transport(shared, params, tr, samples, sample_rate),
            None => self.halt(shared),
        };
        proof {
            assert forall|t: int|
                #![trigger shared.gesture@[t]]
                #![trigger shared.step@[t]]
                0 <= t < NUM_TRACKS implies {
                let pass = call_pass(before, call, t);
                &&& self.voices@[t] == pass.lane.voice
                &&& shared.gesture@[t] == pass.lane.cells
                &&& shared.step@[t] == pass.step
            } by {
                let pass = call_pass(before, call, t);
                assert(self.voices@[t] == pass.lane.voice);
            }
            assert forall|t: int| 0 <= t < NUM_TRACKS implies #[trigger] self.voices@[t]
                == call_pass(before, call, t).lane.voice by {}
            assert(self.voices@ =~= call_voices(before, call));
        }
        r
    }
}

/// A Link session leads alone: whatever the host says of its transport, and whether it plays
/// or not, the block has the session's tempo, starts on the sample that the session's beat
/// falls on, and plays.
pub proof fn law_the_session_leads(s: Session, a: Host, b: Host, sample_rate: u32)
    ensures
        followed(Some(s), a, sample_rate) == followed(Some(s), b, sample_rate),
        followed(Some(s), a, sample_rate) matches Some(tr) && {
            &&& tr.playing
            &&& tr.tempo == s.tempo
            &&& tr.pos == sample_at(s.beat, s.tempo, single_as_double(sample_rate))
        },
{
}

/// Without a session the host leads, if it says its tempo and where it is: then the block
/// has both, and plays if the host does. Otherwise there is nothing to follow. The sample
/// rate makes no difference.
pub proof fn law_the_host_leads_alone(host: Host, sample_rate: u32)
    ensures
        followed(None, host, sample_rate) is Some <==> host.tempo is Some && host.pos is Some,
        followed(None, host, sample_rate) matches Some(tr) ==> {
            &&& host.tempo == Some(tr.tempo)
            &&& host.pos == Some(tr.pos)
            &&& tr.playing <==> host.playing
        },
{
}

/// A running transport counts one sample after the other: sample `s` of the block is on the
/// step of its own position, whatever the block's start, and a note of track `t` that starts
/// there is released when the track's own note length is over. A transport that stands still
/// has no samples.
pub proof fn law_blocks_count_samples(
    tr: Transport,
    samples: nat,
    sample_rate: u32,
    params: Seq<TrackParams>,
    t: int,
    s: int,
)
    requires
        0 <= t < params.len(),
        0 <= s < samples,
        tr.pos + s <= i64::MAX,
    ensures
        ({
            let line = timeline(tr, samples, sample_rate, params);
            let sps = step_length(tr.tempo, single_as_double(sample_rate));
            &&& line.playing == tr.playing
            &&& line.pos == tr.pos
            &&& line.releases.len() == params.len()
            &&& line.releases[t].len() == line.steps.len()
            &&& tr.playing ==> {
                &&& line.steps.len() == samples
                &&& line.steps[s] == step_at((tr.pos + s) as i64, sps)
                &&& line.releases[t][s] == release_at(line.steps[s], params[t].note_len, sps)
            }
            &&& !tr.playing ==> line.steps.len() == 0
        }),
{
}

/// A block is played with the state and the parameters that it finds, along the transport if
/// there is one.
pub proof fn law_block_calls(
    shared: Shared,
    params: Seq<TrackParams>,
    transport: Option<Transport>,
    samples: nat,
    sample_rate: u32,
)
    ensures
        ({
            let call = block_call(shared, params, transport, samples, sample_rate);
            &&& call.shared == shared
            &&& call.params == params
            &&& call.line is Some <==> transport is Some
            &&& transport matches Some(tr) ==> call.line == Some(
                timeline(tr, samples, sample_rate, params),
            )
        }),
{
}

} // verus!
