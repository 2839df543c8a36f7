use trafalgar::chance::xorshift;
use trafalgar::clock::Transport;
use trafalgar::engine::{any_open, Note, NoteEvent, Output, Trafalgar};
use trafalgar::euclid::{euclid, rotated};
use trafalgar::gesture::NUM_TRACKS;
use trafalgar::midi::MidiSender;
use trafalgar::osc::OscSender;
use trafalgar::params::TrackParams;
use trafalgar::route::route;
use trafalgar::scale::{scale_note, Scale};
use trafalgar::shared::{pack, Shared};

/// A sample rate at which a step has 100 samples at 120 beats per minute.
const RATE: f32 = 800.0;

fn transport(pos: i64, playing: bool) -> Option<Transport> {
    Some(Transport { tempo: 120.0f64.to_bits(), pos, playing })
}

/// The first track as it starts, the others closed.
fn solo() -> [TrackParams; NUM_TRACKS] {
    let mut p = [TrackParams::new(0), TrackParams::new(1), TrackParams::new(2), TrackParams::new(3)];
    for t in 1..NUM_TRACKS {
        p[t].hold = false;
    }
    p
}

fn on(timing: u32, channel: u8, note: u8, velocity: f32) -> Output {
    Output::Event(NoteEvent::NoteOn { timing, channel, note, velocity: velocity.to_bits() })
}

fn off(timing: u32, channel: u8, note: u8) -> Output {
    Output::Event(NoteEvent::NoteOff { timing, channel, note, velocity: 0 })
}

fn cc(timing: u32, channel: u8, value: f32) -> Output {
    Output::Event(NoteEvent::MidiCC { timing, channel, cc: 65, value: value.to_bits() })
}

fn osc(track: u8, note: u8, vel: f32) -> Output {
    Output::Osc(Note { track, note, vel: vel.to_bits() })
}

fn play(seq: &mut Trafalgar, sh: &mut Shared, p: &[TrackParams; NUM_TRACKS], pos: i64, samples: usize) -> Vec<Output> {
    seq.process(sh, p, transport(pos, true), samples, RATE.to_bits())
}

#[test]
fn a_bar_of_the_first_track() {
    let (mut seq, mut sh, p) = (Trafalgar::default(), Shared::default(), solo());
    let out = play(&mut seq, &mut sh, &p, 0, 1600);
    let mut want = Vec::new();
    for (at, vel) in [(0u32, 1.0f32), (400, 0.7), (800, 1.0), (1200, 0.7)] {
        want.extend([cc(at, 0, 0.0), on(at, 0, 48, vel), osc(0, 48, vel), off(at + 100, 0, 48)]);
    }
    assert_eq!(out, want);
    assert_eq!(sh.step, [15, -1, -1, -1]);
    assert_eq!(seq.voices[0].playing_note, None);
}

#[test]
fn short_notes_are_released_within_their_step() {
    let (mut seq, mut sh, mut p) = (Trafalgar::default(), Shared::default(), solo());
    p[0].note_len = 0.25f32.to_bits();
    p[0].density = 16;
    let out = play(&mut seq, &mut sh, &p, 0, 200);
    assert_eq!(
        out,
        [
            cc(0, 0, 0.0), on(0, 0, 48, 1.0), osc(0, 48, 1.0), off(25, 0, 48),
            cc(100, 0, 0.0), on(100, 0, 48, 0.7), osc(0, 48, 0.7), off(125, 0, 48),
        ]
    );
}

#[test]
fn portamento_overlaps_notes_and_holds_them() {
    let (mut seq, mut sh, mut p) = (Trafalgar::default(), Shared::default(), solo());
    p[0].portamento = true;
    p[0].note_len = 0.05f32.to_bits();
    let out = play(&mut seq, &mut sh, &p, 0, 500);
    assert_eq!(
        out,
        [
            cc(0, 0, 1.0), on(0, 0, 48, 1.0), osc(0, 48, 1.0),
            cc(400, 0, 1.0), on(400, 0, 48, 0.7), off(400, 0, 48), osc(0, 48, 0.7),
        ]
    );
    assert_eq!(seq.voices[0].playing_note, Some((48, 0)));
    assert_eq!(seq.voices[0].note_off_at, i64::MAX);
}

#[test]
fn a_note_is_released_on_the_channel_it_was_started_on() {
    let (mut seq, mut sh, mut p) = (Trafalgar::default(), Shared::default(), solo());
    let out = play(&mut seq, &mut sh, &p, 0, 50);
    assert_eq!(out.len(), 3);
    p[0].channel = 9;
    assert_eq!(play(&mut seq, &mut sh, &p, 50, 100), [off(50, 0, 48)]);
    assert_eq!(play(&mut seq, &mut sh, &p, 400, 1)[1], on(0, 8, 48, 0.7));
}

#[test]
fn stopping_releases_what_sounds() {
    let (mut seq, mut sh, p) = (Trafalgar::default(), Shared::default(), solo());
    play(&mut seq, &mut sh, &p, 0, 50);
    let out = seq.process(&mut sh, &p, transport(50, false), 50, RATE.to_bits());
    assert_eq!(out, [off(0, 0, 48)]);
    assert_eq!(sh.step, [-1; NUM_TRACKS]);
    assert_eq!(seq.voices[0].last_step, -1);
    assert!(seq.process(&mut sh, &p, transport(50, false), 50, RATE.to_bits()).is_empty());
}

#[test]
fn without_a_transport_everything_is_released() {
    let (mut seq, mut sh) = (Trafalgar::default(), Shared::default());
    let p = [TrackParams::new(0), TrackParams::new(1), TrackParams::new(2), TrackParams::new(3)];
    play(&mut seq, &mut sh, &p, 0, 50);
    let out = seq.process(&mut sh, &p, None, 50, RATE.to_bits());
    assert_eq!(out, [off(0, 0, 48), off(0, 1, 48), off(0, 2, 48), off(0, 3, 48)]);
    assert_eq!(sh.step, [-1; NUM_TRACKS]);
    // the step is kept, so coming back to it does not sound it again
    assert_eq!(seq.voices[0].last_step, 0);
    assert!(play(&mut seq, &mut sh, &p, 50, 50).is_empty());
}

#[test]
fn resetting_forgets_what_plays_but_not_the_dice() {
    let (mut seq, mut sh, mut p) = (Trafalgar::default(), Shared::default(), solo());
    p[0].percussive = true;
    play(&mut seq, &mut sh, &p, 0, 1600);
    let rng = seq.voices[0].rng;
    seq.reset();
    assert_eq!(seq.voices[0].rng, rng);
    assert_eq!((seq.voices[0].last_step, seq.voices[0].playing_note, seq.voices[0].note_off_at), (-1, None, i64::MAX));
    assert_ne!(rng, Trafalgar::default().voices[0].rng);
}

#[test]
fn the_sample_counter_goes_on_by_blocks_and_wraps() {
    let mut seq = Trafalgar::default();
    assert_eq!(seq.advance(512), 0);
    assert_eq!(seq.advance(u64::MAX), 512);
    assert_eq!(seq.advance(1), 511);
}

#[test]
fn dice_start_alive_and_apart() {
    let seeds: Vec<u64> = Trafalgar::default().voices.iter().map(|v| v.rng).collect();
    for i in 0..NUM_TRACKS {
        let want = 0x9E37_79B9_7F4A_7C15u64.wrapping_add((i as u64).wrapping_mul(0x1234_5678_9ABC_DEF1));
        assert_eq!(seeds[i], want);
        assert_ne!(want, 0);
        assert!(seeds[..i].iter().all(|&s| s != want));
    }
}

#[test]
fn an_untouched_track_without_hold_stays_silent() {
    let (mut seq, mut sh, mut p) = (Trafalgar::default(), Shared::default(), solo());
    p[0].hold = false;
    assert!(play(&mut seq, &mut sh, &p, 0, 3200).is_empty());
    // touched, it plays where it is touched
    sh.gate[0] = true;
    sh.pos[0] = pack(1.0f32.to_bits(), 1.0f32.to_bits());
    let out = play(&mut seq, &mut sh, &p, 3200, 101);
    assert_eq!(out[1], on(0, 0, 72, 1.0));
    assert_eq!(out[5], on(100, 0, 72, 0.7));
}

#[test]
fn what_is_recorded_is_played_back() {
    let (mut seq, mut sh, mut p) = (Trafalgar::default(), Shared::default(), solo());
    p[0].hold = false;
    p[0].record = true;
    p[0].length = 2;
    sh.gate[0] = true;
    // wander over the pad while two bars are recorded
    let mut recorded = Vec::new();
    for s in 0..32 {
        sh.pos[0] = pack((s as f32 / 31.0).to_bits(), (((s * 7) % 32) as f32 / 31.0).to_bits());
        recorded.extend(play(&mut seq, &mut sh, &p, s * 100, 100));
    }
    let take: Vec<i32> = sh.gesture.snapshot(0);
    assert!(take[..32].iter().all(|&c| c == -2 || (0..=127).contains(&c)));
    assert!(take[..32].iter().any(|&c| c == -2) && take[..32].iter().any(|&c| c >= 0));
    assert!(take[32..].iter().all(|&c| c == -1));
    // let go: the loop plays the same notes, round after round, and stays as it is
    sh.gate[0] = false;
    for round in 1..4i64 {
        let mut again = Vec::new();
        for s in 0..32 {
            again.extend(play(&mut seq, &mut sh, &p, round * 3200 + s * 100, 100));
        }
        // a note held over from the round before is released first
        let notes = |out: &[Output]| -> Vec<u8> {
            out.iter()
                .filter_map(|o| match o {
                    Output::Event(NoteEvent::NoteOn { note, .. }) => Some(*note),
                    _ => None,
                })
                .collect()
        };
        assert_eq!(notes(&again), notes(&recorded));
        assert_eq!(sh.gesture.snapshot(0), take);
    }
}

#[test]
fn erasing_empties_the_steps_that_go_by() {
    let (mut seq, mut sh, mut p) = (Trafalgar::default(), Shared::default(), solo());
    p[0].hold = false;
    for i in 0..16 {
        sh.gesture.store(0, i, 60);
    }
    sh.erase[0] = true;
    let out = play(&mut seq, &mut sh, &p, 0, 400);
    assert!(out.is_empty());
    sh.erase[0] = false;
    assert_eq!(sh.gesture.snapshot(0)[..5], [-1, -1, -1, -1, 60]);
    let out = play(&mut seq, &mut sh, &p, 400, 50);
    assert_eq!(out[1], on(0, 0, 60, 0.7));
}

#[test]
fn recording_goes_before_erasing() {
    let (mut seq, mut sh, mut p) = (Trafalgar::default(), Shared::default(), solo());
    p[0].record = true;
    sh.gate[0] = true;
    sh.erase[0] = true;
    sh.pos[0] = pack(0, 1.0f32.to_bits());
    play(&mut seq, &mut sh, &p, 0, 1);
    assert_eq!(sh.gesture.load(0, 0), 36);
}

#[test]
fn cells_loaded_from_elsewhere_play_their_low_byte() {
    let (mut seq, mut sh, mut p) = (Trafalgar::default(), Shared::default(), solo());
    p[0].hold = false;
    sh.gesture.store(0, 0, 300);
    sh.gesture.store(0, 1, -5);
    let out = play(&mut seq, &mut sh, &p, 0, 300);
    assert_eq!(out, [cc(0, 0, 0.0), on(0, 0, 44, 1.0), osc(0, 44, 1.0), off(100, 0, 44)]);
}

#[test]
fn blocks_can_be_cut_anywhere() {
    let mut p = [TrackParams::new(0), TrackParams::new(1), TrackParams::new(2), TrackParams::new(3)];
    p[1].percussive = true;
    p[1].density = 11;
    p[2].portamento = true;
    p[3].note_len = 0.3f32.to_bits();
    let (mut a, mut sa) = (Trafalgar::default(), Shared::default());
    let whole = play(&mut a, &mut sa, &p, -250, 2000);
    for cut in [1usize, 99, 250, 777, 1999] {
        let (mut b, mut sb) = (Trafalgar::default(), Shared::default());
        let first = play(&mut b, &mut sb, &p, -250, cut);
        let second = play(&mut b, &mut sb, &p, -250 + cut as i64, 2000 - cut);
        assert_eq!(b.voices, a.voices);
        assert_eq!(sb.step, sa.step);
        for t in 0..NUM_TRACKS as u8 {
            let pick = |out: &[Output], by: u32| -> Vec<NoteEvent> {
                out.iter()
                    .filter_map(|o| match *o {
                        Output::Event(NoteEvent::NoteOn { timing, channel, note, velocity }) if channel == t => {
                            Some(NoteEvent::NoteOn { timing: timing + by, channel, note, velocity })
                        }
                        Output::Event(NoteEvent::NoteOff { timing, channel, note, velocity }) if channel == t => {
                            Some(NoteEvent::NoteOff { timing: timing + by, channel, note, velocity })
                        }
                        _ => None,
                    })
                    .collect()
            };
            let mut joined = pick(&first, 0);
            joined.extend(pick(&second, cut as u32));
            assert_eq!(joined, pick(&whole, 0), "cut at {cut}");
        }
    }
}

#[test]
fn outputs_go_where_they_belong() {
    let out = vec![cc(0, 0, 0.0), on(0, 0, 48, 1.0), osc(0, 48, 1.0), off(5, 0, 48)];
    let (mut midi, mut target) = (Some(MidiSender::new()), Some(OscSender::new()));
    let events = route(&out, &mut midi, &mut target);
    assert_eq!(events.len(), 3);
    assert_eq!(midi.unwrap().take(), [[0xb0, 65, 0], [0x90, 48, 127], [0x80, 48, 0]]);
    assert_eq!(target.unwrap().take(), [Note { track: 0, note: 48, vel: 1.0f32.to_bits() }]);
    let (mut nowhere, mut silent) = (None, None);
    assert_eq!(route(&out, &mut nowhere, &mut silent), events);
    assert!(nowhere.is_none() && silent.is_none());
}

/// One track as plain arithmetic, to hold the sequencer against.
struct Model {
    last_step: i64,
    playing: Option<(u8, u8)>,
    off_at: i64,
    rng: u64,
    cells: Vec<i32>,
}

impl Model {
    fn block(&mut self, t: usize, p: &TrackParams, sh: &Shared, pos: i64, n: usize, tempo: f64, rate: f32) -> Vec<Output> {
        let sps = 60.0 / tempo * rate as f64 / 4.0;
        let mut out = Vec::new();
        let touching = sh.gate[t];
        let x = f32::from_bits((sh.pos[t] >> 32) as u32);
        let y = f32::from_bits(sh.pos[t] as u32);
        let (live, density) = if touching {
            ((x * 15.0).round().clamp(0.0, 15.0) as i32, (1.0 + y * 15.0).round().clamp(1.0, 16.0) as usize)
        } else {
            (p.pitch, p.density as usize)
        };
        let loop_steps = p.length as usize * 16;
        let has_rec = self.cells[..loop_steps].iter().any(|&c| c != -1);
        let pattern = rotated(density, 16, p.rotation as usize);
        let accents = euclid(p.accent as usize, 16);
        let chan = (p.channel - 1) as u8;
        let t8 = t as u8;
        if !(p.hold || touching || has_rec) {
            if let Some((n, c)) = self.playing.take() {
                out.push(off(0, c, n));
            }
            self.off_at = i64::MAX;
            self.last_step = -1;
            return out;
        }
        for s in 0..n {
            let global = pos + s as i64;
            let timing = s as u32;
            if global >= self.off_at {
                if let Some((n, c)) = self.playing.take() {
                    out.push(off(timing, c, n));
                }
                self.off_at = i64::MAX;
            }
            let stp = (global as f64 / sps).floor() as i64;
            if stp == self.last_step {
                continue;
            }
            self.last_step = stp;
            let idx = stp.rem_euclid(16) as usize;
            let gidx = stp.rem_euclid(loop_steps as i64) as usize;
            if sh.erase[t] {
                self.cells[gidx] = -1;
            }
            let degree = if touching { live } else { p.pitch };
            let sounded = if !touching && has_rec {
                let v = self.cells[gidx];
                if v >= 0 { Some(v as u8) } else { None }
            } else if !pattern[idx] {
                None
            } else if p.percussive {
                let roll = xorshift(&mut self.rng) as f32 / (1u64 << 24) as f32;
                if roll < degree as f32 / 15.0 { Some(p.note as u8) } else { None }
            } else {
                Some(scale_note(p.note as u8, p.scale, degree as u8))
            };
            if touching && p.record {
                self.cells[gidx] = sounded.map(|n| n as i32).unwrap_or(-2);
            }
            if let Some(note) = sounded {
                let vel = f32::from_bits(if accents[idx] { p.accent_vel } else { p.base_vel });
                let porta = p.portamento;
                out.push(cc(timing, chan, if porta { 1.0 } else { 0.0 }));
                let prev = self.playing.replace((note, chan));
                if porta {
                    out.push(on(timing, chan, note, vel));
                }
                if let Some((n, c)) = prev {
                    out.push(off(timing, c, n));
                }
                if !porta {
                    out.push(on(timing, chan, note, vel));
                }
                self.off_at = if porta {
                    i64::MAX
                } else {
                    ((stp as f64 + f32::from_bits(p.note_len) as f64) * sps) as i64
                };
                out.push(osc(t8, note, vel));
            } else if !p.portamento {
                if let Some((n, c)) = self.playing.take() {
                    out.push(off(timing, c, n));
                }
                self.off_at = i64::MAX;
            }
        }
        out
    }
}

#[test]
fn long_sessions_agree_with_plain_arithmetic() {
    let mut seed = 42u64;
    let mut dice = |n: u64| -> u64 {
        xorshift(&mut seed);
        (seed >> 20) % n
    };
    let scales = [
        Scale::MinorPentatonic,
        Scale::MajorPentatonic,
        Scale::Major,
        Scale::Minor,
        Scale::Dorian,
        Scale::Chromatic,
    ];
    for session in 0..6 {
        let (mut seq, mut sh, mut p) = (Trafalgar::default(), Shared::default(), solo());
        let mut models: Vec<Model> = (0..NUM_TRACKS)
            .map(|t| Model { last_step: -1, playing: None, off_at: i64::MAX, rng: seq.voices[t].rng, cells: sh.gesture.snapshot(t) })
            .collect();
        let rate = [800.0f32, 44100.0 / 32.0, 1500.5][session % 3];
        let mut pos = -(dice(5000) as i64);
        for _ in 0..60 {
            let tempo = 60.0 + dice(1400) as f64 / 10.0;
            for t in 0..NUM_TRACKS {
                if dice(4) == 0 {
                    p[t].density = 1 + dice(16) as i32;
                    p[t].rotation = dice(16) as i32;
                    p[t].pitch = dice(16) as i32;
                    p[t].accent = dice(17) as i32;
                    p[t].hold = dice(3) > 0;
                    p[t].percussive = dice(2) == 0;
                    p[t].note = dice(128) as i32;
                    p[t].scale = scales[dice(6) as usize];
                    p[t].record = dice(2) == 0;
                    p[t].length = 1 + dice(8) as i32;
                    p[t].note_len = (0.05 + 0.95 * dice(1000) as f32 / 1000.0).to_bits();
                    p[t].portamento = dice(3) == 0;
                    p[t].channel = 1 + dice(16) as i32;
                }
                sh.gate[t] = dice(3) == 0;
                sh.erase[t] = dice(9) == 0;
                sh.pos[t] = pack((dice(1001) as f32 / 1000.0).to_bits(), (dice(1001) as f32 / 1000.0).to_bits());
            }
            let n = 1 + dice(900) as usize;
            let mut want = Vec::new();
            for t in 0..NUM_TRACKS {
                want.extend(models[t].block(t, &p[t], &sh, pos, n, tempo, rate));
            }
            let clock = Some(Transport { tempo: tempo.to_bits(), pos, playing: true });
            let out = seq.process(&mut sh, &p, clock, n, rate.to_bits());
            assert_eq!(out, want);
            for t in 0..NUM_TRACKS {
                assert_eq!(sh.gesture.snapshot(t), models[t].cells);
                assert_eq!(sh.step[t], models[t].last_step);
                assert_eq!(seq.voices[t].rng, models[t].rng);
            }
            pos += n as i64;
        }
    }
}

/// Every note that is started is released once, on its channel; every start is mirrored.
#[test]
fn notes_balance_and_are_mirrored() {
    let (mut seq, mut sh, mut p) = (Trafalgar::default(), Shared::default(), solo());
    p[0].percussive = true;
    p[0].density = 13;
    let mut sounding: Vec<(u8, u8)> = Vec::new();
    let (mut started, mut mirrored) = (Vec::new(), Vec::new());
    for b in 0..200i64 {
        p[0].channel = 1 + (b % 16) as i32;
        p[0].portamento = b % 7 == 0;
        let mut last = 0;
        for o in play(&mut seq, &mut sh, &p, b * 64, 64) {
            match o {
                Output::Event(NoteEvent::NoteOn { timing, channel, note, velocity }) => {
                    assert!(last <= timing && timing < 64);
                    last = timing;
                    assert_eq!(channel as i32, p[0].channel - 1);
                    sounding.push((note, channel));
                    started.push(Note { track: 0, note, vel: velocity });
                }
                Output::Event(NoteEvent::NoteOff { timing, channel, note, .. }) => {
                    assert!(last <= timing && timing < 64);
                    last = timing;
                    assert_eq!(sounding.remove(0), (note, channel));
                }
                Output::Event(NoteEvent::MidiCC { timing, .. }) => {
                    assert!(last <= timing && timing < 64);
                    last = timing;
                }
                Output::Osc(n) => mirrored.push(n),
            }
        }
        assert!(sounding.len() <= 1);
    }
    assert!(started.len() > 20);
    assert_eq!(started, mirrored);
}

#[test]
fn tracks_do_not_hear_each_other() {
    let p = [TrackParams::new(0), TrackParams::new(1), TrackParams::new(2), TrackParams::new(3)];
    let mut q = p;
    q[0].density = 9;
    q[1].percussive = true;
    q[3].portamento = true;
    let (mut a, mut sa) = (Trafalgar::default(), Shared::default());
    let (mut b, mut sb) = (Trafalgar::default(), Shared::default());
    sb.gate[1] = true;
    sb.gesture.store(3, 2, 90);
    let third = |out: Vec<Output>| -> Vec<Output> {
        out.into_iter()
            .filter(|o| match o {
                Output::Event(NoteEvent::NoteOn { channel, .. })
                | Output::Event(NoteEvent::NoteOff { channel, .. })
                | Output::Event(NoteEvent::MidiCC { channel, .. }) => *channel == 2,
                Output::Osc(n) => n.track == 2,
            })
            .collect()
    };
    let (x, y) = (play(&mut a, &mut sa, &p, 0, 1600), play(&mut b, &mut sb, &q, 0, 1600));
    assert_eq!(third(x), third(y));
    assert_eq!(a.voices[2], b.voices[2]);
}

#[test]
fn the_rhythm_repeats_every_bar() {
    let (mut seq, mut sh, mut p) = (Trafalgar::default(), Shared::default(), solo());
    p[0].density = 7;
    p[0].rotation = 3;
    p[0].length = 4;
    let first = play(&mut seq, &mut sh, &p, 0, 1600);
    let second = play(&mut seq, &mut sh, &p, 1600, 1600);
    let starts = |out: &[Output]| -> Vec<Output> {
        out.iter().filter(|o| matches!(o, Output::Event(NoteEvent::NoteOn { .. }))).copied().collect()
    };
    assert_eq!(starts(&first), starts(&second));
    assert_eq!(starts(&first).len(), 7);
}

#[test]
fn positions_are_only_looked_at_while_a_track_sounds() {
    let (mut seq, mut sh, mut p) = (Trafalgar::default(), Shared::default(), solo());
    play(&mut seq, &mut sh, &p, 0, 50);
    // paused at the last position of all
    let out = seq.process(&mut sh, &p, transport(i64::MAX, false), 512, RATE.to_bits());
    assert_eq!(out, [off(0, 0, 48)]);
    // running there with nothing to play
    assert!(any_open(&sh, &p));
    p[0].hold = false;
    assert!(!any_open(&sh, &p));
    let out = seq.process(&mut sh, &p, transport(i64::MAX, true), 512, RATE.to_bits());
    assert!(out.is_empty());
    assert_eq!(sh.step, [-1; NUM_TRACKS]);
    // a touch or a recorded note opens a track
    sh.gate[3] = true;
    assert!(any_open(&sh, &p));
    sh.gate[3] = false;
    sh.gesture.store(2, 15, 60);
    assert!(any_open(&sh, &p));
    sh.gesture.store(2, 15, -1);
    sh.gesture.store(2, 16, 60); // beyond the loop
    assert!(!any_open(&sh, &p));
    // the very last sample is played
    p[0].hold = true;
    p[0].density = 16;
    let out = seq.process(&mut sh, &p, transport(i64::MAX, true), 1, RATE.to_bits());
    assert_eq!(out.len(), 3);
}

/// Blocks, pauses and lost transports in any order, with everything changed in between.
#[test]
fn whole_sessions_balance() {
    let mut seed = 7u64;
    let mut dice = |n: u64| -> u64 {
        xorshift(&mut seed);
        (seed >> 20) % n
    };
    for session in 0..8 {
        let (mut seq, mut sh) = (Trafalgar::default(), Shared::default());
        let mut p = solo();
        if session % 2 == 1 {
            // a sounding note is forgotten by a reset, and the count starts anew
            play(&mut seq, &mut sh, &p, 0, 10);
            seq.reset();
        }
        let mut sounding: Vec<Vec<(u8, u8)>> = vec![Vec::new(); NUM_TRACKS];
        let mut pos = 0i64;
        for _ in 0..300 {
            for t in 0..NUM_TRACKS {
                // channels apart, so that an event names its track
                p[t].channel = 1 + t as i32 * 4 + dice(4) as i32;
                p[t].hold = dice(4) > 0;
                p[t].density = 1 + dice(16) as i32;
                p[t].pitch = dice(16) as i32;
                p[t].percussive = dice(2) == 0;
                p[t].portamento = dice(3) == 0;
                p[t].record = dice(2) == 0;
                sh.gate[t] = dice(3) == 0;
                sh.erase[t] = dice(5) == 0;
            }
            let n = dice(300) as usize;
            let clock = match dice(10) {
                0 => None,
                1 => transport(pos, false),
                _ => transport(pos, true),
            };
            for o in seq.process(&mut sh, &p, clock, n, RATE.to_bits()) {
                match o {
                    Output::Event(NoteEvent::NoteOn { channel, note, .. }) => {
                        sounding[channel as usize / 4].push((note, channel));
                    }
                    Output::Event(NoteEvent::NoteOff { channel, note, .. }) => {
                        let held = &mut sounding[channel as usize / 4];
                        assert!(!held.is_empty(), "released before it was started");
                        assert_eq!(held.remove(0), (note, channel));
                    }
                    _ => {}
                }
            }
            for t in 0..NUM_TRACKS {
                let held: Vec<(u8, u8)> = seq.voices[t].playing_note.into_iter().collect();
                assert_eq!(sounding[t], held);
            }
            pos += n as i64;
        }
    }
}
