use trafalgar::clock::{
    follow, lay_out, position_of_beat, release_of, samples_per_step, step_of, Host, Session,
};
use trafalgar::gesture::NUM_TRACKS;
use trafalgar::params::TrackParams;

fn tracks() -> [TrackParams; NUM_TRACKS] {
    [TrackParams::new(0), TrackParams::new(1), TrackParams::new(2), TrackParams::new(3)]
}

const TEMPI: [f64; 8] = [120.0, 60.0, 133.7, 20.0, 999.0, 174.123456, 90.0, 0.3];
const RATES: [f32; 5] = [44100.0, 48000.0, 96000.0, 22050.0, 8000.5];

#[test]
fn steps_and_releases_agree_with_the_hardware() {
    for tempo in TEMPI {
        for rate in RATES {
            let sps = 60.0 / tempo * rate as f64 / 4.0;
            let got = samples_per_step(tempo.to_bits(), (rate as f64).to_bits());
            assert_eq!(got, sps.to_bits());
            let mut g: i64 = -100_000;
            while g < 2_000_000 {
                let stp = (g as f64 / sps).floor() as i64;
                assert_eq!(step_of(g, got), stp, "sample {g} at {tempo}, {rate}");
                for len in [0.05f32, 0.3, 0.5, 0.951, 1.0] {
                    let off = ((stp as f64 + len as f64) * sps) as i64;
                    assert_eq!(release_of(stp, len.to_bits(), got), off);
                }
                g += 997;
            }
        }
    }
}

#[test]
fn a_step_at_120_bpm_and_48_khz_has_6000_samples() {
    let sps = samples_per_step(120.0f64.to_bits(), 48000.0f64.to_bits());
    assert_eq!(f64::from_bits(sps), 6000.0);
    assert_eq!(step_of(0, sps), 0);
    assert_eq!(step_of(5999, sps), 0);
    assert_eq!(step_of(6000, sps), 1);
    assert_eq!(step_of(-1, sps), -1);
    assert_eq!(release_of(2, 0.5f32.to_bits(), sps), 15000);
    assert_eq!(release_of(-2, 0.5f32.to_bits(), sps), -9000);
}

#[test]
fn steps_never_go_back() {
    for tempo in TEMPI {
        let sps = samples_per_step(tempo.to_bits(), 44100.0f64.to_bits());
        let mut last = i64::MIN;
        for g in -5000..5000i64 {
            let stp = step_of(g * 37, sps);
            assert!(last <= stp);
            last = stp;
        }
    }
}

#[test]
fn a_clock_without_tempo_stands_still() {
    // a tempo of 0 gives steps of infinite length, a negative one runs backwards
    let never = samples_per_step(0.0f64.to_bits(), 44100.0f64.to_bits());
    assert_eq!(f64::from_bits(never), f64::INFINITY);
    assert_eq!(step_of(123_456, never), 0);
    let back = samples_per_step((-120.0f64).to_bits(), 48000.0f64.to_bits());
    assert_eq!(step_of(6000, back), -1);
    assert_eq!(step_of(12_000, back), -2);
    // nothing at all where nothing is known
    assert_eq!(step_of(123_456, f64::NAN.to_bits()), 0);
}

#[test]
fn a_link_session_comes_first_and_always_plays() {
    let host = Host { tempo: Some(100.0f64.to_bits()), pos: Some(77), playing: false };
    let session = Session { tempo: 120.0f64.to_bits(), beat: 2.5f64.to_bits() };
    let rate = 48000.0f32.to_bits();
    let t = follow(Some(session), host, rate).unwrap();
    assert_eq!(t.tempo, 120.0f64.to_bits());
    assert_eq!(t.pos, 60_000);
    assert!(t.playing);
    let t = follow(None, host, rate).unwrap();
    assert_eq!((t.tempo, t.pos, t.playing), (100.0f64.to_bits(), 77, false));
    assert!(follow(None, Host { tempo: None, ..host }, rate).is_none());
    assert!(follow(None, Host { pos: None, ..host }, rate).is_none());
    let nothing = Host { tempo: None, pos: None, playing: true };
    assert!(follow(Some(session), nothing, rate).is_some());
}

#[test]
fn beats_agree_with_the_hardware() {
    for tempo in TEMPI {
        for rate in RATES {
            for beat in [0.0, 0.1, 1.0, 3.999, 4.0, -0.3, -17.25, 12345.678] {
                let sps = 60.0 / tempo * rate as f64 / 4.0;
                let want = (beat * 4.0 * sps).round() as i64;
                let got = position_of_beat(beat.to_bits(), tempo.to_bits(), (rate as f64).to_bits());
                assert_eq!(got, want, "{beat} at {tempo}, {rate}");
            }
        }
    }
}

#[test]
fn a_block_is_laid_out_sample_by_sample() {
    let mut params = tracks();
    params[2].note_len = 0.5f32.to_bits();
    let host = Host { tempo: Some(120.0f64.to_bits()), pos: Some(5990), playing: true };
    let transport = follow(None, host, 48000.0f32.to_bits()).unwrap();
    let block = lay_out(transport, 20, 48000.0f32.to_bits(), &params);
    assert!(block.playing);
    assert_eq!(block.pos, 5990);
    let mut steps = vec![0i64; 10];
    steps.extend(vec![1i64; 10]);
    assert_eq!(block.steps, steps);
    assert_eq!(block.releases.len(), 4);
    assert_eq!(block.releases[0][9], 6000);
    assert_eq!(block.releases[0][10], 12_000);
    assert_eq!(block.releases[2][9], 3000);
    assert_eq!(block.releases[2][10], 9000);
    let empty = lay_out(transport, 0, 48000.0f32.to_bits(), &params);
    assert!(empty.steps.is_empty() && empty.releases[3].is_empty());
}

#[test]
fn a_transport_that_stands_still_has_no_steps() {
    let host = Host { tempo: Some(120.0f64.to_bits()), pos: Some(i64::MAX), playing: false };
    let transport = follow(None, host, 48000.0f32.to_bits()).unwrap();
    let block = lay_out(transport, 512, 48000.0f32.to_bits(), &tracks());
    assert!(!block.playing && block.steps.is_empty() && block.releases.len() == 4);
}

#[test]
fn the_last_position_can_be_reached() {
    let host = Host { tempo: Some(120.0f64.to_bits()), pos: Some(i64::MAX - 1), playing: true };
    let transport = follow(None, host, 48000.0f32.to_bits()).unwrap();
    let block = lay_out(transport, 2, 48000.0f32.to_bits(), &tracks());
    let want = (i64::MAX as f64 / 6000.0).floor() as i64;
    assert_eq!(block.steps, [want, want]);
}
