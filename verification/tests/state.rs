use trafalgar::gesture::NUM_TRACKS;
use trafalgar::params::{TrackParams, DEFAULT_VELOCITY, SHORTEST};
use trafalgar::scale::Scale;
use trafalgar::shared::{endpoint_status, pack, Rebuilds, Shared};
use trafalgar::single::ONE;

#[test]
fn tracks_start_on_channels_of_their_own() {
    for t in 0..NUM_TRACKS {
        assert_eq!(TrackParams::new(t).channel, t as i32 + 1);
    }
    assert_eq!(TrackParams::new(16).channel, 1);
    assert_eq!(TrackParams::new(i32::MAX as usize).channel, 16);
    assert_eq!(TrackParams::default().channel, 1);
}

#[test]
fn parameters_start_as_documented() {
    let p = TrackParams::default();
    assert_eq!((p.density, p.rotation, p.pitch, p.accent), (4, 0, 5, 2));
    assert_eq!(f32::from_bits(p.base_vel), 0.7);
    assert_eq!(f32::from_bits(p.accent_vel), 1.0);
    assert_eq!(f32::from_bits(p.note_len), 1.0);
    assert_eq!((p.note, p.length), (36, 1));
    assert!(p.hold && !p.percussive && !p.record && !p.portamento);
    assert_eq!(p.scale, Scale::MinorPentatonic);
    assert_eq!(f32::from_bits(DEFAULT_VELOCITY), 0.7);
    assert_eq!(f32::from_bits(SHORTEST), 0.05);
    assert_eq!(f32::from_bits(ONE), 1.0);
}

#[test]
fn the_state_starts_idle_with_everything_to_build() {
    let s = Shared::default();
    assert_eq!(s.gate, [false; NUM_TRACKS]);
    assert_eq!(s.pos, [0; NUM_TRACKS]);
    assert_eq!(s.step, [-1; NUM_TRACKS]);
    assert_eq!(s.erase, [false; NUM_TRACKS]);
    assert!((0..NUM_TRACKS).all(|t| s.gesture.index(t).iter().all(|&c| c == -1)));
    assert!(s.osc_dirty && s.osc_in_dirty && s.midi_dirty && s.link_dirty);
    assert_eq!((s.osc_in_status, s.midi_status, s.link_peers), (0, 0, 0));
}

#[test]
fn requests_to_rebuild_are_taken_once() {
    let mut s = Shared::default();
    let all = Rebuilds { osc: true, osc_in: true, midi: true, link: true };
    let none = Rebuilds { osc: false, osc_in: false, midi: false, link: false };
    assert_eq!(s.take_rebuilds(), all);
    assert_eq!(s.take_rebuilds(), none);
    s.midi_dirty = true;
    assert_eq!(s.take_rebuilds(), Rebuilds { midi: true, ..none });
    s.initialize();
    assert_eq!(s.take_rebuilds(), all);
}

#[test]
fn endpoints_are_off_open_or_failed() {
    assert_eq!(endpoint_status(false, false), 0);
    assert_eq!(endpoint_status(false, true), 0);
    assert_eq!(endpoint_status(true, true), 1);
    assert_eq!(endpoint_status(true, false), 2);
    let mut s = Shared::default();
    s.report_osc_in(true, false);
    s.report_midi(true, true);
    s.report_link(Some(3));
    assert_eq!((s.osc_in_status, s.midi_status, s.link_peers), (2, 1, 3));
    s.report_link(None);
    assert_eq!(s.link_peers, 0);
}

#[test]
fn positions_are_packed_by_halves() {
    let (x, y) = (0.5f32, 0.25f32);
    let packed = pack(x.to_bits(), y.to_bits());
    assert_eq!(packed, ((x.to_bits() as u64) << 32) | y.to_bits() as u64);
    assert_eq!(f32::from_bits((packed >> 32) as u32), x);
    assert_eq!(f32::from_bits(packed as u32), y);
    assert_eq!(pack(u32::MAX, u32::MAX), u64::MAX);
}
