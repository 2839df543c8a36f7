//! The state that performers and the sequencer share: pads, playheads, gesture loops and
//! the requests to rebuild outputs.

use crate::gesture::{empty_loop, Gesture, NUM_TRACKS};
use vstd::prelude::*;

verus! {

/// Per-track runtime state and the settings panel's requests.
pub struct Shared {
    /// Pad touch state per track; gates notes when Hold is off.
    pub gate: [bool; NUM_TRACKS],
    /// Live pad position while touched: the pattern of x in the upper half, that of the
    /// density in the lower.
    pub pos: [u64; NUM_TRACKS],
    /// Current playhead step per track; -1 = idle.
    pub step: [i64; NUM_TRACKS],
    /// Recorded gesture loops.
    pub gesture: Gesture,
    /// Momentary erase: true only while the Erase button is held.
    pub erase: [bool; NUM_TRACKS],
    /// The OSC output has to be rebuilt.
    pub osc_dirty: bool,
    /// The OSC input has to be rebuilt.
    pub osc_in_dirty: bool,
    /// OSC input: 0 off, 1 listening, 2 bind failed.
    pub osc_in_status: u8,
    /// The MIDI output port has to be rebuilt.
    pub midi_dirty: bool,
    /// MIDI output port: 0 off, 1 connected, 2 failed.
    pub midi_status: u8,
    /// Ableton Link has to be switched on or off.
    pub link_dirty: bool,
    /// Live Link peer count; 0 when disabled.
    pub link_peers: u32,
}

/// A pad position as one word.
pub open spec fn packed(x: u32, y: u32) -> u64 {
    (x * 0x1_0000_0000 + y) as u64
}

/// The horizontal half of a packed position.
pub open spec fn packed_x(pos: u64) -> u32 {
    (pos / 0x1_0000_0000) as u32
}

/// The vertical half of a packed position.
pub open spec fn packed_y(pos: u64) -> u32 {
    (pos % 0x1_0000_0000) as u32
}

/// Packs a pad position.
pub fn pack(x: u32, y: u32) -> (r: u64)
    ensures
        r == packed(x, y),
{
    x as u64 * 0x1_0000_0000 + y as u64
}

/// A packed position gives both halves back.
pub proof fn law_packing_round_trip(x: u32, y: u32)
    ensures
        packed_x(packed(x, y)) == x,
        packed_y(packed(x, y)) == y,
{
}

impl Shared {
    /// Nothing touched, nothing recorded, every output still to be built.
    pub open spec fn is_initial(self) -> bool {
        &&& self.gate@ == Seq::new(NUM_TRACKS as nat, |t: int| false)
        &&& self.pos@ == Seq::new(NUM_TRACKS as nat, |t: int| 0u64)
        &&& self.step@ == Seq::new(NUM_TRACKS as nat, |t: int| -1i64)
        &&& self.gesture@ == Seq::new(NUM_TRACKS as nat, |t: int| empty_loop())
        &&& self.erase@ == Seq::new(NUM_TRACKS as nat, |t: int| false)
        &&& self.osc_dirty && self.osc_in_dirty && self.midi_dirty && self.link_dirty
        &&& self.osc_in_status == 0 && self.midi_status == 0 && self.link_peers == 0
    }
}

/// Everything but the playheads and the loops is the same.
pub open spec fn same_controls(a: Shared, b: Shared) -> bool {
    &&& a.gate == b.gate
    &&& a.pos == b.pos
    &&& a.erase == b.erase
    &&& a.osc_dirty == b.osc_dirty
    &&& a.osc_in_dirty == b.osc_in_dirty
    &&& a.osc_in_status == b.osc_in_status
    &&& a.midi_dirty == b.midi_dirty
    &&& a.midi_status == b.midi_status
    &&& a.link_dirty == b.link_dirty
    &&& a.link_peers == b.link_peers
}

impl Default for Shared {
    /// The state at start-up.
    fn default() -> (r: Self)
        ensures
            r.is_initial(),
    {
        let r = Shared {
            gate: [false; NUM_TRACKS],
            pos: [0u64; NUM_TRACKS],
            step: [-1i64; NUM_TRACKS],
            gesture: Gesture::default(),
            erase: [false; NUM_TRACKS],
            osc_dirty: true,
            osc_in_dirty: true,
            osc_in_status: 0,
            midi_dirty: true,
            midi_status: 0,
            link_dirty: true,
            link_peers: 0,
        };
        assert(r.gate@ =~= Seq::new(NUM_TRACKS as nat, |t: int| false));
        assert(r.pos@ =~= Seq::new(NUM_TRACKS as nat, |t: int| 0u64));
        assert(r.step@ =~= Seq::new(NUM_TRACKS as nat, |t: int| -1i64));
        assert(r.erase@ =~= Seq::new(NUM_TRACKS as nat, |t: int| false));
        r
    }
}

/// The outputs and inputs that have to be rebuilt.
#[derive(PartialEq, Eq, Structural, Clone, Copy, Debug)]
pub struct Rebuilds {
    pub osc: bool,
    pub osc_in: bool,
    pub midi: bool,
    pub link: bool,
}

/// How an endpoint stands: 0 off, 1 open, 2 enabled but failed to open.
pub open spec fn status_of(enabled: bool, opened: bool) -> u8 {
    if !enabled {
        0
    } else if opened {
        1
    } else {
        2
    }
}

/// How an endpoint stands, for the settings panel.
pub fn endpoint_status(enabled: bool, opened: bool) -> (r: u8)
    ensures
        r == status_of(enabled, opened),
{
    match (enabled, opened) {
        (false, _) => 0,
        (true, true) => 1,
        (true, false) => 2,
    }
}

impl Shared {
    /// What is asked to be rebuilt.
    pub open spec fn requests(self) -> Rebuilds {
        Rebuilds {
            osc: self.osc_dirty,
            osc_in: self.osc_in_dirty,
            midi: self.midi_dirty,
            link: self.link_dirty,
        }
    }

    /// The state with other requests.
    pub open spec fn with_requests(self, r: Rebuilds) -> Shared {
        Shared {
            osc_dirty: r.osc,
            osc_in_dirty: r.osc_in,
            midi_dirty: r.midi,
            link_dirty: r.link,
            ..self
        }
    }

    /// Asks for every output and input to be built anew.
    pub fn initialize(&mut self)
        ensures
            *final(self) == old(self).with_requests(
                Rebuilds { osc: true, osc_in: true, midi: true, link: true },
            ),
            *final(self) == (Shared {
                osc_dirty: true,
                osc_in_dirty: true,
                midi_dirty: true,
                link_dirty: true,
                ..*old(self)
            }),
    {
        self.osc_dirty = true;
        self.osc_in_dirty = true;
        self.midi_dirty = true;
        self.link_dirty = true;
    }

    /// Takes the requests to rebuild, which are then served.
    pub fn take_rebuilds(&mut self) -> (r: Rebuilds)
        ensures
            r == old(self).requests(),
            *final(self) == old(self).with_requests(
                Rebuilds { osc: false, osc_in: false, midi: false, link: false },
            ),
            r == (Rebuilds {
                osc: old(self).osc_dirty,
                osc_in: old(self).osc_in_dirty,
                midi: old(self).midi_dirty,
                link: old(self).link_dirty,
            }),
            *final(self) == (Shared {
                osc_dirty: false,
                osc_in_dirty: false,
                midi_dirty: false,
                link_dirty: false,
                ..*old(self)
            }),
    {
        let r = Rebuilds {
            osc: self.osc_dirty,
            osc_in: self.osc_in_dirty,
            midi: self.midi_dirty,
            link: self.link_dirty,
        };
        self.osc_dirty = false;
        self.osc_in_dirty = false;
        self.midi_dirty = false;
        self.link_dirty = false;
        r
    }

    /// Publishes how the OSC input stands.
    pub fn report_osc_in(&mut self, enabled: bool, opened: bool)
        ensures
            *final(self) == (Shared { osc_in_status: status_of(enabled, opened), ..*old(self) }),
    {
        self.osc_in_status = endpoint_status(enabled, opened);
    }

    /// Publishes how the MIDI output port stands.
    pub fn report_midi(&mut self, enabled: bool, opened: bool)
        ensures
            *final(self) == (Shared { midi_status: status_of(enabled, opened), ..*old(self) }),
    {
        self.midi_status = endpoint_status(enabled, opened);
    }

    /// Publishes the Link peer count; `None` while Link is disabled.
    pub fn report_link(&mut self, peers: Option<u32>)
        ensures
            *final(self) == (Shared {
                link_peers: match peers {
                    Some(n) => n,
                    None => 0,
                },
                ..*old(self)
            }),
    {
        self.link_peers = match peers {
            Some(n) => n,
            None => 0,
        };
    }
}

/// What stays the same stays the same field by field: two states that differ in the playheads
/// and the loops at most are equal once these are.
pub proof fn law_same_controls_are_the_same(a: Shared, b: Shared)
    ensures
        same_controls(a, b) <==> (Shared { step: b.step, gesture: b.gesture, ..a }) == b,
{
}

/// A packed position has the horizontal half as its high word and the vertical half as its
/// low one, and is nothing but the two.
pub proof fn law_positions_are_two_words(x: u32, y: u32, pos: u64)
    ensures
        packed(x, y) == x * 0x1_0000_0000 + y,
        packed(packed_x(pos), packed_y(pos)) == pos,
{
}

/// An endpoint is off if and only if it is disabled, open if and only if it is enabled and
/// opened, and failed if and only if it is enabled and did not open.
pub proof fn law_endpoint_status(enabled: bool, opened: bool)
    ensures
        status_of(enabled, opened) == 0 <==> !enabled,
        status_of(enabled, opened) == 1 <==> enabled && opened,
        status_of(enabled, opened) == 2 <==> enabled && !opened,
{
}

/// At start-up no pad is touched, no position known, no playhead on a step, nothing recorded
/// and nothing erased, on any track; every output and input is still to be built.
pub proof fn law_start_up(s: Shared, t: int)
    requires
        s.is_initial(),
        0 <= t < NUM_TRACKS,
    ensures
        !s.gate@[t] && !s.erase@[t],
        s.pos@[t] == 0,
        s.step@[t] == -1,
        s.gesture@[t].len() == 128,
        forall|i: int| 0 <= i < 128 ==> #[trigger] s.gesture@[t][i] == -1,
        s.osc_dirty && s.osc_in_dirty && s.midi_dirty && s.link_dirty,
        s.osc_in_status == 0 && s.midi_status == 0 && s.link_peers == 0,
{
}

/// Requests are what was asked for last, each for its own output or input, and taking them
/// over touches nothing else of the state.
pub proof fn law_requests_are_kept_apart(s: Shared, r: Rebuilds, later: Rebuilds)
    ensures
        s.with_requests(r).requests() == r,
        s.with_requests(s.requests()) == s,
        s.with_requests(r).with_requests(later) == s.with_requests(later),
        s.with_requests(r).osc_dirty == r.osc,
        s.with_requests(r).osc_in_dirty == r.osc_in,
        s.with_requests(r).midi_dirty == r.midi,
        s.with_requests(r).link_dirty == r.link,
        same_controls(
            Shared {
                osc_dirty: s.osc_dirty,
                osc_in_dirty: s.osc_in_dirty,
                midi_dirty: s.midi_dirty,
                link_dirty: s.link_dirty,
                ..s.with_requests(r)
            },
            s,
        ),
        s.with_requests(r).gesture == s.gesture,
        s.with_requests(r).step == s.step,
{
}

} // verus!
