//! The editor: undo history, buttons and performance pads, and what there is to draw.

use crate::engine::{wrap, IDLE};
use crate::euclid::{euclid, pattern, rotated, rotated_pattern};
use crate::gesture::{empty_loop, overlaid, Gesture, LOOP_CELLS, NUM_TRACKS, STEPS};
use crate::osc::{applied, controls, same_rest, Controls, Msg};
use crate::params::TrackParams;
use crate::shared::{pack, packed, Shared};
use vstd::prelude::*;

verus! {

/// The number of changes that can be undone.
pub const UNDO_LIMIT: usize = 64;

/// Undo history: the track, and that track's whole loop before a change.
#[derive(Debug)]
pub struct UndoStack {
    pub entries: Vec<(usize, Vec<i32>)>,
}

/// An entry of the history.
pub open spec fn entry_view(e: (usize, Vec<i32>)) -> (usize, Seq<i32>) {
    (e.0, e.1@)
}

impl View for UndoStack {
    type V = Seq<(usize, Seq<i32>)>;

    open spec fn view(&self) -> Seq<(usize, Seq<i32>)> {
        self.entries@.map_values(|e: (usize, Vec<i32>)| entry_view(e))
    }
}

/// A history that can be undone: whole loops of tracks that there are, and no more entries
/// than the limit.
pub open spec fn history_wf(h: Seq<(usize, Seq<i32>)>) -> bool {
    &&& h.len() <= UNDO_LIMIT
    &&& forall|i: int|
        0 <= i < h.len() ==> (#[trigger] h[i]).0 < NUM_TRACKS && h[i].1.len() == LOOP_CELLS
}

/// The history after a change: the oldest entry goes when there are too many.
pub open spec fn remembered(
    h: Seq<(usize, Seq<i32>)>,
    entry: (usize, Seq<i32>),
) -> Seq<(usize, Seq<i32>)> {
    let all = h.push(entry);
    if all.len() > UNDO_LIMIT {
        all.skip(1)
    } else {
        all
    }
}

/// The history and the loops after the last change is undone: its entry goes, and its track
/// has the remembered loop again. An empty history changes nothing.
pub open spec fn undone(h: Seq<(usize, Seq<i32>)>, loops: Seq<Seq<i32>>) -> (
    Seq<(usize, Seq<i32>)>,
    Seq<Seq<i32>>,
) {
    if h.len() == 0 {
        (h, loops)
    } else {
        let (track, snap) = h.last();
        (h.drop_last(), loops.update(track as int, snap))
    }
}

impl UndoStack {
    /// An empty history.
    pub fn new() -> (r: Self)
        ensures
            r@ == Seq::<(usize, Seq<i32>)>::empty(),
    {
        let r = UndoStack { entries: Vec::new() };
        assert(r@ =~= Seq::<(usize, Seq<i32>)>::empty());
        r
    }

    /// Remembers a track's loop before it is changed.
    pub fn push_undo(&mut self, shared: &Shared, track: usize)
        requires
            history_wf(old(self)@),
            track < NUM_TRACKS,
        ensures
            final(self)@ == remembered(old(self)@, (track, shared.gesture@[track as int])),
            history_wf(final(self)@),
    {
        let ghost before = self@;
        let snap = shared.gesture.snapshot(track);
        let ghost entry = (track, snap@);
        self.entries.push((track, snap));
        assert(self@ =~= before.push(entry));
        if self.entries.len() > UNDO_LIMIT {
            let ghost all = self.entries@;
            self.entries.remove(0);
            assert(self.entries@ =~= all.skip(1));
            assert(self@ =~= before.push(entry).skip(1));
        }
    }

    /// Restores the most recently changed track's loop.
    pub fn undo(&mut self, shared: &mut Shared)
        requires
            history_wf(old(self)@),
        ensures
            (final(self)@, final(shared).gesture@) == undone(old(self)@, old(shared).gesture@),
            history_wf(final(self)@),
            *final(shared) == (Shared { gesture: final(shared).gesture, ..*old(shared) }),
    {
        let ghost before = self@;
        match self.entries.pop() {
            Some((track, snap)) => {
                assert(before.last() == (track, snap@));
                assert(self@ =~= before.drop_last());
                assert(overlaid(shared.gesture@[track as int], snap@) =~= snap@);
                shared.gesture.overlay(track, &snap);
            },
            None => {
                assert(before.len() == 0);
            },
        }
    }
}

/// Undoing gives back what was there: whatever a change did to the remembered track's
/// loop, undoing it restores all loops, and leaves the earlier history, as far as the
/// limit keeps it.
pub proof fn law_undo_restores(
    h: Seq<(usize, Seq<i32>)>,
    before: Gesture,
    after: Gesture,
    track: usize,
)
    requires
        history_wf(h),
        track < NUM_TRACKS,
        forall|t: int| 0 <= t < NUM_TRACKS && t != track ==> #[trigger] after@[t] == before@[t],
    ensures
        undone(remembered(h, (track, before@[track as int])), after@) == (
            if h.len() < UNDO_LIMIT {
                h
            } else {
                h.skip(1)
            },
            before@,
        ),
{
    let entry = (track, before@[track as int]);
    let kept = remembered(h, entry);
    assert(kept.last() == entry);
    assert(undone(kept, after@).1 =~= before@);
    assert(undone(kept, after@).0 =~= if h.len() < UNDO_LIMIT {
        h
    } else {
        h.skip(1)
    });
}

/// Any undo, not only that of the latest change, gives a track exactly the loop that was
/// remembered, leaves the other tracks alone, and takes one entry off the history; without
/// an entry nothing changes.
pub proof fn law_undo_gives_back_what_was_remembered(
    h: Seq<(usize, Seq<i32>)>,
    loops: Gesture,
    other: int,
)
    requires
        history_wf(h),
        0 <= other < NUM_TRACKS,
    ensures
        ({
            let (left, restored) = undone(h, loops@);
            &&& history_wf(left)
            &&& h.len() == 0 ==> left == h && restored == loops@
            &&& h.len() > 0 ==> {
                &&& left == h.drop_last()
                &&& restored[h.last().0 as int] == h.last().1
                &&& other != h.last().0 ==> restored[other] == loops@[other]
            }
        }),
{
}

/// A momentary button: erases only while it is held.
#[derive(Clone, Copy, Debug)]
pub struct HoldButton {
    pub track: usize,
}

impl HoldButton {
    /// The Erase button of a track.
    pub fn new(track: usize) -> (r: Self)
        ensures
            r.track == track,
    {
        HoldButton { track }
    }

    /// The button goes down: the loop is remembered, then erasing starts.
    pub fn press(&self, shared: &mut Shared, undo: &mut UndoStack)
        requires
            self.track < NUM_TRACKS,
            history_wf(old(undo)@),
        ensures
            final(undo)@ == remembered(
                old(undo)@,
                (self.track, old(shared).gesture@[self.track as int]),
            ),
            history_wf(final(undo)@),
            controls(*final(shared)) == (Controls {
                erase: old(shared).erase@.update(self.track as int, true),
                ..controls(*old(shared))
            }),
            controls(*final(shared)) == applied(
                controls(*old(shared)),
                Msg::Erase(self.track, true),
            ),
            same_rest(*final(shared), *old(shared)),
    {
        undo.push_undo(shared, self.track);
        shared.erase[self.track] = true;
    }

    /// The button comes up: erasing ends.
    pub fn release(&self, shared: &mut Shared)
        requires
            self.track < NUM_TRACKS,
        ensures
            controls(*final(shared)) == (Controls {
                erase: old(shared).erase@.update(self.track as int, false),
                ..controls(*old(shared))
            }),
            controls(*final(shared)) == applied(
                controls(*old(shared)),
                Msg::Erase(self.track, false),
            ),
            same_rest(*final(shared), *old(shared)),
    {
        shared.erase[self.track] = false;
    }
}

/// One-shot Clear: wipes a track's entire recorded loop (undoable).
#[derive(Clone, Copy, Debug)]
pub struct ClearButton {
    pub track: usize,
}

impl ClearButton {
    /// The Clear button of a track.
    pub fn new(track: usize) -> (r: Self)
        ensures
            r.track == track,
    {
        ClearButton { track }
    }

    /// The button goes down: the loop is remembered, then wiped.
    pub fn press(&self, shared: &mut Shared, undo: &mut UndoStack)
        requires
            self.track < NUM_TRACKS,
            history_wf(old(undo)@),
        ensures
            final(undo)@ == remembered(
                old(undo)@,
                (self.track, old(shared).gesture@[self.track as int]),
            ),
            history_wf(final(undo)@),
            controls(*final(shared)) == (Controls {
                loops: old(shared).gesture@.update(self.track as int, empty_loop()),
                ..controls(*old(shared))
            }),
            controls(*final(shared)) == applied(controls(*old(shared)), Msg::Clear(self.track)),
            same_rest(*final(shared), *old(shared)),
    {
        undo.push_undo(shared, self.track);
        shared.gesture.clear(self.track);
    }
}

/// Global undo: restores the most recently changed track's loop from history.
#[derive(Clone, Copy, Debug)]
pub struct UndoButton {}

impl UndoButton {
    /// The Undo button.
    pub fn new() -> (r: Self)
        ensures
            r == (UndoButton {  }),
    {
        UndoButton {  }
    }

    /// The button goes down.
    pub fn press(&self, shared: &mut Shared, undo: &mut UndoStack)
        requires
            history_wf(old(undo)@),
        ensures
            (final(undo)@, final(shared).gesture@) == undone(old(undo)@, old(shared).gesture@),
            history_wf(final(undo)@),
            *final(shared) == (Shared { gesture: final(shared).gesture, ..*old(shared) }),
    {
        undo.undo(shared);
    }
}

/// What happens to a performance pad. A position is the patterns of x and of the density;
/// there is none on a pad without an extent.
#[derive(Clone, Copy, Debug)]
pub enum PadEvent {
    Down(Option<(u32, u32)>),
    Move(Option<(u32, u32)>),
    Up,
}

/// What the window has to do for a pad, in order.
#[derive(PartialEq, Eq, Structural, Clone, Copy, Debug)]
pub enum PadAction {
    Capture,
    BeginEdit,
    SetPosition(u32, u32),
    EndEdit,
    Release,
    Consume,
}

/// Two-parameter performance pad for one track. X drives pitch, Y drives density.
#[derive(Clone, Copy, Debug)]
pub struct XyPad {
    pub track: usize,
    pub drag: bool,
}

/// The action that passes a position on.
pub open spec fn position_actions(at: Option<(u32, u32)>) -> Seq<PadAction> {
    match at {
        Some((x, y)) => seq![PadAction::SetPosition(x, y)],
        None => Seq::empty(),
    }
}

/// The controls after a position is written.
pub open spec fn positioned(c: Controls, track: int, at: Option<(u32, u32)>) -> Controls {
    match at {
        Some((x, y)) => Controls { pos: c.pos.update(track, packed(x, y)), ..c },
        None => c,
    }
}

impl XyPad {
    /// The pad of a track, not touched.
    pub fn new(track: usize) -> (r: Self)
        ensures
            r.track == track,
            !r.drag,
    {
        XyPad { track, drag: false }
    }

    /// Whether the pad is dragged after an event.
    pub open spec fn drag_after(self, e: PadEvent) -> bool {
        match e {
            PadEvent::Down(at) => true,
            PadEvent::Move(at) => self.drag,
            PadEvent::Up => false,
        }
    }

    /// The controls after an event: a press writes the position and opens the track.
    pub open spec fn controls_after(self, e: PadEvent, c: Controls) -> Controls {
        let t = self.track as int;
        match e {
            PadEvent::Down(at) => Controls {
                gate: c.gate.update(t, true),
                ..positioned(c, t, at)
            },
            PadEvent::Move(at) => if self.drag {
                positioned(c, t, at)
            } else {
                c
            },
            PadEvent::Up => if self.drag {
                Controls { gate: c.gate.update(t, false), ..c }
            } else {
                c
            },
        }
    }

    /// What the window has to do for an event.
    pub open spec fn actions(self, e: PadEvent) -> Seq<PadAction> {
        match e {
            PadEvent::Down(at) => seq![PadAction::Capture, PadAction::BeginEdit]
                + position_actions(at) + seq![PadAction::Consume],
            PadEvent::Move(at) => if self.drag {
                position_actions(at)
            } else {
                Seq::empty()
            },
            PadEvent::Up => if self.drag {
                seq![PadAction::EndEdit, PadAction::Release, PadAction::Consume]
            } else {
                Seq::empty()
            },
        }
    }

    /// Writes a position and passes it on.
    fn apply(&self, shared: &mut Shared, at: Option<(u32, u32)>, out: &mut Vec<PadAction>)
        requires
            self.track < NUM_TRACKS,
        ensures
            controls(*final(shared)) == positioned(controls(*old(shared)), self.track as int, at),
            same_rest(*final(shared), *old(shared)),
            final(out)@ == old(out)@ + position_actions(at),
    {
        if let Some((x, y)) = at {
            shared.pos[self.track] = pack(x, y);
            out.push(PadAction::SetPosition(x, y));
        }
        assert(out@ =~= old(out)@ + position_actions(at));
    }

    /// Takes an event. Pressing the pad of an armed track remembers its loop first, so that
    /// the recording can be undone.
    pub fn event(
        &mut self,
        e: PadEvent,
        record: bool,
        shared: &mut Shared,
        undo: &mut UndoStack,
    ) -> (r: Vec<PadAction>)
        requires
            old(self).track < NUM_TRACKS,
            history_wf(old(undo)@),
        ensures
            final(self).track == old(self).track,
            final(self).drag == old(self).drag_after(e),
            controls(*final(shared)) == old(self).controls_after(e, controls(*old(shared))),
            same_rest(*final(shared), *old(shared)),
            final(undo)@ == if e is Down && record {
                remembered(
                    old(undo)@,
                    (old(self).track, old(shared).gesture@[old(self).track as int]),
                )
            } else {
                old(undo)@
            },
            history_wf(final(undo)@),
            r@ == old(self).actions(e),
    {
        let mut r: Vec<PadAction> = Vec::new();
        match e {
            PadEvent::Down(at) => {
                self.drag = true;
                if record {
                    undo.push_undo(shared, self.track);
                }
                r.push(PadAction::Capture);
                r.push(PadAction::BeginEdit);
                assert(r@ =~= seq![PadAction::Capture, PadAction::BeginEdit]);
                self.apply(shared, at, &mut r);
                shared.gate[self.track] = true;
                r.push(PadAction::Consume);
            },
            PadEvent::Move(at) => {
                if self.drag {
                    self.apply(shared, at, &mut r);
                }
            },
            PadEvent::Up => {
                if self.drag {
                    self.drag = false;
                    shared.gate[self.track] = false;
                    r.push(PadAction::EndEdit);
                    r.push(PadAction::Release);
                    r.push(PadAction::Consume);
                }
            },
        }
        assert(r@ =~= old(self).actions(e));
        r
    }
}

/// Pressing and letting go of a pad leaves its gate closed, and the pad ready for the next
/// touch.
pub proof fn law_touch_ends_closed(
    pad: XyPad,
    down: Option<(u32, u32)>,
    moved: Option<(u32, u32)>,
    c: Controls,
)
    requires
        pad.track < c.gate.len(),
    ensures
        ({
            let touched = pad.controls_after(PadEvent::Down(down), c);
            let held = XyPad { drag: true, ..pad };
            let dragged = held.controls_after(PadEvent::Move(moved), touched);
            let ended = held.controls_after(PadEvent::Up, dragged);
            &&& touched.gate[pad.track as int]
            &&& dragged.gate[pad.track as int]
            &&& !ended.gate[pad.track as int]
            &&& !held.drag_after(PadEvent::Up)
        }),
{
}

/// A colour: red, green, blue.
#[derive(PartialEq, Eq, Structural, Clone, Copy, Debug)]
pub struct Rgb {
    pub r: u8,
    pub g: u8,
    pub b: u8,
}

/// The colour of the playhead, of accents and of the crosshair.
pub open spec fn accent_colour() -> Rgb {
    Rgb { r: 255, g: 120, b: 80 }
}

/// A dot of the step display: its radius, its colour, and whether an accent ring goes
/// round it.
#[derive(PartialEq, Eq, Structural, Clone, Copy, Debug)]
pub struct StepDot {
    pub radius: u8,
    pub colour: Rgb,
    pub ring: bool,
}

/// The dot of a step of the bar, with the playhead on the absolute step `cur`.
pub open spec fn step_dot(params: TrackParams, cur: i64, s: int) -> StepDot {
    let onset = rotated_pattern(params.density as nat, STEPS as nat, params.rotation as nat)[s];
    let current = cur >= 0 && cur as int % STEPS as int == s;
    StepDot {
        radius: if onset && current {
            6
        } else if onset || current {
            4
        } else {
            2
        },
        colour: if onset && current {
            accent_colour()
        } else if onset {
            Rgb { r: 200, g: 200, b: 200 }
        } else if current {
            Rgb { r: 120, g: 60, b: 40 }
        } else {
            Rgb { r: 70, g: 70, b: 70 }
        },
        ring: onset && pattern(params.accent as nat, STEPS as nat)[s],
    }
}

/// The live euclidean pattern, one dot per step of the bar.
pub fn step_dots(params: &TrackParams, cur: i64) -> (r: Vec<StepDot>)
    requires
        params.wf(),
    ensures
        r@ == Seq::new(STEPS as nat, |s: int| step_dot(*params, cur, s)),
{
    let onsets = rotated(params.density as usize, STEPS, params.rotation as usize);
    let accents = euclid(params.accent as usize, STEPS);
    let playhead: usize = wrap(cur, STEPS);
    let mut r: Vec<StepDot> = Vec::new();
    let mut s: usize = 0;
    while s < STEPS
        invariant
            s <= STEPS,
            onsets@ == rotated_pattern(
                params.density as nat,
                STEPS as nat,
                params.rotation as nat,
            ),
            accents@ == pattern(params.accent as nat, STEPS as nat),
            playhead == cur as int % STEPS as int,
            r@.len() == s,
            forall|i: int| 0 <= i < s ==> r@[i] == step_dot(*params, cur, i),
        decreases STEPS - s,
    {
        let current = cur >= 0 && playhead == s;
        let (radius, colour): (u8, Rgb) = match (onsets[s], current) {
            (true, true) => (6, Rgb { r: 255, g: 120, b: 80 }),
            (true, false) => (4, Rgb { r: 200, g: 200, b: 200 }),
            (false, true) => (4, Rgb { r: 120, g: 60, b: 40 }),
            (false, false) => (2, Rgb { r: 70, g: 70, b: 70 }),
        };
        r.push(StepDot { radius, colour, ring: onsets[s] && accents[s] });
        s += 1;
    }
    assert(r@ =~= Seq::new(STEPS as nat, |s: int| step_dot(*params, cur, s)));
    r
}

/// A recorded step of the loop: where it lies, the note that gives its height, its radius
/// and its colour.
#[derive(PartialEq, Eq, Structural, Clone, Copy, Debug)]
pub struct LoopDot {
    pub step: usize,
    pub note: i32,
    pub radius: u8,
    pub colour: Rgb,
}

/// The dot of a recorded step, brighter under the playhead.
pub open spec fn loop_dot(s: int, note: i32, current: bool) -> LoopDot {
    LoopDot {
        step: s as usize,
        note,
        radius: if current {
            4
        } else {
            3
        },
        colour: if current {
            Rgb { r: 150, g: 255, b: 190 }
        } else {
            Rgb { r: 90, g: 210, b: 140 }
        },
    }
}

/// The dots of the recorded notes among the first `n` steps of a loop.
pub open spec fn recorded_dots(cells: Seq<i32>, loop_steps: int, cur: i64, n: nat) -> Seq<LoopDot>
    decreases n,
{
    if n == 0 {
        Seq::empty()
    } else {
        let s = n - 1;
        let before = recorded_dots(cells, loop_steps, cur, s as nat);
        if cells[s] < 0 {
            before
        } else {
            before.push(loop_dot(s, cells[s], cur >= 0 && cur as int % loop_steps == s))
        }
    }
}

/// The recorded gesture loop: a dot per recorded note, over the full length of the loop.
pub fn loop_dots(params: &TrackParams, gesture: &Gesture, track: usize, cur: i64) -> (r: Vec<
    LoopDot,
>)
    requires
        params.wf(),
        track < NUM_TRACKS,
    ensures
        r@ == recorded_dots(
            gesture@[track as int],
            params.loop_steps(),
            cur,
            params.loop_steps() as nat,
        ),
{
    let loop_steps: usize = params.length as usize * STEPS;
    let playhead: usize = wrap(cur, loop_steps);
    let mut r: Vec<LoopDot> = Vec::new();
    let mut s: usize = 0;
    while s < loop_steps
        invariant
            s <= loop_steps <= LOOP_CELLS,
            loop_steps == params.loop_steps(),
            track < NUM_TRACKS,
            playhead == cur as int % loop_steps as int,
            r@ == recorded_dots(gesture@[track as int], params.loop_steps(), cur, s as nat),
        decreases loop_steps - s,
    {
        let note: i32 = gesture.load(track, s);
        if note >= 0 {
            let current = cur >= 0 && playhead == s;
            let (radius, colour): (u8, Rgb) = if current {
                (4, Rgb { r: 150, g: 255, b: 190 })
            } else {
                (3, Rgb { r: 90, g: 210, b: 140 })
            };
            r.push(LoopDot { step: s, note, radius, colour });
        }
        s += 1;
    }
    r
}

/// An idle playhead lights no step.
pub proof fn law_idle_playhead_is_dark(params: TrackParams, s: int)
    ensures
        step_dot(params, IDLE, s).radius <= 4,
        step_dot(params, IDLE, s).colour != accent_colour(),
{
}

/// Whether the settings popout is open, and the bind status that it shows.
#[derive(PartialEq, Eq, Structural, Clone, Copy, Debug)]
pub struct Data {
    pub settings_open: bool,
    pub osc_in_status: u8,
}

/// An event of the editor as a whole.
#[derive(PartialEq, Eq, Structural, Clone, Copy, Debug)]
pub enum AppEvent {
    ToggleSettings,
    SetOscInStatus(u8),
}

impl Data {
    /// The data after an event.
    pub open spec fn after(self, e: AppEvent) -> Data {
        match e {
            AppEvent::ToggleSettings => Data { settings_open: !self.settings_open, ..self },
            AppEvent::SetOscInStatus(s) => Data { osc_in_status: s, ..self },
        }
    }

    /// Takes an event.
    pub fn event(&mut self, e: &AppEvent)
        ensures
            *final(self) == old(self).after(*e),
            *final(self) == match *e {
                AppEvent::ToggleSettings => Data {
                    settings_open: !old(self).settings_open,
                    ..*old(self)
                },
                AppEvent::SetOscInStatus(s) => Data { osc_in_status: s, ..*old(self) },
            },
    {
        match e {
            AppEvent::ToggleSettings => {
                self.settings_open = !self.settings_open;
            },
            AppEvent::SetOscInStatus(s) => {
                self.osc_in_status = *s;
            },
        }
    }
}

/// The text and the colour of the status line.
pub open spec fn status_text(status: u8) -> (Seq<char>, Rgb) {
    if status == 1 {
        ("listening"@, Rgb { r: 20, g: 130, b: 60 })
    } else if status == 2 {
        ("port in use — OSC-in off"@, Rgb { r: 190, g: 40, b: 30 })
    } else {
        ("off"@, Rgb { r: 120, g: 120, b: 120 })
    }
}

/// The status line of the OSC input.
pub fn status_line(status: u8) -> (r: (&'static str, Rgb))
    ensures
        (r.0@, r.1) == status_text(status),
{
    match status {
        1 => ("listening", Rgb { r: 20, g: 130, b: 60 }),
        2 => ("port in use — OSC-in off", Rgb { r: 190, g: 40, b: 30 }),
        _ => ("off", Rgb { r: 120, g: 120, b: 120 }),
    }
}

/// The history keeps the latest 64 changes, in order, the newest last.
pub proof fn law_the_latest_changes_are_kept(
    h: Seq<(usize, Seq<i32>)>,
    entry: (usize, Seq<i32>),
    back: int,
)
    requires
        history_wf(h),
    ensures
        ({
            let kept = remembered(h, entry);
            &&& kept.len() == if h.len() < 64 {
                (h.len() + 1) as int
            } else {
                64
            }
            &&& kept.last() == entry
            &&& 0 <= back < h.len() && back < 63 ==> kept[kept.len() - 2 - back] == h[h.len() - 1
                - back]
        }),
{
}

/// A touch writes where it is and nothing else: going down opens the track and starts the
/// drag, moving follows the hand while dragging, coming up closes the track and ends the
/// drag, and without a drag neither moving nor coming up does anything. Where there is no
/// position none is written. No other track is touched.
pub proof fn law_touches_write_where_they_are(
    pad: XyPad,
    e: PadEvent,
    c: Controls,
    x: u32,
    y: u32,
    other: int,
)
    requires
        pad.track < NUM_TRACKS,
        0 <= other < NUM_TRACKS,
        other != pad.track,
        c.gate.len() == NUM_TRACKS,
        c.pos.len() == NUM_TRACKS,
    ensures
        ({
            let d = pad.controls_after(e, c);
            let t = pad.track as int;
            let here = (x * 0x1_0000_0000 + y) as u64;
            let follows = e is Down || (e is Move && pad.drag);
            let at = Some((x, y));
            let nowhere = e == PadEvent::Down(None) || e == PadEvent::Move(None) || e is Up;
            &&& d.gate.len() == NUM_TRACKS && d.pos.len() == NUM_TRACKS
            &&& d.gate[other] == c.gate[other] && d.pos[other] == c.pos[other]
            &&& d.erase == c.erase && d.loops == c.loops
            &&& d.gate[t] <==> (e is Down || c.gate[t]) && !(e is Up && pad.drag)
            &&& follows && (e == PadEvent::Down(at) || e == PadEvent::Move(at)) ==> d.pos[t] == here
            &&& !follows || nowhere ==> d.pos[t] == c.pos[t]
            &&& pad.drag_after(e) <==> e is Down || (e is Move && pad.drag)
        }),
{
}

/// The window is told of a touch in order: going down captures the pointer, begins an edit,
/// sets the position and is consumed; moving sets the position; coming up ends the edit,
/// releases the pointer and is consumed. Without a drag moving and coming up are left to
/// others, and no position is set where there is none.
pub proof fn law_touches_are_told_in_order(pad: XyPad, x: u32, y: u32)
    ensures
        pad.actions(PadEvent::Down(Some((x, y)))) == seq![
            PadAction::Capture,
            PadAction::BeginEdit,
            PadAction::SetPosition(x, y),
            PadAction::Consume,
        ],
        pad.actions(PadEvent::Down(None)) == seq![
            PadAction::Capture,
            PadAction::BeginEdit,
            PadAction::Consume,
        ],
        pad.drag ==> pad.actions(PadEvent::Move(Some((x, y)))) == seq![PadAction::SetPosition(x, y)],
        pad.actions(PadEvent::Move(None)) == Seq::<PadAction>::empty(),
        pad.drag ==> pad.actions(PadEvent::Up) == seq![
            PadAction::EndEdit,
            PadAction::Release,
            PadAction::Consume,
        ],
        !pad.drag ==> pad.actions(PadEvent::Move(Some((x, y)))) == Seq::<PadAction>::empty(),
        !pad.drag ==> pad.actions(PadEvent::Up) == Seq::<PadAction>::empty(),
{
    assert(pad.actions(PadEvent::Down(Some((x, y)))) =~= seq![
        PadAction::Capture,
        PadAction::BeginEdit,
        PadAction::SetPosition(x, y),
        PadAction::Consume,
    ]);
    assert(pad.actions(PadEvent::Down(None)) =~= seq![
        PadAction::Capture,
        PadAction::BeginEdit,
        PadAction::Consume,
    ]);
}

/// The step display shows what plays: a step is an onset where the pattern that is rotated
/// by the parameter strikes, and current where a playhead that is not idle is, bar after bar.
/// Each of the two makes its dot larger by two, the four combinations have a colour each, and
/// a ring goes round onsets that are accented.
pub proof fn law_steps_are_shown_as_played(params: TrackParams, cur: i64, s: int)
    requires
        params.wf(),
        0 <= s < 16,
    ensures
        ({
            let dot = step_dot(params, cur, s);
            let onset = ((s - params.rotation) % 16 * params.density) % 16 < params.density;
            let accent = (s * params.accent) % 16 < params.accent;
            let current = cur >= 0 && (cur - s) % 16 == 0;
            &&& dot.radius == 2 + if onset {
                2int
            } else {
                0
            } + if current {
                2int
            } else {
                0
            }
            &&& dot.ring <==> onset && accent
            &&& onset && current ==> dot.colour == (Rgb { r: 255, g: 120, b: 80 })
            &&& onset && !current ==> dot.colour == (Rgb { r: 200, g: 200, b: 200 })
            &&& !onset && current ==> dot.colour == (Rgb { r: 120, g: 60, b: 40 })
            &&& !onset && !current ==> dot.colour == (Rgb { r: 70, g: 70, b: 70 })
        }),
{
    let turned = (s - params.rotation) % 16;
    assert(0 <= turned < 16);
    assert(rotated_pattern(params.density as nat, 16, params.rotation as nat)[s] == pattern(
        params.density as nat,
        16,
    )[turned]);
}

/// The loop display shows what is recorded: every dot lies on a step of the loop that holds
/// a note, in order, and every step that holds one has its dot; the one under the playhead,
/// unless it is idle, is larger and brighter.
pub proof fn law_recorded_notes_are_shown(cells: Seq<i32>, loop_steps: int, cur: i64, n: nat)
    requires
        0 < loop_steps,
        n <= cells.len() <= 0x8000_0000,
    ensures
        ({
            let dots = recorded_dots(cells, loop_steps, cur, n);
            &&& forall|i: int|
                0 <= i < dots.len() ==> {
                    let dot = #[trigger] dots[i];
                    let current = cur >= 0 && cur as int % loop_steps == dot.step;
                    &&& dot.step < n
                    &&& cells[dot.step as int] == dot.note
                    &&& dot.note >= 0
                    &&& current ==> dot.radius == 4 && dot.colour == (Rgb { r: 150, g: 255, b: 190 })
                    &&& !current ==> dot.radius == 3 && dot.colour == (Rgb { r: 90, g: 210, b: 140 })
                }
            &&& forall|i: int, j: int|
                0 <= i < j < dots.len() ==> (#[trigger] dots[i]).step < (#[trigger] dots[j]).step
            &&& forall|s: int|
                0 <= s < n && #[trigger] cells[s] >= 0 ==> exists|i: int|
                    0 <= i < dots.len() && (#[trigger] dots[i]).step == s
        }),
    decreases n,
{
    if n > 0 {
        let last = n - 1;
        let before = recorded_dots(cells, loop_steps, cur, last as nat);
        let dots = recorded_dots(cells, loop_steps, cur, n);
        law_recorded_notes_are_shown(cells, loop_steps, cur, last as nat);
        assert forall|s: int| 0 <= s < n && #[trigger] cells[s] >= 0 implies exists|i: int|
            0 <= i < dots.len() && (#[trigger] dots[i]).step == s by {
            if s < last {
                let i = choose|i: int| 0 <= i < before.len() && (#[trigger] before[i]).step == s;
                assert(dots[i] == before[i]);
            } else {
                assert(dots[dots.len() - 1].step == s);
            }
        }
        assert forall|i: int| 0 <= i < before.len() implies #[trigger] dots[i] == before[i] by {}
    }
}

/// The status line says "listening" in green where the input listens, that the port is in use
/// in red where it failed to open, and "off" in grey otherwise.
pub proof fn law_the_status_is_told(status: u8)
    ensures
        status == 1 ==> status_text(status) == ("listening"@, Rgb { r: 20, g: 130, b: 60 }),
        status == 2 ==> status_text(status) == (
            "port in use — OSC-in off"@,
            Rgb { r: 190, g: 40, b: 30 },
        ),
        status != 1 && status != 2 ==> status_text(status) == (
            "off"@,
            Rgb { r: 120, g: 120, b: 120 },
        ),
{
}

/// The popout opens and closes in turn, whatever the status is; a status that is reported is
/// the one that is shown, whatever it was, and opens or closes nothing.
pub proof fn law_the_popout_opens_and_closes(d: Data, status: u8)
    ensures
        d.after(AppEvent::ToggleSettings).settings_open <==> !d.settings_open,
        d.after(AppEvent::ToggleSettings).after(AppEvent::ToggleSettings) == d,
        d.after(AppEvent::ToggleSettings).osc_in_status == d.osc_in_status,
        d.after(AppEvent::SetOscInStatus(status)).osc_in_status == status,
        d.after(AppEvent::SetOscInStatus(status)).settings_open == d.settings_open,
{
}

/// The pad under the mouse and the remote control write the same: going down is a position
/// and an open gate, moving a position, coming up a closed gate.
pub proof fn law_pads_and_messages_write_the_same(pad: XyPad, c: Controls, x: u32, y: u32)
    requires
        pad.track < NUM_TRACKS,
        pad.drag,
    ensures
        pad.controls_after(PadEvent::Down(Some((x, y))), c) == applied(
            applied(c, Msg::Xy(pad.track, x, y)),
            Msg::Gate(pad.track, true),
        ),
        pad.controls_after(PadEvent::Down(None), c) == applied(c, Msg::Gate(pad.track, true)),
        pad.controls_after(PadEvent::Move(Some((x, y))), c) == applied(
            c,
            Msg::Xy(pad.track, x, y),
        ),
        pad.controls_after(PadEvent::Up, c) == applied(c, Msg::Gate(pad.track, false)),
{
}

} // verus!
