use trafalgar::editor::{
    loop_dots, status_line, step_dots, AppEvent, ClearButton, Data, HoldButton, PadAction, PadEvent, Rgb, UndoButton,
    UndoStack, XyPad, UNDO_LIMIT,
};
use trafalgar::params::TrackParams;
use trafalgar::shared::Shared;

const ACCENT: Rgb = Rgb { r: 255, g: 120, b: 80 };

#[test]
fn clearing_can_be_undone() {
    let mut shared = Shared::default();
    let mut undo = UndoStack::new();
    shared.gesture.store(1, 3, 60);
    shared.gesture.store(2, 3, 61);
    ClearButton::new(1).press(&mut shared, &mut undo);
    assert_eq!((shared.gesture.load(1, 3), shared.gesture.load(2, 3)), (-1, 61));
    UndoButton::new().press(&mut shared, &mut undo);
    assert_eq!((shared.gesture.load(1, 3), shared.gesture.load(2, 3)), (60, 61));
    // nothing left to undo
    UndoButton::new().press(&mut shared, &mut undo);
    assert_eq!(shared.gesture.load(1, 3), 60);
}

#[test]
fn undo_goes_back_change_by_change_up_to_the_limit() {
    let mut shared = Shared::default();
    let mut undo = UndoStack::new();
    for i in 0..UNDO_LIMIT as i32 + 10 {
        undo.push_undo(&shared, 0);
        shared.gesture.store(0, 0, i);
    }
    assert_eq!(undo.entries.len(), UNDO_LIMIT);
    for i in (9..UNDO_LIMIT as i32 + 9).rev() {
        undo.undo(&mut shared);
        assert_eq!(shared.gesture.load(0, 0), i);
    }
    undo.undo(&mut shared);
    assert_eq!(shared.gesture.load(0, 0), 9);
}

#[test]
fn erasing_lasts_while_the_button_is_held() {
    let mut shared = Shared::default();
    let mut undo = UndoStack::new();
    shared.gesture.store(3, 0, 60);
    let button = HoldButton::new(3);
    button.press(&mut shared, &mut undo);
    assert_eq!(shared.erase, [false, false, false, true]);
    shared.gesture.store(3, 0, -1);
    button.release(&mut shared);
    assert_eq!(shared.erase, [false; 4]);
    undo.undo(&mut shared);
    assert_eq!(shared.gesture.load(3, 0), 60);
}

#[test]
fn a_touch_opens_the_gate_and_letting_go_closes_it() {
    let mut shared = Shared::default();
    let mut undo = UndoStack::new();
    let mut pad = XyPad::new(2);
    let (a, b, c) = (0.25f32.to_bits(), 0.5f32.to_bits(), 0.75f32.to_bits());
    // moving without a touch does nothing
    assert!(pad.event(PadEvent::Move(Some((a, b))), true, &mut shared, &mut undo).is_empty());
    assert!(pad.event(PadEvent::Up, true, &mut shared, &mut undo).is_empty());
    assert_eq!((shared.pos[2], shared.gate[2]), (0, false));
    let down = pad.event(PadEvent::Down(Some((a, b))), false, &mut shared, &mut undo);
    assert_eq!(
        down,
        [PadAction::Capture, PadAction::BeginEdit, PadAction::SetPosition(a, b), PadAction::Consume]
    );
    assert_eq!(shared.gate, [false, false, true, false]);
    assert_eq!(shared.pos[2], ((a as u64) << 32) | b as u64);
    assert!(undo.entries.is_empty());
    let moved = pad.event(PadEvent::Move(Some((b, c))), false, &mut shared, &mut undo);
    assert_eq!(moved, [PadAction::SetPosition(b, c)]);
    assert_eq!(shared.pos[2], ((b as u64) << 32) | c as u64);
    let up = pad.event(PadEvent::Up, false, &mut shared, &mut undo);
    assert_eq!(up, [PadAction::EndEdit, PadAction::Release, PadAction::Consume]);
    assert_eq!(shared.gate, [false; 4]);
    assert!(!pad.drag);
}

#[test]
fn a_pad_without_an_extent_has_no_position() {
    let mut shared = Shared::default();
    let mut undo = UndoStack::new();
    let mut pad = XyPad::new(0);
    let down = pad.event(PadEvent::Down(None), false, &mut shared, &mut undo);
    assert_eq!(down, [PadAction::Capture, PadAction::BeginEdit, PadAction::Consume]);
    assert_eq!((shared.pos[0], shared.gate[0]), (0, true));
    assert!(pad.event(PadEvent::Move(None), false, &mut shared, &mut undo).is_empty());
}

#[test]
fn a_touch_on_an_armed_track_can_be_undone() {
    let mut shared = Shared::default();
    let mut undo = UndoStack::new();
    let mut pad = XyPad::new(1);
    shared.gesture.store(1, 0, 60);
    pad.event(PadEvent::Down(None), true, &mut shared, &mut undo);
    pad.event(PadEvent::Move(None), true, &mut shared, &mut undo);
    pad.event(PadEvent::Up, true, &mut shared, &mut undo);
    assert_eq!(undo.entries.len(), 1);
    shared.gesture.store(1, 0, 72);
    undo.undo(&mut shared);
    assert_eq!(shared.gesture.load(1, 0), 60);
}

#[test]
fn the_pattern_is_drawn_with_playhead_and_accents() {
    let params = TrackParams::default(); // onsets on 0, 4, 8, 12; accents on 0 and 8
    let dots = step_dots(&params, 4);
    assert_eq!(dots.len(), 16);
    assert_eq!((dots[4].radius, dots[4].colour, dots[4].ring), (6, ACCENT, false));
    assert_eq!((dots[0].radius, dots[0].colour, dots[0].ring), (4, Rgb { r: 200, g: 200, b: 200 }, true));
    assert_eq!((dots[1].radius, dots[1].colour, dots[1].ring), (2, Rgb { r: 70, g: 70, b: 70 }, false));
    assert!(dots[8].ring && !dots[12].ring);
    // the playhead off an onset, one bar on
    let dots = step_dots(&params, 17);
    assert_eq!((dots[1].radius, dots[1].colour), (4, Rgb { r: 120, g: 60, b: 40 }));
    // idle
    assert!(step_dots(&params, -1).iter().all(|d| d.radius <= 4 && d.colour != ACCENT));
}

#[test]
fn the_recorded_notes_are_drawn_over_the_length_of_the_loop() {
    let mut params = TrackParams::default();
    params.length = 2;
    let mut shared = Shared::default();
    shared.gesture.store(0, 3, 60);
    shared.gesture.store(0, 4, -2);
    shared.gesture.store(0, 20, 72);
    shared.gesture.store(0, 40, 50); // beyond the loop
    let dots = loop_dots(&params, &shared.gesture, 0, 32 + 20);
    assert_eq!(dots.len(), 2);
    assert_eq!((dots[0].step, dots[0].note, dots[0].radius), (3, 60, 3));
    assert_eq!(dots[0].colour, Rgb { r: 90, g: 210, b: 140 });
    assert_eq!((dots[1].step, dots[1].note, dots[1].radius), (20, 72, 4));
    assert_eq!(dots[1].colour, Rgb { r: 150, g: 255, b: 190 });
    assert!(loop_dots(&params, &shared.gesture, 0, -1).iter().all(|d| d.radius == 3));
    assert!(loop_dots(&params, &shared.gesture, 1, 0).is_empty());
}

#[test]
fn the_status_line_says_how_the_input_stands() {
    assert_eq!(status_line(0), ("off", Rgb { r: 120, g: 120, b: 120 }));
    assert_eq!(status_line(1), ("listening", Rgb { r: 20, g: 130, b: 60 }));
    assert_eq!(status_line(2), ("port in use — OSC-in off", Rgb { r: 190, g: 40, b: 30 }));
    assert_eq!(status_line(77).0, "off");
}

#[test]
fn the_popout_opens_and_closes() {
    let mut data = Data { settings_open: false, osc_in_status: 0 };
    data.event(&AppEvent::ToggleSettings);
    assert!(data.settings_open);
    data.event(&AppEvent::SetOscInStatus(2));
    assert_eq!((data.settings_open, data.osc_in_status), (true, 2));
    data.event(&AppEvent::ToggleSettings);
    assert!(!data.settings_open);
}

#[test]
fn any_undo_gives_the_whole_remembered_loop_back() {
    let mut shared = Shared::default();
    let mut undo = UndoStack::new();
    let mut saved = Vec::new();
    for i in 0..6usize {
        let t = i % 3;
        saved.push((t, shared.gesture.snapshot(t)));
        undo.push_undo(&shared, t);
        for c in 0..128 {
            shared.gesture.store(t, c, (i * 13 + c) as i32 % 128);
        }
    }
    // whatever else has happened since
    for c in 0..128 {
        shared.gesture.store(1, c, -2);
        shared.gesture.store(3, c, 5);
    }
    while let Some((t, snap)) = saved.pop() {
        let others: Vec<Vec<i32>> = (0..4).filter(|&o| o != t).map(|o| shared.gesture.snapshot(o)).collect();
        undo.undo(&mut shared);
        assert_eq!(shared.gesture.snapshot(t), snap);
        let left: Vec<Vec<i32>> = (0..4).filter(|&o| o != t).map(|o| shared.gesture.snapshot(o)).collect();
        assert_eq!(left, others);
        assert_eq!(undo.entries.len(), saved.len());
    }
}
