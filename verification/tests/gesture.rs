use trafalgar::gesture::{Gesture, LOOP_CELLS, NUM_TRACKS};

#[test]
fn gesture_persist_roundtrip() {
    // A recorded loop survives a save (map) and a load (set).
    let mut g = Gesture::default();
    g.store(0, 3, 60);
    g.store(2, 7, -2); // a recorded rest
    let snap = g.map(|v| v.clone());

    let mut loaded = Gesture::default();
    loaded.set(&snap);
    assert_eq!(loaded.load(0, 3), 60);
    assert_eq!(loaded.load(2, 7), -2);
    assert_eq!(loaded.load(1, 0), -1, "untouched cell stays empty");

    // set truncates rather than panicking if the saved shape is smaller.
    let mut short = Gesture::default();
    short.set(&vec![vec![42]]);
    assert_eq!(short.load(0, 0), 42);
}

#[test]
fn loading_writes_over_whatever_was_there() {
    let mut saved = Gesture::default();
    let mut into = Gesture::default();
    for t in 0..NUM_TRACKS {
        for i in 0..LOOP_CELLS {
            saved.store(t, i, (t * 31 + i * 7) as i32 % 128);
            into.store(t, i, 99);
        }
    }
    let snap = saved.map(|v| v.clone());
    assert_eq!(snap.len(), NUM_TRACKS);
    into.set(&snap);
    for t in 0..NUM_TRACKS {
        assert_eq!(into.index(t), saved.index(t));
    }
}

#[test]
fn loops_of_another_shape_are_cut_and_leave_the_rest() {
    let mut g = Gesture::default();
    g.store(0, 1, 50);
    g.store(3, 0, 51);
    g.set(&vec![vec![42], vec![], vec![7; LOOP_CELLS + 5]]);
    assert_eq!((g.load(0, 0), g.load(0, 1)), (42, 50));
    assert_eq!(g.load(1, 0), -1);
    assert_eq!((g.load(2, 0), g.load(2, LOOP_CELLS - 1)), (7, 7));
    assert_eq!(g.load(3, 0), 51);
    g.set(&vec![vec![1]; NUM_TRACKS + 3]);
    assert_eq!((g.load(0, 0), g.load(3, 0)), (1, 1));
}

#[test]
fn clearing_empties_one_track() {
    let mut g = Gesture::default();
    g.store(1, 5, 60);
    g.store(2, 5, 61);
    g.clear(1);
    assert!(g.index(1).iter().all(|&c| c == -1));
    assert_eq!(g.load(2, 5), 61);
    assert_eq!(g.snapshot(2)[5], 61);
    assert_eq!(g.snapshot(2).len(), LOOP_CELLS);
    g.overlay(1, &vec![3, 4]);
    assert_eq!((g.load(1, 0), g.load(1, 1), g.load(1, 2)), (3, 4, -1));
}
