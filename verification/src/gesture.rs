//! The recorded gesture loops.

use vstd::prelude::*;

verus! {

/// Steps in a bar.
pub const STEPS: usize = 16;

/// Euclidean voices.
pub const NUM_TRACKS: usize = 4;

/// The longest recordable gesture loop, in bars.
pub const MAX_BARS: usize = 8;

/// The cells that a track keeps, one per step of the longest loop.
pub const LOOP_CELLS: usize = 128;

/// A cell that nothing was recorded in.
pub const EMPTY: i32 = -1;

/// A cell that holds a recorded rest.
pub const REST: i32 = -2;

/// The recorded gesture loops: one cell per step (up to `MAX_BARS` bars) per track, which
/// is `EMPTY`, `REST`, or the number of a recorded note. The loops have no clone that could
/// fall behind: whoever needs them shares the one set.
pub struct Gesture {
    pub cells: [[i32; LOOP_CELLS]; NUM_TRACKS],
}

impl View for Gesture {
    type V = Seq<Seq<i32>>;

    open spec fn view(&self) -> Seq<Seq<i32>> {
        Seq::new(NUM_TRACKS as nat, |t: int| self.cells@[t]@)
    }
}

/// The loop of a track on which nothing is recorded.
pub open spec fn empty_loop() -> Seq<i32> {
    Seq::new(LOOP_CELLS as nat, |i: int| EMPTY)
}

/// `old` with as much of `new` written over its start as fits.
pub open spec fn overlaid(old_cells: Seq<i32>, new_cells: Seq<i32>) -> Seq<i32> {
    Seq::new(
        old_cells.len(),
        |i: int|
            if i < new_cells.len() {
                new_cells[i]
            } else {
                old_cells[i]
            },
    )
}

/// The cells of saved loops.
pub open spec fn saved_cells(saved: Seq<Vec<i32>>) -> Seq<Seq<i32>> {
    saved.map_values(|v: Vec<i32>| v@)
}

/// Loops after saved ones are written over them, track by track, as far as both go.
pub open spec fn restored(loops: Seq<Seq<i32>>, saved: Seq<Seq<i32>>) -> Seq<Seq<i32>> {
    Seq::new(
        loops.len(),
        |t: int|
            if t < saved.len() {
                overlaid(loops[t], saved[t])
            } else {
                loops[t]
            },
    )
}

impl Default for Gesture {
    /// Every loop empty.
    fn default() -> (r: Self)
        ensures
            r@ == Seq::new(NUM_TRACKS as nat, |t: int| empty_loop()),
    {
        let r = Gesture { cells: [[EMPTY; LOOP_CELLS]; NUM_TRACKS] };
        assert forall|t: int| 0 <= t < NUM_TRACKS implies r@[t] =~= empty_loop() by {}
        assert(r@ =~= Seq::new(NUM_TRACKS as nat, |t: int| empty_loop()));
        r
    }
}

impl Gesture {
    /// The loop of one track.
    pub fn index(&self, track: usize) -> (r: &[i32; LOOP_CELLS])
        requires
            track < NUM_TRACKS,
        ensures
            r@ == self@[track as int],
    {
        &self.cells[track]
    }

    /// What a cell holds.
    pub fn load(&self, track: usize, i: usize) -> (r: i32)
        requires
            track < NUM_TRACKS,
            i < LOOP_CELLS,
        ensures
            r == self@[track as int][i as int],
    {
        self.cells[track][i]
    }

    /// Writes one cell.
    pub fn store(&mut self, track: usize, i: usize, v: i32)
        requires
            track < NUM_TRACKS,
            i < LOOP_CELLS,
        ensures
            final(self)@ == old(self)@.update(
                track as int,
                old(self)@[track as int].update(i as int, v),
            ),
    {
        self.cells[track][i] = v;
        assert(self@ =~= old(self)@.update(
            track as int,
            old(self)@[track as int].update(i as int, v),
        ));
    }

    /// Writes cells over the start of a track's loop; those that do not fit are dropped.
    pub fn overlay(&mut self, track: usize, cells: &Vec<i32>)
        requires
            track < NUM_TRACKS,
        ensures
            final(self)@ == old(self)@.update(
                track as int,
                overlaid(old(self)@[track as int], cells@),
            ),
    {
        let ghost before = self@;
        let mut i: usize = 0;
        assert(overlaid(before[track as int], cells@.take(0)) =~= before[track as int]);
        assert(self@ =~= before.update(track as int, before[track as int]));
        while i < LOOP_CELLS && i < cells.len()
            invariant
                i <= LOOP_CELLS,
                i <= cells@.len(),
                track < NUM_TRACKS,
                before.len() == NUM_TRACKS,
                before[track as int].len() == LOOP_CELLS,
                self@ == before.update(
                    track as int,
                    overlaid(before[track as int], cells@.take(i as int)),
                ),
            decreases LOOP_CELLS - i,
        {
            self.store(track, i, cells[i]);
            i += 1;
            assert(overlaid(before[track as int], cells@.take(i - 1)).update(i - 1, cells@[i - 1])
                =~= overlaid(before[track as int], cells@.take(i as int)));
            assert(self@ =~= before.update(
                track as int,
                overlaid(before[track as int], cells@.take(i as int)),
            ));
        }
        assert(overlaid(before[track as int], cells@.take(i as int)) =~= overlaid(
            before[track as int],
            cells@,
        ));
    }

    /// Empties a track's loop.
    pub fn clear(&mut self, track: usize)
        requires
            track < NUM_TRACKS,
        ensures
            final(self)@ == old(self)@.update(track as int, empty_loop()),
    {
        self.cells[track] = [EMPTY; LOOP_CELLS];
        assert(self.cells@[track as int]@ =~= empty_loop());
        assert(self@ =~= old(self)@.update(track as int, empty_loop()));
    }

    /// Loads saved loops, track-major. Loops of another shape are cut to what fits.
    pub fn set(&mut self, new_value: &Vec<Vec<i32>>)
        ensures
            final(self)@ == restored(old(self)@, saved_cells(new_value@)),
    {
        let ghost before = self@;
        let ghost saved = saved_cells(new_value@);
        let mut t: usize = 0;
        assert(self@ =~= restored(before, saved.take(0)));
        while t < NUM_TRACKS && t < new_value.len()
            invariant
                t <= NUM_TRACKS,
                t <= new_value@.len(),
                before.len() == NUM_TRACKS,
                saved == saved_cells(new_value@),
                self@ == restored(before, saved.take(t as int)),
            decreases NUM_TRACKS - t,
        {
            self.overlay(t, &new_value[t]);
            t += 1;
            assert(self@ =~= restored(before, saved.take(t as int)));
        }
        assert(restored(before, saved.take(t as int)) =~= restored(before, saved));
    }

    /// The cells of one track, copied out.
    pub fn snapshot(&self, track: usize) -> (r: Vec<i32>)
        requires
            track < NUM_TRACKS,
        ensures
            r@ == self@[track as int],
    {
        let mut r: Vec<i32> = Vec::new();
        let mut i: usize = 0;
        while i < LOOP_CELLS
            invariant
                i <= LOOP_CELLS,
                track < NUM_TRACKS,
                r@ == self@[track as int].take(i as int),
            decreases LOOP_CELLS - i,
        {
            r.push(self.load(track, i));
            i += 1;
            assert(r@ =~= self@[track as int].take(i as int));
        }
        assert(r@ =~= self@[track as int]);
        r
    }

    /// Hands the loops, track-major, to `f` and returns what `f` makes of them.
    pub fn map<F, R>(&self, f: F) -> (r: R) where F: Fn(&Vec<Vec<i32>>) -> R
        requires
            forall|v: &Vec<Vec<i32>>| saved_cells(v@) == self@ ==> call_requires(f, (v,)),
        ensures
            exists|v: &Vec<Vec<i32>>|
                saved_cells(v@) == self@ && #[trigger] call_ensures(f, (v,), r),
    {
        let mut v: Vec<Vec<i32>> = Vec::new();
        let mut t: usize = 0;
        assert(saved_cells(v@) =~= self@.take(0));
        while t < NUM_TRACKS
            invariant
                t <= NUM_TRACKS,
                saved_cells(v@) == self@.take(t as int),
            decreases NUM_TRACKS - t,
        {
            let ghost was = v@;
            let cells = self.snapshot(t);
            let ghost added = cells@;
            v.push(cells);
            t += 1;
            assert(saved_cells(v@) =~= saved_cells(was).push(added));
            assert(saved_cells(v@) =~= self@.take(t as int));
        }
        assert(saved_cells(v@) =~= self@);
        f(&v)
    }
}

/// Loading what was saved gives every loop back, whatever was recorded before.
pub proof fn law_persist_round_trip(loops: Gesture, into: Gesture)
    ensures
        restored(into@, loops@) == loops@,
{
    assert forall|t: int| 0 <= t < NUM_TRACKS implies restored(into@, loops@)[t] =~= loops@[t] by {}
    assert(restored(into@, loops@) =~= loops@);
}

/// Loading leaves alone what the saved loops do not reach.
pub proof fn law_short_load_keeps_the_rest(
    loops: Gesture,
    saved: Seq<Seq<i32>>,
    track: int,
    i: int,
)
    requires
        0 <= track < NUM_TRACKS,
        0 <= i < LOOP_CELLS,
        track >= saved.len() || i >= saved[track].len(),
    ensures
        restored(loops@, saved)[track][i] == loops@[track][i],
{
}

/// Loading gives every cell that the saved loops reach as it was saved, and keeps the number
/// of loops and of cells.
pub proof fn law_loaded_cells_are_the_saved_ones(
    loops: Gesture,
    saved: Seq<Seq<i32>>,
    track: int,
    i: int,
)
    requires
        0 <= track < NUM_TRACKS,
        0 <= i < LOOP_CELLS,
    ensures
        restored(loops@, saved).len() == 4,
        restored(loops@, saved)[track].len() == 128,
        track < saved.len() && i < saved[track].len() ==> restored(loops@, saved)[track][i]
            == saved[track][i],
{
}

/// A loop on which nothing is recorded has 128 cells, eight bars of sixteen steps, and each
/// of them is -1.
pub proof fn law_empty_loops_are_empty(i: int)
    requires
        0 <= i < 8 * 16,
    ensures
        empty_loop().len() == 8 * 16,
        empty_loop()[i] == -1,
{
}

/// Saved cells are the cells, loop by loop and cell by cell.
pub proof fn law_saved_cells_are_the_cells(saved: Seq<Vec<i32>>, t: int)
    requires
        0 <= t < saved.len(),
    ensures
        saved_cells(saved).len() == saved.len(),
        saved_cells(saved)[t] == saved[t]@,
{
}

} // verus!
