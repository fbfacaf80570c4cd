use vstd::arithmetic::div_mod::lemma_fundamental_div_mod_converse;
use vstd::prelude::*;

use crate::bitgrid::BitGrid;
use crate::grid::{grid_index, lemma_wrap_small, read_word_bit, word_bit, Grid, Index};
use crate::vec3::IVec3;

verus! {

/// 1 when the cell at `(x, y)` of a flat board of extents `e` is alive.
pub open spec fn live(b: Seq<bool>, e: (int, int, int), x: int, y: int) -> int {
    if b[grid_index(e, x, y, 0)] {
        1
    } else {
        0
    }
}

/// The number of live cells among the eight neighbours of `(x, y)`, wrapping
/// around the edges.
pub open spec fn neighbours(b: Seq<bool>, e: (int, int, int), x: int, y: int) -> int {
    live(b, e, x - 1, y - 1) + live(b, e, x - 1, y) + live(b, e, x - 1, y + 1) + live(b, e, x, y - 1)
        + live(b, e, x, y + 1) + live(b, e, x + 1, y - 1) + live(b, e, x + 1, y) + live(b, e, x + 1, y + 1)
}

/// Conway's rule: a live cell with two or three live neighbours lives on, and
/// a dead cell with exactly three comes to life.
pub open spec fn survives(alive: bool, n: int) -> bool {
    if alive {
        n == 2 || n == 3
    } else {
        n == 3
    }
}

/// The next state of the cell at linear position `i` of a flat board.
pub open spec fn next_cell(b: Seq<bool>, e: (int, int, int), i: int) -> bool {
    survives(b[i], neighbours(b, e, i % e.0, i / e.0))
}

/// The number of cells among the first `k` that change in the next
/// generation.
pub open spec fn changes_before(b: Seq<bool>, e: (int, int, int), k: int) -> int
    decreases k,
{
    if k <= 0 {
        0
    } else {
        changes_before(b, e, k - 1) + if next_cell(b, e, k - 1) != b[k - 1] {
            1int
        } else {
            0int
        }
    }
}

proof fn lemma_changes_bound(b: Seq<bool>, e: (int, int, int), k: int)
    ensures
        0 <= changes_before(b, e, k) <= if k > 0 { k } else { 0 },
    decreases k,
{
    if k > 0 {
        lemma_changes_bound(b, e, k - 1);
    }
}

/// The linear position of cell `(x + dx, y + dy)` of a flat board.
pub open spec fn gi(e: (int, int, int), x: Index, y: Index, dx: int, dy: int) -> int {
    grid_index(e, x + dx, y + dy, 0)
}

/// Conway's Game of Life on a flat grid whose edges wrap around.
pub struct Life<G: Grid = BitGrid> {
    /// Current state of the simulation
    cells: G,
    /// Where the next generation is written before it becomes current
    scratch: G,
}

impl<G: Grid> Life<G> {
    pub closed spec fn spec_cells(&self) -> G {
        self.cells
    }

    pub closed spec fn spec_scratch(&self) -> G {
        self.scratch
    }

    pub open spec fn extents(&self) -> (int, int, int) {
        self.spec_cells().extents()
    }

    /// The cells, row after row.
    pub open spec fn board(&self) -> Seq<bool> {
        self.spec_cells().contents()
    }

    /// Both grids are valid, flat, and of the same extents.
    pub open spec fn well_formed(&self) -> bool {
        &&& self.spec_cells().valid()
        &&& self.spec_scratch().valid()
        &&& self.spec_scratch().extents() == self.extents()
        &&& self.extents().2 == 1
    }

    /// A simulation of `width * height` cells, all dead.
    pub fn new(width: usize, height: usize) -> (r: Self)
        requires
            width <= i32::MAX,
            height <= i32::MAX,
            width * height + 8 <= usize::MAX,
        ensures
            r.well_formed(),
            r.extents() == (width as int, height as int, 1int),
            r.board() == Seq::new((width * height) as nat, |i: int| false),
    {
        let dims = IVec3::new(width as i32, height as i32, 1);
        Self::new_with_cells(G::new(dims))
    }

    /// A simulation that starts from `cells`, which must be flat.
    pub fn new_with_cells(cells: G) -> (r: Self)
        requires
            cells.valid(),
            cells.extents().2 == 1,
        ensures
            r.well_formed(),
            r.spec_cells() == cells,
    {
        proof {
            cells.lemma_valid();
            assert(cells.extents().0 * cells.extents().1 * 1 == cells.contents().len());
        }
        let scratch = G::new(cells.dims());
        Life { cells, scratch }
    }

    pub fn width(&self) -> (r: Index)
        requires
            self.well_formed(),
        ensures
            r == self.extents().0,
    {
        self.cells.width()
    }

    pub fn height(&self) -> (r: Index)
        requires
            self.well_formed(),
        ensures
            r == self.extents().1,
    {
        self.cells.height()
    }

    /// Whether the cell at `(x, y)` is alive; coordinates wrap around.
    pub fn get(&self, x: Index, y: Index) -> (r: bool)
        requires
            self.well_formed(),
            self.extents().0 > 0 && self.extents().1 > 0,
        ensures
            r == self.board()[grid_index(self.extents(), x as int, y as int, 0)],
    {
        self.cells.get(x, y, 0)
    }

    /// Makes the cell at `(x, y)` alive or dead and returns its previous state.
    pub fn set(&mut self, x: Index, y: Index, is_alive: bool) -> (r: bool)
        requires
            old(self).well_formed(),
            old(self).extents().0 > 0 && old(self).extents().1 > 0,
        ensures
            final(self).well_formed(),
            final(self).extents() == old(self).extents(),
            r == old(self).board()[grid_index(old(self).extents(), x as int, y as int, 0)],
            final(self).board() == old(self).board().update(
                grid_index(old(self).extents(), x as int, y as int, 0),
                is_alive,
            ),
    {
        self.cells.set(x, y, 0, is_alive)
    }

    pub fn cells(&self) -> (r: &G)
        ensures
            *r == self.spec_cells(),
    {
        &self.cells
    }

    /// The current cells, writable in place.
    pub fn cells_mut(&mut self) -> (r: &mut G)
        ensures
            *r == old(self).spec_cells(),
            final(self).spec_cells() == *final(r),
            final(self).spec_scratch() == old(self).spec_scratch(),
    {
        &mut self.cells
    }

    pub fn into_cells(self) -> (r: G)
        ensures
            r == self.spec_cells(),
    {
        self.cells
    }

    /// Advances one generation and returns how many cells changed.
    pub fn step(&mut self) -> (r: u32)
        requires
            old(self).well_formed(),
            old(self).extents().0 * old(self).extents().1 <= u32::MAX,
        ensures
            final(self).well_formed(),
            final(self).extents() == old(self).extents(),
            final(self).board() == Seq::new(
                old(self).board().len(),
                |i: int| next_cell(old(self).board(), old(self).extents(), i),
            ),
            r == changes_before(old(self).board(), old(self).extents(), old(self).board().len() as int),
    {
        proof {
            self.cells.lemma_valid();
            self.scratch.lemma_valid();
        }
        let ghost b = self.board();
        let ghost e = self.extents();
        let w = self.cells.width();
        let h = self.cells.height();
        let mut count: u32 = 0;
        let mut y: Index = 0;
        while y < h
            invariant
                self.well_formed(),
                self.board() == b,
                self.extents() == e,
                e == (w as int, h as int, 1int),
                b.len() == w * h,
                w * h <= u32::MAX,
                0 <= w && 0 <= y <= h,
                self.spec_scratch().contents().len() == b.len(),
                forall|i: int| 0 <= i < y * w ==> #[trigger] self.spec_scratch().contents()[i] == next_cell(b, e, i),
                count == changes_before(b, e, y * w),
            decreases h - y,
        {
            let mut x: Index = 0;
            while x < w
                invariant
                    self.well_formed(),
                    self.board() == b,
                    self.extents() == e,
                    e == (w as int, h as int, 1int),
                    b.len() == w * h,
                    w * h <= u32::MAX,
                    0 <= x <= w && 0 <= y < h,
                    self.spec_scratch().contents().len() == b.len(),
                    forall|i: int| 0 <= i < x + y * w ==> #[trigger] self.spec_scratch().contents()[i] == next_cell(b, e, i),
                    count == changes_before(b, e, x + y * w),
                decreases w - x,
            {
                let ghost l = x + y * w;
                proof {
                    lemma_fundamental_div_mod_converse(l, w as int, y as int, x as int);
                    assert(y * w + w <= h * w) by (nonlinear_arith)
                        requires
                            y < h,
                            w >= 0,
                    ;
                    assert(h * w == w * h) by (nonlinear_arith);
                    lemma_wrap_small(x as int, w as int);
                    lemma_wrap_small(y as int, h as int);
                    lemma_wrap_small(0, 1);
                    assert(grid_index(e, x as int, y as int, 0) == l);
                    lemma_changes_bound(b, e, l);
                }
                let mut live_count: u8 = 0;
                live_count = live_count + self.get(x - 1, y - 1) as u8;
                live_count = live_count + self.get(x - 1, y + 0) as u8;
                live_count = live_count + self.get(x - 1, y + 1) as u8;

                live_count = live_count + self.get(x + 0, y - 1) as u8;
                // The cell itself is not its own neighbour.
                live_count = live_count + self.get(x + 0, y + 1) as u8;

                live_count = live_count + self.get(x + 1, y - 1) as u8;
                live_count = live_count + self.get(x + 1, y + 0) as u8;
                live_count = live_count + self.get(x + 1, y + 1) as u8;

                let alive = self.get(x, y);
                let is_alive = if alive {
                    // Continues to live
                    live_count == 2 || live_count == 3
                } else {
                    // Comes to life, as if by reproduction
                    live_count == 3
                };
                proof {
                    assert(live_count == neighbours(b, e, x as int, y as int));
                    assert(is_alive == next_cell(b, e, l));
                }
                self.scratch.set(x, y, 0, is_alive);

                if alive != is_alive {
                    count = count + 1;
                }
                x = x + 1;
            }
            proof {
                assert(w + y * w == (y + 1) * w) by (nonlinear_arith);
            }
            y = y + 1;
        }
        proof {
            assert(h * w == w * h) by (nonlinear_arith);
        }
        core::mem::swap(&mut self.cells, &mut self.scratch);
        proof {
            assert(self.board() =~= Seq::new(b.len(), |i: int| next_cell(b, e, i)));
        }
        count
    }

    /// Writes a right-facing glider whose top left corner is `(x, y)`:
    ///
    /// ```text
    /// .O.
    /// ..O
    /// OOO
    /// ```
    pub fn write_right_glider(&mut self, x: Index, y: Index)
        requires
            old(self).well_formed(),
            old(self).extents().0 > 0 && old(self).extents().1 > 0,
            x + 2 <= i32::MAX,
            y + 2 <= i32::MAX,
        ensures
            final(self).well_formed(),
            final(self).extents() == old(self).extents(),
            final(self).board() == old(self).board().update(gi(old(self).extents(), x, y, 0, 0), false).update(gi(old(self).extents(), x, y, 1, 0), true).update(gi(old(self).extents(), x, y, 2, 0), false).update(gi(old(self).extents(), x, y, 0, 1), false).update(gi(old(self).extents(), x, y, 1, 1), false).update(gi(old(self).extents(), x, y, 2, 1), true).update(gi(old(self).extents(), x, y, 0, 2), true).update(gi(old(self).extents(), x, y, 1, 2), true).update(gi(old(self).extents(), x, y, 2, 2), true),
    {
        self.set(x + 0, y + 0, false);
        self.set(x + 1, y + 0, true);
        self.set(x + 2, y + 0, false);

        self.set(x + 0, y + 1, false);
        self.set(x + 1, y + 1, false);
        self.set(x + 2, y + 1, true);

        self.set(x + 0, y + 2, true);
        self.set(x + 1, y + 2, true);
        self.set(x + 2, y + 2, true);
    }

    /// Writes a left-facing glider whose top left corner is `(x, y)`:
    ///
    /// ```text
    /// .O.
    /// O..
    /// OOO
    /// ```
    pub fn write_left_glider(&mut self, x: Index, y: Index)
        requires
            old(self).well_formed(),
            old(self).extents().0 > 0 && old(self).extents().1 > 0,
            x + 2 <= i32::MAX,
            y + 2 <= i32::MAX,
        ensures
            final(self).well_formed(),
            final(self).extents() == old(self).extents(),
            final(self).board() == old(self).board().update(gi(old(self).extents(), x, y, 0, 0), false).update(gi(old(self).extents(), x, y, 1, 0), true).update(gi(old(self).extents(), x, y, 2, 0), false).update(gi(old(self).extents(), x, y, 0, 1), true).update(gi(old(self).extents(), x, y, 1, 1), false).update(gi(old(self).extents(), x, y, 2, 1), false).update(gi(old(self).extents(), x, y, 0, 2), true).update(gi(old(self).extents(), x, y, 1, 2), true).update(gi(old(self).extents(), x, y, 2, 2), true),
    {
        self.set(x + 0, y + 0, false);
        self.set(x + 1, y + 0, true);
        self.set(x + 2, y + 0, false);

        self.set(x + 0, y + 1, true);
        self.set(x + 1, y + 1, false);
        self.set(x + 2, y + 1, false);

        self.set(x + 0, y + 2, true);
        self.set(x + 1, y + 2, true);
        self.set(x + 2, y + 2, true);
    }

    /// Makes each cell alive or dead by the next bit of `random`: cell `i` in
    /// row-major order takes bit `i % 32` of `random[i / 32]`.
    pub fn clear_random(&mut self, random: &[u32])
        requires
            old(self).well_formed(),
            old(self).board().len() <= 32 * random@.len(),
        ensures
            final(self).well_formed(),
            final(self).extents() == old(self).extents(),
            final(self).board() == Seq::new(old(self).board().len(), |i: int| word_bit(random@, i)),
    {
        proof {
            self.cells.lemma_valid();
        }
        let ghost e = self.extents();
        let w = self.cells.width();
        let h = self.cells.height();
        proof {
            assert(w * h * 1 == w * h);
        }
        let mut y: Index = 0;
        while y < h
            invariant
                self.well_formed(),
                self.extents() == e,
                e == (w as int, h as int, 1int),
                self.board().len() == w * h,
                w * h <= 32 * random@.len(),
                w * h + 8 <= usize::MAX,
                0 <= w && 0 <= y <= h,
                forall|i: int| 0 <= i < y * w ==> #[trigger] self.board()[i] == word_bit(random@, i),
            decreases h - y,
        {
            let mut x: Index = 0;
            while x < w
                invariant
                    self.well_formed(),
                    self.extents() == e,
                    e == (w as int, h as int, 1int),
                    self.board().len() == w * h,
                    w * h <= 32 * random@.len(),
                    w * h + 8 <= usize::MAX,
                    0 <= x <= w && 0 <= y < h,
                    forall|i: int| 0 <= i < x + y * w ==> #[trigger] self.board()[i] == word_bit(random@, i),
                decreases w - x,
            {
                proof {
                    assert(y * w + w <= h * w) by (nonlinear_arith)
                        requires
                            y < h,
                            w >= 0,
                    ;
                    assert(h * w == w * h) by (nonlinear_arith);
                    assert(0 <= y * w) by (nonlinear_arith)
                        requires
                            y >= 0,
                            w >= 0,
                    ;
                    lemma_wrap_small(x as int, w as int);
                    lemma_wrap_small(y as int, h as int);
                    lemma_wrap_small(0, 1);
                    assert(grid_index(e, x as int, y as int, 0) == x + y * w);
                }
                let i: usize = x as usize + y as usize * w as usize;
                let alive = read_word_bit(random, i);
                self.cells.set(x, y, 0, alive);
                x = x + 1;
            }
            proof {
                assert(w + y * w == (y + 1) * w) by (nonlinear_arith);
            }
            y = y + 1;
        }
        proof {
            assert(h * w == w * h) by (nonlinear_arith);
            assert(self.board() =~= Seq::new((w * h) as nat, |i: int| word_bit(random@, i)));
        }
    }

    /// Makes every cell dead.
    pub fn clear(&mut self)
        requires
            old(self).well_formed(),
        ensures
            final(self).well_formed(),
            final(self).extents() == old(self).extents(),
            final(self).board() == Seq::new(old(self).board().len(), |i: int| false),
    {
        self.cells.clear();
    }
}

} // verus!
