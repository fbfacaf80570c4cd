use vstd::prelude::*;

use crate::bitgrid::{bit_of, lemma_mask_reads_bit, BitGrid};
use crate::grid::{grid_index, lemma_wrap_small, read_word_bit, word_bit, Grid, Index};
use crate::vec3::IVec3;

verus! {

/// Whether an elementary rule makes a cell alive, given the states of its left
/// neighbour, itself and its right neighbour: bit `4 * l + 2 * c + r` of the
/// rule number.
pub open spec fn rule_says(rule: u8, l: bool, c: bool, r: bool) -> bool {
    bit_of(
        rule,
        ((if l { 4int } else { 0int }) + (if c { 2int } else { 0int }) + (if r { 1int } else { 0int })) as u8,
    )
}

/// The next state of cell `x` of a row of extents `e`, the ends wrapping round.
pub open spec fn next_state(rule: u8, row: Seq<bool>, e: (int, int, int), x: int) -> bool {
    rule_says(
        rule,
        row[grid_index(e, x - 1, 0, 0)],
        row[grid_index(e, x, 0, 0)],
        row[grid_index(e, x + 1, 0, 0)],
    )
}

/// The number of cells among the first `k` that change in the next generation.
pub open spec fn changes_before(rule: u8, row: Seq<bool>, e: (int, int, int), k: int) -> int
    decreases k,
{
    if k <= 0 {
        0
    } else {
        changes_before(rule, row, e, k - 1) + if next_state(rule, row, e, k - 1) != row[k - 1] {
            1int
        } else {
            0int
        }
    }
}

proof fn lemma_changes_bound(rule: u8, row: Seq<bool>, e: (int, int, int), k: int)
    ensures
        0 <= changes_before(rule, row, e, k) <= if k > 0 { k } else { 0 },
    decreases k,
{
    if k > 0 {
        lemma_changes_bound(rule, row, e, k - 1);
    }
}

/// The rule's answer for one neighbourhood, read from the rule number.
fn apply_rule(rule: u8, l: bool, c: bool, r: bool) -> (alive: bool)
    ensures
        alive == rule_says(rule, l, c, r),
{
    let lb: u8 = if l {
        1
    } else {
        0
    };
    let cb: u8 = if c {
        1
    } else {
        0
    };
    let rb: u8 = if r {
        1
    } else {
        0
    };
    let pattern: u8 = (lb << 2) | (cb << 1) | (rb << 0);
    proof {
        assert(lb <= 1 && cb <= 1 && rb <= 1 ==> (lb << 2) | (cb << 1) | (rb << 0) == 4 * lb + 2 * cb + rb
            && 4 * lb + 2 * cb + rb < 8) by (bit_vector);
        lemma_mask_reads_bit(rule, pattern);
    }
    let mask: u8 = 1u8 << pattern;
    (rule & mask) != 0
}

/// Appends `c` to `s`.
///
/// Relies on `String::push`, which appends the character at the end.
#[verifier::external_body]
fn push_char(s: &mut String, c: char)
    ensures
        final(s)@ == old(s)@.push(c),
{
    s.push(c)
}

/// An elementary (one-dimensional, two-state) cellular automaton on a row
/// whose ends wrap around.
pub struct Elementry<G: Grid = BitGrid> {
    /// Current state of the simulation
    cells: G,
    /// Where the next generation is written before it becomes current
    scratch: G,
    rule: u8,
}

impl<G: Grid> Elementry<G> {
    pub closed spec fn spec_cells(&self) -> G {
        self.cells
    }

    pub closed spec fn spec_scratch(&self) -> G {
        self.scratch
    }

    pub closed spec fn spec_rule(&self) -> u8 {
        self.rule
    }

    pub open spec fn extents(&self) -> (int, int, int) {
        self.spec_cells().extents()
    }

    /// The cells, left to right.
    pub open spec fn row(&self) -> Seq<bool> {
        self.spec_cells().contents()
    }

    /// Both grids are valid, one cell high and deep, and of the same extents.
    pub open spec fn well_formed(&self) -> bool {
        &&& self.spec_cells().valid()
        &&& self.spec_scratch().valid()
        &&& self.spec_scratch().extents() == self.extents()
        &&& self.extents().1 == 1
        &&& self.extents().2 == 1
    }

    /// A row of `width` dead cells that evolves by `rule`.
    pub fn new(rule: u8, width: usize) -> (r: Self)
        requires
            width <= i32::MAX,
            width + 8 <= usize::MAX,
        ensures
            r.well_formed(),
            r.spec_rule() == rule,
            r.extents() == (width as int, 1int, 1int),
            r.row() == Seq::new(width as nat, |i: int| false),
    {
        let dims = IVec3::new(width as i32, 1, 1);
        Self::new_with_cells(rule, G::new(dims))
    }

    /// A row that starts from `cells`, which must be one cell high and deep.
    pub fn new_with_cells(rule: u8, cells: G) -> (r: Self)
        requires
            cells.valid(),
            cells.extents().1 == 1,
            cells.extents().2 == 1,
        ensures
            r.well_formed(),
            r.spec_rule() == rule,
            r.spec_cells() == cells,
    {
        proof {
            cells.lemma_valid();
        }
        let scratch = G::new(cells.dims());
        Elementry { cells, scratch, rule }
    }

    /// The number of cells in the row.
    pub fn width(&self) -> (r: Index)
        requires
            self.well_formed(),
        ensures
            r == self.extents().0,
    {
        self.cells.width()
    }

    /// The states of the cells, left to right.
    pub fn cells(&self) -> (r: Vec<bool>)
        requires
            self.well_formed(),
        ensures
            r@ == self.row(),
    {
        proof {
            self.cells.lemma_valid();
        }
        let w = self.width();
        let mut r: Vec<bool> = Vec::new();
        let mut x: Index = 0;
        while x < w
            invariant
                self.well_formed(),
                w == self.extents().0,
                self.row().len() == w,
                0 <= x <= w,
                r@ == self.row().take(x as int),
            decreases w - x,
        {
            proof {
                lemma_wrap_small(x as int, w as int);
                lemma_wrap_small(0, 1);
            }
            r.push(self.get(x));
            x = x + 1;
            proof {
                assert(r@ =~= self.row().take(x as int));
            }
        }
        proof {
            assert(r@ =~= self.row());
        }
        r
    }

    /// Whether cell `x` is alive; `x` wraps around.
    pub fn get(&self, x: Index) -> (r: bool)
        requires
            self.well_formed(),
            self.extents().0 > 0,
        ensures
            r == self.row()[grid_index(self.extents(), x as int, 0, 0)],
    {
        self.cells.get(x, 0, 0)
    }

    /// Makes cell `x` alive or dead; `x` wraps around.
    pub fn set(&mut self, x: Index, is_alive: bool)
        requires
            old(self).well_formed(),
            old(self).extents().0 > 0,
        ensures
            final(self).well_formed(),
            final(self).extents() == old(self).extents(),
            final(self).spec_rule() == old(self).spec_rule(),
            final(self).row() == old(self).row().update(grid_index(old(self).extents(), x as int, 0, 0), is_alive),
    {
        self.cells.set(x, 0, 0, is_alive);
    }

    /// Advances one generation and returns how many cells changed.
    pub fn step(&mut self) -> (r: u32)
        requires
            old(self).well_formed(),
            old(self).extents().0 <= u32::MAX,
        ensures
            final(self).well_formed(),
            final(self).extents() == old(self).extents(),
            final(self).spec_rule() == old(self).spec_rule(),
            final(self).row() == Seq::new(
                old(self).row().len(),
                |x: int| next_state(old(self).spec_rule(), old(self).row(), old(self).extents(), x),
            ),
            r == changes_before(old(self).spec_rule(), old(self).row(), old(self).extents(), old(self).row().len() as int),
    {
        proof {
            self.cells.lemma_valid();
            self.scratch.lemma_valid();
        }
        let ghost row = self.row();
        let ghost e = self.extents();
        let w = self.width();
        let mut count: u32 = 0;
        let mut x: Index = 0;
        while x < w
            invariant
                self.well_formed(),
                self.row() == row,
                self.rule == old(self).rule,
                self.extents() == e,
                e == (w as int, 1int, 1int),
                row.len() == w,
                0 <= x <= w,
                self.spec_scratch().contents().len() == w,
                forall|i: int| 0 <= i < x ==> #[trigger] self.spec_scratch().contents()[i] == next_state(self.rule, row, e, i),
                count == changes_before(self.rule, row, e, x as int),
            decreases w - x,
        {
            proof {
                lemma_wrap_small(x as int, w as int);
                lemma_wrap_small(0, 1);
                lemma_changes_bound(self.rule, row, e, x as int);
            }
            let old_state = self.get(x);
            let is_alive = apply_rule(self.rule, self.get(x - 1), self.get(x + 0), self.get(x + 1));
            self.scratch.set(x, 0, 0, is_alive);
            if old_state != is_alive {
                count = count + 1;
            }
            x = x + 1;
        }
        core::mem::swap(&mut self.cells, &mut self.scratch);
        proof {
            assert(self.row() =~= Seq::new(row.len(), |x: int| next_state(self.rule, row, e, x)));
        }
        count
    }

    /// Makes every cell dead.
    pub fn clear(&mut self)
        requires
            old(self).well_formed(),
        ensures
            final(self).well_formed(),
            final(self).extents() == old(self).extents(),
            final(self).spec_rule() == old(self).spec_rule(),
            final(self).row() == Seq::new(old(self).row().len(), |i: int| false),
    {
        self.cells.fill(false);
    }

    /// Makes every cell alive.
    pub fn clear_alive(&mut self)
        requires
            old(self).well_formed(),
        ensures
            final(self).well_formed(),
            final(self).extents() == old(self).extents(),
            final(self).spec_rule() == old(self).spec_rule(),
            final(self).row() == Seq::new(old(self).row().len(), |i: int| true),
    {
        self.cells.fill(true);
    }

    /// Makes each cell alive or dead by the next bit of `random`: cell `x`
    /// takes bit `x % 32` of `random[x / 32]`.
    pub fn clear_random(&mut self, random: &[u32])
        requires
            old(self).well_formed(),
            old(self).row().len() <= 32 * random@.len(),
        ensures
            final(self).well_formed(),
            final(self).extents() == old(self).extents(),
            final(self).spec_rule() == old(self).spec_rule(),
            final(self).row() == Seq::new(old(self).row().len(), |i: int| word_bit(random@, i)),
    {
        proof {
            self.cells.lemma_valid();
        }
        let ghost e = self.extents();
        let w = self.cells.width();
        let mut x: Index = 0;
        while x < w
            invariant
                self.well_formed(),
                self.extents() == e,
                self.rule == old(self).rule,
                e == (w as int, 1int, 1int),
                self.row().len() == w,
                w <= 32 * random@.len(),
                0 <= x <= w,
                forall|i: int| 0 <= i < x ==> #[trigger] self.row()[i] == word_bit(random@, i),
            decreases w - x,
        {
            proof {
                lemma_wrap_small(x as int, w as int);
                lemma_wrap_small(0, 1);
            }
            let alive = read_word_bit(random, x as usize);
            self.cells.set(x, 0, 0, alive);
            x = x + 1;
        }
        proof {
            assert(self.row() =~= Seq::new(w as nat, |i: int| word_bit(random@, i)));
        }
    }

    /// The row as text: `O` for a live cell and `.` for a dead one.
    pub fn to_ascii(&self) -> (r: String)
        requires
            self.well_formed(),
        ensures
            r@ == Seq::new(self.row().len(), |i: int| if self.row()[i] { 'O' } else { '.' }),
    {
        let cells = self.cells();
        let mut r = String::new();
        let mut i: usize = 0;
        while i < cells.len()
            invariant
                cells@ == self.row(),
                i <= cells@.len(),
                r@ == Seq::new(i as nat, |t: int| if cells@[t] { 'O' } else { '.' }),
            decreases cells@.len() - i,
        {
            push_char(&mut r, if cells[i] { 'O' } else { '.' });
            i = i + 1;
            proof {
                assert(r@ =~= Seq::new(i as nat, |t: int| if cells@[t] { 'O' } else { '.' }));
            }
        }
        r
    }
}

} // verus!
