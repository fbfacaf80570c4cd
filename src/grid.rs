use vstd::arithmetic::div_mod::{
    lemma_fundamental_div_mod_converse, lemma_mod_multiples_vanish, lemma_small_mod,
};
use vstd::prelude::*;

use crate::vec3::IVec3;

verus! {

/// The integer type of a cell coordinate along one axis.
pub type Index = i32;

/// `c` wrapped into `0..e` (toroidal topology); `e` must be positive.
pub open spec fn wrap(c: int, e: int) -> int {
    c % e
}

/// The number of cells of a grid with the given extents.
pub open spec fn volume(w: int, h: int, d: int) -> int {
    w * h * d
}

/// The linear position of cell `(x, y, z)` of a grid `w` wide and `h` high:
/// `x + y * w + z * w * h`.
pub open spec fn linear(w: int, h: int, x: int, y: int, z: int) -> int {
    x + y * w + z * (w * h)
}

/// The linear position, in a grid of the given extents, of the cell that
/// `(x, y, z)` addresses once every axis is wrapped.
pub open spec fn grid_index(e: (int, int, int), x: int, y: int, z: int) -> int {
    cell_index(e.0, e.1, e.2, x, y, z)
}

/// The linear position of the cell that coordinate `(x, y, z)` addresses once
/// every axis is wrapped into its extent.
pub open spec fn cell_index(w: int, h: int, d: int, x: int, y: int, z: int) -> int {
    linear(w, h, wrap(x, w), wrap(y, h), wrap(z, d))
}

/// A cell in range has a linear position in range.
pub proof fn lemma_linear_bounds(w: int, h: int, d: int, x: int, y: int, z: int)
    requires
        0 <= x < w,
        0 <= y < h,
        0 <= z < d,
    ensures
        0 <= linear(w, h, x, y, z) < volume(w, h, d),
{
    assert(0 < w * h) by (nonlinear_arith)
        requires
            0 < w,
            0 < h,
    ;
    assert(0 <= y * w <= (h - 1) * w) by (nonlinear_arith)
        requires
            0 <= y < h,
            0 < w,
    ;
    assert(0 <= z * (w * h) <= (d - 1) * (w * h)) by (nonlinear_arith)
        requires
            0 <= z < d,
            0 < w * h,
    ;
    assert((d - 1) * (w * h) + (h - 1) * w + w == volume(w, h, d)) by (nonlinear_arith);
}

/// Wrapping lands in range.
pub proof fn lemma_cell_index_bounds(w: int, h: int, d: int, x: int, y: int, z: int)
    requires
        w > 0,
        h > 0,
        d > 0,
    ensures
        0 <= cell_index(w, h, d, x, y, z) < volume(w, h, d),
{
    lemma_linear_bounds(w, h, d, wrap(x, w), wrap(y, h), wrap(z, d));
}

/// Distinct cells in range have distinct linear positions.
pub proof fn lemma_linear_injective(w: int, h: int, a: int, b: int, c: int, x: int, y: int, z: int)
    requires
        0 <= a < w,
        0 <= b < h,
        0 <= c,
        0 <= x < w,
        0 <= y < h,
        0 <= z,
        linear(w, h, a, b, c) == linear(w, h, x, y, z),
    ensures
        a == x && b == y && c == z,
{
    let l = linear(w, h, x, y, z);
    assert(l == (y + z * h) * w + x) by (nonlinear_arith)
        requires
            l == linear(w, h, x, y, z),
    ;
    assert(l == (b + c * h) * w + a) by (nonlinear_arith)
        requires
            l == linear(w, h, a, b, c),
    ;
    lemma_fundamental_div_mod_converse(l, w, y + z * h, x);
    lemma_fundamental_div_mod_converse(l, w, b + c * h, a);
    lemma_fundamental_div_mod_converse(y + z * h, h, z, y);
    lemma_fundamental_div_mod_converse(b + c * h, h, c, b);
}

/// Wrapping forgets whole periods.
pub proof fn lemma_wrap_period(c: int, e: int, k: int)
    requires
        e > 0,
    ensures
        wrap(c + k * e, e) == wrap(c, e),
{
    lemma_mod_multiples_vanish(k, c, e);
    assert(c + k * e == e * k + c) by (nonlinear_arith);
}

/// A coordinate already in range is left alone by wrapping.
pub proof fn lemma_wrap_small(c: int, e: int)
    requires
        0 <= c < e,
    ensures
        wrap(c, e) == c,
{
    lemma_small_mod(c as nat, e as nat);
}

/// Running off the end of a row continues at the start of the next row, and
/// running off the last row continues at the start of the next layer.
pub proof fn lemma_linear_carry(w: int, h: int, y: int, z: int)
    ensures
        linear(w, h, w, y, z) == linear(w, h, 0, y + 1, z),
        linear(w, h, 0, h, z) == linear(w, h, 0, 0, z + 1),
        linear(w, h, 0, 0, z) == z * (w * h),
{
    assert(w + y * w == (y + 1) * w) by (nonlinear_arith);
    assert(h * w + z * (w * h) == (z + 1) * (w * h)) by (nonlinear_arith);
}

/// A fixed-size, three-axis grid of boolean cells addressed by signed
/// coordinates that wrap around every axis.
///
/// Backends present their cells in linear order (`x + y * width + z * width
/// * height`) through `contents`, whatever their storage.
pub trait Grid: Sized {
    /// The backend's own invariant.
    spec fn valid(&self) -> bool;

    /// Width, height and depth.
    spec fn extents(&self) -> (int, int, int);

    /// The cells in linear order.
    spec fn contents(&self) -> Seq<bool>;

    /// Whatever the backend stores beyond its cells (the spare bits of a
    /// last, partly used byte, say): unset in a new grid, and left alone by
    /// `set` and `flip`.
    spec fn padding(&self) -> Seq<bool>;

    /// What every valid grid guarantees of its extents and cells.
    proof fn lemma_valid(&self)
        requires
            self.valid(),
        ensures
            0 <= self.extents().0 <= i32::MAX,
            0 <= self.extents().1 <= i32::MAX,
            0 <= self.extents().2 <= i32::MAX,
            self.contents().len() == volume(self.extents().0, self.extents().1, self.extents().2),
            volume(self.extents().0, self.extents().1, self.extents().2) + 8 <= usize::MAX,
    ;

    /// A grid of the given extents with every cell unset.
    fn new(dims: IVec3) -> (r: Self)
        requires
            dims.x >= 0,
            dims.y >= 0,
            dims.z >= 0,
            dims.x * dims.y * dims.z + 8 <= usize::MAX,
        ensures
            r.valid(),
            r.extents() == (dims.x as int, dims.y as int, dims.z as int),
            r.contents() == Seq::new(volume(dims.x as int, dims.y as int, dims.z as int) as nat, |i: int| false),
            r.padding() == Seq::new(r.padding().len(), |i: int| false),
    ;

    fn width(&self) -> (r: Index)
        requires
            self.valid(),
        ensures
            r == self.extents().0,
    ;

    fn height(&self) -> (r: Index)
        requires
            self.valid(),
        ensures
            r == self.extents().1,
    ;

    fn depth(&self) -> (r: Index)
        requires
            self.valid(),
        ensures
            r == self.extents().2,
    ;

    fn dims(&self) -> (r: IVec3)
        requires
            self.valid(),
        ensures
            r.x == self.extents().0,
            r.y == self.extents().1,
            r.z == self.extents().2,
    {
        IVec3::new(self.width(), self.height(), self.depth())
    }

    /// The cell at `(x, y, z)`, each coordinate wrapped into its axis.
    fn get(&self, x: Index, y: Index, z: Index) -> (r: bool)
        requires
            self.valid(),
            self.extents().0 > 0 && self.extents().1 > 0 && self.extents().2 > 0,
        ensures
            r == self.contents()[grid_index(self.extents(), x as int, y as int, z as int)],
    ;

    /// Writes `elem` into the cell at `(x, y, z)` and returns what it held.
    fn set(&mut self, x: Index, y: Index, z: Index, elem: bool) -> (r: bool)
        requires
            old(self).valid(),
            old(self).extents().0 > 0 && old(self).extents().1 > 0 && old(self).extents().2 > 0,
        ensures
            final(self).valid(),
            final(self).extents() == old(self).extents(),
            r == old(self).contents()[grid_index(old(self).extents(), x as int, y as int, z as int)],
            final(self).contents() == old(self).contents().update(
                grid_index(old(self).extents(), x as int, y as int, z as int),
                elem,
            ),
            final(self).padding() == old(self).padding(),
    ;

    /// Toggles the cell at `(x, y, z)` and returns what it held.
    fn flip(&mut self, x: Index, y: Index, z: Index) -> (r: bool)
        requires
            old(self).valid(),
            old(self).extents().0 > 0 && old(self).extents().1 > 0 && old(self).extents().2 > 0,
        ensures
            final(self).valid(),
            final(self).extents() == old(self).extents(),
            r == old(self).contents()[grid_index(old(self).extents(), x as int, y as int, z as int)],
            final(self).contents() == old(self).contents().update(
                grid_index(old(self).extents(), x as int, y as int, z as int),
                !r,
            ),
            final(self).padding() == old(self).padding(),
    {
        let prior = self.get(x, y, z);
        self.set(x, y, z, !prior);
        prior
    }

    /// Unsets every cell.
    fn clear(&mut self)
        requires
            old(self).valid(),
        ensures
            final(self).valid(),
            final(self).extents() == old(self).extents(),
            final(self).contents() == Seq::new(old(self).contents().len(), |i: int| false),
    {
        self.fill(false);
    }

    /// Writes `set` into every cell, one at a time in linear order.
    fn fill(&mut self, set: bool)
        requires
            old(self).valid(),
        ensures
            final(self).valid(),
            final(self).extents() == old(self).extents(),
            final(self).contents() == Seq::new(old(self).contents().len(), |i: int| set),
    {
        proof {
            self.lemma_valid();
        }
        let ghost e = self.extents();
        let ghost n = self.contents().len();
        let w = self.width();
        let h = self.height();
        let d = self.depth();
        let mut z: Index = 0;
        while z < d
            invariant
                self.valid(),
                self.extents() == e,
                self.contents().len() == n,
                e == (w as int, h as int, d as int),
                0 <= w && 0 <= h && 0 <= d,
                n == volume(w as int, h as int, d as int),
                0 <= z <= d,
                forall|t: int| 0 <= t < linear(w as int, h as int, 0, 0, z as int) ==> #[trigger] self.contents()[t] == set,
            decreases d - z,
        {
            let mut y: Index = 0;
            while y < h
                invariant
                    self.valid(),
                    self.extents() == e,
                    self.contents().len() == n,
                    e == (w as int, h as int, d as int),
                    0 <= w && 0 <= h && 0 <= d,
                    n == volume(w as int, h as int, d as int),
                    0 <= z < d,
                    0 <= y <= h,
                    forall|t: int| 0 <= t < linear(w as int, h as int, 0, y as int, z as int) ==> #[trigger] self.contents()[t] == set,
                decreases h - y,
            {
                let mut x: Index = 0;
                while x < w
                    invariant
                        self.valid(),
                        self.extents() == e,
                        self.contents().len() == n,
                        e == (w as int, h as int, d as int),
                        0 <= w && 0 <= h && 0 <= d,
                        n == volume(w as int, h as int, d as int),
                        0 <= z < d,
                        0 <= y < h,
                        0 <= x <= w,
                        forall|t: int| 0 <= t < linear(w as int, h as int, x as int, y as int, z as int) ==> #[trigger] self.contents()[t] == set,
                    decreases w - x,
                {
                    proof {
                        lemma_wrap_small(x as int, w as int);
                        lemma_wrap_small(y as int, h as int);
                        lemma_wrap_small(z as int, d as int);
                        lemma_linear_bounds(w as int, h as int, d as int, x as int, y as int, z as int);
                    }
                    self.set(x, y, z, set);
                    x = x + 1;
                }
                proof {
                    lemma_linear_carry(w as int, h as int, y as int, z as int);
                }
                y = y + 1;
            }
            proof {
                lemma_linear_carry(w as int, h as int, 0, z as int);
            }
            z = z + 1;
        }
        proof {
            lemma_linear_carry(w as int, h as int, 0, d as int);
            assert(d as int * (w as int * h as int) == volume(w as int, h as int, d as int)) by (nonlinear_arith);
            assert(self.contents() =~= Seq::new(n, |i: int| set));
        }
    }
}

/// Bit `i % 32` of word `i / 32`: the `i`-th of the bits that a sequence of
/// random words supplies, least significant bit first.
pub open spec fn word_bit(words: Seq<u32>, i: int) -> bool {
    (words[i / 32] >> ((i % 32) as u32)) & 1u32 == 1u32
}

/// Reads bit `i` of `words` as `word_bit` numbers them.
pub fn read_word_bit(words: &[u32], i: usize) -> (r: bool)
    requires
        i < 32 * words@.len(),
    ensures
        r == word_bit(words@, i as int),
{
    (words[i / 32] >> ((i % 32) as u32)) & 1u32 == 1u32
}

} // verus!
