use vstd::prelude::*;

use crate::grid::{
    cell_index, lemma_cell_index_bounds, lemma_linear_bounds, lemma_linear_carry, lemma_linear_injective,
    lemma_wrap_period, lemma_wrap_small, linear, volume, wrap, Grid, Index,
};
use crate::vec3::IVec3;

verus! {

/// Whether bit `k` (counted from the least significant one) of `b` is set.
pub open spec fn bit_of(b: u8, k: u8) -> bool {
    (b >> k) & 1u8 == 1u8
}

/// The bits of a byte buffer, eight per byte, least significant bit first.
pub open spec fn bits_of(buf: Seq<u8>) -> Seq<bool> {
    Seq::new((8 * buf.len()) as nat, |i: int| bit_of(buf[i / 8], (i % 8) as u8))
}

/// The number of set bits among the lowest `k` bits of `b`.
pub open spec fn ones_below(b: u8, k: nat) -> nat
    decreases k,
{
    if k == 0 {
        0
    } else {
        ones_below(b, (k - 1) as nat) + if bit_of(b, (k - 1) as u8) {
            1nat
        } else {
            0nat
        }
    }
}

/// The population count of a byte.
pub open spec fn ones(b: u8) -> nat {
    ones_below(b, 8)
}

/// The sum of the population counts of the bytes of `s`.
pub open spec fn sum_ones(s: Seq<u8>) -> nat
    decreases s.len(),
{
    if s.len() == 0 {
        0
    } else {
        sum_ones(s.drop_last()) + ones(s.last())
    }
}

/// The sum of the numbers of clear bits of the bytes of `s`.
pub open spec fn sum_zeros(s: Seq<u8>) -> nat
    decreases s.len(),
{
    if s.len() == 0 {
        0
    } else {
        sum_zeros(s.drop_last()) + (8 - ones(s.last())) as nat
    }
}

/// The number of bytes that hold `n` bits.
pub open spec fn bytes_for(n: int) -> int {
    (n + 7) / 8
}

pub proof fn lemma_ones_below_bound(b: u8, k: nat)
    ensures
        ones_below(b, k) <= k,
    decreases k,
{
    if k > 0 {
        lemma_ones_below_bound(b, (k - 1) as nat);
    }
}

/// Testing a byte against the mask of bit `k` reads that bit.
pub(crate) proof fn lemma_mask_reads_bit(b: u8, k: u8)
    requires
        k < 8,
    ensures
        (b & (1u8 << k) != 0u8) == bit_of(b, k),
{
    assert((b & (1u8 << k) != 0u8) == ((b >> k) & 1u8 == 1u8)) by (bit_vector)
        requires
            k < 8,
    ;
}

/// Writing `v` into bit `k` of `b` by masking leaves the other bits alone.
proof fn lemma_write_bit(b: u8, k: u8, vb: u8)
    requires
        k < 8,
        vb <= 1,
    ensures
        forall|j: u8|
            j < 8 ==> #[trigger] bit_of((b & !(1u8 << k)) | (vb << k), j) == if j == k {
                vb == 1u8
            } else {
                bit_of(b, j)
            },
{
    let nb = (b & !(1u8 << k)) | (vb << k);
    assert forall|j: u8| j < 8 implies #[trigger] bit_of(nb, j) == if j == k {
        vb == 1u8
    } else {
        bit_of(b, j)
    } by {
        assert(j == k ==> ((((b & !(1u8 << k)) | (vb << k)) >> j) & 1u8 == 1u8) == (vb == 1u8)) by (bit_vector)
            requires
                k < 8,
                j < 8,
                vb <= 1,
        ;
        assert(j != k ==> ((((b & !(1u8 << k)) | (vb << k)) >> j) & 1u8 == 1u8) == ((b >> j) & 1u8 == 1u8)) by (bit_vector)
            requires
                k < 8,
                j < 8,
                vb <= 1,
        ;
    }
}

/// Toggling bit `k` of `b` leaves the other bits alone.
proof fn lemma_toggle_bit(b: u8, k: u8)
    requires
        k < 8,
    ensures
        forall|j: u8|
            j < 8 ==> #[trigger] bit_of(b ^ (1u8 << k), j) == if j == k {
                !bit_of(b, k)
            } else {
                bit_of(b, j)
            },
{
    assert forall|j: u8| j < 8 implies #[trigger] bit_of(b ^ (1u8 << k), j) == if j == k {
        !bit_of(b, k)
    } else {
        bit_of(b, j)
    } by {
        assert(j == k ==> (((b ^ (1u8 << k)) >> j) & 1u8 == 1u8) == !((b >> k) & 1u8 == 1u8)) by (bit_vector)
            requires
                k < 8,
                j < 8,
        ;
        assert(j != k ==> (((b ^ (1u8 << k)) >> j) & 1u8 == 1u8) == ((b >> j) & 1u8 == 1u8)) by (bit_vector)
            requires
                k < 8,
                j < 8,
        ;
    }
}

/// Replacing the byte that holds bit `i` by one that differs from it in that
/// bit alone updates the bit sequence at `i` alone.
proof fn lemma_bits_update(buf: Seq<u8>, i: int, nb: u8, v: bool)
    requires
        0 <= i < 8 * buf.len(),
        forall|j: u8|
            j < 8 ==> #[trigger] bit_of(nb, j) == if j == (i % 8) as u8 {
                v
            } else {
                bit_of(buf[i / 8], j)
            },
    ensures
        bits_of(buf.update(i / 8, nb)) == bits_of(buf).update(i, v),
{
    let nbuf = buf.update(i / 8, nb);
    assert forall|t: int| 0 <= t < 8 * buf.len() implies #[trigger] bits_of(nbuf)[t] == bits_of(buf).update(i, v)[t] by {
        let k = (t % 8) as u8;
        if t / 8 == i / 8 {
            assert(bit_of(nb, k) == if k == (i % 8) as u8 { v } else { bit_of(buf[i / 8], k) });
            assert((t == i) == (t % 8 == i % 8));
        } else {
            assert(t != i);
        }
    }
    assert(bits_of(nbuf) =~= bits_of(buf).update(i, v));
}

/// A buffer of zero bytes has no set bit.
proof fn lemma_sum_ones_zero(s: Seq<u8>)
    requires
        forall|i: int| 0 <= i < s.len() ==> s[i] == 0u8,
    ensures
        sum_ones(s) == 0,
        sum_zeros(s) == 8 * s.len(),
    decreases s.len(),
{
    if s.len() > 0 {
        lemma_sum_ones_zero(s.drop_last());
        lemma_zero_ones_below(8);
    }
}

proof fn lemma_zero_ones_below(k: nat)
    requires
        k <= 8,
    ensures
        ones_below(0u8, k) == 0,
    decreases k,
{
    if k > 0 {
        lemma_zero_ones_below((k - 1) as nat);
        let j = (k - 1) as u8;
        assert(j < 8 ==> (0u8 >> j) & 1u8 != 1u8) by (bit_vector);
    }
}

/// Every bit of the buffer is either set or clear.
pub proof fn lemma_sum_ones_zeros(s: Seq<u8>)
    ensures
        sum_ones(s) + sum_zeros(s) == 8 * s.len(),
    decreases s.len(),
{
    if s.len() > 0 {
        lemma_sum_ones_zeros(s.drop_last());
        lemma_ones_below_bound(s.last(), 8);
    }
}

/// A byte is zero exactly when none of its bits is set.
proof fn lemma_zero_byte(b: u8)
    ensures
        (b == 0u8) == (forall|k: u8| k < 8 ==> !#[trigger] bit_of(b, k)),
{
    if b != 0u8 {
        assert(b != 0u8 ==> bit_of(b, 0u8) || bit_of(b, 1u8) || bit_of(b, 2u8) || bit_of(b, 3u8)
            || bit_of(b, 4u8) || bit_of(b, 5u8) || bit_of(b, 6u8) || bit_of(b, 7u8)) by (bit_vector);
    } else {
        assert forall|k: u8| k < 8 implies !#[trigger] bit_of(b, k) by {
            assert(b == 0u8 && k < 8 ==> (b >> k) & 1u8 != 1u8) by (bit_vector);
        }
    }
}

/// The population count of a byte, computed bit by bit.
fn byte_ones(b: u8) -> (r: u8)
    ensures
        r == ones(b),
{
    let mut count: u8 = 0;
    let mut k: u8 = 0;
    while k < 8
        invariant
            k <= 8,
            count == ones_below(b, k as nat),
            count <= k,
        decreases 8 - k,
    {
        proof {
            lemma_ones_below_bound(b, (k + 1) as nat);
        }
        if (b >> k) & 1u8 == 1u8 {
            count = count + 1;
        }
        k = k + 1;
    }
    count
}

/// Each bit of `a ^ b` tells whether `a` and `b` differ there.
proof fn lemma_xor_bits(a: u8, b: u8)
    ensures
        forall|k: u8| k < 8 ==> #[trigger] bit_of(a ^ b, k) == (bit_of(a, k) != bit_of(b, k)),
{
    assert forall|k: u8| k < 8 implies #[trigger] bit_of(a ^ b, k) == (bit_of(a, k) != bit_of(b, k)) by {
        assert(k < 8 ==> (((a ^ b) >> k) & 1u8 == 1u8) == (((a >> k) & 1u8 == 1u8) != ((b >> k) & 1u8 == 1u8)))
            by (bit_vector);
    }
}

/// A byte of all ones or all zeros has every bit equal to `v`.
proof fn lemma_uniform_byte(b: u8, v: bool)
    requires
        b == if v { 0xffu8 } else { 0u8 },
    ensures
        forall|k: u8| k < 8 ==> #[trigger] bit_of(b, k) == v,
{
    assert forall|k: u8| k < 8 implies #[trigger] bit_of(b, k) == v by {
        assert(k < 8 ==> (0xffu8 >> k) & 1u8 == 1u8) by (bit_vector);
        assert(k < 8 ==> (0u8 >> k) & 1u8 != 1u8) by (bit_vector);
    }
}

/// Two bytes that agree in every bit are equal.
proof fn lemma_bits_determine_byte(a: u8, b: u8)
    requires
        forall|k: u8| k < 8 ==> #[trigger] bit_of(a, k) == bit_of(b, k),
    ensures
        a == b,
{
    assert(bit_of(a, 0u8) == bit_of(b, 0u8));
    assert(bit_of(a, 1u8) == bit_of(b, 1u8));
    assert(bit_of(a, 2u8) == bit_of(b, 2u8));
    assert(bit_of(a, 3u8) == bit_of(b, 3u8));
    assert(bit_of(a, 4u8) == bit_of(b, 4u8));
    assert(bit_of(a, 5u8) == bit_of(b, 5u8));
    assert(bit_of(a, 6u8) == bit_of(b, 6u8));
    assert(bit_of(a, 7u8) == bit_of(b, 7u8));
    assert((((a >> 0u8) & 1u8 == 1u8) == ((b >> 0u8) & 1u8 == 1u8)) && (((a >> 1u8) & 1u8 == 1u8) == ((b
        >> 1u8) & 1u8 == 1u8)) && (((a >> 2u8) & 1u8 == 1u8) == ((b >> 2u8) & 1u8 == 1u8)) && (((a >> 3u8)
        & 1u8 == 1u8) == ((b >> 3u8) & 1u8 == 1u8)) && (((a >> 4u8) & 1u8 == 1u8) == ((b >> 4u8) & 1u8
        == 1u8)) && (((a >> 5u8) & 1u8 == 1u8) == ((b >> 5u8) & 1u8 == 1u8)) && (((a >> 6u8) & 1u8
        == 1u8) == ((b >> 6u8) & 1u8 == 1u8)) && (((a >> 7u8) & 1u8 == 1u8) == ((b >> 7u8) & 1u8 == 1u8))
        ==> a == b) by (bit_vector);
}

/// Two buffers with the same bits are the same buffer.
pub proof fn lemma_bits_determine_bytes(a: Seq<u8>, b: Seq<u8>)
    requires
        a.len() == b.len(),
        bits_of(a) == bits_of(b),
    ensures
        a == b,
{
    assert forall|i: int| 0 <= i < a.len() implies a[i] == b[i] by {
        assert forall|k: u8| k < 8 implies #[trigger] bit_of(a[i], k) == bit_of(b[i], k) by {
            let t = 8 * i + k as int;
            assert(t / 8 == i && t % 8 == k as int);
            assert(0 <= t < 8 * a.len());
            assert(bits_of(a)[t] == bit_of(a[t / 8], (t % 8) as u8));
            assert(bits_of(b)[t] == bit_of(b[t / 8], (t % 8) as u8));
            assert(bits_of(a)[t] == bits_of(b)[t]);
        }
        lemma_bits_determine_byte(a[i], b[i]);
    }
    assert(a =~= b);
}

/// A dense grid of boolean cells, eight cells to a byte.
///
/// Coordinates wrap around every axis: the grid is a torus.
#[derive(Clone, Debug, PartialEq, Eq)]
pub struct BitGrid {
    buf: Vec<u8>,
    width: Index,
    height: Index,
    depth: Index,
}

impl BitGrid {
    pub closed spec fn spec_width(&self) -> int {
        self.width as int
    }

    pub closed spec fn spec_height(&self) -> int {
        self.height as int
    }

    pub closed spec fn spec_depth(&self) -> int {
        self.depth as int
    }

    /// The packed buffer.
    pub closed spec fn bytes(&self) -> Seq<u8> {
        self.buf@
    }

    /// Every bit of the buffer, the padding after the last cell included.
    pub open spec fn bits(&self) -> Seq<bool> {
        bits_of(self.bytes())
    }

    /// The number of cells.
    pub open spec fn num_cells(&self) -> int {
        volume(self.spec_width(), self.spec_height(), self.spec_depth())
    }

    /// The cells in linear order: `x + y * width + z * width * height`.
    pub open spec fn cells(&self) -> Seq<bool> {
        self.bits().take(self.num_cells())
    }

    /// The linear position of the cell that `(x, y, z)` addresses after wrapping.
    pub open spec fn index_of(&self, x: int, y: int, z: int) -> int {
        cell_index(self.spec_width(), self.spec_height(), self.spec_depth(), x, y, z)
    }

    /// The cell that `(x, y, z)` addresses after wrapping.
    pub open spec fn cell(&self, x: int, y: int, z: int) -> bool {
        self.cells()[self.index_of(x, y, z)]
    }

    /// Extents are non-negative and the buffer holds exactly the bytes that the
    /// cells need.
    pub open spec fn well_formed(&self) -> bool {
        &&& 0 <= self.spec_width() <= i32::MAX
        &&& 0 <= self.spec_height() <= i32::MAX
        &&& 0 <= self.spec_depth() <= i32::MAX
        &&& self.num_cells() + 8 <= usize::MAX
        &&& self.bytes().len() == bytes_for(self.num_cells())
    }

    /// Every axis has at least one cell, so coordinates can be wrapped.
    pub open spec fn addressable(&self) -> bool {
        self.spec_width() > 0 && self.spec_height() > 0 && self.spec_depth() > 0
    }

    pub proof fn lemma_cells_len(&self)
        requires
            self.well_formed(),
        ensures
            self.cells().len() == self.num_cells(),
            self.num_cells() <= self.bits().len(),
            0 <= self.num_cells(),
    {
        let n = self.num_cells();
        assert(0 <= n) by (nonlinear_arith)
            requires
                self.width >= 0,
                self.height >= 0,
                self.depth >= 0,
                n == volume(self.spec_width(), self.spec_height(), self.spec_depth()),
        ;
    }

    /// In a one-cell-deep grid, a cell in range is the one that `(c, y, 0)`
    /// addresses exactly when `c` and `y` wrap onto it.
    pub proof fn lemma_flat_index(&self, x: int, yy: int, c: int, y: int)
        requires
            self.addressable(),
            self.spec_depth() == 1,
            0 <= x < self.spec_width(),
            0 <= yy < self.spec_height(),
        ensures
            (self.index_of(x, yy, 0) == self.index_of(c, y, 0)) == (x == c % self.spec_width() && yy == y
                % self.spec_height()),
            0 <= self.index_of(x, yy, 0) < self.num_cells(),
            0 <= self.index_of(c, y, 0) < self.num_cells(),
    {
        let w = self.spec_width();
        let h = self.spec_height();
        lemma_wrap_small(x, w);
        lemma_wrap_small(yy, h);
        lemma_wrap_small(0, 1);
        lemma_cell_index_bounds(w, h, 1, c, y, 0);
        lemma_cell_index_bounds(w, h, 1, x, yy, 0);
        if self.index_of(x, yy, 0) == self.index_of(c, y, 0) {
            lemma_linear_injective(w, h, x, yy, 0, wrap(c, w), wrap(y, h), 0);
        }
    }

    /// Updating one cell leaves the bits past the last cell alone.
    pub proof fn lemma_update_keeps_padding(&self, after: BitGrid, x: int, y: int, z: int, v: bool)
        requires
            self.well_formed(),
            self.addressable(),
            after.spec_width() == self.spec_width(),
            after.spec_height() == self.spec_height(),
            after.spec_depth() == self.spec_depth(),
            after.bits() == self.bits().update(self.index_of(x, y, z), v),
        ensures
            after.bits().skip(after.num_cells()) == self.bits().skip(self.num_cells()),
            forall|i: int| self.num_cells() <= i < self.bits().len() ==> after.bits()[i] == self.bits()[i],
    {
        self.lemma_cells_len();
        lemma_cell_index_bounds(self.spec_width(), self.spec_height(), self.spec_depth(), x, y, z);
        assert(after.bits().skip(after.num_cells()) =~= self.bits().skip(self.num_cells()));
    }

    /// Allocates a grid of `width * height * depth` cells, all unset.
    pub fn new(width: usize, height: usize, depth: usize) -> (r: BitGrid)
        requires
            width <= i32::MAX,
            height <= i32::MAX,
            depth <= i32::MAX,
            width * height * depth + 8 <= usize::MAX,
        ensures
            r.well_formed(),
            r.spec_width() == width,
            r.spec_height() == height,
            r.spec_depth() == depth,
            r.bytes() == Seq::new(bytes_for(width * height * depth) as nat, |i: int| 0u8),
            r.cells() == Seq::new(volume(width as int, height as int, depth as int) as nat, |i: int| false),
            r.bits() == Seq::new(r.bits().len(), |i: int| false),
            sum_ones(r.bytes()) == 0,
            sum_zeros(r.bytes()) == 8 * r.bytes().len(),
    {
        proof {
            assert(width > 0 && height > 0 && depth > 0 ==> width * height <= width * height * depth)
                by (nonlinear_arith);
            assert(width * height * depth >= 0) by (nonlinear_arith);
            assert(width == 0 || height == 0 || depth == 0 ==> width * height * depth == 0) by (nonlinear_arith);
        }
        let cells: usize = if width == 0 || height == 0 || depth == 0 {
            0
        } else {
            width * height * depth
        };
        let buf: Vec<u8> = vec![0u8; (cells + 7) / 8];
        let r = BitGrid { buf, width: width as Index, height: height as Index, depth: depth as Index };
        proof {
            assert(volume(width as int, height as int, depth as int) == width * height * depth);
            assert(r.bytes() =~= Seq::new(bytes_for(width * height * depth) as nat, |i: int| 0u8));
            r.lemma_cells_len();
            assert forall|i: int| 0 <= i < r.bits().len() implies r.bits()[i] == false by {
                assert(r.bits()[i] == bit_of(r.buf@[i / 8], (i % 8) as u8));
                assert(r.buf@[i / 8] == 0u8);
                let k = (i % 8) as u8;
                assert(!bit_of(0u8, k)) by (bit_vector)
                    requires
                        k < 8,
                ;
            }
            assert(r.bits() =~= Seq::new(r.bits().len(), |i: int| false));
            lemma_sum_ones_zero(r.bytes());
            assert(r.cells() =~= Seq::new(volume(width as int, height as int, depth as int) as nat, |i: int| false));
        }
        r
    }

    pub fn width(&self) -> (r: Index)
        ensures
            r == self.spec_width(),
    {
        self.width
    }

    pub fn height(&self) -> (r: Index)
        ensures
            r == self.spec_height(),
    {
        self.height
    }

    pub fn depth(&self) -> (r: Index)
        ensures
            r == self.spec_depth(),
    {
        self.depth
    }

    pub fn dims(&self) -> (r: IVec3)
        ensures
            r.x == self.spec_width(),
            r.y == self.spec_height(),
            r.z == self.spec_depth(),
    {
        IVec3 { x: self.width, y: self.height, z: self.depth }
    }

    /// The byte and the bit within it that hold the cell `(x, y, z)`, each
    /// coordinate wrapped into its axis first.
    pub fn idx(&self, x: Index, y: Index, z: Index) -> (r: (usize, u8))
        requires
            self.well_formed(),
            self.addressable(),
        ensures
            r.0 == self.index_of(x as int, y as int, z as int) / 8,
            r.1 == self.index_of(x as int, y as int, z as int) % 8,
            r.0 < self.bytes().len(),
    {
        let xw: Index = match x.checked_rem_euclid(self.width) {
            Some(v) => v,
            None => 0,
        };
        let yw: Index = match y.checked_rem_euclid(self.height) {
            Some(v) => v,
            None => 0,
        };
        let zw: Index = match z.checked_rem_euclid(self.depth) {
            Some(v) => v,
            None => 0,
        };
        let w = self.width as usize;
        let h = self.height as usize;
        let d = self.depth as usize;
        proof {
            lemma_linear_bounds(w as int, h as int, d as int, xw as int, yw as int, zw as int);
            assert(0 <= (yw as int) * (w as int) <= linear(w as int, h as int, xw as int, yw as int, zw as int)) by (nonlinear_arith)
                requires xw >= 0, yw >= 0, zw >= 0, w > 0, h > 0;
            assert(0 <= (w as int) * (h as int) <= (zw as int + 1) * ((w as int) * (h as int))) by (nonlinear_arith)
                requires zw >= 0, w > 0, h > 0;
            assert(0 <= (zw as int) * ((w as int) * (h as int)) <= linear(w as int, h as int, xw as int, yw as int, zw as int)) by (nonlinear_arith)
                requires xw >= 0, yw >= 0, zw >= 0, w > 0, h > 0;
            assert((w as int) * (h as int) <= volume(w as int, h as int, d as int)) by (nonlinear_arith)
                requires d > 0, w > 0, h > 0;
        }
        let i: usize = xw as usize + yw as usize * w + zw as usize * (w * h);
        proof {
            assert(i == self.index_of(x as int, y as int, z as int));
        }
        (i / 8, (i % 8) as u8)
    }

    /// Reads the cell at `(x, y, z)`, each coordinate wrapped into its axis.
    pub fn get(&self, x: Index, y: Index, z: Index) -> (r: bool)
        requires
            self.well_formed(),
            self.addressable(),
        ensures
            r == self.cell(x as int, y as int, z as int),
    {
        let (idx, bit) = self.idx(x, y, z);
        let mask: u8 = 1u8 << bit;
        proof {
            let i = self.index_of(x as int, y as int, z as int);
            self.lemma_cells_len();
            lemma_cell_index_bounds(self.spec_width(), self.spec_height(), self.spec_depth(), x as int, y as int, z as int);
            lemma_mask_reads_bit(self.buf@[idx as int], bit);
            assert(self.cells()[i] == self.bits()[i]);
        }
        (self.buf[idx] & mask) != 0
    }

    /// Writes `elem` into the cell at `(x, y, z)`, each coordinate wrapped into
    /// its axis, and returns the value that the cell held before.
    pub fn set(&mut self, x: Index, y: Index, z: Index, elem: bool) -> (r: bool)
        requires
            old(self).well_formed(),
            old(self).addressable(),
        ensures
            final(self).well_formed(),
            final(self).spec_width() == old(self).spec_width(),
            final(self).spec_height() == old(self).spec_height(),
            final(self).spec_depth() == old(self).spec_depth(),
            r == old(self).cell(x as int, y as int, z as int),
            final(self).cells() == old(self).cells().update(old(self).index_of(x as int, y as int, z as int), elem),
            final(self).bits() == old(self).bits().update(old(self).index_of(x as int, y as int, z as int), elem),
    {
        let (idx, bit) = self.idx(x, y, z);
        let mask: u8 = 1u8 << bit;
        let byte = self.buf[idx];
        let prior = (byte & mask) != 0;
        let vb: u8 = if elem {
            1
        } else {
            0
        };
        let nb: u8 = (byte & !mask) | (vb << bit);
        proof {
            let i = self.index_of(x as int, y as int, z as int);
            self.lemma_cells_len();
            lemma_cell_index_bounds(self.spec_width(), self.spec_height(), self.spec_depth(), x as int, y as int, z as int);
            lemma_mask_reads_bit(byte, bit);
            lemma_write_bit(byte, bit, vb);
            lemma_bits_update(self.buf@, i, nb, elem);
            assert(self.cells()[i] == self.bits()[i]);
        }
        let ghost before = *self;
        self.buf.set(idx, nb);
        proof {
            let i = before.index_of(x as int, y as int, z as int);
            assert(self.bits() == before.bits().update(i, elem));
            assert(self.cells() =~= before.cells().update(i, elem));
        }
        prior
    }

    /// Toggles the cell at `(x, y, z)`, each coordinate wrapped into its axis,
    /// and returns the value that the cell held before.
    pub fn flip(&mut self, x: Index, y: Index, z: Index) -> (r: bool)
        requires
            old(self).well_formed(),
            old(self).addressable(),
        ensures
            final(self).well_formed(),
            final(self).spec_width() == old(self).spec_width(),
            final(self).spec_height() == old(self).spec_height(),
            final(self).spec_depth() == old(self).spec_depth(),
            r == old(self).cell(x as int, y as int, z as int),
            final(self).cells() == old(self).cells().update(old(self).index_of(x as int, y as int, z as int), !r),
            final(self).bits() == old(self).bits().update(old(self).index_of(x as int, y as int, z as int), !r),
    {
        let (idx, bit) = self.idx(x, y, z);
        let mask: u8 = 1u8 << bit;
        let byte = self.buf[idx];
        let prior = (byte & mask) != 0;
        let nb: u8 = byte ^ mask;
        proof {
            let i = self.index_of(x as int, y as int, z as int);
            self.lemma_cells_len();
            lemma_cell_index_bounds(self.spec_width(), self.spec_height(), self.spec_depth(), x as int, y as int, z as int);
            lemma_mask_reads_bit(byte, bit);
            lemma_toggle_bit(byte, bit);
            lemma_bits_update(self.buf@, i, nb, !prior);
            assert(self.cells()[i] == self.bits()[i]);
        }
        let ghost before = *self;
        self.buf.set(idx, nb);
        proof {
            let i = before.index_of(x as int, y as int, z as int);
            assert(self.bits() == before.bits().update(i, !prior));
            assert(self.cells() =~= before.cells().update(i, !prior));
        }
        prior
    }

    /// Whether no bit of the buffer is set.
    pub fn is_empty(&self) -> (r: bool)
        ensures
            r == (forall|i: int| 0 <= i < self.bits().len() ==> !#[trigger] self.bits()[i]),
    {
        let mut i: usize = 0;
        while i < self.buf.len()
            invariant
                i <= self.buf@.len(),
                forall|t: int| 0 <= t < 8 * i ==> !#[trigger] self.bits()[t],
            decreases self.buf@.len() - i,
        {
            proof {
                lemma_zero_byte(self.buf@[i as int]);
            }
            if self.buf[i] != 0 {
                proof {
                    let k = choose|k: u8| k < 8 && bit_of(self.buf@[i as int], k);
                    let t = 8 * i + k as int;
                    assert(t / 8 == i && t % 8 == k as int);
                    assert(self.bits()[t]);
                }
                return false;
            }
            proof {
                assert forall|t: int| 0 <= t < 8 * (i + 1) implies !#[trigger] self.bits()[t] by {
                    if t >= 8 * i {
                        assert(t / 8 == i);
                        assert(!bit_of(self.buf@[i as int], (t % 8) as u8));
                    }
                }
            }
            i = i + 1;
        }
        true
    }

    /// The number of set bits in the buffer.
    pub fn count_set(&self) -> (r: usize)
        requires
            self.well_formed(),
        ensures
            r == sum_ones(self.bytes()),
    {
        let mut total: usize = 0;
        let mut i: usize = 0;
        while i < self.buf.len()
            invariant
                self.well_formed(),
                i <= self.buf@.len(),
                total == sum_ones(self.buf@.take(i as int)),
                sum_ones(self.buf@.take(i as int)) + sum_zeros(self.buf@.take(i as int)) == 8 * i,
            decreases self.buf@.len() - i,
        {
            let ghost pre = self.buf@.take(i as int);
            let ghost post = self.buf@.take(i + 1);
            proof {
                assert(post.drop_last() =~= pre);
                lemma_sum_ones_zeros(post);
                lemma_ones_below_bound(self.buf@[i as int], 8);
                self.lemma_cells_len();
                assert(8 * (i + 1) <= 8 * self.buf@.len());
            }
            total = total + byte_ones(self.buf[i]) as usize;
            i = i + 1;
        }
        proof {
            assert(self.buf@.take(i as int) =~= self.buf@);
        }
        total
    }

    /// The number of clear bits in the buffer.
    pub fn count_unset(&self) -> (r: usize)
        requires
            self.well_formed(),
        ensures
            r == sum_zeros(self.bytes()),
    {
        let mut total: usize = 0;
        let mut i: usize = 0;
        while i < self.buf.len()
            invariant
                self.well_formed(),
                i <= self.buf@.len(),
                total == sum_zeros(self.buf@.take(i as int)),
                sum_ones(self.buf@.take(i as int)) + sum_zeros(self.buf@.take(i as int)) == 8 * i,
            decreases self.buf@.len() - i,
        {
            let ghost pre = self.buf@.take(i as int);
            let ghost post = self.buf@.take(i + 1);
            proof {
                assert(post.drop_last() =~= pre);
                lemma_sum_ones_zeros(post);
                lemma_ones_below_bound(self.buf@[i as int], 8);
                self.lemma_cells_len();
                assert(8 * (i + 1) <= 8 * self.buf@.len());
            }
            total = total + (8 - byte_ones(self.buf[i])) as usize;
            i = i + 1;
        }
        proof {
            assert(self.buf@.take(i as int) =~= self.buf@);
        }
        total
    }

    /// The packed buffer, one bit per cell in linear order.
    pub fn as_bytes(&self) -> (r: &[u8])
        ensures
            r@ == self.bytes(),
    {
        self.buf.as_slice()
    }

    /// The packed buffer, writable in place. Its length cannot change, so the
    /// grid stays well formed whatever is written.
    pub fn as_mut_bytes(&mut self) -> (r: &mut [u8])
        ensures
            r@ == old(self).bytes(),
            final(self).spec_width() == old(self).spec_width(),
            final(self).spec_height() == old(self).spec_height(),
            final(self).spec_depth() == old(self).spec_depth(),
            final(self).bytes() == final(r)@,
    {
        self.buf.as_mut_slice()
    }

    /// A grid of the same extents whose bits are those of `self` and `other`
    /// combined by exclusive or: the cells in which the two differ.
    pub fn diff_with(&self, other: &BitGrid) -> (r: BitGrid)
        requires
            self.well_formed(),
            other.well_formed(),
            self.spec_width() == other.spec_width(),
            self.spec_height() == other.spec_height(),
            self.spec_depth() == other.spec_depth(),
        ensures
            r.well_formed(),
            r.spec_width() == self.spec_width(),
            r.spec_height() == self.spec_height(),
            r.spec_depth() == self.spec_depth(),
            r.bytes() == Seq::new(self.bytes().len(), |i: int| self.bytes()[i] ^ other.bytes()[i]),
            r.bits() == Seq::new(self.bits().len(), |i: int| self.bits()[i] != other.bits()[i]),
            r.cells() == Seq::new(self.cells().len(), |i: int| self.cells()[i] != other.cells()[i]),
    {
        let mut buf: Vec<u8> = Vec::new();
        let n = self.buf.len();
        let mut i: usize = 0;
        while i < n
            invariant
                n == self.buf@.len(),
                n == other.buf@.len(),
                i <= n,
                buf@ == Seq::new(i as nat, |t: int| self.buf@[t] ^ other.buf@[t]),
            decreases n - i,
        {
            buf.push(self.buf[i] ^ other.buf[i]);
            i = i + 1;
            proof {
                assert(buf@ =~= Seq::new(i as nat, |t: int| self.buf@[t] ^ other.buf@[t]));
            }
        }
        let r = BitGrid { buf, width: self.width, height: self.height, depth: self.depth };
        proof {
            assert forall|t: int| 0 <= t < r.bits().len() implies #[trigger] r.bits()[t] == (self.bits()[t] != other.bits()[t]) by {
                lemma_xor_bits(self.buf@[t / 8], other.buf@[t / 8]);
            }
            assert(r.bits() =~= Seq::new(self.bits().len(), |i: int| self.bits()[i] != other.bits()[i]));
            self.lemma_cells_len();
            other.lemma_cells_len();
            assert(r.cells() =~= Seq::new(self.cells().len(), |i: int| self.cells()[i] != other.cells()[i]));
        }
        r
    }

    /// Sets every bit of the buffer to `set`, one byte at a time.
    pub fn fill(&mut self, set: bool)
        requires
            old(self).well_formed(),
        ensures
            final(self).well_formed(),
            final(self).spec_width() == old(self).spec_width(),
            final(self).spec_height() == old(self).spec_height(),
            final(self).spec_depth() == old(self).spec_depth(),
            final(self).bits() == Seq::new(old(self).bits().len(), |i: int| set),
            final(self).cells() == Seq::new(old(self).cells().len(), |i: int| set),
    {
        let byte: u8 = if set {
            0xff
        } else {
            0
        };
        let ghost before = *self;
        let mut i: usize = 0;
        while i < self.buf.len()
            invariant
                self.spec_width() == before.spec_width(),
                self.spec_height() == before.spec_height(),
                self.spec_depth() == before.spec_depth(),
                self.buf@.len() == before.buf@.len(),
                i <= self.buf@.len(),
                forall|t: int| 0 <= t < i ==> self.buf@[t] == byte,
            decreases self.buf@.len() - i,
        {
            self.buf.set(i, byte);
            i = i + 1;
        }
        proof {
            lemma_uniform_byte(byte, set);
            assert(self.bits() =~= Seq::new(before.bits().len(), |i: int| set));
            before.lemma_cells_len();
            assert(self.cells() =~= Seq::new(before.cells().len(), |i: int| set));
        }
    }

    /// Allocates a grid and sets each cell `(x, y, z)` to `func(x, y, z)`.
    pub fn new_with_fn<F: Fn(Index, Index, Index) -> bool>(width: usize, height: usize, depth: usize, func: F) -> (r: BitGrid)
        requires
            width <= i32::MAX,
            height <= i32::MAX,
            depth <= i32::MAX,
            width * height * depth + 8 <= usize::MAX,
            forall|x: Index, y: Index, z: Index| #[trigger] func.requires((x, y, z)),
        ensures
            r.well_formed(),
            r.spec_width() == width,
            r.spec_height() == height,
            r.spec_depth() == depth,
            forall|x: Index, y: Index, z: Index|
                0 <= x < width && 0 <= y < height && 0 <= z < depth ==> func.ensures(
                    (x, y, z),
                    #[trigger] r.cell(x as int, y as int, z as int),
                ),
            forall|i: int| r.num_cells() <= i < r.bits().len() ==> !r.bits()[i],
    {
        let mut grid = BitGrid::new(width, height, depth);
        let w = width as Index;
        let h = height as Index;
        let d = depth as Index;
        let ghost wi = w as int;
        let ghost hi = h as int;
        let mut z: Index = 0;
        while z < d
            invariant
                grid.well_formed(),
                grid.spec_width() == w && grid.spec_height() == h && grid.spec_depth() == d,
                forall|i: int| grid.num_cells() <= i < grid.bits().len() ==> !grid.bits()[i],
                w == width && h == height && d == depth && wi == w && hi == h,
                0 <= z <= d,
                forall|x: Index, y: Index, z: Index| #[trigger] func.requires((x, y, z)),
                forall|a: Index, b: Index, c: Index|
                    0 <= a < w && 0 <= b < h && 0 <= c < d && linear(wi, hi, a as int, b as int, c as int)
                        < linear(wi, hi, 0, 0, z as int) ==> func.ensures(
                        (a, b, c),
                        #[trigger] grid.cell(a as int, b as int, c as int),
                    ),
            decreases d - z,
        {
            let mut y: Index = 0;
            while y < h
                invariant
                    grid.well_formed(),
                    grid.spec_width() == w && grid.spec_height() == h && grid.spec_depth() == d,
                    forall|i: int| grid.num_cells() <= i < grid.bits().len() ==> !grid.bits()[i],
                    w == width && h == height && d == depth && wi == w && hi == h,
                    0 <= z < d,
                    0 <= y <= h,
                    forall|x: Index, y: Index, z: Index| #[trigger] func.requires((x, y, z)),
                    forall|a: Index, b: Index, c: Index|
                        0 <= a < w && 0 <= b < h && 0 <= c < d && linear(wi, hi, a as int, b as int, c as int)
                            < linear(wi, hi, 0, y as int, z as int) ==> func.ensures(
                            (a, b, c),
                            #[trigger] grid.cell(a as int, b as int, c as int),
                        ),
                decreases h - y,
            {
                let mut x: Index = 0;
                while x < w
                    invariant
                        grid.well_formed(),
                        grid.spec_width() == w && grid.spec_height() == h && grid.spec_depth() == d,
                        forall|i: int| grid.num_cells() <= i < grid.bits().len() ==> !grid.bits()[i],
                        w == width && h == height && d == depth && wi == w && hi == h,
                        0 <= z < d,
                        0 <= y < h,
                        0 <= x <= w,
                        forall|x: Index, y: Index, z: Index| #[trigger] func.requires((x, y, z)),
                        forall|a: Index, b: Index, c: Index|
                            0 <= a < w && 0 <= b < h && 0 <= c < d && linear(wi, hi, a as int, b as int, c as int)
                                < linear(wi, hi, x as int, y as int, z as int) ==> func.ensures(
                                (a, b, c),
                                #[trigger] grid.cell(a as int, b as int, c as int),
                            ),
                    decreases w - x,
                {
                    let v = func(x, y, z);
                    let ghost before = grid;
                    grid.set(x, y, z, v);
                    proof {
                        before.lemma_update_keeps_padding(grid, x as int, y as int, z as int, v);
                        let l = linear(wi, hi, x as int, y as int, z as int);
                        lemma_linear_bounds(wi, hi, d as int, x as int, y as int, z as int);
                        assert(before.index_of(x as int, y as int, z as int) == l) by {
                            lemma_wrap_small(x as int, wi);
                            lemma_wrap_small(y as int, hi);
                            lemma_wrap_small(z as int, d as int);
                        }
                        assert forall|a: Index, b: Index, c: Index|
                            0 <= a < w && 0 <= b < h && 0 <= c < d && linear(wi, hi, a as int, b as int, c as int)
                                < linear(wi, hi, x as int + 1, y as int, z as int) implies func.ensures(
                                (a, b, c),
                                #[trigger] grid.cell(a as int, b as int, c as int),
                            ) by {
                            let la = linear(wi, hi, a as int, b as int, c as int);
                            lemma_wrap_small(a as int, wi);
                            lemma_wrap_small(b as int, hi);
                            lemma_wrap_small(c as int, d as int);
                            assert(grid.index_of(a as int, b as int, c as int) == la);
                            lemma_linear_bounds(wi, hi, d as int, a as int, b as int, c as int);
                            if la == l {
                                lemma_linear_injective(wi, hi, a as int, b as int, c as int, x as int, y as int, z as int);
                            } else {
                                assert(la < l);
                                assert(before.index_of(a as int, b as int, c as int) == la);
                                before.lemma_cells_len();
                                assert(before.cell(a as int, b as int, c as int) == grid.cell(a as int, b as int, c as int));
                            }
                        }
                    }
                    x = x + 1;
                }
                proof {
                    lemma_linear_carry(wi, hi, y as int, z as int);
                }
                y = y + 1;
            }
            proof {
                lemma_linear_carry(wi, hi, y as int, z as int);
            }
            z = z + 1;
        }
        proof {
            assert forall|a: Index, b: Index, c: Index|
                0 <= a < w && 0 <= b < h && 0 <= c < d implies #[trigger] linear(wi, hi, a as int, b as int, c as int)
                    < linear(wi, hi, 0, 0, z as int) by {
                lemma_linear_bounds(wi, hi, d as int, a as int, b as int, c as int);
                lemma_linear_carry(wi, hi, 0, d as int);
                assert(d as int * (wi * hi) == volume(wi, hi, d as int)) by (nonlinear_arith);
            }
        }
        grid
    }
}

impl Grid for BitGrid {
    open spec fn valid(&self) -> bool {
        self.well_formed()
    }

    open spec fn extents(&self) -> (int, int, int) {
        (self.spec_width(), self.spec_height(), self.spec_depth())
    }

    open spec fn contents(&self) -> Seq<bool> {
        self.cells()
    }

    /// The bits of the last byte past the last cell.
    open spec fn padding(&self) -> Seq<bool> {
        self.bits().skip(self.num_cells())
    }

    proof fn lemma_valid(&self) {
        self.lemma_cells_len();
    }

    fn new(dims: IVec3) -> (r: BitGrid) {
        let r = BitGrid::new(dims.x as usize, dims.y as usize, dims.z as usize);
        proof {
            assert(r.bits().skip(r.num_cells()) =~= Seq::new(r.padding().len(), |i: int| false));
        }
        r
    }

    fn width(&self) -> (r: Index) {
        self.width
    }

    fn height(&self) -> (r: Index) {
        self.height
    }

    fn depth(&self) -> (r: Index) {
        self.depth
    }

    fn get(&self, x: Index, y: Index, z: Index) -> (r: bool) {
        BitGrid::get(self, x, y, z)
    }

    fn set(&mut self, x: Index, y: Index, z: Index, elem: bool) -> (r: bool) {
        let ghost before = *self;
        let r = BitGrid::set(self, x, y, z, elem);
        proof {
            before.lemma_update_keeps_padding(*self, x as int, y as int, z as int, elem);
        }
        r
    }

    fn flip(&mut self, x: Index, y: Index, z: Index) -> (r: bool) {
        let ghost before = *self;
        let r = BitGrid::flip(self, x, y, z);
        proof {
            before.lemma_update_keeps_padding(*self, x as int, y as int, z as int, !r);
        }
        r
    }

    fn fill(&mut self, set: bool) {
        BitGrid::fill(self, set)
    }
}

/// Flipping the same cell twice gives back the grid one started from, byte
/// for byte: `g1` is `g0` after `flip(x, y, z)`, and `g2` is `g1` after the
/// same call.
pub proof fn double_flip_restores(g0: BitGrid, g1: BitGrid, g2: BitGrid, x: int, y: int, z: int)
    requires
        g0.well_formed(),
        g0.addressable(),
        g1.well_formed(),
        g1.spec_width() == g0.spec_width(),
        g1.spec_height() == g0.spec_height(),
        g1.spec_depth() == g0.spec_depth(),
        g1.bits() == g0.bits().update(g0.index_of(x, y, z), !g0.cell(x, y, z)),
        g2.well_formed(),
        g2.spec_width() == g1.spec_width(),
        g2.spec_height() == g1.spec_height(),
        g2.spec_depth() == g1.spec_depth(),
        g2.bits() == g1.bits().update(g1.index_of(x, y, z), !g1.cell(x, y, z)),
    ensures
        g2.bytes() == g0.bytes(),
        g2.cells() == g0.cells(),
{
    let i = g0.index_of(x, y, z);
    g0.lemma_cells_len();
    lemma_cell_index_bounds(g0.spec_width(), g0.spec_height(), g0.spec_depth(), x, y, z);
    assert(g1.cells()[i] == g1.bits()[i]);
    assert(g0.cells()[i] == g0.bits()[i]);
    assert(g2.bits() =~= g0.bits());
    lemma_bits_determine_bytes(g2.bytes(), g0.bytes());
}

/// Coordinates that differ by whole periods of the extents address the same
/// cell: `get(x, y, z) == get(x + kx * width, y + ky * height, z + kz * depth)`.
pub proof fn wrap_law(g: BitGrid, x: int, y: int, z: int, kx: int, ky: int, kz: int)
    requires
        g.addressable(),
    ensures
        g.index_of(x + kx * g.spec_width(), y + ky * g.spec_height(), z + kz * g.spec_depth())
            == g.index_of(x, y, z),
        g.cell(x + kx * g.spec_width(), y + ky * g.spec_height(), z + kz * g.spec_depth())
            == g.cell(x, y, z),
{
    lemma_wrap_period(x, g.spec_width(), kx);
    lemma_wrap_period(y, g.spec_height(), ky);
    lemma_wrap_period(z, g.spec_depth(), kz);
}

/// Every bit of the buffer is counted once, as set or as unset, and the
/// buffer holds just the bytes that the cells need.
pub proof fn packing_law(g: BitGrid)
    requires
        g.well_formed(),
    ensures
        sum_ones(g.bytes()) + sum_zeros(g.bytes()) == 8 * g.bytes().len(),
        g.bytes().len() == bytes_for(volume(g.spec_width(), g.spec_height(), g.spec_depth())),
{
    lemma_sum_ones_zeros(g.bytes());
}

} // verus!
