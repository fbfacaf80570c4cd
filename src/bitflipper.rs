use vstd::arithmetic::div_mod::{
    lemma_div_is_ordered, lemma_div_multiples_vanish, lemma_div_pos_is_pos, lemma_fundamental_div_mod,
    lemma_mod_bound,
};
use vstd::prelude::*;

use crate::bitgrid::BitGrid;
use crate::grid::{grid_index, lemma_cell_index_bounds, Grid, Index};
use crate::vec3::IVec3;

verus! {

/// How fast an axis runs: the magnitude of its direction component, and 1
/// for a component of zero.
pub open spec fn mag(a: int) -> int {
    if a > 0 {
        a
    } else if a < 0 {
        -a
    } else {
        1
    }
}

/// The absolute value of `a`.
pub open spec fn abs_int(a: int) -> int {
    if a < 0 {
        -a
    } else {
        a
    }
}

/// The sign of `a`: -1, 0 or 1.
pub open spec fn sgn(a: int) -> int {
    if a > 0 {
        1
    } else if a < 0 {
        -1
    } else {
        0
    }
}

/// The unit of each axis in the scaled coordinate space: the product of the
/// other two axes' magnitudes.
pub open spec fn scales(d: IVec3) -> (int, int, int) {
    (
        mag(d.y as int) * mag(d.z as int),
        mag(d.x as int) * mag(d.z as int),
        mag(d.x as int) * mag(d.y as int),
    )
}

/// The nearest multiple of `a` strictly beyond `i`: above it when `dir` is
/// non-negative, below it when `dir` is negative.
pub open spec fn next_multiple(i: int, a: int, dir: int) -> int {
    if dir < 0 {
        if i % a == 0 {
            i - a
        } else {
            i - i % a
        }
    } else {
        i + a - i % a
    }
}

/// The travel sign of one axis after the bounce check: at or below the lower
/// wall the axis turns inward, at or beyond the upper wall it turns back.
pub open spec fn bounced(p: int, bound: int, d: int, sign: int, dir: int) -> int {
    if p >= bound {
        -sgn(d) * dir
    } else if p <= 0 {
        sgn(d) * dir
    } else {
        sign
    }
}

/// The cell along one axis that a tick flips: the one being left, so a
/// position on a grid line moving downward belongs to the cell below it.
pub open spec fn cell_along(p: int, s: int, d: int, sign: int, dir: int) -> int {
    (if dir * d * sign < 0 {
        p - 1
    } else {
        p
    }) / s
}

/// How far one axis is from its next grid line in its direction of travel.
pub open spec fn distance(p: int, s: int, d: int, sign: int, dir: int) -> int {
    let r = next_multiple(p, s, d * sign * dir);
    if r >= p {
        r - p
    } else {
        p - r
    }
}

pub open spec fn min3(a: int, b: int, c: int) -> int {
    if a <= b && a <= c {
        a
    } else if b <= c {
        b
    } else {
        c
    }
}

/// What a traversal changes as it runs: its scaled position, the travel sign
/// of each axis, and the cells of its grid in linear order.
pub struct Trace {
    pub pos: (int, int, int),
    pub sign: (int, int, int),
    pub cells: Seq<bool>,
}

/// The linear position of the cell that one tick flips.
pub open spec fn tick_cell(t: Trace, d: IVec3, e: (int, int, int), dir: int) -> int {
    let s = scales(d);
    let gx = bounced(t.pos.0, e.0 * s.0, d.x as int, t.sign.0, dir);
    let gy = bounced(t.pos.1, e.1 * s.1, d.y as int, t.sign.1, dir);
    let gz = bounced(t.pos.2, e.2 * s.2, d.z as int, t.sign.2, dir);
    grid_index(
        e,
        cell_along(t.pos.0, s.0, d.x as int, gx, dir),
        cell_along(t.pos.1, s.1, d.y as int, gy, dir),
        cell_along(t.pos.2, s.2, d.z as int, gz, dir),
    )
}

/// One elementary tick of a traversal with direction `d` through a grid of
/// extents `e`, forward when `dir` is 1 and backward when it is -1: bounce off
/// the walls that have been reached, flip the cell being left, then advance
/// every axis by the shortest distance to a grid line.
pub open spec fn tick(t: Trace, d: IVec3, e: (int, int, int), dir: int) -> Trace {
    let s = scales(d);
    let gx = bounced(t.pos.0, e.0 * s.0, d.x as int, t.sign.0, dir);
    let gy = bounced(t.pos.1, e.1 * s.1, d.y as int, t.sign.1, dir);
    let gz = bounced(t.pos.2, e.2 * s.2, d.z as int, t.sign.2, dir);
    let i = tick_cell(t, d, e, dir);
    let m = min3(
        distance(t.pos.0, s.0, d.x as int, gx, dir),
        distance(t.pos.1, s.1, d.y as int, gy, dir),
        distance(t.pos.2, s.2, d.z as int, gz, dir),
    );
    Trace {
        pos: (
            t.pos.0 + m * dir * sgn(d.x as int) * gx,
            t.pos.1 + m * dir * sgn(d.y as int) * gy,
            t.pos.2 + m * dir * sgn(d.z as int) * gz,
        ),
        sign: (gx, gy, gz),
        cells: t.cells.update(i, !t.cells[i]),
    }
}

/// `k` ticks in a row.
pub open spec fn run(t: Trace, d: IVec3, e: (int, int, int), dir: int, k: nat) -> Trace
    decreases k,
{
    if k == 0 {
        t
    } else {
        tick(run(t, d, e, dir, (k - 1) as nat), d, e, dir)
    }
}

/// The position along one axis carried into a new scaled space whose unit is
/// `s_new` instead of `s_old`: `p * s_new / s_old`, rounded down. An
/// approximation: the old and new units need not divide each other.
pub open spec fn rescaled(p: int, s_new: int, s_old: int) -> int {
    p * s_new / s_old
}

/// A rescaled position stays between the walls of the new space.
proof fn lemma_rescaled_bound(p: int, e: int, s_new: int, s_old: int)
    requires
        e >= 1,
        s_new >= 1,
        s_old >= 1,
        0 <= p <= e * s_old,
        e * s_old <= i32::MAX,
        s_new <= i32::MAX,
    ensures
        0 <= rescaled(p, s_new, s_old) <= e * s_new,
        p * s_new <= u64::MAX,
{
    assert(0 <= p * s_new <= (e * s_new) * s_old) by (nonlinear_arith)
        requires
            0 <= p <= e * s_old,
            s_new >= 1,
    ;
    assert(p * s_new <= u64::MAX) by (nonlinear_arith)
        requires
            0 <= p <= i32::MAX,
            1 <= s_new <= i32::MAX,
    ;
    lemma_div_is_ordered(p * s_new, (e * s_new) * s_old, s_old);
    lemma_div_multiples_vanish(e * s_new, s_old);
    assert(s_old * (e * s_new) == (e * s_new) * s_old) by (nonlinear_arith);
    lemma_div_pos_is_pos(p * s_new, s_old);
}

/// The magnitude of `a`, at least 1.
fn magnitude(a: i32) -> (r: i32)
    requires
        a > i32::MIN,
    ensures
        r == mag(a as int),
{
    if a > 0 {
        a
    } else if a < 0 {
        -a
    } else {
        1
    }
}

fn signum(a: i32) -> (r: i32)
    ensures
        r == sgn(a as int),
{
    if a > 0 {
        1
    } else if a < 0 {
        -1
    } else {
        0
    }
}

/// `i` modulo the magnitude of `n`, in `0..|n|` whatever the sign of `i`.
pub fn positive_modulo(i: i32, n: i32) -> (r: i32)
    requires
        n != 0,
        n > i32::MIN,
    ensures
        r == i as int % abs_int(n as int),
        0 <= r < abs_int(n as int),
{
    let a: i32 = if n < 0 {
        -n
    } else {
        n
    };
    proof {
        lemma_mod_bound(i as int, a as int);
    }
    match i.checked_rem_euclid(a) {
        Some(m) => m,
        None => 0,
    }
}

/// The nearest multiple of `|n|` strictly beyond `i` in the direction of
/// `dir`: above `i` when `dir` is non-negative, below it when negative.
pub fn next_multiple_of_n_in_direction(i: i32, n: i32, dir: i32) -> (r: i32)
    requires
        n != 0,
        n > i32::MIN,
        dir >= 0 ==> i + abs_int(n as int) <= i32::MAX,
        dir < 0 ==> i - abs_int(n as int) >= i32::MIN,
    ensures
        r == next_multiple(i as int, abs_int(n as int), dir as int),
        r as int % abs_int(n as int) == 0,
        dir >= 0 ==> i < r <= i + abs_int(n as int),
        dir < 0 ==> i - abs_int(n as int) <= r < i,
{
    let a: i32 = if n < 0 {
        -n
    } else {
        n
    };
    let m = positive_modulo(i, n);
    proof {
        lemma_next_multiple(i as int, a as int, dir as int);
    }
    if dir < 0 {
        if m == 0 {
            i - a
        } else {
            i - m
        }
    } else {
        i + a - m
    }
}

pub(crate) proof fn lemma_next_multiple(i: int, a: int, dir: int)
    requires
        a > 0,
    ensures
        next_multiple(i, a, dir) % a == 0,
        dir >= 0 ==> i < next_multiple(i, a, dir) <= i + a,
        dir < 0 ==> i - a <= next_multiple(i, a, dir) < i,
{
    lemma_mod_bound(i, a);
    lemma_fundamental_div_mod(i, a);
    let q = i / a;
    let r = next_multiple(i, a, dir);
    if dir < 0 {
        if i % a == 0 {
            assert(r == a * (q - 1)) by (nonlinear_arith)
                requires
                    r == i - a,
                    i == a * q + 0,
            ;
            lemma_mod_multiple(r, a, q - 1);
        } else {
            assert(r == a * q);
            lemma_mod_multiple(r, a, q);
        }
    } else {
        assert(r == a * (q + 1)) by (nonlinear_arith)
            requires
                r == i + a - i % a,
                i == a * q + i % a,
        ;
        lemma_mod_multiple(r, a, q + 1);
    }
}

pub(crate) proof fn lemma_mod_multiple(r: int, a: int, q: int)
    requires
        a > 0,
        r == a * q,
    ensures
        r % a == 0,
{
    vstd::arithmetic::div_mod::lemma_mod_multiples_basic(q, a);
    assert(q * a == a * q) by (nonlinear_arith);
}

/// Two multiples of `a` less than `a` apart are equal.
pub(crate) proof fn lemma_multiples_apart(r: int, b: int, a: int)
    requires
        a > 0,
        r % a == 0,
        b % a == 0,
        -a < r - b < a,
    ensures
        r == b,
{
    lemma_fundamental_div_mod(r, a);
    lemma_fundamental_div_mod(b, a);
    let qr = r / a;
    let qb = b / a;
    assert(r - b == a * (qr - qb)) by (nonlinear_arith)
        requires
            r == a * qr + 0,
            b == a * qb + 0,
    ;
    if qr > qb {
        assert(a * (qr - qb) >= a) by (nonlinear_arith)
            requires
                qr - qb >= 1,
                a > 0,
        ;
    } else if qr < qb {
        assert(a * (qr - qb) <= -a) by (nonlinear_arith)
            requires
                qr - qb <= -1,
                a > 0,
        ;
    }
}

/// One axis of a tick stays between its walls, and the cell that it flips
/// has a non-negative coordinate.
pub(crate) proof fn lemma_axis_tick(p: int, e: int, s: int, d: int, g0: int, dir: int, m: int)
    requires
        e >= 1,
        s >= 1,
        0 <= p <= e * s,
        -1 <= g0 <= 1,
        dir == 1 || dir == -1,
    ensures
        -1 <= bounced(p, e * s, d, g0, dir) <= 1,
        1 <= distance(p, s, d, bounced(p, e * s, d, g0, dir), dir) <= s,
        dir * d * bounced(p, e * s, d, g0, dir) < 0 ==> p >= 1,
        1 <= m <= distance(p, s, d, bounced(p, e * s, d, g0, dir), dir) ==> 0 <= p + m * dir * sgn(d)
            * bounced(p, e * s, d, g0, dir) <= e * s,
{
    let bound = e * s;
    let g = bounced(p, bound, d, g0, dir);
    let k = d * g * dir;
    let v = dir * sgn(d) * g;
    assert(s <= bound) by (nonlinear_arith)
        requires
            e >= 1,
            s >= 1,
            bound == e * s,
    ;
    assert(bound == s * e) by (nonlinear_arith)
        requires
            bound == e * s,
    ;
    lemma_mod_multiple(bound, s, e);
    // The sign of the product handed to `next_multiple` is the travel sign.
    assert(-1 <= g <= 1 && sgn(k) == v && (dir * d * g == k)) by (nonlinear_arith)
        requires
            g == bounced(p, bound, d, g0, dir),
            -1 <= g0 <= 1,
            dir == 1 || dir == -1,
            k == d * g * dir,
            v == dir * sgn(d) * g,
    {
        if d > 0 {
            assert(sgn(d) == 1);
        } else if d < 0 {
            assert(sgn(d) == -1);
        } else {
            assert(sgn(d) == 0);
        }
    }
    // Travelling upward only below the upper wall, downward only above the lower one.
    assert(v == 1 ==> p < bound) by (nonlinear_arith)
        requires
            g == bounced(p, bound, d, g0, dir),
            v == dir * sgn(d) * g,
            dir == 1 || dir == -1,
            sgn(d) == 1 || sgn(d) == -1 || sgn(d) == 0,
    ;
    assert(v == -1 ==> p > 0) by (nonlinear_arith)
        requires
            g == bounced(p, bound, d, g0, dir),
            v == dir * sgn(d) * g,
            dir == 1 || dir == -1,
            sgn(d) == 1 || sgn(d) == -1 || sgn(d) == 0,
            bound >= 1,
    ;
    let r = next_multiple(p, s, k);
    lemma_next_multiple(p, s, k);
    if 1 <= m <= distance(p, s, d, g, dir) {
        let np = p + m * dir * sgn(d) * g;
        assert(np == p + m * v) by (nonlinear_arith)
            requires
                np == p + m * dir * sgn(d) * g,
                v == dir * sgn(d) * g,
        ;
        if v == 1 {
            assert(k > 0);
            assert(p < r <= p + s);
            assert(distance(p, s, d, g, dir) == r - p);
            if r > bound {
                lemma_multiples_apart(r, bound, s);
            }
            assert(np == p + m);
            assert(np <= r);
        } else if v == -1 {
            assert(k < 0);
            assert(p - s <= r < p);
            assert(distance(p, s, d, g, dir) == p - r);
            if r < 0 {
                lemma_mod_multiple(0, s, 0);
                lemma_multiples_apart(r, 0, s);
            }
            assert(np == p - m);
            assert(np >= r);
        } else {
            assert(v == 0);
            assert(np == p);
        }
    }
}

/// Products of a direction component with signs stay within `i32`.
proof fn lemma_sign_products(d: int, g: int, dir: int)
    requires
        -(i32::MAX as int) <= d <= i32::MAX,
        -1 <= g <= 1,
        dir == 1 || dir == -1,
    ensures
        -(i32::MAX as int) <= d * g <= i32::MAX,
        -(i32::MAX as int) <= d * g * dir <= i32::MAX,
        -(i32::MAX as int) <= dir * d <= i32::MAX,
        -(i32::MAX as int) <= dir * d * g <= i32::MAX,
        -1 <= dir * sgn(d) * g <= 1,
{
    assert(-(i32::MAX as int) <= d * g <= i32::MAX) by (nonlinear_arith)
        requires
            -(i32::MAX as int) <= d <= i32::MAX,
            -1 <= g <= 1,
    ;
    assert(-(i32::MAX as int) <= d * g * dir <= i32::MAX) by (nonlinear_arith)
        requires
            -(i32::MAX as int) <= d * g <= i32::MAX,
            dir == 1 || dir == -1,
    ;
    assert(-(i32::MAX as int) <= dir * d <= i32::MAX) by (nonlinear_arith)
        requires
            -(i32::MAX as int) <= d <= i32::MAX,
            dir == 1 || dir == -1,
    ;
    assert(dir * d * g == d * g * dir) by (nonlinear_arith);
    assert(-1 <= dir * sgn(d) * g <= 1) by (nonlinear_arith)
        requires
            dir == 1 || dir == -1,
            -1 <= g <= 1,
            -1 <= sgn(d) <= 1,
    ;
}

/// Moving by `m` along a travel sign of -1, 0 or 1.
proof fn lemma_step_by(m: int, dir: int, sg: int, g: int)
    requires
        m >= 1,
        -1 <= dir * sg * g <= 1,
    ensures
        m * dir * sg * g == m * (dir * sg * g),
        -m <= m * (dir * sg * g) <= m,
{
    assert(m * dir * sg * g == m * (dir * sg * g)) by (nonlinear_arith);
    assert(-m <= m * (dir * sg * g) <= m) by (nonlinear_arith)
        requires
            -1 <= dir * sg * g <= 1,
            m >= 1,
    ;
}

/// Direction and extents for which every scaled position of a traversal,
/// and one grid line beyond it, fit in an `i32`.
pub open spec fn fits(d: IVec3, e: (int, int, int)) -> bool {
    &&& d.x > i32::MIN && d.y > i32::MIN && d.z > i32::MIN
    &&& e.0 >= 1 && e.1 >= 1 && e.2 >= 1
    &&& e.0 * scales(d).0 + scales(d).0 <= i32::MAX
    &&& e.1 * scales(d).1 + scales(d).1 <= i32::MAX
    &&& e.2 * scales(d).2 + scales(d).2 <= i32::MAX
}

pub(crate) proof fn lemma_scales_positive(d: IVec3)
    ensures
        scales(d).0 >= 1,
        scales(d).1 >= 1,
        scales(d).2 >= 1,
{
    let (a, b, c) = (mag(d.x as int), mag(d.y as int), mag(d.z as int));
    assert(b * c >= 1 && a * c >= 1 && a * b >= 1) by (nonlinear_arith)
        requires
            a >= 1,
            b >= 1,
            c >= 1,
    ;
}

pub(crate) proof fn lemma_fits_bounds(d: IVec3, e: (int, int, int))
    requires
        fits(d, e),
    ensures
        e.0 * scales(d).0 <= i32::MAX,
        e.1 * scales(d).1 <= i32::MAX,
        e.2 * scales(d).2 <= i32::MAX,
        e.0 * scales(d).0 >= scales(d).0,
        e.1 * scales(d).1 >= scales(d).1,
        e.2 * scales(d).2 >= scales(d).2,
{
    lemma_scales_positive(d);
    let s = scales(d);
    assert(e.0 * s.0 >= s.0 && e.1 * s.1 >= s.1 && e.2 * s.2 >= s.2) by (nonlinear_arith)
        requires
            e.0 >= 1 && e.1 >= 1 && e.2 >= 1,
            s.0 >= 1 && s.1 >= 1 && s.2 >= 1,
    ;
}

fn bounce(p: i32, bound: i32, d: i32, sign: i32, dir: i32) -> (r: i32)
    requires
        dir == 1 || dir == -1,
    ensures
        r == bounced(p as int, bound as int, d as int, sign as int, dir as int),
{
    let mut r = sign;
    if p <= 0 {
        r = signum(d) * dir;
    }
    if p >= bound {
        r = -signum(d) * dir;
    }
    r
}

/// The scale of each axis for direction `d`.
fn axis_scales(d: IVec3) -> (r: (i32, i32, i32))
    requires
        d.x > i32::MIN && d.y > i32::MIN && d.z > i32::MIN,
        scales(d).0 <= i32::MAX,
        scales(d).1 <= i32::MAX,
        scales(d).2 <= i32::MAX,
    ensures
        r.0 as int == scales(d).0,
        r.1 as int == scales(d).1,
        r.2 as int == scales(d).2,
{
    (
        magnitude(d.y) * magnitude(d.z),
        magnitude(d.x) * magnitude(d.z),
        magnitude(d.x) * magnitude(d.y),
    )
}

/// How far position `p` is from its next grid line, `s` apart, in the
/// direction of travel.
fn axis_distance(p: i32, s: i32, d: i32, g: i32, dir: i32) -> (r: i32)
    requires
        s >= 1,
        0 <= p,
        p + s <= i32::MAX,
        d > i32::MIN,
        -1 <= g <= 1,
        dir == 1 || dir == -1,
    ensures
        r == distance(p as int, s as int, d as int, g as int, dir as int),
{
    proof {
        lemma_sign_products(d as int, g as int, dir as int);
    }
    let next = next_multiple_of_n_in_direction(p, s, d * g * dir);
    if next >= p {
        next - p
    } else {
        p - next
    }
}

/// A point that traces an exact straight line through a grid, bouncing off
/// its walls, and flips one cell at each tick.
///
/// Positions are kept in a scaled space in which one cell along an axis spans
/// the product of the other two axes' magnitudes, so that every axis advances
/// by whole numbers.
pub struct BitFlipper<G: Grid = BitGrid> {
    pos: IVec3,
    dir: IVec3,
    dir_sign: IVec3,
    grid: G,
}

impl<G: Grid> BitFlipper<G> {
    pub closed spec fn spec_pos(&self) -> IVec3 {
        self.pos
    }

    pub closed spec fn spec_dir(&self) -> IVec3 {
        self.dir
    }

    /// The travel sign of each axis, as the last bounce check left it.
    pub closed spec fn spec_dir_sign(&self) -> IVec3 {
        self.dir_sign
    }

    pub closed spec fn spec_grid(&self) -> G {
        self.grid
    }

    pub open spec fn extents(&self) -> (int, int, int) {
        self.spec_grid().extents()
    }

    pub open spec fn trace(&self) -> Trace {
        Trace {
            pos: (self.spec_pos().x as int, self.spec_pos().y as int, self.spec_pos().z as int),
            sign: (self.spec_dir_sign().x as int, self.spec_dir_sign().y as int, self.spec_dir_sign().z as int),
            cells: self.spec_grid().contents(),
        }
    }

    /// The grid is valid, the arithmetic fits, the position lies between the
    /// walls on every axis and every travel sign is -1, 0 or 1.
    pub open spec fn well_formed(&self) -> bool {
        let s = scales(self.spec_dir());
        let e = self.extents();
        let t = self.trace();
        &&& self.spec_grid().valid()
        &&& fits(self.spec_dir(), e)
        &&& 0 <= t.pos.0 <= e.0 * s.0
        &&& 0 <= t.pos.1 <= e.1 * s.1
        &&& 0 <= t.pos.2 <= e.2 * s.2
        &&& -1 <= t.sign.0 <= 1
        &&& -1 <= t.sign.1 <= 1
        &&& -1 <= t.sign.2 <= 1
    }

    /// Starts a traversal at the origin of `grid`, heading along `dir`.
    pub fn new_with_grid(grid: G, dir: IVec3) -> (r: Self)
        requires
            grid.valid(),
            fits(dir, grid.extents()),
        ensures
            r.well_formed(),
            r.spec_grid() == grid,
            r.spec_dir() == dir,
            r.spec_pos() == (IVec3 { x: 0, y: 0, z: 0 }),
            r.spec_dir_sign() == (IVec3 { x: 1, y: 1, z: 1 }),
    {
        let r = BitFlipper { pos: IVec3::zero(), dir, dir_sign: IVec3::one(), grid };
        proof {
            lemma_fits_bounds(dir, grid.extents());
        }
        r
    }

    /// Starts a traversal at the origin of a fresh grid of extents `dims`.
    pub fn new(dims: IVec3, dir: IVec3) -> (r: Self)
        requires
            dims.x * dims.y * dims.z + 8 <= usize::MAX,
            fits(dir, (dims.x as int, dims.y as int, dims.z as int)),
        ensures
            r.well_formed(),
            r.extents() == (dims.x as int, dims.y as int, dims.z as int),
            r.spec_grid().contents() == Seq::new(
                (dims.x * dims.y * dims.z) as nat,
                |i: int| false,
            ),
            r.spec_grid().padding() == Seq::new(r.spec_grid().padding().len(), |i: int| false),
            r.spec_dir() == dir,
            r.spec_pos() == (IVec3 { x: 0, y: 0, z: 0 }),
            r.spec_dir_sign() == (IVec3 { x: 1, y: 1, z: 1 }),
    {
        let grid = G::new(dims);
        Self::new_with_grid(grid, dir)
    }

    /// Ends the traversal and hands back its grid.
    pub fn into_grid(self) -> (r: G)
        ensures
            r == self.spec_grid(),
    {
        self.grid
    }

    pub fn grid(&self) -> (r: &G)
        ensures
            *r == self.spec_grid(),
    {
        &self.grid
    }

    /// The grid, writable in place; the traversal's own state is untouched.
    pub fn grid_mut(&mut self) -> (r: &mut G)
        ensures
            *r == old(self).spec_grid(),
            final(self).spec_grid() == *final(r),
            final(self).spec_pos() == old(self).spec_pos(),
            final(self).spec_dir() == old(self).spec_dir(),
            final(self).spec_dir_sign() == old(self).spec_dir_sign(),
    {
        &mut self.grid
    }

    pub fn dims(&self) -> (r: IVec3)
        requires
            self.spec_grid().valid(),
        ensures
            r.x == self.extents().0,
            r.y == self.extents().1,
            r.z == self.extents().2,
    {
        self.grid.dims()
    }

    pub fn dir(&self) -> (r: IVec3)
        ensures
            r == self.spec_dir(),
    {
        self.dir
    }

    pub fn pos(&self) -> (r: IVec3)
        ensures
            r == self.spec_pos(),
    {
        self.pos
    }

    /// Changes direction, carrying the position into the new scaled space by
    /// `rescaled` on each axis.
    pub fn set_dir(&mut self, new_dir: IVec3)
        requires
            old(self).well_formed(),
            fits(new_dir, old(self).extents()),
        ensures
            final(self).well_formed(),
            final(self).spec_dir() == new_dir,
            final(self).spec_grid() == old(self).spec_grid(),
            final(self).spec_dir_sign() == old(self).spec_dir_sign(),
            final(self).trace().pos == (
                rescaled(old(self).trace().pos.0, scales(new_dir).0, scales(old(self).spec_dir()).0),
                rescaled(old(self).trace().pos.1, scales(new_dir).1, scales(old(self).spec_dir()).1),
                rescaled(old(self).trace().pos.2, scales(new_dir).2, scales(old(self).spec_dir()).2),
            ),
    {
        let ghost e = self.extents();
        let ghost t = self.trace();
        proof {
            self.grid.lemma_valid();
            lemma_fits_bounds(self.dir, e);
            lemma_fits_bounds(new_dir, e);
            lemma_scales_positive(self.dir);
            lemma_scales_positive(new_dir);
        }
        let (sx0, sy0, sz0) = axis_scales(self.dir);
        let (sx1, sy1, sz1) = axis_scales(new_dir);
        proof {
            lemma_rescaled_bound(t.pos.0, e.0, sx1 as int, sx0 as int);
            lemma_rescaled_bound(t.pos.1, e.1, sy1 as int, sy0 as int);
            lemma_rescaled_bound(t.pos.2, e.2, sz1 as int, sz0 as int);
        }
        let x = self.pos.x as u64;
        let y = self.pos.y as u64;
        let z = self.pos.z as u64;
        self.pos = IVec3 {
            x: (x * sx1 as u64 / sx0 as u64) as i32,
            y: (y * sy1 as u64 / sy0 as u64) as i32,
            z: (z * sz1 as u64 / sz0 as u64) as i32,
        };
        self.dir = new_dir;
    }

    /// Runs `|dir|` ticks, forward when `dir` is positive and backward when it
    /// is negative.
    pub fn step(&mut self, dir: i32)
        requires
            old(self).well_formed(),
            dir > i32::MIN,
        ensures
            final(self).well_formed(),
            final(self).spec_dir() == old(self).spec_dir(),
            final(self).extents() == old(self).extents(),
            final(self).trace() == run(
                old(self).trace(),
                old(self).spec_dir(),
                old(self).extents(),
                sgn(dir as int),
                abs_int(dir as int) as nat,
            ),
            final(self).spec_grid().padding() == old(self).spec_grid().padding(),
    {
        let sign = signum(dir);
        let count: i32 = if dir < 0 {
            -dir
        } else {
            dir
        };
        let ghost start = self.trace();
        let mut k: i32 = 0;
        while k < count
            invariant
                self.well_formed(),
                self.spec_dir() == old(self).spec_dir(),
                self.extents() == old(self).extents(),
                start == old(self).trace(),
                0 <= k <= count,
                count == abs_int(dir as int),
                sign == sgn(dir as int),
                self.trace() == run(start, self.spec_dir(), self.extents(), sign as int, k as nat),
                self.spec_grid().padding() == old(self).spec_grid().padding(),
            decreases count - k,
        {
            self.flip_and_advance_once(sign);
            k = k + 1;
        }
    }

    /// Flips the cell that the traversal is leaving along the current travel
    /// signs: on a grid line, the cell below it on each axis travelling down.
    fn flip_bit(&mut self, dir: i32, sx: i32, sy: i32, sz: i32)
        requires
            old(self).spec_grid().valid(),
            old(self).extents().0 > 0 && old(self).extents().1 > 0 && old(self).extents().2 > 0,
            dir == 1 || dir == -1,
            old(self).spec_dir().x > i32::MIN && old(self).spec_dir().y > i32::MIN && old(self).spec_dir().z > i32::MIN,
            -1 <= old(self).spec_dir_sign().x <= 1,
            -1 <= old(self).spec_dir_sign().y <= 1,
            -1 <= old(self).spec_dir_sign().z <= 1,
            sx as int == scales(old(self).spec_dir()).0,
            sy as int == scales(old(self).spec_dir()).1,
            sz as int == scales(old(self).spec_dir()).2,
            sx >= 1 && sy >= 1 && sz >= 1,
            0 <= old(self).spec_pos().x && 0 <= old(self).spec_pos().y && 0 <= old(self).spec_pos().z,
            dir * old(self).spec_dir().x * old(self).spec_dir_sign().x < 0 ==> old(self).spec_pos().x >= 1,
            dir * old(self).spec_dir().y * old(self).spec_dir_sign().y < 0 ==> old(self).spec_pos().y >= 1,
            dir * old(self).spec_dir().z * old(self).spec_dir_sign().z < 0 ==> old(self).spec_pos().z >= 1,
        ensures
            final(self).spec_grid().valid(),
            final(self).extents() == old(self).extents(),
            final(self).spec_pos() == old(self).spec_pos(),
            final(self).spec_dir() == old(self).spec_dir(),
            final(self).spec_dir_sign() == old(self).spec_dir_sign(),
            final(self).spec_grid().padding() == old(self).spec_grid().padding(),
            ({
                let t = old(self).trace();
                let d = old(self).spec_dir();
                let i = grid_index(
                    old(self).extents(),
                    cell_along(t.pos.0, sx as int, d.x as int, t.sign.0, dir as int),
                    cell_along(t.pos.1, sy as int, d.y as int, t.sign.1, dir as int),
                    cell_along(t.pos.2, sz as int, d.z as int, t.sign.2, dir as int),
                );
                final(self).spec_grid().contents() == old(self).spec_grid().contents().update(
                    i,
                    !old(self).spec_grid().contents()[i],
                )
            }),
    {
        let mut px = self.pos.x;
        let mut py = self.pos.y;
        let mut pz = self.pos.z;
        proof {
            lemma_sign_products(self.dir.x as int, self.dir_sign.x as int, dir as int);
            lemma_sign_products(self.dir.y as int, self.dir_sign.y as int, dir as int);
            lemma_sign_products(self.dir.z as int, self.dir_sign.z as int, dir as int);
        }
        if dir * self.dir.x * self.dir_sign.x < 0 {
            px = px - 1;
        }
        if dir * self.dir.y * self.dir_sign.y < 0 {
            py = py - 1;
        }
        if dir * self.dir.z * self.dir_sign.z < 0 {
            pz = pz - 1;
        }
        let x: Index = (px as u32 / sx as u32) as Index;
        let y: Index = (py as u32 / sy as u32) as Index;
        let z: Index = (pz as u32 / sz as u32) as Index;
        self.grid.flip(x, y, z);
    }

    /// One tick, forward when `dir` is 1 and backward when it is -1.
    fn flip_and_advance_once(&mut self, dir: i32)
        requires
            old(self).well_formed(),
            dir == 1 || dir == -1,
        ensures
            final(self).well_formed(),
            final(self).spec_dir() == old(self).spec_dir(),
            final(self).extents() == old(self).extents(),
            final(self).trace() == tick(old(self).trace(), old(self).spec_dir(), old(self).extents(), dir as int),
            final(self).spec_grid().padding() == old(self).spec_grid().padding(),
    {
        let ghost t0 = self.trace();
        let ghost d = self.dir;
        let ghost e = self.extents();
        proof {
            self.grid.lemma_valid();
            lemma_fits_bounds(d, e);
            lemma_scales_positive(d);
        }
        let (sx, sy, sz) = axis_scales(self.dir);
        let bx = self.grid.width() * sx;
        let by = self.grid.height() * sy;
        let bz = self.grid.depth() * sz;

        self.dir_sign.x = bounce(self.pos.x, bx, self.dir.x, self.dir_sign.x, dir);
        self.dir_sign.y = bounce(self.pos.y, by, self.dir.y, self.dir_sign.y, dir);
        self.dir_sign.z = bounce(self.pos.z, bz, self.dir.z, self.dir_sign.z, dir);
        proof {
            lemma_axis_tick(t0.pos.0, e.0, sx as int, d.x as int, t0.sign.0, dir as int, 0);
            lemma_axis_tick(t0.pos.1, e.1, sy as int, d.y as int, t0.sign.1, dir as int, 0);
            lemma_axis_tick(t0.pos.2, e.2, sz as int, d.z as int, t0.sign.2, dir as int, 0);
        }

        self.flip_bit(dir, sx, sy, sz);

        let dist_x = axis_distance(self.pos.x, sx, self.dir.x, self.dir_sign.x, dir);
        let dist_y = axis_distance(self.pos.y, sy, self.dir.y, self.dir_sign.y, dir);
        let dist_z = axis_distance(self.pos.z, sz, self.dir.z, self.dir_sign.z, dir);

        let mut move_amount = i32::MAX;
        if dist_x > 0 && dist_x < move_amount {
            move_amount = dist_x;
        }
        if dist_y > 0 && dist_y < move_amount {
            move_amount = dist_y;
        }
        if dist_z > 0 && dist_z < move_amount {
            move_amount = dist_z;
        }
        let ghost m = move_amount as int;
        let ghost g = self.trace().sign;
        proof {
            assert(m == min3(dist_x as int, dist_y as int, dist_z as int));
            lemma_axis_tick(t0.pos.0, e.0, sx as int, d.x as int, t0.sign.0, dir as int, m);
            lemma_axis_tick(t0.pos.1, e.1, sy as int, d.y as int, t0.sign.1, dir as int, m);
            lemma_axis_tick(t0.pos.2, e.2, sz as int, d.z as int, t0.sign.2, dir as int, m);
            lemma_sign_products(d.x as int, g.0, dir as int);
            lemma_sign_products(d.y as int, g.1, dir as int);
            lemma_sign_products(d.z as int, g.2, dir as int);
            lemma_step_by(m, dir as int, sgn(d.x as int), g.0);
            lemma_step_by(m, dir as int, sgn(d.y as int), g.1);
            lemma_step_by(m, dir as int, sgn(d.z as int), g.2);
        }

        self.pos.x = self.pos.x + move_amount * (dir * signum(self.dir.x) * self.dir_sign.x);
        self.pos.y = self.pos.y + move_amount * (dir * signum(self.dir.y) * self.dir_sign.y);
        self.pos.z = self.pos.z + move_amount * (dir * signum(self.dir.z) * self.dir_sign.z);
    }
}

/// Each tick flips exactly one cell: the contents after a tick differ from
/// those before at one position in range and agree everywhere else.
pub proof fn tick_flips_one_cell(t: Trace, d: IVec3, e: (int, int, int), dir: int)
    requires
        e.0 > 0 && e.1 > 0 && e.2 > 0,
        t.cells.len() == e.0 * e.1 * e.2,
    ensures
        0 <= tick_cell(t, d, e, dir) < t.cells.len(),
        tick(t, d, e, dir).cells.len() == t.cells.len(),
        tick(t, d, e, dir).cells[tick_cell(t, d, e, dir)] != t.cells[tick_cell(t, d, e, dir)],
        forall|j: int|
            0 <= j < t.cells.len() && j != tick_cell(t, d, e, dir) ==> #[trigger] tick(t, d, e, dir).cells[j]
                == t.cells[j],
{
    let s = scales(d);
    let gx = bounced(t.pos.0, e.0 * s.0, d.x as int, t.sign.0, dir);
    let gy = bounced(t.pos.1, e.1 * s.1, d.y as int, t.sign.1, dir);
    let gz = bounced(t.pos.2, e.2 * s.2, d.z as int, t.sign.2, dir);
    lemma_cell_index_bounds(
        e.0,
        e.1,
        e.2,
        cell_along(t.pos.0, s.0, d.x as int, gx, dir),
        cell_along(t.pos.1, s.1, d.y as int, gy, dir),
        cell_along(t.pos.2, s.2, d.z as int, gz, dir),
    );
}

} // verus!
