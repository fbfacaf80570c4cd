use vstd::arithmetic::div_mod::lemma_fundamental_div_mod;
use vstd::prelude::*;

use crate::bitflipper::{
    bounced, cell_along, distance, fits, lemma_axis_tick, lemma_fits_bounds, lemma_mod_multiple,
    lemma_multiples_apart, lemma_next_multiple, lemma_scales_positive, mag, min3, next_multiple, run,
    scales, sgn, tick, tick_cell, Trace,
};
use crate::grid::lemma_cell_index_bounds;
use crate::vec3::IVec3;

verus! {

/// `i / s == q` for every `i` in `s * q .. s * q + s`.
proof fn lemma_div_in_block(i: int, s: int, q: int)
    requires
        s >= 1,
        s * q <= i < s * q + s,
    ensures
        i / s == q,
{
    lemma_fundamental_div_mod(i, s);
    let q2 = i / s;
    assert(0 <= i % s < s);
    if q2 > q {
        assert(s * q2 >= s * (q + 1)) by (nonlinear_arith)
            requires
                q2 >= q + 1,
                s >= 1,
        ;
        assert(s * (q + 1) == s * q + s) by (nonlinear_arith);
    } else if q2 < q {
        assert(s * q2 <= s * (q - 1)) by (nonlinear_arith)
            requires
                q2 <= q - 1,
                s >= 1,
        ;
        assert(s * (q - 1) == s * q - s) by (nonlinear_arith);
    }
}

/// One moving axis, ticked from `p` by `m` in direction `dir` and then by
/// the same amount in the other direction: the second tick keeps the first
/// one's travel sign, flips the same cell, and comes back to `p`; its
/// distance to a grid line is at least `m`, and exactly `m` when `p` lies on
/// a grid line.
pub proof fn lemma_axis_reverse(p: int, e: int, s: int, d: int, g0: int, dir: int, m: int)
    requires
        e >= 1,
        s >= 1,
        0 <= p <= e * s,
        d != 0,
        g0 == 1 || g0 == -1,
        dir == 1 || dir == -1,
        1 <= m <= distance(p, s, d, bounced(p, e * s, d, g0, dir), dir),
    ensures
        ({
            let g1 = bounced(p, e * s, d, g0, dir);
            let q = p + m * dir * sgn(d) * g1;
            let g2 = bounced(q, e * s, d, g1, -dir);
            &&& g1 == 1 || g1 == -1
            &&& g2 == g1
            &&& cell_along(q, s, d, g2, -dir) == cell_along(p, s, d, g1, dir)
            &&& distance(q, s, d, g2, -dir) >= m
            &&& (p % s == 0 ==> distance(q, s, d, g2, -dir) == m)
            &&& q + m * -dir * sgn(d) * g2 == p
            &&& (0 < p < e * s ==> g1 == g0)
        }),
{
    let bound = e * s;
    let g1 = bounced(p, bound, d, g0, dir);
    lemma_axis_tick(p, e, s, d, g0, dir, m);
    let sd = sgn(d);
    assert(sd == 1 || sd == -1);
    assert(g1 == 1 || g1 == -1) by (nonlinear_arith)
        requires
            g1 == bounced(p, bound, d, g0, dir),
            sd == sgn(d),
            sd == 1 || sd == -1,
            dir == 1 || dir == -1,
            g0 == 1 || g0 == -1,
    ;
    let v = dir * sd * g1;
    let k = d * g1 * dir;
    assert((v == 1 || v == -1) && (k > 0) == (v == 1) && (k < 0) == (v == -1)) by (nonlinear_arith)
        requires
            v == dir * sd * g1,
            k == d * g1 * dir,
            d > 0 ==> sd == 1,
            d < 0 ==> sd == -1,
            d != 0,
            g1 == 1 || g1 == -1,
            dir == 1 || dir == -1,
    ;
    let q = p + m * dir * sgn(d) * g1;
    assert(q == p + m * v) by (nonlinear_arith)
        requires
            q == p + m * dir * sgn(d) * g1,
            v == dir * sd * g1,
            sd == sgn(d),
    ;
    assert(bound >= 1) by (nonlinear_arith)
        requires
            bound == e * s,
            e >= 1,
            s >= 1,
    ;
    // The tick back keeps the travel sign.
    let g2 = bounced(q, bound, d, g1, -dir);
    assert(g2 == g1) by {
        if q >= bound {
            assert(v == 1);
            assert(-sd * -dir == g1) by (nonlinear_arith)
                requires
                    v == dir * sd * g1,
                    v == 1,
                    sd == 1 || sd == -1,
                    dir == 1 || dir == -1,
                    g1 == 1 || g1 == -1,
            ;
        } else if q <= 0 {
            assert(v == -1);
            assert(sd * -dir == g1) by (nonlinear_arith)
                requires
                    v == dir * sd * g1,
                    v == -1,
                    sd == 1 || sd == -1,
                    dir == 1 || dir == -1,
                    g1 == 1 || g1 == -1,
            ;
        }
    }
    let kb = d * g2 * -dir;
    assert(kb == -k) by (nonlinear_arith)
        requires
            kb == d * g2 * -dir,
            k == d * g1 * dir,
            g2 == g1,
    ;
    assert(q + m * -dir * sgn(d) * g2 == p) by (nonlinear_arith)
        requires
            q == p + m * v,
            v == dir * sd * g1,
            sd == sgn(d),
            g2 == g1,
    ;
    assert((-dir * d * g2 < 0) == (k > 0) && (dir * d * g1 < 0) == (k < 0)) by (nonlinear_arith)
        requires
            k == d * g1 * dir,
            g2 == g1,
    ;
    let r = next_multiple(p, s, k);
    lemma_next_multiple(p, s, k);
    let rb = next_multiple(q, s, kb);
    lemma_next_multiple(q, s, kb);
    lemma_fundamental_div_mod(p, s);
    let qp = p / s;
    if v == 1 {
        // Up to the next line `r`, then back down to the last line below `q`.
        assert(r == s * (qp + 1)) by (nonlinear_arith)
            requires
                r == p + s - p % s,
                p == s * qp + p % s,
        ;
        assert(distance(p, s, d, g1, dir) == r - p);
        assert(p < q <= r);
        lemma_div_in_block(q - 1, s, qp);
        assert(cell_along(p, s, d, g1, dir) == p / s);
        assert(cell_along(q, s, d, g2, -dir) == (q - 1) / s);
        assert(q - s <= rb < q);
        if rb > p {
            lemma_multiples_apart(r, rb, s);
        }
        if p % s == 0 {
            lemma_mod_multiple(p, s, qp);
            lemma_multiples_apart(rb, p, s);
        }
        assert(distance(q, s, d, g2, -dir) == q - rb);
    } else {
        // Down to the last line `r` below `p`, then back up to the next line above `q`.
        assert(r == s * qp || r == s * (qp - 1)) by (nonlinear_arith)
            requires
                p == s * qp + p % s,
                p % s == 0 ==> r == p - s,
                p % s != 0 ==> r == p - p % s,
        ;
        assert(distance(p, s, d, g1, dir) == p - r);
        assert(r <= q < p);
        lemma_fundamental_div_mod(r, s);
        let qr = r / s;
        assert(r == s * qr);
        assert(p <= r + s);
        lemma_div_in_block(p - 1, s, qr);
        lemma_div_in_block(q, s, qr);
        assert(cell_along(p, s, d, g1, dir) == (p - 1) / s);
        assert(cell_along(q, s, d, g2, -dir) == q / s);
        assert(q < rb <= q + s);
        if rb < p {
            lemma_multiples_apart(r, rb, s);
        }
        if p % s == 0 {
            lemma_mod_multiple(p, s, qp);
            lemma_multiples_apart(rb, p, s);
        }
        assert(distance(q, s, d, g2, -dir) == rb - q);
    }
}

/// A standing axis (direction component zero) at position 0: whatever its
/// travel sign, it flips cell 0, is a whole unit from its next grid line, and
/// does not move.
proof fn lemma_axis_standing(s: int, g: int, dir: int, m: int)
    requires
        s >= 1,
    ensures
        cell_along(0, s, 0, g, dir) == 0,
        distance(0, s, 0, g, dir) == s,
        m * dir * sgn(0) * g == 0,
{
    assert(dir * 0 * g == 0) by (nonlinear_arith);
    assert(0 * g * dir == 0) by (nonlinear_arith);
    assert(m * dir * 0 * g == 0) by (nonlinear_arith);
    lemma_next_multiple(0, s, 0);
    vstd::arithmetic::div_mod::lemma_small_mod(0, s as nat);
}

/// A moving axis that advances by its whole distance lands on a grid line.
proof fn lemma_axis_lands(p: int, e: int, s: int, d: int, g0: int, dir: int)
    requires
        e >= 1,
        s >= 1,
        0 <= p <= e * s,
        d != 0,
        g0 == 1 || g0 == -1,
        dir == 1 || dir == -1,
    ensures
        (p + distance(p, s, d, bounced(p, e * s, d, g0, dir), dir) * dir * sgn(d) * bounced(p, e * s, d, g0, dir)) % s
            == 0,
{
    let g1 = bounced(p, e * s, d, g0, dir);
    let m = distance(p, s, d, g1, dir);
    lemma_axis_tick(p, e, s, d, g0, dir, m);
    lemma_axis_reverse(p, e, s, d, g0, dir, m);
    let k = d * g1 * dir;
    let r = next_multiple(p, s, k);
    lemma_next_multiple(p, s, k);
    let sd = sgn(d);
    assert(sd == 1 || sd == -1);
    assert(p + m * dir * sd * g1 == r) by (nonlinear_arith)
        requires
            m == (if r >= p { r - p } else { p - r }),
            k == d * g1 * dir,
            k >= 0 ==> p < r,
            k < 0 ==> r < p,
            d > 0 ==> sd == 1,
            d < 0 ==> sd == -1,
            d != 0,
            g1 == 1 || g1 == -1,
            dir == 1 || dir == -1,
    ;
}

/// Two travel signs of one axis that the next bounce check cannot tell apart:
/// the axis stands still, sits on or beyond a wall, or the signs are equal.
pub open spec fn agrees(p: int, bound: int, d: int, sa: int, sb: int) -> bool {
    d == 0 || p <= 0 || p >= bound || sa == sb
}

/// Two traces that every later tick treats alike: same position, same cells,
/// and signs that agree on every axis.
pub open spec fn same_course(a: Trace, b: Trace, d: IVec3, e: (int, int, int)) -> bool {
    let s = scales(d);
    &&& a.pos == b.pos
    &&& a.cells == b.cells
    &&& agrees(a.pos.0, e.0 * s.0, d.x as int, a.sign.0, b.sign.0)
    &&& agrees(a.pos.1, e.1 * s.1, d.y as int, a.sign.1, b.sign.1)
    &&& agrees(a.pos.2, e.2 * s.2, d.z as int, a.sign.2, b.sign.2)
}

/// A state that a traversal reaches by ticking either way from the origin:
/// positions between the walls, standing axes at zero, moving axes with a
/// travel sign of 1 or -1, and, unless every axis stands, some moving axis on
/// a grid line.
pub open spec fn on_course(t: Trace, d: IVec3, e: (int, int, int)) -> bool {
    let s = scales(d);
    &&& fits(d, e)
    &&& t.cells.len() == e.0 * e.1 * e.2
    &&& axis_on_course(t.pos.0, e.0 * s.0, d.x as int, t.sign.0)
    &&& axis_on_course(t.pos.1, e.1 * s.1, d.y as int, t.sign.1)
    &&& axis_on_course(t.pos.2, e.2 * s.2, d.z as int, t.sign.2)
    &&& (d.x != 0 || d.y != 0 || d.z != 0) ==> ((d.x != 0 && t.pos.0 % s.0 == 0) || (d.y != 0 && t.pos.1 % s.1
        == 0) || (d.z != 0 && t.pos.2 % s.2 == 0))
}

pub open spec fn axis_on_course(p: int, bound: int, d: int, g: int) -> bool {
    &&& 0 <= p <= bound
    &&& -1 <= g <= 1
    &&& d == 0 ==> p == 0
    &&& d != 0 ==> (g == 1 || g == -1)
}

/// Signs that agree give the same tick on that axis.
proof fn lemma_axis_congruent(p: int, bound: int, s: int, d: int, sa: int, sb: int, dir: int, m: int)
    requires
        agrees(p, bound, d, sa, sb),
    ensures
        ({
            let ga = bounced(p, bound, d, sa, dir);
            let gb = bounced(p, bound, d, sb, dir);
            &&& cell_along(p, s, d, ga, dir) == cell_along(p, s, d, gb, dir)
            &&& distance(p, s, d, ga, dir) == distance(p, s, d, gb, dir)
            &&& m * dir * sgn(d) * ga == m * dir * sgn(d) * gb
            &&& (d == 0 || ga == gb)
        }),
{
    let ga = bounced(p, bound, d, sa, dir);
    let gb = bounced(p, bound, d, sb, dir);
    if d == 0 {
        assert(dir * d * ga == 0 && dir * d * gb == 0) by (nonlinear_arith)
            requires
                d == 0,
        ;
        assert(d * ga * dir == 0 && d * gb * dir == 0) by (nonlinear_arith)
            requires
                d == 0,
        ;
        assert(m * dir * sgn(d) * ga == 0 && m * dir * sgn(d) * gb == 0) by (nonlinear_arith)
            requires
                sgn(d) == 0,
        ;
    }
}

proof fn lemma_tick_congruent(a: Trace, b: Trace, d: IVec3, e: (int, int, int), dir: int)
    requires
        same_course(a, b, d, e),
    ensures
        same_course(tick(a, d, e, dir), tick(b, d, e, dir), d, e),
{
    let s = scales(d);
    let m = min3(
        distance(a.pos.0, s.0, d.x as int, bounced(a.pos.0, e.0 * s.0, d.x as int, a.sign.0, dir), dir),
        distance(a.pos.1, s.1, d.y as int, bounced(a.pos.1, e.1 * s.1, d.y as int, a.sign.1, dir), dir),
        distance(a.pos.2, s.2, d.z as int, bounced(a.pos.2, e.2 * s.2, d.z as int, a.sign.2, dir), dir),
    );
    lemma_axis_congruent(a.pos.0, e.0 * s.0, s.0, d.x as int, a.sign.0, b.sign.0, dir, m);
    lemma_axis_congruent(a.pos.1, e.1 * s.1, s.1, d.y as int, a.sign.1, b.sign.1, dir, m);
    lemma_axis_congruent(a.pos.2, e.2 * s.2, s.2, d.z as int, a.sign.2, b.sign.2, dir, m);
    assert(tick_cell(a, d, e, dir) == tick_cell(b, d, e, dir));
}

proof fn lemma_run_congruent(a: Trace, b: Trace, d: IVec3, e: (int, int, int), dir: int, n: nat)
    requires
        same_course(a, b, d, e),
    ensures
        same_course(run(a, d, e, dir, n), run(b, d, e, dir, n), d, e),
    decreases n,
{
    if n > 0 {
        lemma_run_congruent(a, b, d, e, dir, (n - 1) as nat);
        lemma_tick_congruent(run(a, d, e, dir, (n - 1) as nat), run(b, d, e, dir, (n - 1) as nat), d, e, dir);
    }
}

proof fn lemma_same_course_trans(a: Trace, b: Trace, c: Trace, d: IVec3, e: (int, int, int))
    requires
        same_course(a, b, d, e),
        same_course(b, c, d, e),
    ensures
        same_course(a, c, d, e),
{
}

/// Running `n + 1` ticks is one tick followed by `n`.
proof fn lemma_run_peel(t: Trace, d: IVec3, e: (int, int, int), dir: int, n: nat)
    ensures
        run(t, d, e, dir, n + 1) == run(tick(t, d, e, dir), d, e, dir, n),
    decreases n,
{
    assert(run(t, d, e, dir, n + 1) == tick(run(t, d, e, dir, n), d, e, dir));
    if n > 0 {
        lemma_run_peel(t, d, e, dir, (n - 1) as nat);
        assert(run(tick(t, d, e, dir), d, e, dir, n) == tick(
            run(tick(t, d, e, dir), d, e, dir, (n - 1) as nat),
            d,
            e,
            dir,
        ));
    } else {
        assert(run(t, d, e, dir, 0) == t);
        assert(run(tick(t, d, e, dir), d, e, dir, 0) == tick(t, d, e, dir));
    }
}

/// A standing axis's scale is at least that of any other axis.
proof fn lemma_standing_scale(d: IVec3)
    ensures
        d.x == 0 ==> scales(d).1 <= scales(d).0 && scales(d).2 <= scales(d).0,
        d.y == 0 ==> scales(d).0 <= scales(d).1 && scales(d).2 <= scales(d).1,
        d.z == 0 ==> scales(d).0 <= scales(d).2 && scales(d).1 <= scales(d).2,
{
    let (a, b, c) = (mag(d.x as int), mag(d.y as int), mag(d.z as int));
    assert(a >= 1 && b >= 1 && c >= 1);
    assert(b <= a * b && c <= a * c && a <= a * b && c <= b * c && a <= a * c && b <= b * c) by (nonlinear_arith)
        requires
            a >= 1 && b >= 1 && c >= 1,
    ;
    assert(mag(0) == 1);
    assert(1 * c == c && 1 * b == b && a * 1 == a && b * 1 == b) by (nonlinear_arith);
}

/// Facts about one axis of the first tick from a state on course.
proof fn lemma_axis_forward(p: int, e: int, s: int, d: int, g0: int, dir: int, m: int)
    requires
        e >= 1,
        s >= 1,
        dir == 1 || dir == -1,
        axis_on_course(p, e * s, d, g0),
        1 <= m <= distance(p, s, d, bounced(p, e * s, d, g0, dir), dir),
    ensures
        1 <= distance(p, s, d, bounced(p, e * s, d, g0, dir), dir) <= s,
        d == 0 ==> distance(p, s, d, bounced(p, e * s, d, g0, dir), dir) == s,
        axis_on_course(p + m * dir * sgn(d) * bounced(p, e * s, d, g0, dir), e * s, d, bounced(p, e * s, d, g0, dir)),
{
    let g1 = bounced(p, e * s, d, g0, dir);
    lemma_axis_tick(p, e, s, d, g0, dir, m);
    if d == 0 {
        lemma_axis_standing(s, g1, dir, m);
    } else {
        lemma_axis_reverse(p, e, s, d, g0, dir, m);
    }
}

/// After a tick from a state on course, some moving axis sits on a
/// grid line: the shortest distance always belongs to a moving axis.
proof fn lemma_tick_lands(u: Trace, d: IVec3, e: (int, int, int), dir: int)
    requires
        on_course(u, d, e),
        dir == 1 || dir == -1,
        d.x != 0 || d.y != 0 || d.z != 0,
    ensures
        ({
            let w = tick(u, d, e, dir);
            let s = scales(d);
            (d.x != 0 && w.pos.0 % s.0 == 0) || (d.y != 0 && w.pos.1 % s.1 == 0) || (d.z != 0 && w.pos.2 % s.2
                == 0)
        }),
{
    let s = scales(d);
    lemma_scales_positive(d);
    lemma_standing_scale(d);
    let gx = bounced(u.pos.0, e.0 * s.0, d.x as int, u.sign.0, dir);
    let gy = bounced(u.pos.1, e.1 * s.1, d.y as int, u.sign.1, dir);
    let gz = bounced(u.pos.2, e.2 * s.2, d.z as int, u.sign.2, dir);
    let dx = distance(u.pos.0, s.0, d.x as int, gx, dir);
    let dy = distance(u.pos.1, s.1, d.y as int, gy, dir);
    let dz = distance(u.pos.2, s.2, d.z as int, gz, dir);
    lemma_axis_forward(u.pos.0, e.0, s.0, d.x as int, u.sign.0, dir, 1);
    lemma_axis_forward(u.pos.1, e.1, s.1, d.y as int, u.sign.1, dir, 1);
    lemma_axis_forward(u.pos.2, e.2, s.2, d.z as int, u.sign.2, dir, 1);
    let m = min3(dx, dy, dz);
    let w = tick(u, d, e, dir);
    assert(w.pos == (
        u.pos.0 + m * dir * sgn(d.x as int) * gx,
        u.pos.1 + m * dir * sgn(d.y as int) * gy,
        u.pos.2 + m * dir * sgn(d.z as int) * gz,
    ));
    if d.x != 0 && dx == m {
        lemma_axis_lands(u.pos.0, e.0, s.0, d.x as int, u.sign.0, dir);
    } else if d.y != 0 && dy == m {
        lemma_axis_lands(u.pos.1, e.1, s.1, d.y as int, u.sign.1, dir);
    } else {
        assert(d.z != 0 && dz == m);
        lemma_axis_lands(u.pos.2, e.2, s.2, d.z as int, u.sign.2, dir);
    }
}

/// A tick in either direction keeps a state on course.
proof fn lemma_tick_on_course(u: Trace, d: IVec3, e: (int, int, int), dir: int)
    requires
        on_course(u, d, e),
        dir == 1 || dir == -1,
    ensures
        on_course(tick(u, d, e, dir), d, e),
{
    let s = scales(d);
    lemma_scales_positive(d);
    let gx = bounced(u.pos.0, e.0 * s.0, d.x as int, u.sign.0, dir);
    let gy = bounced(u.pos.1, e.1 * s.1, d.y as int, u.sign.1, dir);
    let gz = bounced(u.pos.2, e.2 * s.2, d.z as int, u.sign.2, dir);
    let dx = distance(u.pos.0, s.0, d.x as int, gx, dir);
    let dy = distance(u.pos.1, s.1, d.y as int, gy, dir);
    let dz = distance(u.pos.2, s.2, d.z as int, gz, dir);
    lemma_axis_forward(u.pos.0, e.0, s.0, d.x as int, u.sign.0, dir, 1);
    lemma_axis_forward(u.pos.1, e.1, s.1, d.y as int, u.sign.1, dir, 1);
    lemma_axis_forward(u.pos.2, e.2, s.2, d.z as int, u.sign.2, dir, 1);
    let m = min3(dx, dy, dz);
    lemma_axis_forward(u.pos.0, e.0, s.0, d.x as int, u.sign.0, dir, m);
    lemma_axis_forward(u.pos.1, e.1, s.1, d.y as int, u.sign.1, dir, m);
    lemma_axis_forward(u.pos.2, e.2, s.2, d.z as int, u.sign.2, dir, m);
    let w = tick(u, d, e, dir);
    assert(w.pos == (
        u.pos.0 + m * dir * sgn(d.x as int) * gx,
        u.pos.1 + m * dir * sgn(d.y as int) * gy,
        u.pos.2 + m * dir * sgn(d.z as int) * gz,
    ));
    assert(w.sign == (gx, gy, gz));
    lemma_cell_index_bounds(
        e.0,
        e.1,
        e.2,
        cell_along(u.pos.0, s.0, d.x as int, gx, dir),
        cell_along(u.pos.1, s.1, d.y as int, gy, dir),
        cell_along(u.pos.2, s.2, d.z as int, gz, dir),
    );
    assert(w.cells.len() == u.cells.len());
    if d.x != 0 || d.y != 0 || d.z != 0 {
        lemma_tick_lands(u, d, e, dir);
    }
}

proof fn lemma_run_on_course(t: Trace, d: IVec3, e: (int, int, int), dir: int, k: nat)
    requires
        on_course(t, d, e),
        dir == 1 || dir == -1,
    ensures
        on_course(run(t, d, e, dir, k), d, e),
    decreases k,
{
    if k > 0 {
        lemma_run_on_course(t, d, e, dir, (k - 1) as nat);
        lemma_tick_on_course(run(t, d, e, dir, (k - 1) as nat), d, e, dir);
    }
}

/// From a state on course, one tick in direction `dir` and one in the other
/// direction return to the same position and cells, with signs that agree.
proof fn lemma_back_step(u: Trace, d: IVec3, e: (int, int, int), dir: int)
    requires
        on_course(u, d, e),
        dir == 1 || dir == -1,
    ensures
        same_course(tick(tick(u, d, e, dir), d, e, -dir), u, d, e),
{
    let s = scales(d);
    lemma_scales_positive(d);
    lemma_standing_scale(d);
    let gx = bounced(u.pos.0, e.0 * s.0, d.x as int, u.sign.0, dir);
    let gy = bounced(u.pos.1, e.1 * s.1, d.y as int, u.sign.1, dir);
    let gz = bounced(u.pos.2, e.2 * s.2, d.z as int, u.sign.2, dir);
    let dx = distance(u.pos.0, s.0, d.x as int, gx, dir);
    let dy = distance(u.pos.1, s.1, d.y as int, gy, dir);
    let dz = distance(u.pos.2, s.2, d.z as int, gz, dir);
    lemma_axis_forward(u.pos.0, e.0, s.0, d.x as int, u.sign.0, dir, 1);
    lemma_axis_forward(u.pos.1, e.1, s.1, d.y as int, u.sign.1, dir, 1);
    lemma_axis_forward(u.pos.2, e.2, s.2, d.z as int, u.sign.2, dir, 1);
    let m = min3(dx, dy, dz);
    let w = tick(u, d, e, dir);
    if d.x != 0 {
        lemma_axis_reverse(u.pos.0, e.0, s.0, d.x as int, u.sign.0, dir, m);
    } else {
        lemma_axis_standing(s.0, u.sign.0, dir, m);
        lemma_axis_standing(s.0, gx, -dir, m);
    }
    if d.y != 0 {
        lemma_axis_reverse(u.pos.1, e.1, s.1, d.y as int, u.sign.1, dir, m);
    } else {
        lemma_axis_standing(s.1, u.sign.1, dir, m);
        lemma_axis_standing(s.1, gy, -dir, m);
    }
    if d.z != 0 {
        lemma_axis_reverse(u.pos.2, e.2, s.2, d.z as int, u.sign.2, dir, m);
    } else {
        lemma_axis_standing(s.2, u.sign.2, dir, m);
        lemma_axis_standing(s.2, gz, -dir, m);
    }
    // The backward tick moves by the same amount.
    let hx = bounced(w.pos.0, e.0 * s.0, d.x as int, w.sign.0, -dir);
    let hy = bounced(w.pos.1, e.1 * s.1, d.y as int, w.sign.1, -dir);
    let hz = bounced(w.pos.2, e.2 * s.2, d.z as int, w.sign.2, -dir);
    let bx = distance(w.pos.0, s.0, d.x as int, hx, -dir);
    let by = distance(w.pos.1, s.1, d.y as int, hy, -dir);
    let bz = distance(w.pos.2, s.2, d.z as int, hz, -dir);
    assert(w.pos.0 == u.pos.0 + m * dir * sgn(d.x as int) * gx);
    assert(w.sign.0 == gx);
    assert(bx >= m && by >= m && bz >= m);
    assert(min3(bx, by, bz) == m);
    let z = tick(w, d, e, -dir);
    lemma_cell_index_bounds(
        e.0,
        e.1,
        e.2,
        cell_along(u.pos.0, s.0, d.x as int, gx, dir),
        cell_along(u.pos.1, s.1, d.y as int, gy, dir),
        cell_along(u.pos.2, s.2, d.z as int, gz, dir),
    );
    let i = tick_cell(u, d, e, dir);
    assert(tick_cell(w, d, e, -dir) == i);
    assert(z.cells =~= u.cells);
    assert(z.pos == u.pos);
}

/// Ticking `n` times in direction `dir` and then `n` times in the other
/// direction from a state on course gives back its position and cells.
proof fn lemma_restores(u: Trace, d: IVec3, e: (int, int, int), dir: int, n: nat)
    requires
        on_course(u, d, e),
        dir == 1 || dir == -1,
    ensures
        same_course(run(run(u, d, e, dir, n), d, e, -dir, n), u, d, e),
    decreases n,
{
    if n > 0 {
        let k = (n - 1) as nat;
        let w = run(u, d, e, dir, k);
        lemma_run_on_course(u, d, e, dir, k);
        lemma_run_peel(tick(w, d, e, dir), d, e, -dir, k);
        lemma_back_step(w, d, e, dir);
        lemma_run_congruent(tick(tick(w, d, e, dir), d, e, -dir), w, d, e, -dir, k);
        lemma_restores(u, d, e, dir, k);
        lemma_same_course_trans(
            run(tick(tick(w, d, e, dir), d, e, -dir), d, e, -dir, k),
            run(w, d, e, -dir, k),
            u,
            d,
            e,
        );
    }
}

/// The state in which `BitFlipper::new_with_grid` leaves a traversal (at the
/// origin, every travel sign 1) is on course.
pub proof fn start_on_course(t: Trace, d: IVec3, e: (int, int, int))
    requires
        fits(d, e),
        t.cells.len() == e.0 * e.1 * e.2,
        t.pos == (0int, 0int, 0int),
        t.sign == (1int, 1int, 1int),
    ensures
        on_course(t, d, e),
{
    let s = scales(d);
    lemma_scales_positive(d);
    lemma_fits_bounds(d, e);
    vstd::arithmetic::div_mod::lemma_small_mod(0, s.0 as nat);
    vstd::arithmetic::div_mod::lemma_small_mod(0, s.1 as nat);
    vstd::arithmetic::div_mod::lemma_small_mod(0, s.2 as nat);
}

/// Every `step`, forward or backward, keeps a traversal on course: so does
/// any sequence of steps from the start.
pub proof fn run_stays_on_course(u: Trace, d: IVec3, e: (int, int, int), dir: int, k: nat)
    requires
        on_course(u, d, e),
        dir == 1 || dir == -1,
    ensures
        on_course(run(u, d, e, dir, k), d, e),
{
    lemma_run_on_course(u, d, e, dir, k);
}

/// Stepping a traversal `n` ticks one way and then `n` ticks the other way
/// returns it to the position it had and leaves its grid as it was, every
/// flipped cell flipped back. It holds of every state on course, which is
/// every state that steps from the start reach (`start_on_course`,
/// `run_stays_on_course`).
pub proof fn forward_backward_restores(u: Trace, d: IVec3, e: (int, int, int), dir: int, n: nat)
    requires
        on_course(u, d, e),
        dir == 1 || dir == -1,
    ensures
        run(run(u, d, e, dir, n), d, e, -dir, n).pos == u.pos,
        run(run(u, d, e, dir, n), d, e, -dir, n).cells == u.cells,
{
    lemma_restores(u, d, e, dir, n);
}

} // verus!
