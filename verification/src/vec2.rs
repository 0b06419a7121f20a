//! Plane vectors over integer coordinates, the dot product and squared norm,
//! and the two geometric lemmas the collision resolvers rest on: elastic
//! reflection preserves the squared speed, and pushing a point along its ray
//! to a target distance lands within a small constant of that distance.

use vstd::prelude::*;
use crate::math::{div_trunc, in_coord_range, sqrt_floor, lemma_div_trunc_bounds,
    lemma_sqrt_floor_bounds, lemma_sqrt_floor_ge, lemma_sqrt_floor_le};

verus! {

/// A position or velocity in the plane.
#[derive(Clone, Copy, PartialEq, Eq, Structural, Debug)]
pub struct Vec2 {
    pub x: i128,
    pub y: i128,
}

pub open spec fn dot2(ax: int, ay: int, bx: int, by: int) -> int {
    ax * bx + ay * by
}

pub open spec fn nsq2(x: int, y: int) -> int {
    x * x + y * y
}

/// Length of `(x, y)`, rounded down.
pub open spec fn dist2(x: int, y: int) -> int {
    sqrt_floor(nsq2(x, y))
}

pub open spec fn vec_in_coord_range(v: Vec2) -> bool {
    in_coord_range(v.x as int) && in_coord_range(v.y as int)
}

pub proof fn lemma_nsq2_nonneg(x: int, y: int)
    ensures
        nsq2(x, y) >= 0,
        nsq2(x, y) == 0 <==> (x == 0 && y == 0),
{
    assert(x * x >= 0 && y * y >= 0 && (x != 0 ==> x * x > 0) && (y != 0 ==> y * y > 0))
        by (nonlinear_arith);
}

/// Each component of a vector is bounded by the rounded-down length.
pub proof fn lemma_component_le_dist(x: int, y: int)
    ensures
        -dist2(x, y) <= x <= dist2(x, y),
        -dist2(x, y) <= y <= dist2(x, y),
{
    lemma_nsq2_nonneg(x, y);
    lemma_sqrt_floor_bounds(nsq2(x, y));
    let d: int = dist2(x, y);
    assert(-d <= x <= d && -d <= y <= d) by (nonlinear_arith)
        requires x * x + y * y < (d + 1) * (d + 1), 0 <= d;
}

/// Elastic reflection preserves kinetic energy: reflecting `v` about the
/// normal direction of `d` gives `v' = v - 2 (v.d) d / (d.d)`; scaled by
/// `s = d.d` to stay in integers, the reflected vector has exactly the
/// squared magnitude of `s * v`.
pub proof fn lemma_reflection_preserves_energy(vx: int, vy: int, dx: int, dy: int)
    ensures
        ({
            let s: int = nsq2(dx, dy);
            let t: int = dot2(vx, vy, dx, dy);
            nsq2(s * vx - 2 * (t * dx), s * vy - 2 * (t * dy)) == s * s * nsq2(vx, vy)
        }),
{
    let s: int = nsq2(dx, dy);
    let t: int = dot2(vx, vy, dx, dy);
    let u: int = vx * dx;
    let z: int = vy * dy;
    let a: int = s * vx;
    let b: int = t * dx;
    let c: int = s * vy;
    let e: int = t * dy;
    let rx: int = a - 2 * b;
    let ry: int = c - 2 * e;
    assert(rx * rx == a * a - 4 * (a * b) + 4 * (b * b)) by (nonlinear_arith)
        requires rx == a - 2 * b;
    assert(ry * ry == c * c - 4 * (c * e) + 4 * (e * e)) by (nonlinear_arith)
        requires ry == c - 2 * e;
    assert(a * b == s * (t * u)) by (nonlinear_arith)
        requires a == s * vx, b == t * dx, u == vx * dx;
    assert(c * e == s * (t * z)) by (nonlinear_arith)
        requires c == s * vy, e == t * dy, z == vy * dy;
    assert(s * (t * u) + s * (t * z) == s * (t * t)) by (nonlinear_arith)
        requires t == u + z;
    assert(b * b == (t * t) * (dx * dx)) by (nonlinear_arith)
        requires b == t * dx;
    assert(e * e == (t * t) * (dy * dy)) by (nonlinear_arith)
        requires e == t * dy;
    assert((t * t) * (dx * dx) + (t * t) * (dy * dy) == s * (t * t)) by (nonlinear_arith)
        requires s == dx * dx + dy * dy;
    assert(a * a + c * c == s * s * nsq2(vx, vy)) by (nonlinear_arith)
        requires a == s * vx, c == s * vy;
    assert(nsq2(rx, ry) == rx * rx + ry * ry);
}

/// Moving the point `(px, py)` along its own ray so that its distance from
/// the origin becomes `k`, with each coordinate rounded to an integer (the
/// rounding error per coordinate is below one divisor), lands at most 4 away
/// from `k`: at most `k + 4` when the point moves inward (`k <= dd`), and at
/// least `k - 4` when it moves outward.  `dd` is the rounded-down distance
/// of the starting point and `(qx, qy)` the landing point.
pub proof fn lemma_retarget_distance(px: int, py: int, qx: int, qy: int, dd: int, k: int)
    requires
        1 <= dd,
        0 <= k,
        dd * dd <= px * px + py * py,
        px * px + py * py < (dd + 1) * (dd + 1),
        -(dd - 1) <= dd * qx - k * px <= dd - 1,
        -(dd - 1) <= dd * qy - k * py <= dd - 1,
    ensures
        k <= dd ==> nsq2(qx, qy) <= (k + 4) * (k + 4),
        4 <= k ==> (k - 4) * (k - 4) <= nsq2(qx, qy),
{
    let ex: int = dd * qx - k * px;
    let ey: int = dd * qy - k * py;
    let sx: int = (dd * qx) * (dd * qx);
    let sy: int = (dd * qy) * (dd * qy);
    let kx: int = (k * px) * (k * px);
    let ky: int = (k * py) * (k * py);
    let m: int = k * dd * (dd - 1);
    let w: int = (dd - 1) * (dd - 1);
    assert(-dd <= px <= dd && -dd <= py <= dd) by (nonlinear_arith)
        requires px * px + py * py < (dd + 1) * (dd + 1), 1 <= dd;
    assert(kx - 2 * m <= sx <= kx + 2 * m + w) by (nonlinear_arith)
        requires
            sx == (dd * qx) * (dd * qx),
            kx == (k * px) * (k * px),
            m == k * dd * (dd - 1),
            w == (dd - 1) * (dd - 1),
            dd * qx == k * px + ex,
            -(dd - 1) <= ex <= dd - 1,
            -dd <= px <= dd,
            0 <= k,
            1 <= dd,
    ;
    assert(ky - 2 * m <= sy <= ky + 2 * m + w) by (nonlinear_arith)
        requires
            sy == (dd * qy) * (dd * qy),
            ky == (k * py) * (k * py),
            m == k * dd * (dd - 1),
            w == (dd - 1) * (dd - 1),
            dd * qy == k * py + ey,
            -(dd - 1) <= ey <= dd - 1,
            -dd <= py <= dd,
            0 <= k,
            1 <= dd,
    ;
    assert(kx + ky == k * k * (px * px + py * py)) by (nonlinear_arith)
        requires kx == (k * px) * (k * px), ky == (k * py) * (k * py);
    assert(sx + sy == dd * dd * (qx * qx + qy * qy)) by (nonlinear_arith)
        requires sx == (dd * qx) * (dd * qx), sy == (dd * qy) * (dd * qy);
    assert((dd + 1) * (dd + 1) == dd * dd + 2 * dd + 1) by (nonlinear_arith);
    if k <= dd {
        assert(k * k * (px * px + py * py) <= k * k * (dd * dd + 2 * dd)) by (nonlinear_arith)
            requires px * px + py * py <= dd * dd + 2 * dd;
        assert(k * k * (dd * dd + 2 * dd) + 4 * m + 2 * w <= dd * dd * ((k + 4) * (k + 4)))
            by (nonlinear_arith)
            requires m == k * dd * (dd - 1), w == (dd - 1) * (dd - 1), 0 <= k <= dd, 1 <= dd;
        assert(qx * qx + qy * qy <= (k + 4) * (k + 4)) by (nonlinear_arith)
            requires
                dd * dd * (qx * qx + qy * qy) <= dd * dd * ((k + 4) * (k + 4)),
                1 <= dd,
        ;
    }
    if 4 <= k {
        assert(k * k * (dd * dd) <= k * k * (px * px + py * py)) by (nonlinear_arith)
            requires dd * dd <= px * px + py * py;
        assert(dd * dd * ((k - 4) * (k - 4)) <= k * k * (dd * dd) - 4 * m) by (nonlinear_arith)
            requires m == k * dd * (dd - 1), 4 <= k, 1 <= dd;
        assert((k - 4) * (k - 4) <= qx * qx + qy * qy) by (nonlinear_arith)
            requires
                dd * dd * ((k - 4) * (k - 4)) <= dd * dd * (qx * qx + qy * qy),
                1 <= dd,
        ;
    }
}


/// When the squared length of the normal direction divides the scaled
/// projections exactly (as it does in the axis-aligned scenario), the
/// reflected velocity the resolver computes — `v` minus the truncating
/// quotients `(cx, cy)` — preserves the squared speed exactly.
pub proof fn lemma_reflection_energy_exact(
    vx: int,
    vy: int,
    dx: int,
    dy: int,
    cx: int,
    cy: int,
)
    requires
        nsq2(dx, dy) != 0,
        2 * (dot2(vx, vy, dx, dy) * dx) == nsq2(dx, dy) * cx,
        2 * (dot2(vx, vy, dx, dy) * dy) == nsq2(dx, dy) * cy,
    ensures
        div_trunc(2 * dot2(vx, vy, dx, dy) * dx, nsq2(dx, dy)) == cx,
        div_trunc(2 * dot2(vx, vy, dx, dy) * dy, nsq2(dx, dy)) == cy,
        nsq2(vx - cx, vy - cy) == nsq2(vx, vy),
{
    let s: int = nsq2(dx, dy);
    let t: int = dot2(vx, vy, dx, dy);
    lemma_nsq2_nonneg(dx, dy);
    assert(2 * t * dx == 2 * (t * dx) && 2 * t * dy == 2 * (t * dy)) by (nonlinear_arith);
    vstd::arithmetic::div_mod::lemma_div_multiples_vanish(cx, s);
    vstd::arithmetic::div_mod::lemma_div_multiples_vanish(-cx, s);
    vstd::arithmetic::div_mod::lemma_div_multiples_vanish(cy, s);
    vstd::arithmetic::div_mod::lemma_div_multiples_vanish(-cy, s);
    assert(-(s * cx) == s * (-cx) && -(s * cy) == s * (-cy)) by (nonlinear_arith);
    lemma_reflection_preserves_energy(vx, vy, dx, dy);
    assert(s * vx - 2 * (t * dx) == s * (vx - cx)) by (nonlinear_arith)
        requires 2 * (t * dx) == s * cx;
    assert(s * vy - 2 * (t * dy) == s * (vy - cy)) by (nonlinear_arith)
        requires 2 * (t * dy) == s * cy;
    assert(nsq2(s * (vx - cx), s * (vy - cy)) == s * s * nsq2(vx - cx, vy - cy))
        by (nonlinear_arith);
    assert(nsq2(vx - cx, vy - cy) == nsq2(vx, vy)) by (nonlinear_arith)
        requires
            s * s * nsq2(vx - cx, vy - cy) == s * s * nsq2(vx, vy),
            s != 0,
    ;
}


/// Energy non-increase up to rounding, at the reflection the resolvers
/// compute: the elastic reflection itself preserves speed exactly
/// (`lemma_reflection_preserves_energy`), and its two truncating divisions
/// move the rounded-down magnitude by at most 4 units, for any incoming
/// velocity and any direction with nonzero squared length.
pub proof fn lemma_reflection_speed_tolerance(vx: int, vy: int, px: int, py: int)
    requires
        nsq2(px, py) != 0,
    ensures
        ({
            let s: int = nsq2(px, py);
            let t: int = dot2(vx, vy, px, py);
            let wx: int = vx - div_trunc(2 * t * px, s);
            let wy: int = vy - div_trunc(2 * t * py, s);
            dist2(vx, vy) - 4 <= dist2(wx, wy) <= dist2(vx, vy) + 4
        }),
{
    let s: int = nsq2(px, py);
    let t: int = dot2(vx, vy, px, py);
    let vn: int = nsq2(vx, vy);
    let dv: int = dist2(vx, vy);
    lemma_nsq2_nonneg(px, py);
    lemma_nsq2_nonneg(vx, vy);
    lemma_sqrt_floor_bounds(vn);
    let rx: int = s * vx - 2 * (t * px);
    let ry: int = s * vy - 2 * (t * py);
    lemma_reflection_preserves_energy(vx, vy, px, py);
    assert(2 * t * px == 2 * (t * px) && 2 * t * py == 2 * (t * py)) by (nonlinear_arith);
    let qx: int = div_trunc(2 * t * px, s);
    let qy: int = div_trunc(2 * t * py, s);
    lemma_div_trunc_bounds(2 * t * px, s);
    lemma_div_trunc_bounds(2 * t * py, s);
    let wx: int = vx - qx;
    let wy: int = vy - qy;
    assert(s * wx == s * vx - s * qx) by (nonlinear_arith)
        requires wx == vx - qx;
    assert(s * wy == s * vy - s * qy) by (nonlinear_arith)
        requires wy == vy - qy;
    let ex: int = s * wx - rx;
    let ey: int = s * wy - ry;
    assert(-(s - 1) <= ex <= s - 1);
    assert(-(s - 1) <= ey <= s - 1);
    let m: int = s * (dv + 1);
    assert(rx * rx <= m * m && ry * ry <= m * m) by (nonlinear_arith)
        requires
            rx * rx + ry * ry == s * s * vn,
            vn < (dv + 1) * (dv + 1),
            m == s * (dv + 1),
            1 <= s,
            0 <= dv,
    ;
    assert(-m <= rx <= m && -m <= ry <= m) by (nonlinear_arith)
        requires rx * rx <= m * m, ry * ry <= m * m, 0 <= m;
    let sx: int = (s * wx) * (s * wx);
    let sy: int = (s * wy) * (s * wy);
    assert(rx * rx - 2 * (m * (s - 1)) <= sx <= rx * rx + 2 * (m * (s - 1)) + (s - 1) * (s - 1))
        by (nonlinear_arith)
        requires
            sx == (s * wx) * (s * wx),
            s * wx == rx + ex,
            -(s - 1) <= ex <= s - 1,
            -m <= rx <= m,
            m == s * (dv + 1),
            1 <= s,
            0 <= dv,
    ;
    assert(ry * ry - 2 * (m * (s - 1)) <= sy <= ry * ry + 2 * (m * (s - 1)) + (s - 1) * (s - 1))
        by (nonlinear_arith)
        requires
            sy == (s * wy) * (s * wy),
            s * wy == ry + ey,
            -(s - 1) <= ey <= s - 1,
            -m <= ry <= m,
            m == s * (dv + 1),
            1 <= s,
            0 <= dv,
    ;
    assert(sx + sy == s * s * (wx * wx + wy * wy)) by (nonlinear_arith)
        requires sx == (s * wx) * (s * wx), sy == (s * wy) * (s * wy);
    assert((dv + 1) * (dv + 1) == dv * dv + 2 * dv + 1) by (nonlinear_arith);
    assert(s * s * vn + 4 * (m * (s - 1)) + 2 * ((s - 1) * (s - 1)) <= s * s * ((dv + 3) * (dv
        + 3))) by (nonlinear_arith)
        requires m == s * (dv + 1), vn <= dv * dv + 2 * dv, 1 <= s, 0 <= dv;
    assert(wx * wx + wy * wy <= (dv + 3) * (dv + 3)) by (nonlinear_arith)
        requires
            s * s * (wx * wx + wy * wy) <= s * s * ((dv + 3) * (dv + 3)),
            1 <= s,
    ;
    lemma_nsq2_nonneg(wx, wy);
    lemma_sqrt_floor_le(nsq2(wx, wy), dv + 3);
    if dv >= 5 {
        assert(s * s * ((dv - 4) * (dv - 4)) <= s * s * vn - 4 * (m * (s - 1)))
            by (nonlinear_arith)
            requires m == s * (dv + 1), vn >= dv * dv, 5 <= dv, 1 <= s;
        assert((dv - 4) * (dv - 4) <= wx * wx + wy * wy) by (nonlinear_arith)
            requires
                s * s * ((dv - 4) * (dv - 4)) <= s * s * (wx * wx + wy * wy),
                1 <= s,
        ;
        lemma_sqrt_floor_ge(nsq2(wx, wy), dv - 4);
    } else {
        lemma_sqrt_floor_bounds(nsq2(wx, wy));
    }
}


/// The wide-error variant of the retargeting bound: when each coordinate of
/// the landing point carries up to twice the usual rounding error (as when
/// two bodies are pushed apart and both corrections round), the landing
/// point is still at least `k - 8` from the origin.
pub proof fn lemma_retarget_distance_lower_wide(
    px: int,
    py: int,
    qx: int,
    qy: int,
    dd: int,
    k: int,
)
    requires
        1 <= dd,
        0 <= k,
        dd * dd <= px * px + py * py,
        px * px + py * py < (dd + 1) * (dd + 1),
        -(2 * (dd - 1)) <= dd * qx - k * px <= 2 * (dd - 1),
        -(2 * (dd - 1)) <= dd * qy - k * py <= 2 * (dd - 1),
    ensures
        8 <= k ==> (k - 8) * (k - 8) <= nsq2(qx, qy),
{
    let ex: int = dd * qx - k * px;
    let ey: int = dd * qy - k * py;
    let sx: int = (dd * qx) * (dd * qx);
    let sy: int = (dd * qy) * (dd * qy);
    let kx: int = (k * px) * (k * px);
    let ky: int = (k * py) * (k * py);
    let m: int = k * dd * (dd - 1);
    assert(-dd <= px <= dd && -dd <= py <= dd) by (nonlinear_arith)
        requires px * px + py * py < (dd + 1) * (dd + 1), 1 <= dd;
    assert(kx - 4 * m <= sx) by (nonlinear_arith)
        requires
            sx == (dd * qx) * (dd * qx),
            kx == (k * px) * (k * px),
            m == k * dd * (dd - 1),
            dd * qx == k * px + ex,
            -(2 * (dd - 1)) <= ex <= 2 * (dd - 1),
            -dd <= px <= dd,
            0 <= k,
            1 <= dd,
    ;
    assert(ky - 4 * m <= sy) by (nonlinear_arith)
        requires
            sy == (dd * qy) * (dd * qy),
            ky == (k * py) * (k * py),
            m == k * dd * (dd - 1),
            dd * qy == k * py + ey,
            -(2 * (dd - 1)) <= ey <= 2 * (dd - 1),
            -dd <= py <= dd,
            0 <= k,
            1 <= dd,
    ;
    assert(kx + ky == k * k * (px * px + py * py)) by (nonlinear_arith)
        requires kx == (k * px) * (k * px), ky == (k * py) * (k * py);
    assert(sx + sy == dd * dd * (qx * qx + qy * qy)) by (nonlinear_arith)
        requires sx == (dd * qx) * (dd * qx), sy == (dd * qy) * (dd * qy);
    if 8 <= k {
        assert(k * k * (dd * dd) <= k * k * (px * px + py * py)) by (nonlinear_arith)
            requires dd * dd <= px * px + py * py;
        assert(dd * dd * ((k - 8) * (k - 8)) <= k * k * (dd * dd) - 8 * m) by (nonlinear_arith)
            requires m == k * dd * (dd - 1), 8 <= k, 1 <= dd;
        assert((k - 8) * (k - 8) <= qx * qx + qy * qy) by (nonlinear_arith)
            requires
                dd * dd * ((k - 8) * (k - 8)) <= dd * dd * (qx * qx + qy * qy),
                1 <= dd,
        ;
    }
}

} // verus!
