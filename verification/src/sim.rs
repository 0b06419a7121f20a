//! The simulation state and the fixed-timestep pipeline: gravity, position
//! integration, boundary collision resolution, pairwise body collision
//! resolution, and the event-driven effects (stochastic spawning, audio
//! cues).
//!
//! Geometry runs over integer coordinates.  Each stage accepts a body's
//! numbers only up to `COORD_LIMIT` and writes results back only up to
//! `STORE_LIMIT`; a body beyond those bounds is left untouched by that stage
//! instead of overflowing.  Both collision predicates deliberately use half
//! the body's radius as the effective collision radius: bodies and the cage
//! wall visually overlap a little before they bounce.

use vstd::prelude::*;
use crate::math::{
    COORD_LIMIT, DIR_LIMIT, STORE_LIMIT, div_trunc, div_trunc_i128, in_coord_range,
    in_store_range, isqrt,
    lemma_abs_mul_le, lemma_div_trunc_bounds, lemma_div_trunc_neg, lemma_sqrt_floor_bounds,
    lemma_sqrt_floor_ge, lemma_sqrt_floor_le,
};
use crate::vec2::{Vec2, dist2, dot2, nsq2, lemma_component_le_dist, lemma_nsq2_nonneg,
    lemma_reflection_speed_tolerance, lemma_retarget_distance,
    lemma_retarget_distance_lower_wide, vec_in_coord_range};

verus! {

/// A circular body: stable handle, position, velocity, radius and the
/// gravity acceleration acting on it (negative pulls downward).
#[derive(Clone, Copy, PartialEq, Eq, Structural, Debug)]
pub struct Body {
    pub id: u64,
    pub pos: Vec2,
    pub vel: Vec2,
    pub radius: i128,
    pub gravity: i128,
}

/// Emitted when a body penetrates the cage wall.
#[derive(Clone, Copy, PartialEq, Eq, Structural, Debug)]
pub struct BoundaryCollision {
    pub body: u64,
}

/// Emitted for each ordered pair of overlapping bodies: both `(a, b)` and
/// `(b, a)` appear in one tick.
#[derive(Clone, Copy, PartialEq, Eq, Structural, Debug)]
pub struct BodyCollision {
    pub body: u64,
    pub other: u64,
}

/// The whole simulation: the registry of live bodies plus the fixed
/// configuration (cage radius, ball radius, gravity, starting speed, spawn
/// probability in percent).  The cage is centered at the origin.
pub struct Sim {
    pub bodies: Vec<Body>,
    pub next_id: u64,
    pub cage_radius: i128,
    pub ball_radius: i128,
    pub gravity: i128,
    pub start_speed: i128,
    pub spawn_percent: u64,
}

pub open spec fn same_config(a: Sim, b: Sim) -> bool {
    &&& a.next_id == b.next_id
    &&& a.cage_radius == b.cage_radius
    &&& a.ball_radius == b.ball_radius
    &&& a.gravity == b.gravity
    &&& a.start_speed == b.start_speed
    &&& a.spawn_percent == b.spawn_percent
}

impl Sim {
    /// Configuration is sane and every body has a positive radius and a
    /// handle unique for its lifetime (below the registry's next handle).
    pub open spec fn wf(self) -> bool {
        &&& 0 < self.cage_radius <= COORD_LIMIT
        &&& 0 < self.ball_radius <= COORD_LIMIT
        &&& -COORD_LIMIT <= self.gravity <= COORD_LIMIT
        &&& 0 <= self.start_speed <= COORD_LIMIT
        &&& self.spawn_percent <= 100
        &&& forall|i: int|
            0 <= i < self.bodies@.len() ==> (#[trigger] self.bodies@[i]).radius > 0
        &&& forall|i: int|
            0 <= i < self.bodies@.len() ==> (#[trigger] self.bodies@[i]).id < self.next_id
        &&& forall|i: int, j: int|
            0 <= i < j < self.bodies@.len() ==> self.bodies@[i].id != self.bodies@[j].id
    }

    pub fn new(
        cage_radius: i128,
        ball_radius: i128,
        gravity: i128,
        start_speed: i128,
        spawn_percent: u64,
    ) -> (s: Sim)
        requires
            0 < cage_radius <= COORD_LIMIT,
            0 < ball_radius <= COORD_LIMIT,
            -COORD_LIMIT <= gravity <= COORD_LIMIT,
            0 <= start_speed <= COORD_LIMIT,
            spawn_percent <= 100,
        ensures
            s.wf(),
            s.bodies@.len() == 0,
            s.next_id == 0,
            s.cage_radius == cage_radius,
            s.ball_radius == ball_radius,
            s.gravity == gravity,
            s.start_speed == start_speed,
            s.spawn_percent == spawn_percent,
    {
        Sim {
            bodies: Vec::new(),
            next_id: 0,
            cage_radius,
            ball_radius,
            gravity,
            start_speed,
            spawn_percent,
        }
    }
}

/// Clears the registry of all bodies; configuration and the handle counter
/// are kept, so handles are never reused.
pub fn reset_all(sim: &mut Sim)
    requires
        old(sim).wf(),
    ensures
        final(sim).wf(),
        final(sim).bodies@.len() == 0,
        same_config(*final(sim), *old(sim)),
{
    sim.bodies.clear();
}

/// Velocity after one gravity step: `gravity * dt` is added to the vertical
/// component (gravity has no horizontal component).  A body whose numbers
/// are outside the accepted ranges is left unchanged.
pub open spec fn gravity_step(b: Body, dt: int) -> Body {
    let vy: int = b.vel.y + b.gravity * dt;
    if in_coord_range(b.vel.y as int) && in_coord_range(b.gravity as int) && dt
        <= COORD_LIMIT as int && in_store_range(vy) {
        Body { vel: Vec2 { x: b.vel.x, y: vy as i128 }, ..b }
    } else {
        b
    }
}

/// Position after one integration step: `velocity * dt` is added to the
/// position.  Runs after the gravity step of the same tick (semi-implicit
/// Euler).
pub open spec fn velocity_step(b: Body, dt: int) -> Body {
    let px: int = b.pos.x + b.vel.x * dt;
    let py: int = b.pos.y + b.vel.y * dt;
    if vec_in_coord_range(b.pos) && vec_in_coord_range(b.vel) && dt <= COORD_LIMIT as int
        && in_store_range(px) && in_store_range(py) {
        Body { pos: Vec2 { x: px as i128, y: py as i128 }, ..b }
    } else {
        b
    }
}

/// Adds `gravity * dt` to every body's vertical velocity.
pub fn apply_gravity(sim: &mut Sim, dt: i128)
    requires
        old(sim).wf(),
        0 <= dt,
    ensures
        final(sim).wf(),
        same_config(*final(sim), *old(sim)),
        final(sim).bodies@.len() == old(sim).bodies@.len(),
        forall|k: int|
            0 <= k < old(sim).bodies@.len() ==> final(sim).bodies@[k] == gravity_step(
                old(sim).bodies@[k],
                dt as int,
            ),
{
    let ghost orig: Sim = *sim;
    let n: usize = sim.bodies.len();
    let mut i: usize = 0;
    while i < n
        invariant
            i <= n,
            n == sim.bodies@.len(),
            sim.bodies@.len() == orig.bodies@.len(),
            same_config(*sim, orig),
            orig.wf(),
            0 <= dt,
            forall|k: int| 0 <= k < i ==> sim.bodies@[k] == gravity_step(orig.bodies@[k], dt as int),
            forall|k: int| i <= k < n ==> sim.bodies@[k] == orig.bodies@[k],
        decreases n - i,
    {
        let b: Body = sim.bodies[i];
        let mut nb: Body = b;
        if dt <= COORD_LIMIT && -COORD_LIMIT <= b.vel.y && b.vel.y <= COORD_LIMIT && -COORD_LIMIT
            <= b.gravity && b.gravity <= COORD_LIMIT {
            proof {
                lemma_abs_mul_le(b.gravity as int, dt as int, COORD_LIMIT as int,
                    COORD_LIMIT as int);
            }
            let vy: i128 = b.vel.y + b.gravity * dt;
            if -STORE_LIMIT <= vy && vy <= STORE_LIMIT {
                nb.vel.y = vy;
            }
        }
        assert(nb == gravity_step(b, dt as int));
        sim.bodies[i] = nb;
        i = i + 1;
    }
    proof {
        assert forall|k: int| 0 <= k < final(sim).bodies@.len() implies (
            #[trigger] final(sim).bodies@[k]).radius > 0 && final(sim).bodies@[k].id
            < final(sim).next_id by {
            assert(final(sim).bodies@[k] == gravity_step(orig.bodies@[k], dt as int));
        }
        assert forall|a: int, bb: int|
            0 <= a < bb < final(sim).bodies@.len() implies final(sim).bodies@[a].id != final(sim).bodies@[bb].id by {
            assert(final(sim).bodies@[a].id == orig.bodies@[a].id);
            assert(final(sim).bodies@[bb].id == orig.bodies@[bb].id);
        }
    }
}

/// Adds `velocity * dt` to every body's position.
pub fn apply_velocity(sim: &mut Sim, dt: i128)
    requires
        old(sim).wf(),
        0 <= dt,
    ensures
        final(sim).wf(),
        same_config(*final(sim), *old(sim)),
        final(sim).bodies@.len() == old(sim).bodies@.len(),
        forall|k: int|
            0 <= k < old(sim).bodies@.len() ==> final(sim).bodies@[k] == velocity_step(
                old(sim).bodies@[k],
                dt as int,
            ),
{
    let ghost orig: Sim = *sim;
    let n: usize = sim.bodies.len();
    let mut i: usize = 0;
    while i < n
        invariant
            i <= n,
            n == sim.bodies@.len(),
            sim.bodies@.len() == orig.bodies@.len(),
            same_config(*sim, orig),
            orig.wf(),
            0 <= dt,
            forall|k: int|
                0 <= k < i ==> sim.bodies@[k] == velocity_step(orig.bodies@[k], dt as int),
            forall|k: int| i <= k < n ==> sim.bodies@[k] == orig.bodies@[k],
        decreases n - i,
    {
        let b: Body = sim.bodies[i];
        let mut nb: Body = b;
        if dt <= COORD_LIMIT && -COORD_LIMIT <= b.pos.x && b.pos.x <= COORD_LIMIT && -COORD_LIMIT
            <= b.pos.y && b.pos.y <= COORD_LIMIT && -COORD_LIMIT <= b.vel.x && b.vel.x
            <= COORD_LIMIT && -COORD_LIMIT <= b.vel.y && b.vel.y <= COORD_LIMIT {
            proof {
                lemma_abs_mul_le(b.vel.x as int, dt as int, COORD_LIMIT as int, COORD_LIMIT as int);
                lemma_abs_mul_le(b.vel.y as int, dt as int, COORD_LIMIT as int, COORD_LIMIT as int);
            }
            let px: i128 = b.pos.x + b.vel.x * dt;
            let py: i128 = b.pos.y + b.vel.y * dt;
            if -STORE_LIMIT <= px && px <= STORE_LIMIT && -STORE_LIMIT <= py && py <= STORE_LIMIT {
                nb.pos.x = px;
                nb.pos.y = py;
            }
        }
        assert(nb == velocity_step(b, dt as int));
        sim.bodies[i] = nb;
        i = i + 1;
    }
    proof {
        assert forall|k: int| 0 <= k < final(sim).bodies@.len() implies (
            #[trigger] final(sim).bodies@[k]).radius > 0 && final(sim).bodies@[k].id
            < final(sim).next_id by {
            assert(final(sim).bodies@[k] == velocity_step(orig.bodies@[k], dt as int));
        }
        assert forall|a: int, bb: int|
            0 <= a < bb < final(sim).bodies@.len() implies final(sim).bodies@[a].id != final(sim).bodies@[bb].id by {
            assert(final(sim).bodies@[a].id == orig.bodies@[a].id);
            assert(final(sim).bodies@[bb].id == orig.bodies@[bb].id);
        }
    }
}


/// Half of `r`, rounded down: the effective collision radius used by both
/// collision predicates.
pub open spec fn half(r: int) -> int {
    r / 2
}

/// The boundary resolver reads this body's numbers (position and radius in
/// accepted range).
pub open spec fn cage_ok(b: Body) -> bool {
    vec_in_coord_range(b.pos) && in_coord_range(b.radius as int)
}

/// A body penetrates the cage wall: its distance from the cage center plus
/// half its radius exceeds the cage radius.  A body exactly at the cage
/// center is skipped (no direction to reflect about), as is one whose
/// numbers are out of accepted range.
pub open spec fn cage_hits(b: Body, cage_r: int) -> bool {
    &&& cage_ok(b)
    &&& nsq2(b.pos.x as int, b.pos.y as int) != 0
    &&& dist2(b.pos.x as int, b.pos.y as int) + half(b.radius as int) > cage_r
}

/// One body after boundary resolution: on penetration the velocity is
/// reflected about the inward normal (`v - 2 (v.n) n`, carried out as exact
/// integer arithmetic with one truncating division) and the position is
/// pushed back along the normal by the penetration amount; otherwise the
/// body is unchanged.
pub open spec fn cage_step(b: Body, cage_r: int) -> Body {
    if cage_hits(b, cage_r) {
        let px: int = b.pos.x as int;
        let py: int = b.pos.y as int;
        let s: int = nsq2(px, py);
        let dd: int = dist2(px, py);
        let t: int = dot2(b.vel.x as int, b.vel.y as int, px, py);
        let vx: int = b.vel.x - div_trunc(2 * t * px, s);
        let vy: int = b.vel.y - div_trunc(2 * t * py, s);
        let overlap: int = half(b.radius as int) + dd - cage_r;
        let qx: int = b.pos.x - div_trunc(overlap * px, dd);
        let qy: int = b.pos.y - div_trunc(overlap * py, dd);
        let vel: Vec2 = if vec_in_coord_range(b.vel) && in_store_range(vx) && in_store_range(vy) {
            Vec2 { x: vx as i128, y: vy as i128 }
        } else {
            b.vel
        };
        let pos: Vec2 = if in_store_range(qx) && in_store_range(qy) {
            Vec2 { x: qx as i128, y: qy as i128 }
        } else {
            b.pos
        };
        Body { pos, vel, ..b }
    } else {
        b
    }
}

/// The boundary collision events of one pass, in registry order.
pub open spec fn cage_events(bodies: Seq<Body>, cage_r: int) -> Seq<BoundaryCollision>
    decreases bodies.len(),
{
    if bodies.len() == 0 {
        Seq::empty()
    } else {
        cage_events(bodies.drop_last(), cage_r) + (if cage_hits(bodies.last(), cage_r) {
            seq![BoundaryCollision { body: bodies.last().id }]
        } else {
            Seq::empty()
        })
    }
}

/// The rounded-down speed of `v1` is within `tol` units of that of `v0`.
pub open spec fn speed_within(v0: Vec2, v1: Vec2, tol: int) -> bool {
    dist2(v0.x as int, v0.y as int) - tol <= dist2(v1.x as int, v1.y as int) <= dist2(
        v0.x as int,
        v0.y as int,
    ) + tol
}

/// Detects and resolves body-cage penetration for every body, emitting one
/// event per penetrating body.  A body not in collision is untouched.
/// Reflection never changes a body's speed by more than the rounding
/// tolerance of 4 units.
pub fn collide_cage(sim: &mut Sim) -> (events: Vec<BoundaryCollision>)
    requires
        old(sim).wf(),
    ensures
        final(sim).wf(),
        same_config(*final(sim), *old(sim)),
        final(sim).bodies@.len() == old(sim).bodies@.len(),
        forall|k: int|
            0 <= k < old(sim).bodies@.len() ==> final(sim).bodies@[k] == cage_step(
                old(sim).bodies@[k],
                old(sim).cage_radius as int,
            ),
        forall|k: int|
            0 <= k < old(sim).bodies@.len() && !cage_hits(
                old(sim).bodies@[k],
                old(sim).cage_radius as int,
            ) ==> final(sim).bodies@[k] == old(sim).bodies@[k],
        forall|k: int|
            0 <= k < old(sim).bodies@.len() ==> speed_within(
                old(sim).bodies@[k].vel,
                (#[trigger] final(sim).bodies@[k]).vel,
                4,
            ),
        events@ == cage_events(old(sim).bodies@, old(sim).cage_radius as int),
{
    let ghost orig: Sim = *sim;
    let cage_r: i128 = sim.cage_radius;
    let n: usize = sim.bodies.len();
    let mut events: Vec<BoundaryCollision> = Vec::new();
    let mut i: usize = 0;
    while i < n
        invariant
            i <= n,
            n == sim.bodies@.len(),
            sim.bodies@.len() == orig.bodies@.len(),
            same_config(*sim, orig),
            orig.wf(),
            cage_r == orig.cage_radius,
            forall|k: int| 0 <= k < i ==> sim.bodies@[k] == cage_step(orig.bodies@[k], cage_r as int),
            forall|k: int| i <= k < n ==> sim.bodies@[k] == orig.bodies@[k],
            events@ == cage_events(orig.bodies@.take(i as int), cage_r as int),
        decreases n - i,
    {
        let b: Body = sim.bodies[i];
        proof {
            assert(b == orig.bodies@[i as int]);
            assert(orig.bodies@[i as int].radius > 0);
        }
        let mut nb: Body = b;
        let mut hit: bool = false;
        if -COORD_LIMIT <= b.pos.x && b.pos.x <= COORD_LIMIT && -COORD_LIMIT <= b.pos.y && b.pos.y
            <= COORD_LIMIT && b.radius <= COORD_LIMIT {
            proof {
                lemma_abs_mul_le(b.pos.x as int, b.pos.x as int, COORD_LIMIT as int,
                    COORD_LIMIT as int);
                lemma_abs_mul_le(b.pos.y as int, b.pos.y as int, COORD_LIMIT as int,
                    COORD_LIMIT as int);
                lemma_nsq2_nonneg(b.pos.x as int, b.pos.y as int);
            }
            let s: i128 = b.pos.x * b.pos.x + b.pos.y * b.pos.y;
            if s > 0 {
                proof {
                    lemma_sqrt_floor_le(s as int, 2199023255552);
                    lemma_sqrt_floor_ge(s as int, 1);
                }
                let dd: i128 = isqrt(s as u128) as i128;
                let hr: i128 = ((b.radius as u128) / 2) as i128;
                proof {
                    assert(dd as int == dist2(b.pos.x as int, b.pos.y as int));
                    assert(1 <= dd <= 2199023255552);
                    assert(hr as int == half(b.radius as int));
                    assert(0 <= hr <= COORD_LIMIT);
                }
                if dd + hr > cage_r {
                    hit = true;
                    if -COORD_LIMIT <= b.vel.x && b.vel.x <= COORD_LIMIT && -COORD_LIMIT <= b.vel.y
                        && b.vel.y <= COORD_LIMIT {
                        proof {
                            lemma_abs_mul_le(b.vel.x as int, b.pos.x as int, COORD_LIMIT as int,
                                COORD_LIMIT as int);
                            lemma_abs_mul_le(b.vel.y as int, b.pos.y as int, COORD_LIMIT as int,
                                COORD_LIMIT as int);
                        }
                        let t: i128 = b.vel.x * b.pos.x + b.vel.y * b.pos.y;
                        proof {
                            lemma_abs_mul_le(2 * t as int, b.pos.x as int, 4 * (
                                COORD_LIMIT as int * COORD_LIMIT as int), COORD_LIMIT as int);
                            lemma_abs_mul_le(2 * t as int, b.pos.y as int, 4 * (
                                COORD_LIMIT as int * COORD_LIMIT as int), COORD_LIMIT as int);
                            lemma_div_trunc_bounds(2 * t as int * b.pos.x as int, s as int);
                            lemma_div_trunc_bounds(2 * t as int * b.pos.y as int, s as int);
                        }
                        let numx: i128 = 2 * t * b.pos.x;
                        let numy: i128 = 2 * t * b.pos.y;
                        let qvx: i128 = div_trunc_i128(numx, s);
                        let qvy: i128 = div_trunc_i128(numy, s);
                        let vx: i128 = b.vel.x - qvx;
                        let vy: i128 = b.vel.y - qvy;
                        if -STORE_LIMIT <= vx && vx <= STORE_LIMIT && -STORE_LIMIT <= vy && vy
                            <= STORE_LIMIT {
                            nb.vel.x = vx;
                            nb.vel.y = vy;
                        }
                    }
                    let overlap: i128 = hr + dd - cage_r;
                    proof {
                        lemma_abs_mul_le(overlap as int, b.pos.x as int, COORD_LIMIT as int
                            + 2199023255552, COORD_LIMIT as int);
                        lemma_abs_mul_le(overlap as int, b.pos.y as int, COORD_LIMIT as int
                            + 2199023255552, COORD_LIMIT as int);
                        lemma_div_trunc_bounds(overlap as int * b.pos.x as int, dd as int);
                        lemma_div_trunc_bounds(overlap as int * b.pos.y as int, dd as int);
                    }
                    let numpx: i128 = overlap * b.pos.x;
                    let numpy: i128 = overlap * b.pos.y;
                    let qpx: i128 = div_trunc_i128(numpx, dd);
                    let qpy: i128 = div_trunc_i128(numpy, dd);
                    let px2: i128 = b.pos.x - qpx;
                    let py2: i128 = b.pos.y - qpy;
                    if -STORE_LIMIT <= px2 && px2 <= STORE_LIMIT && -STORE_LIMIT <= py2 && py2
                        <= STORE_LIMIT {
                        nb.pos.x = px2;
                        nb.pos.y = py2;
                    }
                    events.push(BoundaryCollision { body: b.id });
                }
            }
        }
        proof {
            assert(hit == cage_hits(b, cage_r as int));
            assert(nb == cage_step(b, cage_r as int));
            let pre = orig.bodies@.take(i as int);
            let post = orig.bodies@.take(i as int + 1);
            assert(post.drop_last() =~= pre);
            assert(post.last() == orig.bodies@[i as int]);
        }
        sim.bodies[i] = nb;
        i = i + 1;
    }
    proof {
        assert(orig.bodies@.take(n as int) =~= orig.bodies@);
        assert forall|k: int| 0 <= k < final(sim).bodies@.len() implies (
            #[trigger] final(sim).bodies@[k]).radius > 0 && final(sim).bodies@[k].id
            < final(sim).next_id by {
            assert(final(sim).bodies@[k] == cage_step(orig.bodies@[k], cage_r as int));
        }
        assert forall|k: int| 0 <= k < final(sim).bodies@.len() implies speed_within(
            orig.bodies@[k].vel,
            (#[trigger] final(sim).bodies@[k]).vel,
            4,
        ) by {
            lemma_cage_step_preserves_speed(orig.bodies@[k], cage_r as int);
        }
        assert forall|a: int, bb: int|
            0 <= a < bb < final(sim).bodies@.len() implies final(sim).bodies@[a].id
            != final(sim).bodies@[bb].id by {
            assert(final(sim).bodies@[a].id == orig.bodies@[a].id);
            assert(final(sim).bodies@[bb].id == orig.bodies@[bb].id);
        }
    }
    events
}


/// Bodies `i` and `j` of the snapshot overlap: they are distinct bodies at
/// distinct positions (two bodies at identical coordinates are treated as
/// non-colliding, so no direction is ever normalized from a zero vector),
/// their numbers are in accepted range, and their distance is below the sum
/// of their half-radii.
pub open spec fn pair_hits(snaps: Seq<Body>, i: int, j: int) -> bool {
    let a = snaps[i];
    let b = snaps[j];
    &&& i != j
    &&& vec_in_coord_range(a.pos)
    &&& vec_in_coord_range(b.pos)
    &&& in_coord_range(a.radius as int)
    &&& in_coord_range(b.radius as int)
    &&& a.pos != b.pos
    &&& dist2(b.pos.x - a.pos.x, b.pos.y - a.pos.y) < half(a.radius as int) + half(
        b.radius as int,
    )
}

/// Body `i`'s response, from its current state `a`, to overlapping body `j`
/// of the snapshot: its velocity is reflected about the normal toward `j`
/// and its position is pushed away from `j` by the overlap amount.  The
/// geometry (normal, distance, overlap) is read from the snapshot; the
/// mutation applies to the current state, exactly as one pass of the
/// resolver performs it.
pub open spec fn pair_step(a: Body, snaps: Seq<Body>, i: int, j: int) -> Body {
    if pair_hits(snaps, i, j) {
        let dx: int = snaps[j].pos.x - snaps[i].pos.x;
        let dy: int = snaps[j].pos.y - snaps[i].pos.y;
        let s: int = nsq2(dx, dy);
        let dd: int = dist2(dx, dy);
        let t: int = dot2(a.vel.x as int, a.vel.y as int, dx, dy);
        let vx: int = a.vel.x - div_trunc(2 * t * dx, s);
        let vy: int = a.vel.y - div_trunc(2 * t * dy, s);
        let overlap: int = half(snaps[i].radius as int) + half(snaps[j].radius as int) - dd;
        let qx: int = a.pos.x - div_trunc(overlap * dx, dd);
        let qy: int = a.pos.y - div_trunc(overlap * dy, dd);
        let vel: Vec2 = if vec_in_coord_range(a.vel) && in_store_range(vx) && in_store_range(vy) {
            Vec2 { x: vx as i128, y: vy as i128 }
        } else {
            a.vel
        };
        let pos: Vec2 = if in_store_range(a.pos.x as int) && in_store_range(a.pos.y as int)
            && in_store_range(qx) && in_store_range(qy) {
            Vec2 { x: qx as i128, y: qy as i128 }
        } else {
            a.pos
        };
        Body { pos, vel, ..a }
    } else {
        a
    }
}

/// Body `i` after responding, in order, to the first `j` snapshot entries.
pub open spec fn pair_pass_body(a: Body, snaps: Seq<Body>, i: int, j: nat) -> Body
    decreases j,
{
    if j == 0 {
        a
    } else {
        pair_step(pair_pass_body(a, snaps, i, (j - 1) as nat), snaps, i, j - 1)
    }
}

/// The events body `i` emits against the first `j` snapshot entries.
pub open spec fn pair_events_upto(snaps: Seq<Body>, i: int, j: nat) -> Seq<BodyCollision>
    decreases j,
{
    if j == 0 {
        Seq::empty()
    } else {
        pair_events_upto(snaps, i, (j - 1) as nat) + (if pair_hits(snaps, i, j - 1) {
            seq![BodyCollision { body: snaps[i].id, other: snaps[(j - 1) as int].id }]
        } else {
            Seq::empty()
        })
    }
}

/// All body collision events of one pass: each ordered pair is visited, so
/// a colliding pair appears once from each side.
pub open spec fn pair_events_all(snaps: Seq<Body>, i: nat) -> Seq<BodyCollision>
    decreases i,
{
    if i == 0 {
        Seq::empty()
    } else {
        pair_events_all(snaps, (i - 1) as nat) + pair_events_upto(snaps, i - 1, snaps.len())
    }
}

/// A pass never changes a body's handle, radius or gravity.
pub proof fn lemma_pass_keeps_identity(a: Body, snaps: Seq<Body>, i: int, j: nat)
    ensures
        pair_pass_body(a, snaps, i, j).id == a.id,
        pair_pass_body(a, snaps, i, j).radius == a.radius,
        pair_pass_body(a, snaps, i, j).gravity == a.gravity,
    decreases j,
{
    if j != 0 {
        lemma_pass_keeps_identity(a, snaps, i, (j - 1) as nat);
    }
}

/// Detects and resolves pairwise body overlap.  Positions are snapshotted
/// at entry: every check reads snapshot geometry, while each body's
/// velocity reflections compound within its own pass.  Every ordered pair
/// is visited, so a colliding pair emits two events, one from each side.
pub fn collide_others(sim: &mut Sim) -> (events: Vec<BodyCollision>)
    requires
        old(sim).wf(),
    ensures
        final(sim).wf(),
        same_config(*final(sim), *old(sim)),
        final(sim).bodies@.len() == old(sim).bodies@.len(),
        forall|k: int|
            0 <= k < old(sim).bodies@.len() ==> final(sim).bodies@[k] == pair_pass_body(
                old(sim).bodies@[k],
                old(sim).bodies@,
                k,
                old(sim).bodies@.len(),
            ),
        forall|k: int|
            0 <= k < old(sim).bodies@.len() ==> speed_within(
                old(sim).bodies@[k].vel,
                (#[trigger] final(sim).bodies@[k]).vel,
                4 * old(sim).bodies@.len() as int,
            ),
        events@ == pair_events_all(old(sim).bodies@, old(sim).bodies@.len()),
{
    let ghost orig: Sim = *sim;
    let n: usize = sim.bodies.len();
    let mut snaps: Vec<Body> = Vec::new();
    let mut i: usize = 0;
    while i < n
        invariant
            i <= n,
            n == sim.bodies@.len(),
            *sim == orig,
            snaps@.len() == i,
            forall|k: int| 0 <= k < i ==> snaps@[k] == orig.bodies@[k],
        decreases n - i,
    {
        let b: Body = sim.bodies[i];
        snaps.push(b);
        i = i + 1;
    }
    proof {
        assert(snaps@ =~= orig.bodies@);
    }
    let mut events: Vec<BodyCollision> = Vec::new();
    let mut i: usize = 0;
    while i < n
        invariant
            i <= n,
            n == sim.bodies@.len(),
            sim.bodies@.len() == orig.bodies@.len(),
            same_config(*sim, orig),
            orig.wf(),
            snaps@ == orig.bodies@,
            forall|k: int|
                0 <= k < i ==> sim.bodies@[k] == pair_pass_body(
                    orig.bodies@[k],
                    orig.bodies@,
                    k,
                    n as nat,
                ),
            forall|k: int| i <= k < n ==> sim.bodies@[k] == orig.bodies@[k],
            events@ == pair_events_all(orig.bodies@, i as nat),
        decreases n - i,
    {
        let mut a: Body = sim.bodies[i];
        proof {
            assert(a == orig.bodies@[i as int]);
        }
        let mut j: usize = 0;
        while j < n
            invariant
                j <= n,
                i < n,
                n == sim.bodies@.len(),
                sim.bodies@.len() == orig.bodies@.len(),
                same_config(*sim, orig),
                orig.wf(),
                snaps@ == orig.bodies@,
                forall|k: int|
                    0 <= k < i ==> sim.bodies@[k] == pair_pass_body(
                        orig.bodies@[k],
                        orig.bodies@,
                        k,
                        n as nat,
                    ),
                forall|k: int| i <= k < n ==> sim.bodies@[k] == orig.bodies@[k],
                a == pair_pass_body(orig.bodies@[i as int], orig.bodies@, i as int, j as nat),
                events@ == pair_events_all(orig.bodies@, i as nat) + pair_events_upto(
                    orig.bodies@,
                    i as int,
                    j as nat,
                ),
            decreases n - j,
        {
            let ghost a0: Body = a;
            let o: Body = snaps[j];
            let asnap: Body = snaps[i];
            proof {
                assert(o == orig.bodies@[j as int]);
                assert(asnap == orig.bodies@[i as int]);
                assert(orig.bodies@[j as int].radius > 0);
                assert(orig.bodies@[i as int].radius > 0);
            }
            let mut hit: bool = false;
            if i != j && -COORD_LIMIT <= asnap.pos.x && asnap.pos.x <= COORD_LIMIT && -COORD_LIMIT
                <= asnap.pos.y && asnap.pos.y <= COORD_LIMIT && -COORD_LIMIT <= o.pos.x && o.pos.x
                <= COORD_LIMIT && -COORD_LIMIT <= o.pos.y && o.pos.y <= COORD_LIMIT && asnap.radius
                <= COORD_LIMIT && o.radius <= COORD_LIMIT && !(asnap.pos.x == o.pos.x && asnap.pos.y
                == o.pos.y) {
                let dx: i128 = o.pos.x - asnap.pos.x;
                let dy: i128 = o.pos.y - asnap.pos.y;
                proof {
                    lemma_abs_mul_le(dx as int, dx as int, 2 * COORD_LIMIT as int,
                        2 * COORD_LIMIT as int);
                    lemma_abs_mul_le(dy as int, dy as int, 2 * COORD_LIMIT as int,
                        2 * COORD_LIMIT as int);
                    lemma_nsq2_nonneg(dx as int, dy as int);
                }
                let s: i128 = dx * dx + dy * dy;
                proof {
                    lemma_sqrt_floor_le(s as int, 4398046511104);
                    lemma_sqrt_floor_ge(s as int, 1);
                }
                let dd: i128 = isqrt(s as u128) as i128;
                let hra: i128 = ((asnap.radius as u128) / 2) as i128;
                let hrb: i128 = ((o.radius as u128) / 2) as i128;
                proof {
                    assert(dd as int == dist2(
                        o.pos.x as int - asnap.pos.x as int,
                        o.pos.y as int - asnap.pos.y as int,
                    ));
                    assert(1 <= dd <= 4398046511104);
                    assert(hra as int == half(asnap.radius as int));
                    assert(hrb as int == half(o.radius as int));
                    assert(0 <= hra <= COORD_LIMIT && 0 <= hrb <= COORD_LIMIT);
                }
                if dd < hra + hrb {
                    hit = true;
                    if -COORD_LIMIT <= a.vel.x && a.vel.x <= COORD_LIMIT && -COORD_LIMIT <= a.vel.y
                        && a.vel.y <= COORD_LIMIT {
                        proof {
                            lemma_abs_mul_le(a.vel.x as int, dx as int, COORD_LIMIT as int,
                                2 * COORD_LIMIT as int);
                            lemma_abs_mul_le(a.vel.y as int, dy as int, COORD_LIMIT as int,
                                2 * COORD_LIMIT as int);
                        }
                        let t: i128 = a.vel.x * dx + a.vel.y * dy;
                        proof {
                            lemma_abs_mul_le(2 * t as int, dx as int, 8 * (COORD_LIMIT as int
                                * COORD_LIMIT as int), 2 * COORD_LIMIT as int);
                            lemma_abs_mul_le(2 * t as int, dy as int, 8 * (COORD_LIMIT as int
                                * COORD_LIMIT as int), 2 * COORD_LIMIT as int);
                            lemma_div_trunc_bounds(2 * t as int * dx as int, s as int);
                            lemma_div_trunc_bounds(2 * t as int * dy as int, s as int);
                        }
                        let numx: i128 = 2 * t * dx;
                        let numy: i128 = 2 * t * dy;
                        let qvx: i128 = div_trunc_i128(numx, s);
                        let qvy: i128 = div_trunc_i128(numy, s);
                        let vx: i128 = a.vel.x - qvx;
                        let vy: i128 = a.vel.y - qvy;
                        if -STORE_LIMIT <= vx && vx <= STORE_LIMIT && -STORE_LIMIT <= vy && vy
                            <= STORE_LIMIT {
                            a.vel.x = vx;
                            a.vel.y = vy;
                        }
                    }
                    let overlap: i128 = hra + hrb - dd;
                    proof {
                        lemma_abs_mul_le(overlap as int, dx as int, 2 * COORD_LIMIT as int,
                            2 * COORD_LIMIT as int);
                        lemma_abs_mul_le(overlap as int, dy as int, 2 * COORD_LIMIT as int,
                            2 * COORD_LIMIT as int);
                        lemma_div_trunc_bounds(overlap as int * dx as int, dd as int);
                        lemma_div_trunc_bounds(overlap as int * dy as int, dd as int);
                    }
                    let numpx: i128 = overlap * dx;
                    let numpy: i128 = overlap * dy;
                    let qpx: i128 = div_trunc_i128(numpx, dd);
                    let qpy: i128 = div_trunc_i128(numpy, dd);
                    if -STORE_LIMIT <= a.pos.x && a.pos.x <= STORE_LIMIT && -STORE_LIMIT <= a.pos.y
                        && a.pos.y <= STORE_LIMIT {
                        let px2: i128 = a.pos.x - qpx;
                        let py2: i128 = a.pos.y - qpy;
                        if -STORE_LIMIT <= px2 && px2 <= STORE_LIMIT && -STORE_LIMIT <= py2 && py2
                            <= STORE_LIMIT {
                            a.pos.x = px2;
                            a.pos.y = py2;
                        }
                    }
                    events.push(BodyCollision { body: asnap.id, other: o.id });
                }
            }
            proof {
                assert(hit == pair_hits(orig.bodies@, i as int, j as int));
                assert(a == pair_step(a0, orig.bodies@, i as int, j as int));
            }
            j = j + 1;
        }
        sim.bodies[i] = a;
        i = i + 1;
    }
    proof {
        assert forall|k: int| 0 <= k < final(sim).bodies@.len() implies (
            #[trigger] final(sim).bodies@[k]).radius > 0 && final(sim).bodies@[k].id
            < final(sim).next_id by {
            lemma_pass_keeps_identity(orig.bodies@[k], orig.bodies@, k, n as nat);
        }
        assert forall|k: int| 0 <= k < final(sim).bodies@.len() implies speed_within(
            orig.bodies@[k].vel,
            (#[trigger] final(sim).bodies@[k]).vel,
            4 * orig.bodies@.len() as int,
        ) by {
            lemma_pair_pass_speed_drift(orig.bodies@[k], orig.bodies@, k, n as nat);
        }
        assert forall|a: int, bb: int|
            0 <= a < bb < final(sim).bodies@.len() implies final(sim).bodies@[a].id
            != final(sim).bodies@[bb].id by {
            lemma_pass_keeps_identity(orig.bodies@[a], orig.bodies@, a, n as nat);
            lemma_pass_keeps_identity(orig.bodies@[bb], orig.bodies@, bb, n as nat);
        }
    }
    events
}


/// The direction a spawned body sets off in: the sampled direction if it is
/// in accepted range and nonzero, else the unit direction along the first
/// axis (so a degenerate sample is never normalized into a division by
/// zero).
pub open spec fn spawn_dir(dir: Vec2) -> (int, int) {
    if -DIR_LIMIT <= dir.x <= DIR_LIMIT && -DIR_LIMIT <= dir.y <= DIR_LIMIT && !(dir.x == 0
        && dir.y == 0) {
        (dir.x as int, dir.y as int)
    } else {
        (1, 0)
    }
}

/// The spawned body's velocity: the direction, normalized and scaled to the
/// starting speed.  The sample is first blown up by `COORD_LIMIT`, which
/// changes nothing about its direction but makes its length at least
/// `COORD_LIMIT` — never below a starting speed — so that the truncating
/// divisions lose only a few units of speed even for the shortest samples
/// (see `lemma_spawn_speed`).
pub open spec fn spawn_vel(dir: Vec2, speed: int) -> (int, int) {
    let d = spawn_dir(dir);
    let ux: int = d.0 * COORD_LIMIT;
    let uy: int = d.1 * COORD_LIMIT;
    let dd: int = dist2(ux, uy);
    (div_trunc(speed * ux, dd), div_trunc(speed * uy, dd))
}

/// A spawned body's speed is the configured starting speed, up to an
/// additive rounding tolerance of 4 speed units, for every direction
/// sample: the squared speed lies between `(speed - 4)^2` and
/// `(speed + 4)^2`.
pub proof fn lemma_spawn_speed(dir: Vec2, speed: i128)
    requires
        0 <= speed <= COORD_LIMIT,
    ensures
        ({
            let v = spawn_vel(dir, speed as int);
            nsq2(v.0, v.1) <= (speed + 4) * (speed + 4) && (4 <= speed ==> (speed - 4) * (speed
                - 4) <= nsq2(v.0, v.1))
        }),
{
    let d = spawn_dir(dir);
    let ux: int = d.0 * COORD_LIMIT;
    let uy: int = d.1 * COORD_LIMIT;
    let s: int = nsq2(ux, uy);
    let dd: int = dist2(ux, uy);
    assert(s >= COORD_LIMIT as int * COORD_LIMIT as int && uy * uy >= 0 && ux * ux >= 0)
        by (nonlinear_arith)
        requires
            ux == d.0 * COORD_LIMIT as int,
            uy == d.1 * COORD_LIMIT as int,
            s == ux * ux + uy * uy,
            d.0 != 0 || d.1 != 0,
    ;
    lemma_sqrt_floor_bounds(s);
    lemma_sqrt_floor_ge(s, COORD_LIMIT as int);
    lemma_div_trunc_bounds(speed as int * ux, dd);
    lemma_div_trunc_bounds(speed as int * uy, dd);
    let vx: int = div_trunc(speed as int * ux, dd);
    let vy: int = div_trunc(speed as int * uy, dd);
    lemma_retarget_distance(ux, uy, vx, vy, dd, speed as int);
}

/// The body a spawn creates: fresh handle, at the cage center, moving at
/// the starting speed in the sampled direction.
pub open spec fn spawned_body(
    next_id: u64,
    radius: i128,
    gravity: i128,
    speed: i128,
    dir: Vec2,
) -> Body {
    Body {
        id: next_id,
        pos: Vec2 { x: 0, y: 0 },
        vel: Vec2 {
            x: spawn_vel(dir, speed as int).0 as i128,
            y: spawn_vel(dir, speed as int).1 as i128,
        },
        radius,
        gravity,
    }
}

/// Creates one new body at the cage center with the given direction sample,
/// scaled to the starting speed.  Fails (spawning nothing) only when the
/// handle space is exhausted.
pub fn spawn_ball(sim: &mut Sim, dir: Vec2) -> (ok: bool)
    requires
        old(sim).wf(),
    ensures
        final(sim).wf(),
        ok == (old(sim).next_id < u64::MAX),
        ok ==> final(sim).bodies@ == old(sim).bodies@.push(
            spawned_body(
                old(sim).next_id,
                old(sim).ball_radius,
                old(sim).gravity,
                old(sim).start_speed,
                dir,
            ),
        ) && final(sim).next_id == old(sim).next_id + 1,
        !ok ==> *final(sim) == *old(sim),
        ok ==> ({
            let v = final(sim).bodies@.last().vel;
            let sp: int = old(sim).start_speed as int;
            nsq2(v.x as int, v.y as int) <= (sp + 4) * (sp + 4) && (4 <= sp ==> (sp - 4) * (sp
                - 4) <= nsq2(v.x as int, v.y as int))
        }),
        final(sim).cage_radius == old(sim).cage_radius,
        final(sim).ball_radius == old(sim).ball_radius,
        final(sim).gravity == old(sim).gravity,
        final(sim).start_speed == old(sim).start_speed,
        final(sim).spawn_percent == old(sim).spawn_percent,
{
    if sim.next_id == u64::MAX {
        return false;
    }
    let dx: i128;
    let dy: i128;
    if -DIR_LIMIT <= dir.x && dir.x <= DIR_LIMIT && -DIR_LIMIT <= dir.y && dir.y <= DIR_LIMIT
        && !(dir.x == 0 && dir.y == 0) {
        dx = dir.x;
        dy = dir.y;
    } else {
        dx = 1;
        dy = 0;
    }
    let ux: i128 = dx * COORD_LIMIT;
    let uy: i128 = dy * COORD_LIMIT;
    proof {
        lemma_abs_mul_le(ux as int, ux as int, 1152921504606846976, 1152921504606846976);
        lemma_abs_mul_le(uy as int, uy as int, 1152921504606846976, 1152921504606846976);
        lemma_nsq2_nonneg(ux as int, uy as int);
    }
    let s: i128 = ux * ux + uy * uy;
    proof {
        lemma_sqrt_floor_le(s as int, 2305843009213693952);
        lemma_sqrt_floor_ge(s as int, 1);
    }
    let dd: i128 = isqrt(s as u128) as i128;
    proof {
        lemma_abs_mul_le(sim.start_speed as int, ux as int, COORD_LIMIT as int,
            1152921504606846976);
        lemma_abs_mul_le(sim.start_speed as int, uy as int, COORD_LIMIT as int,
            1152921504606846976);
        lemma_div_trunc_bounds(sim.start_speed as int * ux as int, dd as int);
        lemma_div_trunc_bounds(sim.start_speed as int * uy as int, dd as int);
        lemma_spawn_speed(dir, sim.start_speed);
    }
    let numx: i128 = sim.start_speed * ux;
    let numy: i128 = sim.start_speed * uy;
    let vx: i128 = div_trunc_i128(numx, dd);
    let vy: i128 = div_trunc_i128(numy, dd);
    let nb: Body = Body {
        id: sim.next_id,
        pos: Vec2 { x: 0, y: 0 },
        vel: Vec2 { x: vx, y: vy },
        radius: sim.ball_radius,
        gravity: sim.gravity,
    };
    proof {
        assert(nb == spawned_body(sim.next_id, sim.ball_radius, sim.gravity, sim.start_speed,
            dir));
    }
    sim.bodies.push(nb);
    sim.next_id = sim.next_id + 1;
    true
}

/// Consumes the tick's boundary collision events: if any occurred, with the
/// configured probability (the caller passes a uniformly random `roll`; the
/// spawn fires when `roll % 100` is below the configured percentage) one
/// new body is spawned at the cage center.  At most one body is spawned per
/// tick.  In a tick with zero boundary collision events, zero bodies are
/// spawned and the state is untouched.
pub fn maybe_spawn_ball(
    sim: &mut Sim,
    boundary_events: &Vec<BoundaryCollision>,
    roll: u64,
    dir: Vec2,
) -> (spawned: bool)
    requires
        old(sim).wf(),
    ensures
        final(sim).wf(),
        spawned == (boundary_events@.len() > 0 && roll % 100 < old(sim).spawn_percent && old(
            sim,
        ).next_id < u64::MAX),
        spawned ==> final(sim).bodies@ == old(sim).bodies@.push(
            spawned_body(
                old(sim).next_id,
                old(sim).ball_radius,
                old(sim).gravity,
                old(sim).start_speed,
                dir,
            ),
        ) && final(sim).next_id == old(sim).next_id + 1,
        !spawned ==> *final(sim) == *old(sim),
        boundary_events@.len() == 0 ==> *final(sim) == *old(sim),
        final(sim).cage_radius == old(sim).cage_radius,
        final(sim).ball_radius == old(sim).ball_radius,
        final(sim).gravity == old(sim).gravity,
        final(sim).start_speed == old(sim).start_speed,
        final(sim).spawn_percent == old(sim).spawn_percent,
{
    if boundary_events.len() > 0 && roll % 100 < sim.spawn_percent {
        spawn_ball(sim, dir)
    } else {
        false
    }
}

/// One audio cue per event kind present this tick: one for boundary
/// collisions as a group, one for body collisions as a group.
pub fn collision_cues(
    boundary_events: &Vec<BoundaryCollision>,
    body_events: &Vec<BodyCollision>,
) -> (cues: (bool, bool))
    ensures
        cues.0 == (boundary_events@.len() > 0),
        cues.1 == (body_events@.len() > 0),
{
    (boundary_events.len() > 0, body_events.len() > 0)
}

/// Everything one tick reports to the surrounding application: the two
/// transient event queues (drained every tick, never carried across ticks),
/// whether a body was spawned, and which audio cues to trigger.
pub struct TickOutcome {
    pub boundary_events: Vec<BoundaryCollision>,
    pub body_events: Vec<BodyCollision>,
    pub spawned: bool,
    pub boundary_cue: bool,
    pub body_cue: bool,
}

/// All bodies after the integrator (gravity, then position, semi-implicit
/// Euler).
pub open spec fn integrated(bodies: Seq<Body>, dt: int) -> Seq<Body> {
    bodies.map_values(|b: Body| velocity_step(gravity_step(b, dt), dt))
}

/// All bodies after boundary resolution.
pub open spec fn cage_all(bodies: Seq<Body>, cage_r: int) -> Seq<Body> {
    bodies.map_values(|b: Body| cage_step(b, cage_r))
}

/// All bodies after one pass of the pairwise resolver.
pub open spec fn pairs_all(bodies: Seq<Body>) -> Seq<Body> {
    Seq::new(bodies.len(), |k: int| pair_pass_body(bodies[k], bodies, k, bodies.len()))
}

/// What one tick does, stage by stage, relating the pre-state, post-state
/// and outcome for the given timestep and randomness samples.
pub open spec fn tick_post(
    pre: Sim,
    post: Sim,
    out: TickOutcome,
    dt: int,
    roll: u64,
    dir: Vec2,
) -> bool {
    let s1 = integrated(pre.bodies@, dt);
    let cr = pre.cage_radius as int;
    let s2 = cage_all(s1, cr);
    let s3 = pairs_all(s2);
    &&& out.boundary_events@ == cage_events(s1, cr)
    &&& out.body_events@ == pair_events_all(s2, s2.len())
    &&& out.boundary_cue == (out.boundary_events@.len() > 0)
    &&& out.body_cue == (out.body_events@.len() > 0)
    &&& out.spawned == (out.boundary_events@.len() > 0 && roll % 100 < pre.spawn_percent
        && pre.next_id < u64::MAX)
    &&& (out.spawned ==> post.bodies@ == s3.push(
        spawned_body(pre.next_id, pre.ball_radius, pre.gravity, pre.start_speed, dir),
    ) && post.next_id == pre.next_id + 1)
    &&& (!out.spawned ==> post.bodies@ == s3 && post.next_id == pre.next_id)
    &&& post.cage_radius == pre.cage_radius
    &&& post.ball_radius == pre.ball_radius
    &&& post.gravity == pre.gravity
    &&& post.start_speed == pre.start_speed
    &&& post.spawn_percent == pre.spawn_percent
}

/// One fixed timestep: gravity, position integration, boundary collision
/// resolution, pairwise collision resolution, then the event-driven
/// effects, strictly in that order.  `roll` and `dir` are the tick's
/// randomness samples, injected so the simulation itself stays
/// deterministic.
pub fn tick(sim: &mut Sim, dt: i128, roll: u64, dir: Vec2) -> (out: TickOutcome)
    requires
        old(sim).wf(),
        0 <= dt,
    ensures
        final(sim).wf(),
        tick_post(*old(sim), *final(sim), out, dt as int, roll, dir),
{
    let ghost pre: Sim = *sim;
    apply_gravity(sim, dt);
    let ghost after_g: Sim = *sim;
    apply_velocity(sim, dt);
    proof {
        assert(sim.bodies@ =~= integrated(pre.bodies@, dt as int));
    }
    let ghost s1: Sim = *sim;
    let boundary_events: Vec<BoundaryCollision> = collide_cage(sim);
    proof {
        assert(sim.bodies@ =~= cage_all(s1.bodies@, pre.cage_radius as int));
    }
    let ghost s2: Sim = *sim;
    let body_events: Vec<BodyCollision> = collide_others(sim);
    proof {
        assert(sim.bodies@ =~= pairs_all(s2.bodies@));
    }
    let cues: (bool, bool) = collision_cues(&boundary_events, &body_events);
    let spawned: bool = maybe_spawn_ball(sim, &boundary_events, roll, dir);
    TickOutcome {
        boundary_events,
        body_events,
        spawned,
        boundary_cue: cues.0,
        body_cue: cues.1,
    }
}


/// After the Boundary Collision Resolver corrects a penetrating body,
/// re-evaluating the penetration predicate on the corrected position fails,
/// up to an integer rounding tolerance of 4 length units (this geometry's
/// counterpart of floating-point tolerance).  Stated for a cage that can
/// contain the body's effective radius.
pub proof fn lemma_cage_resolution_clears_penetration(b: Body, cage_r: int)
    requires
        cage_hits(b, cage_r),
        half(b.radius as int) <= cage_r,
    ensures
        dist2(cage_step(b, cage_r).pos.x as int, cage_step(b, cage_r).pos.y as int) + half(
            b.radius as int,
        ) <= cage_r + 4,
{
    let px: int = b.pos.x as int;
    let py: int = b.pos.y as int;
    let s: int = nsq2(px, py);
    let dd: int = dist2(px, py);
    let hr: int = half(b.radius as int);
    let overlap: int = hr + dd - cage_r;
    let k: int = cage_r - hr;
    lemma_nsq2_nonneg(px, py);
    lemma_sqrt_floor_bounds(s);
    lemma_sqrt_floor_ge(s, 1);
    let qqx: int = div_trunc(overlap * px, dd);
    let qqy: int = div_trunc(overlap * py, dd);
    let qx: int = px - qqx;
    let qy: int = py - qqy;
    lemma_div_trunc_bounds(overlap * px, dd);
    lemma_div_trunc_bounds(overlap * py, dd);
    assert(dd * qx == dd * px - dd * qqx) by (nonlinear_arith)
        requires qx == px - qqx;
    assert(dd * qy == dd * py - dd * qqy) by (nonlinear_arith)
        requires qy == py - qqy;
    assert(dd * px - overlap * px == k * px) by (nonlinear_arith)
        requires k == dd - overlap;
    assert(dd * py - overlap * py == k * py) by (nonlinear_arith)
        requires k == dd - overlap;
    assert(-(dd - 1) <= dd * qx - k * px <= dd - 1);
    assert(-(dd - 1) <= dd * qy - k * py <= dd - 1);
    lemma_retarget_distance(px, py, qx, qy, dd, k);
    lemma_nsq2_nonneg(qx, qy);
    lemma_sqrt_floor_le(nsq2(qx, qy), k + 4);
    assert(-2199023255554 <= qx <= 2199023255554 && -2199023255554 <= qy <= 2199023255554)
        by (nonlinear_arith)
        requires
            -(dd - 1) <= dd * qx - k * px <= dd - 1,
            -(dd - 1) <= dd * qy - k * py <= dd - 1,
            0 <= k <= dd,
            1 <= dd,
            -1099511627776 <= px <= 1099511627776,
            -1099511627776 <= py <= 1099511627776,
    ;
    assert(cage_step(b, cage_r).pos.x as int == qx);
    assert(cage_step(b, cage_r).pos.y as int == qy);
}

/// After body `i` responds to overlapping body `j`, the distance between
/// the corrected position and `j`'s snapshot position is at least the sum
/// of half-radii, up to an integer rounding tolerance of 4 length units.
/// Stated for a body whose current position is its snapshot position, as it
/// is when its pass begins.
pub proof fn lemma_pair_resolution_clears_overlap(a: Body, snaps: Seq<Body>, i: int, j: int)
    requires
        0 <= i < snaps.len(),
        0 <= j < snaps.len(),
        pair_hits(snaps, i, j),
        a.pos == snaps[i].pos,
    ensures
        ({
            let na = pair_step(a, snaps, i, j);
            let sum = half(snaps[i].radius as int) + half(snaps[j].radius as int);
            dist2(na.pos.x - snaps[j].pos.x, na.pos.y - snaps[j].pos.y) + 4 >= sum
        }),
{
    let ax: int = snaps[i].pos.x as int;
    let ay: int = snaps[i].pos.y as int;
    let bx: int = snaps[j].pos.x as int;
    let by: int = snaps[j].pos.y as int;
    let dx: int = bx - ax;
    let dy: int = by - ay;
    let s: int = nsq2(dx, dy);
    let dd: int = dist2(dx, dy);
    let sum: int = half(snaps[i].radius as int) + half(snaps[j].radius as int);
    let overlap: int = sum - dd;
    let k: int = sum;
    lemma_nsq2_nonneg(dx, dy);
    lemma_sqrt_floor_bounds(s);
    lemma_sqrt_floor_ge(s, 1);
    let qqx: int = div_trunc(overlap * dx, dd);
    let qqy: int = div_trunc(overlap * dy, dd);
    lemma_div_trunc_bounds(overlap * dx, dd);
    lemma_div_trunc_bounds(overlap * dy, dd);
    let rx: int = (ax - qqx) - bx;
    let ry: int = (ay - qqy) - by;
    assert(dd * rx == -(dd * dx) - dd * qqx) by (nonlinear_arith)
        requires rx == -dx - qqx;
    assert(dd * ry == -(dd * dy) - dd * qqy) by (nonlinear_arith)
        requires ry == -dy - qqy;
    assert(-(dd * dx) - overlap * dx == k * (-dx)) by (nonlinear_arith)
        requires k == dd + overlap;
    assert(-(dd * dy) - overlap * dy == k * (-dy)) by (nonlinear_arith)
        requires k == dd + overlap;
    assert(-(dd - 1) <= dd * rx - k * (-dx) <= dd - 1);
    assert(-(dd - 1) <= dd * ry - k * (-dy) <= dd - 1);
    assert((-dx) * (-dx) == dx * dx && (-dy) * (-dy) == dy * dy) by (nonlinear_arith);
    lemma_retarget_distance(-dx, -dy, rx, ry, dd, k);
    lemma_nsq2_nonneg(rx, ry);
    if k >= 4 {
        lemma_sqrt_floor_ge(nsq2(rx, ry), k - 4);
    } else {
        lemma_sqrt_floor_bounds(nsq2(rx, ry));
    }
    lemma_component_le_dist(dx, dy);
    assert(-(overlap + 1) <= qqx <= overlap + 1 && -(overlap + 1) <= qqy <= overlap + 1)
        by (nonlinear_arith)
        requires
            overlap * dx - (dd - 1) <= dd * qqx <= overlap * dx + (dd - 1),
            overlap * dy - (dd - 1) <= dd * qqy <= overlap * dy + (dd - 1),
            -dd <= dx <= dd,
            -dd <= dy <= dd,
            1 <= dd,
            1 <= overlap,
    ;
    let na = pair_step(a, snaps, i, j);
    assert(na.pos.x as int == ax - qqx);
    assert(na.pos.y as int == ay - qqy);
}

/// Two bodies at identical coordinates are treated as non-colliding: the
/// pair is skipped, emitting no event and changing nothing, so no direction
/// is ever normalized from a zero-length vector.
pub proof fn lemma_identical_positions_skipped(a: Body, snaps: Seq<Body>, i: int, j: int)
    requires
        0 <= i < snaps.len(),
        0 <= j < snaps.len(),
        snaps[i].pos == snaps[j].pos,
    ensures
        !pair_hits(snaps, i, j),
        pair_step(a, snaps, i, j) == a,
{
}


/// Energy non-increase up to rounding at the boundary resolver: one
/// boundary resolution moves a body's rounded-down speed by at most 4
/// units.  The elastic reflection preserves speed exactly; only the two
/// truncating divisions round.
pub proof fn lemma_cage_step_preserves_speed(b: Body, cage_r: int)
    ensures
        ({
            let nb = cage_step(b, cage_r);
            dist2(b.vel.x as int, b.vel.y as int) - 4 <= dist2(
                nb.vel.x as int,
                nb.vel.y as int,
            ) <= dist2(b.vel.x as int, b.vel.y as int) + 4
        }),
{
    if cage_hits(b, cage_r) {
        lemma_nsq2_nonneg(b.pos.x as int, b.pos.y as int);
        lemma_reflection_speed_tolerance(
            b.vel.x as int,
            b.vel.y as int,
            b.pos.x as int,
            b.pos.y as int,
        );
    }
}

/// The same speed tolerance at the pairwise resolver: one response to an
/// overlapping body moves the responding body's rounded-down speed by at
/// most 4 units.
pub proof fn lemma_pair_step_preserves_speed(a: Body, snaps: Seq<Body>, i: int, j: int)
    ensures
        ({
            let na = pair_step(a, snaps, i, j);
            dist2(a.vel.x as int, a.vel.y as int) - 4 <= dist2(
                na.vel.x as int,
                na.vel.y as int,
            ) <= dist2(a.vel.x as int, a.vel.y as int) + 4
        }),
{
    if pair_hits(snaps, i, j) {
        let dx: int = snaps[j].pos.x - snaps[i].pos.x;
        let dy: int = snaps[j].pos.y - snaps[i].pos.y;
        lemma_nsq2_nonneg(dx, dy);
        lemma_reflection_speed_tolerance(a.vel.x as int, a.vel.y as int, dx, dy);
    }
}

/// Over a whole pass of the pairwise resolver, a body's rounded-down speed
/// drifts by at most 4 units per snapshot entry it is resolved against.
pub proof fn lemma_pair_pass_speed_drift(a: Body, snaps: Seq<Body>, i: int, j: nat)
    ensures
        ({
            let na = pair_pass_body(a, snaps, i, j);
            dist2(a.vel.x as int, a.vel.y as int) - 4 * j <= dist2(
                na.vel.x as int,
                na.vel.y as int,
            ) <= dist2(a.vel.x as int, a.vel.y as int) + 4 * j
        }),
    decreases j,
{
    if j != 0 {
        lemma_pair_pass_speed_drift(a, snaps, i, (j - 1) as nat);
        lemma_pair_step_preserves_speed(
            pair_pass_body(a, snaps, i, (j - 1) as nat),
            snaps,
            i,
            j - 1,
        );
    }
}


/// The two-sided form of overlap resolution, for a registry of exactly two
/// overlapping bodies: each resolves against the other's snapshot, so the
/// two push-backs add, and the distance between both corrected positions is
/// at least the sum of half-radii up to an integer rounding tolerance of 7
/// (two rounded corrections instead of one).
pub proof fn lemma_pair_resolution_separates_pair(snaps: Seq<Body>, a: Body, b: Body)
    requires
        snaps.len() == 2,
        a == snaps[0],
        b == snaps[1],
        pair_hits(snaps, 0, 1),
    ensures
        ({
            let na = pair_pass_body(a, snaps, 0, 2);
            let nb = pair_pass_body(b, snaps, 1, 2);
            let sum = half(snaps[0].radius as int) + half(snaps[1].radius as int);
            dist2(na.pos.x - nb.pos.x, na.pos.y - nb.pos.y) + 7 >= sum
        }),
{
    let ax: int = snaps[0].pos.x as int;
    let ay: int = snaps[0].pos.y as int;
    let bx: int = snaps[1].pos.x as int;
    let by: int = snaps[1].pos.y as int;
    let dx: int = bx - ax;
    let dy: int = by - ay;
    let s: int = nsq2(dx, dy);
    let dd: int = dist2(dx, dy);
    let sum: int = half(snaps[0].radius as int) + half(snaps[1].radius as int);
    let ov: int = sum - dd;
    lemma_nsq2_nonneg(dx, dy);
    lemma_sqrt_floor_bounds(s);
    lemma_sqrt_floor_ge(s, 1);
    lemma_component_le_dist(dx, dy);
    // the hit is symmetric: body 1 overlaps body 0 the same way
    assert((-dx) * (-dx) == dx * dx && (-dy) * (-dy) == dy * dy) by (nonlinear_arith);
    assert(nsq2(ax - bx, ay - by) == s);
    assert(dist2(ax - bx, ay - by) == dd);
    assert(pair_hits(snaps, 1, 0));
    // both corrections are the same rounded vector, with opposite signs
    let qx: int = div_trunc(ov * dx, dd);
    let qy: int = div_trunc(ov * dy, dd);
    lemma_div_trunc_bounds(ov * dx, dd);
    lemma_div_trunc_bounds(ov * dy, dd);
    lemma_div_trunc_neg(ov * dx, dd);
    lemma_div_trunc_neg(ov * dy, dd);
    assert(ov * (ax - bx) == -(ov * dx) && ov * (ay - by) == -(ov * dy)) by (nonlinear_arith)
        requires ax - bx == -dx, ay - by == -dy;
    assert(div_trunc(ov * (ax - bx), dd) == -qx);
    assert(div_trunc(ov * (ay - by), dd) == -qy);
    // the rounded corrections are small, so both store gates pass
    assert(-(ov + 1) <= qx <= ov + 1 && -(ov + 1) <= qy <= ov + 1) by (nonlinear_arith)
        requires
            ov * dx - (dd - 1) <= dd * qx <= ov * dx + (dd - 1),
            ov * dy - (dd - 1) <= dd * qy <= ov * dy + (dd - 1),
            -dd <= dx <= dd,
            -dd <= dy <= dd,
            1 <= dd,
            1 <= ov,
    ;
    // unfold the two passes: each body takes exactly one resolving step
    assert(!pair_hits(snaps, 0, 0));
    assert(!pair_hits(snaps, 1, 1));
    let na = pair_pass_body(a, snaps, 0, 2);
    let nb = pair_pass_body(b, snaps, 1, 2);
    assert(pair_pass_body(a, snaps, 0, 0) == a);
    assert(pair_pass_body(a, snaps, 0, 1) == pair_step(a, snaps, 0, 0));
    assert(pair_step(a, snaps, 0, 0) == a);
    assert(na == pair_step(pair_pass_body(a, snaps, 0, 1), snaps, 0, 1));
    assert(na == pair_step(a, snaps, 0, 1));
    assert(pair_pass_body(b, snaps, 1, 0) == b);
    assert(pair_pass_body(b, snaps, 1, 1) == pair_step(b, snaps, 1, 0));
    assert(nb == pair_step(pair_pass_body(b, snaps, 1, 1), snaps, 1, 1));
    assert(pair_step(pair_pass_body(b, snaps, 1, 1), snaps, 1, 1) == pair_pass_body(
        b,
        snaps,
        1,
        1,
    ));
    assert(nb == pair_step(b, snaps, 1, 0));
    assert(na.pos.x as int == ax - qx && na.pos.y as int == ay - qy);
    assert(nb.pos.x as int == bx + qx && nb.pos.y as int == by + qy);
    // the corrected relative vector carries at most twice the rounding error
    let rx: int = na.pos.x - nb.pos.x;
    let ry: int = na.pos.y - nb.pos.y;
    let k: int = dd + 2 * ov;
    assert(rx == -dx - 2 * qx && ry == -dy - 2 * qy);
    assert(dd * rx == -(dd * dx) - 2 * (dd * qx)) by (nonlinear_arith)
        requires rx == -dx - 2 * qx;
    assert(dd * ry == -(dd * dy) - 2 * (dd * qy)) by (nonlinear_arith)
        requires ry == -dy - 2 * qy;
    assert(-(dd * dx) - 2 * (ov * dx) == k * (-dx)) by (nonlinear_arith)
        requires k == dd + 2 * ov;
    assert(-(dd * dy) - 2 * (ov * dy) == k * (-dy)) by (nonlinear_arith)
        requires k == dd + 2 * ov;
    assert(-(2 * (dd - 1)) <= dd * rx - k * (-dx) <= 2 * (dd - 1));
    assert(-(2 * (dd - 1)) <= dd * ry - k * (-dy) <= 2 * (dd - 1));
    lemma_retarget_distance_lower_wide(-dx, -dy, rx, ry, dd, k);
    lemma_nsq2_nonneg(rx, ry);
    if k >= 8 {
        lemma_sqrt_floor_ge(nsq2(rx, ry), k - 8);
    } else {
        lemma_sqrt_floor_bounds(nsq2(rx, ry));
    }
}

} // verus!
