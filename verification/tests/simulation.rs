use ball_cage::math::{div_trunc_i128, isqrt};
use ball_cage::rng::sample_tick_inputs;
use ball_cage::sim::{
    apply_gravity, apply_velocity, collide_cage, collide_others, collision_cues, maybe_spawn_ball,
    reset_all, spawn_ball, tick, Body, Sim,
};
use ball_cage::vec2::Vec2;

fn body(id: u64, x: i128, y: i128, vx: i128, vy: i128) -> Body {
    Body {
        id,
        pos: Vec2 { x, y },
        vel: Vec2 { x: vx, y: vy },
        radius: 10,
        gravity: -300,
    }
}

fn standard_sim() -> Sim {
    Sim::new(100, 10, -300, 200, 10)
}

#[test]
fn isqrt_values() {
    assert_eq!(isqrt(0), 0);
    assert_eq!(isqrt(1), 1);
    assert_eq!(isqrt(2), 1);
    assert_eq!(isqrt(99), 9);
    assert_eq!(isqrt(9801), 99);
    assert_eq!(isqrt(10000), 100);
    assert_eq!(isqrt(10200), 100);
}

#[test]
fn div_trunc_rounds_toward_zero() {
    assert_eq!(div_trunc_i128(7, 2), 3);
    assert_eq!(div_trunc_i128(-7, 2), -3);
    assert_eq!(div_trunc_i128(980100, 9801), 100);
    assert_eq!(div_trunc_i128(-1, 3), 0);
    assert_eq!(div_trunc_i128(0, 5), 0);
}

// The scenario: a body at (0, 99) with radius 10 in a cage of radius 100 is
// at distance 99; 99 + 5 > 100, so it penetrates.  The inward normal is
// (0, -1), velocity (0, 50) reflects to (0, -50), the overlap 5 + 99 - 100
// = 4 pushes the body to (0, 95).
#[test]
fn boundary_scenario_full_resolution() {
    let mut sim = standard_sim();
    sim.bodies.push(body(0, 0, 99, 0, 50));
    sim.next_id = 1;
    assert_eq!(isqrt(99 * 99), 99);
    let events = collide_cage(&mut sim);
    assert_eq!(events.len(), 1);
    assert_eq!(events[0].body, 0);
    assert_eq!(sim.bodies[0].vel.x, 0);
    assert_eq!(sim.bodies[0].vel.y, -50);
    assert_eq!(sim.bodies[0].pos.x, 0);
    assert_eq!(sim.bodies[0].pos.y, 95);
}

// Elastic reflection preserves speed: velocity (3, 4) against the wall
// normal at (0, 99) reflects to (3, -4), same squared magnitude.
#[test]
fn reflection_preserves_speed() {
    let mut sim = standard_sim();
    sim.bodies.push(body(0, 0, 99, 3, 4));
    sim.next_id = 1;
    let v_before = sim.bodies[0].vel;
    let events = collide_cage(&mut sim);
    assert_eq!(events.len(), 1);
    let v_after = sim.bodies[0].vel;
    assert_eq!(v_after.x, 3);
    assert_eq!(v_after.y, -4);
    assert_eq!(
        v_after.x * v_after.x + v_after.y * v_after.y,
        v_before.x * v_before.x + v_before.y * v_before.y
    );
}

// Running the boundary resolver again on the corrected body finds no
// penetration: 95 + 5 is not greater than 100.
#[test]
fn boundary_penetration_resolved() {
    let mut sim = standard_sim();
    sim.bodies.push(body(0, 0, 99, 0, 50));
    sim.next_id = 1;
    let first = collide_cage(&mut sim);
    assert_eq!(first.len(), 1);
    let second = collide_cage(&mut sim);
    assert_eq!(second.len(), 0);
    assert_eq!(sim.bodies[0].pos.y, 95);
    assert_eq!(sim.bodies[0].vel.y, -50);
}

// A body well inside the cage (50 + 5 < 100) is untouched by the boundary
// resolver.
#[test]
fn no_collision_is_a_no_op() {
    let mut sim = standard_sim();
    sim.bodies.push(body(0, 0, 50, 7, -13));
    sim.next_id = 1;
    let events = collide_cage(&mut sim);
    assert_eq!(events.len(), 0);
    assert_eq!(sim.bodies[0].pos.x, 0);
    assert_eq!(sim.bodies[0].pos.y, 50);
    assert_eq!(sim.bodies[0].vel.x, 7);
    assert_eq!(sim.bodies[0].vel.y, -13);
}

// Two bodies 6 apart with half-radii summing to 10 overlap; each resolves
// from its own side: both (a, b) and (b, a) events are emitted, the first
// body is pushed to (0, -4) and the second to (0, 10), and the corrected
// distance 10 is no longer below the sum of half-radii.
#[test]
fn pair_overlap_resolved_both_sides() {
    let mut sim = standard_sim();
    sim.bodies.push(body(0, 0, 0, 0, 0));
    sim.bodies.push(body(1, 0, 6, 0, 0));
    sim.next_id = 2;
    let events = collide_others(&mut sim);
    assert_eq!(events.len(), 2);
    assert_eq!(events[0].body, 0);
    assert_eq!(events[0].other, 1);
    assert_eq!(events[1].body, 1);
    assert_eq!(events[1].other, 0);
    assert_eq!(sim.bodies[0].pos.y, -4);
    assert_eq!(sim.bodies[1].pos.y, 10);
    // distance from the corrected first body to the other's snapshot position
    let d = sim.bodies[0].pos.y - 6;
    assert!(d * d >= 100);
    // and between both corrected positions: 14 apart, well clear of 10
    let d2 = sim.bodies[1].pos.y - sim.bodies[0].pos.y;
    assert_eq!(d2, 14);
    assert!(d2 * d2 >= 100);
}

// Two bodies at identical coordinates are treated as non-colliding: no
// event, no change, no degenerate normal.
#[test]
fn identical_positions_are_skipped() {
    let mut sim = standard_sim();
    sim.bodies.push(body(0, 5, 5, 1, 2));
    sim.bodies.push(body(1, 5, 5, -3, 4));
    sim.next_id = 2;
    let events = collide_others(&mut sim);
    assert_eq!(events.len(), 0);
    assert_eq!(sim.bodies[0].pos.x, 5);
    assert_eq!(sim.bodies[0].vel.x, 1);
    assert_eq!(sim.bodies[1].pos.x, 5);
    assert_eq!(sim.bodies[1].vel.y, 4);
}

// Gravity is applied to the vertical velocity component only, then the
// position advances by velocity, both scaled by the timestep.
#[test]
fn integrator_applies_gravity_then_velocity() {
    let mut sim = standard_sim();
    sim.bodies.push(body(0, 10, 20, 5, 0));
    sim.next_id = 1;
    apply_gravity(&mut sim, 1);
    assert_eq!(sim.bodies[0].vel.x, 5);
    assert_eq!(sim.bodies[0].vel.y, -300);
    apply_velocity(&mut sim, 1);
    assert_eq!(sim.bodies[0].pos.x, 15);
    assert_eq!(sim.bodies[0].pos.y, -280);
}

// In a tick with zero boundary collision events, zero bodies are spawned,
// even with a roll that would pass the probability check.
#[test]
fn spawn_bound_without_boundary_events() {
    let mut sim = standard_sim();
    sim.bodies.push(body(0, 0, 10, 0, 0));
    sim.next_id = 1;
    let out = tick(&mut sim, 0, 0, Vec2 { x: 3, y: 4 });
    assert_eq!(out.boundary_events.len(), 0);
    assert!(!out.spawned);
    assert_eq!(sim.bodies.len(), 1);
}

// A boundary collision plus a passing roll spawns exactly one body at the
// cage center, moving at the starting speed in the sampled direction:
// direction (3, 4) has length 5, so the velocity is (120, 160).
#[test]
fn spawn_on_boundary_collision() {
    let mut sim = standard_sim();
    sim.bodies.push(body(0, 0, 99, 0, 50));
    sim.next_id = 1;
    let out = tick(&mut sim, 0, 5, Vec2 { x: 3, y: 4 });
    assert_eq!(out.boundary_events.len(), 1);
    assert!(out.spawned);
    assert_eq!(sim.bodies.len(), 2);
    let nb = &sim.bodies[1];
    assert_eq!(nb.id, 1);
    assert_eq!(nb.pos.x, 0);
    assert_eq!(nb.pos.y, 0);
    assert_eq!(nb.vel.x, 120);
    assert_eq!(nb.vel.y, 160);
    assert_eq!(nb.radius, 10);
    assert_eq!(sim.next_id, 2);
}

// A failing roll spawns nothing even when boundary events occurred.
#[test]
fn no_spawn_on_failing_roll() {
    let mut sim = standard_sim();
    sim.bodies.push(body(0, 0, 99, 0, 50));
    sim.next_id = 1;
    let out = tick(&mut sim, 0, 55, Vec2 { x: 3, y: 4 });
    assert_eq!(out.boundary_events.len(), 1);
    assert!(!out.spawned);
    assert_eq!(sim.bodies.len(), 1);
}

// At most one spawn per tick, however many boundary events occur.
#[test]
fn at_most_one_spawn_per_tick() {
    let mut sim = standard_sim();
    sim.bodies.push(body(0, 0, 99, 0, 50));
    sim.bodies.push(body(1, 99, 0, 50, 0));
    sim.next_id = 2;
    let out = tick(&mut sim, 0, 5, Vec2 { x: 0, y: 7 });
    assert_eq!(out.boundary_events.len(), 2);
    assert!(out.spawned);
    assert_eq!(sim.bodies.len(), 3);
}

// One audio cue per event kind present, not one per event.
#[test]
fn one_cue_per_event_kind() {
    let mut sim = standard_sim();
    sim.bodies.push(body(0, 0, 99, 0, 50));
    sim.bodies.push(body(1, 99, 0, 50, 0));
    sim.next_id = 2;
    let boundary = collide_cage(&mut sim);
    let others = collide_others(&mut sim);
    assert_eq!(boundary.len(), 2);
    let cues = collision_cues(&boundary, &others);
    assert!(cues.0);
    assert_eq!(cues.1, others.len() > 0);
}

// The cue for body collisions fires alone when only bodies touch.
#[test]
fn body_cue_without_boundary_cue() {
    let mut sim = standard_sim();
    sim.bodies.push(body(0, 0, 0, 0, 0));
    sim.bodies.push(body(1, 0, 6, 0, 0));
    sim.next_id = 2;
    let out = tick(&mut sim, 0, 0, Vec2 { x: 1, y: 0 });
    assert!(!out.boundary_cue);
    assert!(out.body_cue);
    assert_eq!(out.body_events.len(), 2);
    assert!(!out.spawned);
}

// maybe_spawn_ball leaves the state untouched when the event queue is
// empty.
#[test]
fn maybe_spawn_needs_events() {
    let mut sim = standard_sim();
    let empty: Vec<ball_cage::sim::BoundaryCollision> = Vec::new();
    let spawned = maybe_spawn_ball(&mut sim, &empty, 0, Vec2 { x: 1, y: 1 });
    assert!(!spawned);
    assert_eq!(sim.bodies.len(), 0);
    assert_eq!(sim.next_id, 0);
}

// A degenerate zero direction sample falls back to the first axis instead
// of normalizing a zero vector.
#[test]
fn spawn_zero_direction_falls_back() {
    let mut sim = standard_sim();
    let ok = spawn_ball(&mut sim, Vec2 { x: 0, y: 0 });
    assert!(ok);
    assert_eq!(sim.bodies[0].vel.x, 200);
    assert_eq!(sim.bodies[0].vel.y, 0);
}

// Handles stay unique across spawns; reset clears bodies but never reuses
// handles.
#[test]
fn spawn_and_reset_keep_handles_fresh() {
    let mut sim = standard_sim();
    assert!(spawn_ball(&mut sim, Vec2 { x: 1, y: 0 }));
    assert!(spawn_ball(&mut sim, Vec2 { x: 0, y: 1 }));
    assert_eq!(sim.bodies[0].id, 0);
    assert_eq!(sim.bodies[1].id, 1);
    assert_eq!(sim.next_id, 2);
    reset_all(&mut sim);
    assert_eq!(sim.bodies.len(), 0);
    assert_eq!(sim.next_id, 2);
    assert!(spawn_ball(&mut sim, Vec2 { x: 1, y: 0 }));
    assert_eq!(sim.bodies[0].id, 2);
}

// The randomness seam delivers direction samples within the promised box.
#[test]
fn sampled_direction_is_in_range() {
    for _ in 0..100 {
        let (_, dir) = sample_tick_inputs();
        assert!(-1000 <= dir.x && dir.x <= 1000);
        assert!(-1000 <= dir.y && dir.y <= 1000);
    }
}

// A short diagonal sample must still give the starting speed up to the
// stated tolerance of 4: direction (1, 1) yields (141, 141), whose squared
// speed 39762 lies within [196^2, 204^2] around the configured 200.
#[test]
fn spawn_short_sample_keeps_starting_speed() {
    let mut sim = standard_sim();
    assert!(spawn_ball(&mut sim, Vec2 { x: 1, y: 1 }));
    let v = sim.bodies[0].vel;
    assert_eq!(v.x, 141);
    assert_eq!(v.y, 141);
    let nsq = v.x * v.x + v.y * v.y;
    assert_eq!(nsq, 39762);
    assert!(196 * 196 <= nsq && nsq <= 204 * 204);
}

// The same band holds for an asymmetric short sample.
#[test]
fn spawn_asymmetric_sample_keeps_starting_speed() {
    let mut sim = standard_sim();
    assert!(spawn_ball(&mut sim, Vec2 { x: -7, y: 2 }));
    let v = sim.bodies[0].vel;
    assert_eq!(v.x, -192);
    assert_eq!(v.y, 54);
    let nsq = v.x * v.x + v.y * v.y;
    assert!(196 * 196 <= nsq && nsq <= 204 * 204);
}
