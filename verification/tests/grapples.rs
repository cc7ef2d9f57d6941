//! Single grapples.

use grapple::grapple::{GrappleConstraint, GrappleCorrection, SwingBias};
use grapple::scalar::F32;

fn n(x: f32) -> F32 {
    F32::from_bits(x.to_bits())
}

fn f(x: F32) -> f32 {
    f32::from_bits(x.to_bits())
}

fn p(x: f32, y: f32) -> (F32, F32) {
    (n(x), n(y))
}

fn pair(v: (F32, F32)) -> (f32, f32) {
    (f(v.0), f(v.1))
}

fn position(c: &GrappleCorrection) -> (f32, f32) {
    pair(c.position.unwrap())
}

fn velocity(c: &GrappleCorrection) -> (f32, f32) {
    pair(c.velocity.unwrap())
}

fn next(state: &mut u64) -> f32 {
    *state = state.wrapping_mul(6364136223846793005).wrapping_add(1442695040888963407);
    ((*state >> 40) as f32) / 16384.0 - 512.0
}

struct Plain {
    anchor: (f32, f32),
    length: f32,
    stiffness: f32,
    damping: f32,
    max_speed: f32,
    shorten: bool,
    bias: SwingBias,
}

/// The same in the machine's own arithmetic: the new length, and the position and velocity.
fn expected(
    g: &Plain,
    pos: (f32, f32),
    vel: (f32, f32),
) -> (f32, Option<((f32, f32), (f32, f32))>) {
    let (dx, dy) = (pos.0 - g.anchor.0, pos.1 - g.anchor.1);
    let distance = (dx * dx + dy * dy).sqrt();
    if distance < 0.001 {
        return (g.length, None);
    }
    let length = if g.shorten && distance < g.length { distance } else { g.length };
    if distance <= length {
        return (length, None);
    }
    let (nx, ny) = (dx / distance, dy / distance);
    let (ex, ey) = (g.anchor.0 + nx * length, g.anchor.1 + ny * length);
    let place = (pos.0 + (ex - pos.0) * g.stiffness, pos.1 + (ey - pos.1) * g.stiffness);
    let (tx, ty) = (-ny, nx);
    let radial = vel.0 * nx + vel.1 * ny;
    let tangent = vel.0 * tx + vel.1 * ty;
    let radial = if radial > 0.0 { radial * (1.0 - g.stiffness) } else { radial };
    let tangent = tangent * (1.0 - g.damping);
    let mut vx = nx * radial + tx * tangent;
    let mut vy = ny * radial + ty * tangent;
    match g.bias {
        SwingBias::Neutral => {}
        SwingBias::Horizontal => vy = vel.1 + (vy - vel.1) * 0.6,
        SwingBias::Vertical => vx = vel.0 + (vx - vel.0) * 0.6,
    }
    if g.max_speed > 0.0 {
        let speed = (vx * vx + vy * vy).sqrt();
        if speed > g.max_speed {
            let scale = g.max_speed / speed;
            vx *= scale;
            vy *= scale;
        }
    }
    (length, Some((place, (vx, vy))))
}

#[test]
fn solve_agrees_with_the_machine() {
    let mut s: u64 = 5;
    for round in 0..20_000 {
        let plain = Plain {
            anchor: (next(&mut s), next(&mut s)),
            length: next(&mut s).abs() + 1.0,
            stiffness: next(&mut s).abs() / 512.0,
            damping: next(&mut s).abs() / 512.0,
            max_speed: if round % 3 == 0 { next(&mut s).abs() } else { 0.0 },
            shorten: round % 2 == 0,
            bias: match round % 5 {
                0 => SwingBias::Horizontal,
                1 => SwingBias::Vertical,
                _ => SwingBias::Neutral,
            },
        };
        let mut ours = GrappleConstraint::at_point(p(plain.anchor.0, plain.anchor.1), n(plain.length))
            .with_stiffness(n(plain.stiffness))
            .with_damping(n(plain.damping))
            .with_max_swing_speed(n(plain.max_speed))
            .with_swing_bias(plain.bias);
        if plain.shorten {
            ours = ours.with_auto_shorten();
        }
        let pos = (next(&mut s), next(&mut s));
        let vel = (next(&mut s), next(&mut s));
        let correction = ours.solve(p(pos.0, pos.1), p(vel.0, vel.1));
        let (length, moved) = expected(&plain, pos, vel);
        assert_eq!(f(ours.length).to_bits(), length.to_bits());
        match moved {
            Some((place, speed)) => {
                assert!(correction.applied());
                assert_eq!(position(&correction).0.to_bits(), place.0.to_bits());
                assert_eq!(position(&correction).1.to_bits(), place.1.to_bits());
                assert_eq!(velocity(&correction).0.to_bits(), speed.0.to_bits());
                assert_eq!(velocity(&correction).1.to_bits(), speed.1.to_bits());
            }
            None => assert!(!correction.applied() && correction.velocity.is_none()),
        }
    }
}

#[test]
fn swing_bias_default_is_neutral() {
    assert_eq!(SwingBias::default(), SwingBias::Neutral);
}

#[test]
fn no_correction_is_not_applied() {
    let c = GrappleCorrection::none();
    assert!(!c.applied());
    assert!(c.position.is_none() && c.velocity.is_none());
}

#[test]
fn defaults() {
    let g = GrappleConstraint::default();
    assert_eq!(pair(g.anchor), (0.0, 0.0));
    assert!(g.anchor_object.is_none());
    assert_eq!(f(g.length), 200.0);
    assert_eq!(f(g.stiffness), 0.8);
    assert_eq!(f(g.damping), 0.05);
    assert_eq!(f(g.max_swing_speed), 0.0);
    assert!(!g.auto_shorten);
    assert_eq!(g.swing_bias, SwingBias::Neutral);
    assert!(g.active);
}

#[test]
fn ropes_are_not_shorter_than_one() {
    assert_eq!(f(GrappleConstraint::at_point(p(1.0, 2.0), n(0.5)).length), 1.0);
    assert_eq!(f(GrappleConstraint::at_point(p(1.0, 2.0), n(f32::NAN)).length), 1.0);
    assert_eq!(f(GrappleConstraint::at_point(p(1.0, 2.0), n(50.0)).length), 50.0);
    let g = GrappleConstraint::to_object("crane".to_string(), n(-3.0));
    assert_eq!(f(g.length), 1.0);
    assert_eq!(g.anchor_object, Some("crane".to_string()));
    assert_eq!(pair(g.anchor), (0.0, 0.0));
}

#[test]
fn settings_are_brought_into_range() {
    let g = || GrappleConstraint::at_point(p(0.0, 0.0), n(10.0));
    assert_eq!(f(g().with_stiffness(n(1.5)).stiffness), 1.0);
    assert_eq!(f(g().with_stiffness(n(-0.5)).stiffness), 0.0);
    assert_eq!(f(g().with_stiffness(n(0.5)).stiffness), 0.5);
    assert_eq!(f(g().with_damping(n(1.5)).damping), 1.0);
    assert_eq!(f(g().with_damping(n(-0.5)).damping), 0.0);
    assert_eq!(f(g().with_max_swing_speed(n(-5.0)).max_swing_speed), 0.0);
    assert_eq!(f(g().with_max_swing_speed(n(5.0)).max_swing_speed), 5.0);
    assert!(g().with_auto_shorten().auto_shorten);
    assert_eq!(g().with_swing_bias(SwingBias::Vertical).swing_bias, SwingBias::Vertical);
}

#[test]
fn presets() {
    let hook = GrappleConstraint::grappling_hook(p(1.0, 2.0), n(30.0));
    assert_eq!((f(hook.stiffness), f(hook.damping)), (0.9, 0.05));
    assert_eq!((pair(hook.anchor), f(hook.length)), ((1.0, 2.0), 30.0));
    let web = GrappleConstraint::web_swing(p(1.0, 2.0), n(30.0));
    assert_eq!((f(web.stiffness), f(web.damping)), (0.7, 0.02));
    assert_eq!(web.swing_bias, SwingBias::Horizontal);
    let bungee = GrappleConstraint::bungee(p(1.0, 2.0), n(30.0));
    assert_eq!((f(bungee.stiffness), f(bungee.damping)), (0.3, 0.15));
    let tether = GrappleConstraint::rigid_tether(p(1.0, 2.0), n(30.0));
    assert_eq!((f(tether.stiffness), f(tether.damping)), (1.0, 0.1));
    let ball = GrappleConstraint::wrecking_ball(p(1.0, 2.0), n(30.0));
    assert_eq!((f(ball.stiffness), f(ball.damping)), (0.95, 0.02));
    assert_eq!(f(ball.max_swing_speed), 800.0);
    assert_eq!(f(hook.max_swing_speed), 0.0);
}

#[test]
fn clones_are_equal() {
    let g = GrappleConstraint::to_object("crane".to_string(), n(3.0)).with_auto_shorten();
    let h = g.clone();
    assert_eq!(h.anchor_object, Some("crane".to_string()));
    assert_eq!(f(h.length), 3.0);
    assert!(h.auto_shorten);
}

#[test]
fn slack_rope_does_nothing() {
    let mut g = GrappleConstraint::rigid_tether(p(0.0, 0.0), n(10.0));
    assert!(!g.solve(p(10.0, 0.0), p(1.0, 1.0)).applied());
    assert!(!g.solve(p(3.0, 4.0), p(1.0, 1.0)).applied());
    assert_eq!(f(g.length), 10.0);
}

#[test]
fn inactive_grapple_does_nothing() {
    let mut g = GrappleConstraint::rigid_tether(p(0.0, 0.0), n(10.0)).with_auto_shorten();
    g.active = false;
    assert!(!g.solve(p(20.0, 0.0), p(1.0, 1.0)).applied());
    assert!(!g.solve(p(5.0, 0.0), p(1.0, 1.0)).applied());
    assert_eq!(f(g.length), 10.0);
}

#[test]
fn point_at_the_anchor_is_left_alone() {
    let mut g = GrappleConstraint::rigid_tether(p(5.0, 5.0), n(10.0)).with_auto_shorten();
    assert!(!g.solve(p(5.0, 5.0), p(1.0, 1.0)).applied());
    assert_eq!(f(g.length), 10.0);
}

#[test]
fn rigid_rope_brings_the_point_to_its_end() {
    let mut g = GrappleConstraint::rigid_tether(p(0.0, 0.0), n(10.0)).with_damping(n(0.0));
    let c = g.solve(p(20.0, 0.0), p(6.0, 3.0));
    assert_eq!(position(&c), (10.0, 0.0));
    assert_eq!(velocity(&c), (0.0, 3.0));
}

#[test]
fn rope_without_stiffness_enforces_nothing() {
    let mut g =
        GrappleConstraint::at_point(p(0.0, 0.0), n(10.0)).with_stiffness(n(0.0)).with_damping(n(0.0));
    let c = g.solve(p(20.0, 0.0), p(6.0, 3.0));
    assert_eq!(position(&c), (20.0, 0.0));
    assert_eq!(velocity(&c), (6.0, 3.0));
}

#[test]
fn inward_motion_is_kept() {
    let mut g = GrappleConstraint::rigid_tether(p(0.0, 0.0), n(10.0)).with_damping(n(0.5));
    let c = g.solve(p(20.0, 0.0), p(-6.0, 4.0));
    assert_eq!(velocity(&c), (-6.0, 2.0));
}

#[test]
fn bias_keeps_a_share_of_the_change() {
    let pos = p(20.0, 0.0);
    let vel = p(10.0, 10.0);
    let rigid = || GrappleConstraint::rigid_tether(p(0.0, 0.0), n(10.0)).with_damping(n(0.5));
    let c = rigid().with_swing_bias(SwingBias::Horizontal).solve(pos, vel);
    assert_eq!(velocity(&c), (0.0, 10.0 + (5.0 - 10.0) * 0.6));
    let c = rigid().with_swing_bias(SwingBias::Vertical).solve(pos, vel);
    assert_eq!(velocity(&c), (10.0 + (0.0 - 10.0) * 0.6, 5.0));
}

#[test]
fn speed_is_limited() {
    let mut g = GrappleConstraint::at_point(p(0.0, 0.0), n(10.0))
        .with_stiffness(n(0.0))
        .with_damping(n(0.0))
        .with_max_swing_speed(n(2.5));
    let c = g.solve(p(20.0, 0.0), p(3.0, 4.0));
    assert_eq!(velocity(&c), (1.5, 2.0));
    let c = g.solve(p(20.0, 0.0), p(1.5, 2.0));
    assert_eq!(velocity(&c), (1.5, 2.0));
}

#[test]
fn rope_takes_up_slack_and_never_grows() {
    let mut g = GrappleConstraint::rigid_tether(p(0.0, 0.0), n(10.0)).with_auto_shorten();
    assert!(!g.solve(p(6.0, 0.0), p(0.0, 0.0)).applied());
    assert_eq!(f(g.length), 6.0);
    assert!(!g.solve(p(6.0, 0.0), p(0.0, 0.0)).applied());
    assert_eq!(f(g.length), 6.0);
    let c = g.solve(p(8.0, 0.0), p(0.0, 0.0));
    assert_eq!(position(&c), (6.0, 0.0));
    assert_eq!(f(g.length), 6.0);
}

#[test]
fn speed_stays_within_the_limit_but_for_rounding() {
    let mut s: u64 = 11;
    let mut limited = 0;
    for _ in 0..20_000 {
        let limit = next(&mut s).abs() + 0.5;
        let mut g = GrappleConstraint::at_point(p(0.0, 0.0), n(1.0))
            .with_stiffness(n(0.0))
            .with_damping(n(0.0))
            .with_max_swing_speed(n(limit));
        let pos = p(next(&mut s), next(&mut s));
        let before = (next(&mut s), next(&mut s));
        let correction = g.solve(pos, p(before.0, before.1));
        if !correction.applied() {
            continue;
        }
        let after = velocity(&correction);
        let (u, v) = (after.0 as f64, after.1 as f64);
        let bound = (limit as f64) * (limit as f64);
        assert!((u * u + v * v) * 524288.0 <= bound * 524289.0);
        if before.0.hypot(before.1) > limit + 1.0 {
            limited += 1;
            assert!((u * u + v * v) * 1.001 >= bound);
        }
    }
    assert!(limited > 1000);
}

#[test]
fn rigid_rope_ends_at_its_length_but_for_rounding() {
    let mut s: u64 = 13;
    for _ in 0..20_000 {
        let length = next(&mut s).abs() + 1.0;
        let mut g = GrappleConstraint::rigid_tether(p(0.0, 0.0), n(length));
        let pos = (next(&mut s), next(&mut s));
        let correction = g.solve(p(pos.0, pos.1), p(0.0, 0.0));
        if correction.applied() {
            let (x, y) = position(&correction);
            let reached = (x as f64).hypot(y as f64);
            assert!((reached - length as f64).abs() <= 0.001);
        }
    }
}

#[test]
fn stiffer_ropes_pull_further() {
    let mut s: u64 = 17;
    for _ in 0..5_000 {
        let pos = (next(&mut s), next(&mut s));
        let anchor = (next(&mut s), next(&mut s));
        let length = next(&mut s).abs() + 1.0;
        let mut before = pos;
        for step in 0..5 {
            let mut g = GrappleConstraint::at_point(p(anchor.0, anchor.1), n(length))
                .with_stiffness(n(step as f32 / 4.0));
            let correction = g.solve(p(pos.0, pos.1), p(0.0, 0.0));
            if !correction.applied() {
                break;
            }
            let after = position(&correction);
            assert!((after.0 - pos.0).abs() >= (before.0 - pos.0).abs());
            assert!((after.1 - pos.1).abs() >= (before.1 - pos.1).abs());
            before = after;
        }
    }
}

#[test]
fn damping_takes_the_velocity_across_the_rope() {
    let swing = |damping: f32| {
        let mut g = GrappleConstraint::at_point(p(0.0, 0.0), n(5.0))
            .with_stiffness(n(1.0))
            .with_damping(n(damping));
        velocity(&g.solve(p(10.0, 0.0), p(6.0, 8.0)))
    };
    assert_eq!(swing(0.0), (0.0, 8.0));
    assert_eq!(swing(0.25), (0.0, 6.0));
    assert_eq!(swing(1.0), (0.0, 0.0));
}

#[test]
fn rope_takes_up_its_share_of_the_stretch() {
    let mut g = GrappleConstraint::at_point(p(0.0, 0.0), n(10.0)).with_stiffness(n(0.25));
    assert_eq!(position(&g.solve(p(30.0, 40.0), p(0.0, 0.0))), (24.0, 32.0));
    let mut s: u64 = 31;
    let mut pulled = 0;
    for _ in 0..20_000 {
        let anchor = (next(&mut s), next(&mut s));
        let pos = (next(&mut s), next(&mut s));
        let length = next(&mut s).abs() + 1.0;
        let stiffness = next(&mut s).abs() / 512.0;
        let mut g = GrappleConstraint::at_point(p(anchor.0, anchor.1), n(length))
            .with_stiffness(n(stiffness));
        let correction = g.solve(p(pos.0, pos.1), p(0.0, 0.0));
        if correction.applied() {
            pulled += 1;
            let (dx, dy) = (pos.0 as f64 - anchor.0 as f64, pos.1 as f64 - anchor.1 as f64);
            let distance = dx.hypot(dy);
            let (x, y) = position(&correction);
            let reached = (x as f64 - anchor.0 as f64).hypot(y as f64 - anchor.1 as f64);
            let wanted = distance - stiffness as f64 * (distance - length as f64);
            assert!((reached - wanted).abs() <= 1500.0 / 131072.0);
        }
    }
    assert!(pulled > 1000);
}

#[test]
fn rope_without_stiffness_and_damping_leaves_the_velocity() {
    let mut s: u64 = 37;
    for _ in 0..5_000 {
        let mut g = GrappleConstraint::at_point(p(0.0, 0.0), n(1.0))
            .with_stiffness(n(0.0))
            .with_damping(n(0.0));
        let v = (next(&mut s), next(&mut s));
        let correction = g.solve(p(next(&mut s), next(&mut s)), p(v.0, v.1));
        if correction.applied() {
            let (x, y) = velocity(&correction);
            let bound = (v.0.abs() + v.1.abs()) as f64 / 131072.0 + 1.0e-40;
            assert!((x as f64 - v.0 as f64).abs() <= bound);
            assert!((y as f64 - v.1 as f64).abs() <= bound);
        }
    }
}

#[test]
fn velocity_has_its_parts_along_and_across_the_rope() {
    let mut s: u64 = 41;
    for _ in 0..5_000 {
        let mut g = GrappleConstraint::at_point(p(0.0, 0.0), n(1.0))
            .with_stiffness(n(0.75))
            .with_damping(n(0.5));
        let pos = (next(&mut s), next(&mut s));
        let v = (next(&mut s), next(&mut s));
        let correction = g.solve(p(pos.0, pos.1), p(v.0, v.1));
        if correction.applied() {
            let distance = (pos.0 as f64).hypot(pos.1 as f64);
            let (nx, ny) = (pos.0 as f64 / distance, pos.1 as f64 / distance);
            let away = v.0 as f64 * nx + v.1 as f64 * ny;
            let across = v.1 as f64 * nx - v.0 as f64 * ny;
            let wanted = if away > 0.0 { away * 0.25 } else { away };
            let (x, y) = velocity(&correction);
            let (x, y) = (x as f64, y as f64);
            assert!((x * nx + y * ny - wanted).abs() <= 0.01);
            assert!((y * nx - x * ny - across * 0.5).abs() <= 0.01);
        }
    }
}
