//! Distance and spring constraints.

use grapple::link::{solve_distance_constraint, DistanceConstraint, SpringConstraint};
use grapple::scalar::F32;

fn n(x: f32) -> F32 {
    F32::from_bits(x.to_bits())
}

fn f(x: F32) -> f32 {
    f32::from_bits(x.to_bits())
}

fn p(x: f32, y: f32) -> (F32, F32) {
    (n(x), n(y))
}

fn pair(v: (F32, F32)) -> (f32, f32) {
    (f(v.0), f(v.1))
}

fn impulse(
    pos_a: (f32, f32),
    pos_b: (f32, f32),
    rest_length: f32,
    stiffness: f32,
    damping: f32,
    vel_a: (f32, f32),
) -> (f32, f32) {
    pair(solve_distance_constraint(
        p(pos_a.0, pos_a.1),
        p(pos_b.0, pos_b.1),
        n(rest_length),
        n(stiffness),
        n(damping),
        p(vel_a.0, vel_a.1),
    ))
}

/// The same in the machine's own arithmetic.
fn expected(
    a: (f32, f32),
    b: (f32, f32),
    rest: f32,
    stiffness: f32,
    damping: f32,
    v: (f32, f32),
) -> (f32, f32) {
    let (dx, dy) = (a.0 - b.0, a.1 - b.1);
    let distance = (dx * dx + dy * dy).sqrt();
    if distance < 0.001 {
        return (0.0, 0.0);
    }
    let (nx, ny) = (dx / distance, dy / distance);
    let total = -stiffness * (distance - rest) + -damping * (v.0 * nx + v.1 * ny);
    (nx * total, ny * total)
}

fn next(state: &mut u64) -> f32 {
    *state = state.wrapping_mul(6364136223846793005).wrapping_add(1442695040888963407);
    ((*state >> 40) as f32) / 16384.0 - 512.0
}

#[test]
fn impulse_agrees_with_the_machine() {
    let mut s: u64 = 3;
    for _ in 0..20_000 {
        let a = (next(&mut s), next(&mut s));
        let b = (next(&mut s), next(&mut s));
        let rest = next(&mut s).abs();
        let stiffness = next(&mut s) / 512.0;
        let damping = next(&mut s) / 512.0;
        let v = (next(&mut s), next(&mut s));
        let ours = impulse(a, b, rest, stiffness, damping, v);
        let theirs = expected(a, b, rest, stiffness, damping, v);
        assert_eq!(ours.0.to_bits(), theirs.0.to_bits());
        assert_eq!(ours.1.to_bits(), theirs.1.to_bits());
    }
}

#[test]
fn stretched_link_pulls_back() {
    assert_eq!(impulse((3.0, 4.0), (0.0, 0.0), 2.5, 0.5, 0.0, (0.0, 0.0)), (-0.75, -1.0));
}

#[test]
fn compressed_link_pushes_away() {
    assert_eq!(impulse((3.0, 4.0), (0.0, 0.0), 7.5, 0.5, 0.0, (0.0, 0.0)), (0.75, 1.0));
}

#[test]
fn link_at_rest_does_nothing() {
    let (x, y) = impulse((3.0, 4.0), (0.0, 0.0), 5.0, 0.5, 0.25, (0.0, 0.0));
    assert!(x == 0.0 && y == 0.0);
}

#[test]
fn link_damps_motion_along_it() {
    assert_eq!(impulse((2.0, 0.0), (0.0, 0.0), 2.0, 0.5, 0.25, (8.0, 3.0)), (-2.0, -0.0));
    assert_eq!(impulse((2.0, 0.0), (0.0, 0.0), 2.0, 0.5, 0.25, (-8.0, 3.0)), (2.0, 0.0));
}

#[test]
fn coinciding_points_have_no_impulse() {
    assert_eq!(impulse((1.0, 1.0), (1.0, 1.0), 5.0, 0.5, 0.5, (9.0, 9.0)), (0.0, 0.0));
    assert_eq!(impulse((0.0009, 0.0), (0.0, 0.0), 5.0, 0.5, 0.5, (9.0, 9.0)), (0.0, 0.0));
}

#[test]
fn points_just_apart_have_an_impulse() {
    let (x, _) = impulse((0.001, 0.0), (0.0, 0.0), 5.0, 0.5, 0.0, (0.0, 0.0));
    assert!(x > 2.0);
}

#[test]
fn no_number_in_gives_no_number_out() {
    let (x, y) = impulse((f32::NAN, 0.0), (0.0, 0.0), 5.0, 0.5, 0.0, (0.0, 0.0));
    assert!(x.is_nan() && y.is_nan());
}

#[test]
fn distance_defaults() {
    let c = DistanceConstraint::default();
    assert_eq!(pair(c.anchor), (0.0, 0.0));
    assert_eq!(f(c.rest_length), 100.0);
    assert_eq!(f(c.stiffness), 0.5);
    assert_eq!(f(c.damping), 0.1);
    assert!(c.active);
}

#[test]
fn distance_new_keeps_the_other_defaults() {
    let c = DistanceConstraint::new(p(1.0, 2.0), n(30.0));
    assert_eq!(pair(c.anchor), (1.0, 2.0));
    assert_eq!(f(c.rest_length), 30.0);
    assert_eq!(f(c.stiffness), 0.5);
    assert_eq!(f(c.damping), 0.1);
    assert!(c.active);
}

#[test]
fn distance_settings_are_clamped() {
    let c = DistanceConstraint::new(p(0.0, 0.0), n(1.0));
    assert_eq!(f(c.with_stiffness(n(2.0)).stiffness), 1.0);
    assert_eq!(f(c.with_stiffness(n(-2.0)).stiffness), 0.0);
    assert_eq!(f(c.with_stiffness(n(0.25)).stiffness), 0.25);
    assert!(f(c.with_stiffness(n(f32::NAN)).stiffness).is_nan());
    assert_eq!(f(c.with_damping(n(7.0)).damping), 1.0);
    assert_eq!(f(c.with_damping(n(-7.0)).damping), 0.0);
    assert_eq!(f(c.with_damping(n(0.75)).damping), 0.75);
    assert_eq!(f(c.with_damping(n(0.75)).stiffness), 0.5);
}

#[test]
fn distance_solves_only_while_active() {
    let mut c = DistanceConstraint::new(p(0.0, 0.0), n(2.5)).with_damping(n(0.0));
    assert_eq!(pair(c.solve(p(3.0, 4.0), p(1.0, 1.0))), (-0.75, -1.0));
    c.active = false;
    assert_eq!(pair(c.solve(p(3.0, 4.0), p(1.0, 1.0))), (0.0, 0.0));
}

#[test]
fn spring_defaults() {
    let c = SpringConstraint::default();
    assert_eq!(pair(c.anchor), (0.0, 0.0));
    assert_eq!(f(c.rest_length), 100.0);
    assert_eq!(f(c.spring_k), 200.0);
    assert_eq!(f(c.damp_k), 10.0);
    assert!(c.active);
}

#[test]
fn spring_settings_are_not_negative() {
    let c = SpringConstraint::new(p(1.0, 2.0), n(3.0));
    assert_eq!(pair(c.anchor), (1.0, 2.0));
    assert_eq!(f(c.rest_length), 3.0);
    assert_eq!(f(c.with_spring_k(n(-1.0)).spring_k), 0.0);
    assert_eq!(f(c.with_spring_k(n(4.0)).spring_k), 4.0);
    assert_eq!(f(c.with_spring_k(n(f32::NAN)).spring_k), 0.0);
    assert_eq!(f(c.with_damp_k(n(-1.0)).damp_k), 0.0);
    assert_eq!(f(c.with_damp_k(n(6.0)).damp_k), 6.0);
    assert_eq!(f(c.with_damp_k(n(6.0)).spring_k), 200.0);
}

#[test]
fn spring_is_a_link_with_its_own_settings() {
    let c = SpringConstraint::new(p(0.0, 0.0), n(2.5)).with_spring_k(n(4.0)).with_damp_k(n(2.0));
    let ours = pair(c.solve(p(3.0, 4.0), p(5.0, 0.0)));
    assert_eq!(ours, expected((3.0, 4.0), (0.0, 0.0), 2.5, 4.0, 2.0, (5.0, 0.0)));
    assert_eq!(ours, impulse((3.0, 4.0), (0.0, 0.0), 2.5, 4.0, 2.0, (5.0, 0.0)));
    let mut idle = c;
    idle.active = false;
    assert_eq!(pair(idle.solve(p(3.0, 4.0), p(5.0, 0.0))), (0.0, 0.0));
}

#[test]
fn spring_without_distance_does_nothing() {
    let c = SpringConstraint::new(p(1.0, 1.0), n(2.5));
    assert_eq!(pair(c.solve(p(1.0, 1.0), p(5.0, 0.0))), (0.0, 0.0));
}

#[test]
fn link_with_a_rest_length_below_zero_pulls() {
    assert_eq!(impulse((3.0, 4.0), (0.0, 0.0), -5.0, 0.5, 0.0, (0.0, 0.0)), (-3.0, -4.0));
}

#[test]
fn link_without_stiffness_only_damps() {
    assert_eq!(impulse((2.0, 0.0), (0.0, 0.0), 9.0, 0.0, 0.25, (8.0, 3.0)), (-2.0, 0.0));
    assert_eq!(impulse((2.0, 0.0), (0.0, 0.0), 1.0, 0.0, 0.25, (-8.0, 3.0)), (2.0, 0.0));
}

#[test]
fn link_acts_alike_on_both_ends() {
    let mut s: u64 = 29;
    for _ in 0..5_000 {
        let a = (next(&mut s), next(&mut s));
        let b = (next(&mut s), next(&mut s));
        let v = (next(&mut s), next(&mut s));
        let rest = next(&mut s);
        let (x, y) = impulse(a, b, rest, 0.7, 0.3, v);
        let (p, q) = impulse(b, a, rest, 0.7, 0.3, (-v.0, -v.1));
        assert!(p == -x && q == -y);
    }
    assert_eq!(impulse((3.0, 0.0), (1.0, 0.0), 1.0, 0.5, 0.25, (2.0, 5.0)), (-1.0, -0.0));
    assert_eq!(impulse((1.0, 0.0), (3.0, 0.0), 1.0, 0.5, 0.25, (-2.0, -5.0)), (1.0, -0.0));
}
