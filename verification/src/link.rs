//! Ropes, tethers and springs: forces that pull a point to a fixed distance from an anchor.

use crate::float::Float;
use crate::plane::{
    difference, difference_of, dot, dot_of, norm, norm_of, origin, origin_point, scaled, scaled_by,
    shrunk, shrunk_by,
};
use crate::scalar::F32;
use vstd::prelude::*;

verus! {

/// The distance below which two points count as one: there is no direction to pull in.
pub open spec fn least_distance() -> Float {
    Float::ratio(1, 1000)
}

/// The corrective impulse on a point at `pos_a` that is tied to `pos_b`. It acts along the line
/// through the two points: against the stretch beyond `rest_length`, and against the velocity
/// along that line.
pub open spec fn link_impulse(
    pos_a: (Float, Float),
    pos_b: (Float, Float),
    rest_length: Float,
    stiffness: Float,
    damping: Float,
    vel_a: (Float, Float),
) -> (Float, Float) {
    let offset = difference(pos_a, pos_b);
    let distance = norm(offset);
    if distance.lt(least_distance()) {
        origin()
    } else {
        let direction = shrunk(offset, distance);
        let spring = stiffness.negated().times(distance.minus(rest_length));
        let damper = damping.negated().times(dot(vel_a, direction));
        scaled(direction, spring.plus(damper))
    }
}

/// Solve a distance constraint between two points.
/// Returns the corrective impulse to apply to the dynamic point (pos_a).
pub fn solve_distance_constraint(
    pos_a: (F32, F32),
    pos_b: (F32, F32),
    rest_length: F32,
    stiffness: F32,
    damping: F32,
    vel_a: (F32, F32),
) -> (impulse: (F32, F32))
    ensures
        impulse@ == link_impulse(pos_a@, pos_b@, rest_length@, stiffness@, damping@, vel_a@),
{
    let offset = difference_of(pos_a, pos_b);
    let distance = norm_of(offset);
    if distance.lt(F32::ratio(1, 1000)) {
        return origin_point();
    }
    let direction = shrunk_by(offset, distance);
    let stretch = distance.minus(rest_length);
    let spring = stiffness.negated().times(stretch);
    let radial_velocity = dot_of(vel_a, direction);
    let damper = damping.negated().times(radial_velocity);
    scaled_by(direction, spring.plus(damper))
}

/// A simple distance constraint between two points (rope, tether, rigid link).
#[derive(Clone, Copy, Debug)]
pub struct DistanceConstraint {
    pub anchor: (F32, F32),
    pub rest_length: F32,
    pub stiffness: F32,
    pub damping: F32,
    pub active: bool,
}

impl Default for DistanceConstraint {
    fn default() -> (result: Self)
        ensures
            result.anchor@ == origin(),
            result.rest_length@ == Float::ratio(100, 1),
            result.stiffness@ == Float::ratio(1, 2),
            result.damping@ == Float::ratio(1, 10),
            result.active,
    {
        DistanceConstraint {
            anchor: origin_point(),
            rest_length: F32::ratio(100, 1),
            stiffness: F32::ratio(1, 2),
            damping: F32::ratio(1, 10),
            active: true,
        }
    }
}

impl DistanceConstraint {
    /// An active constraint to stay at `rest_length` from `anchor`, half stiff and lightly damped.
    pub fn new(anchor: (F32, F32), rest_length: F32) -> (result: Self)
        ensures
            result.anchor == anchor,
            result.rest_length == rest_length,
            result.stiffness@ == Float::ratio(1, 2),
            result.damping@ == Float::ratio(1, 10),
            result.active,
    {
        DistanceConstraint { anchor, rest_length, ..Self::default() }
    }

    /// The same constraint with this stiffness, brought into the range from 0 to 1.
    pub fn with_stiffness(self, stiffness: F32) -> (result: Self)
        ensures
            result.stiffness@ == stiffness@.clamp(Float::zero(), Float::ratio(1, 1)),
            result == (DistanceConstraint { stiffness: result.stiffness, ..self }),
    {
        DistanceConstraint { stiffness: stiffness.clamp(F32::zero(), F32::ratio(1, 1)), ..self }
    }

    /// The same constraint with this damping, brought into the range from 0 to 1.
    pub fn with_damping(self, damping: F32) -> (result: Self)
        ensures
            result.damping@ == damping@.clamp(Float::zero(), Float::ratio(1, 1)),
            result == (DistanceConstraint { damping: result.damping, ..self }),
    {
        DistanceConstraint { damping: damping.clamp(F32::zero(), F32::ratio(1, 1)), ..self }
    }

    /// The impulse on a point at `pos` that moves with `vel`.
    pub fn solve(&self, pos: (F32, F32), vel: (F32, F32)) -> (impulse: (F32, F32))
        ensures
            impulse@ == (if self.active {
                link_impulse(
                    pos@,
                    self.anchor@,
                    self.rest_length@,
                    self.stiffness@,
                    self.damping@,
                    vel@,
                )
            } else {
                origin()
            }),
    {
        if !self.active {
            return origin_point();
        }
        solve_distance_constraint(
            pos,
            self.anchor,
            self.rest_length,
            self.stiffness,
            self.damping,
            vel,
        )
    }
}

/// A spring connecting two points. Softer than a distance constraint: suitable for bouncy tethers,
/// bungee cords, elastic connections.
#[derive(Clone, Copy, Debug)]
pub struct SpringConstraint {
    pub anchor: (F32, F32),
    pub rest_length: F32,
    pub spring_k: F32,
    pub damp_k: F32,
    pub active: bool,
}

impl Default for SpringConstraint {
    fn default() -> (result: Self)
        ensures
            result.anchor@ == origin(),
            result.rest_length@ == Float::ratio(100, 1),
            result.spring_k@ == Float::ratio(200, 1),
            result.damp_k@ == Float::ratio(10, 1),
            result.active,
    {
        SpringConstraint {
            anchor: origin_point(),
            rest_length: F32::ratio(100, 1),
            spring_k: F32::ratio(200, 1),
            damp_k: F32::ratio(10, 1),
            active: true,
        }
    }
}

impl SpringConstraint {
    /// An active spring of this length at `anchor`.
    pub fn new(anchor: (F32, F32), rest_length: F32) -> (result: Self)
        ensures
            result.anchor == anchor,
            result.rest_length == rest_length,
            result.spring_k@ == Float::ratio(200, 1),
            result.damp_k@ == Float::ratio(10, 1),
            result.active,
    {
        SpringConstraint { anchor, rest_length, ..Self::default() }
    }

    /// The same spring with this strength, or with none where `k` is below zero.
    pub fn with_spring_k(self, k: F32) -> (result: Self)
        ensures
            result.spring_k@ == k@.max(Float::zero()),
            result == (SpringConstraint { spring_k: result.spring_k, ..self }),
    {
        SpringConstraint { spring_k: k.max(F32::zero()), ..self }
    }

    /// The same spring with this damping, or with none where `k` is below zero.
    pub fn with_damp_k(self, k: F32) -> (result: Self)
        ensures
            result.damp_k@ == k@.max(Float::zero()),
            result == (SpringConstraint { damp_k: result.damp_k, ..self }),
    {
        SpringConstraint { damp_k: k.max(F32::zero()), ..self }
    }

    /// The impulse on a point at `pos` that moves with `vel`.
    pub fn solve(&self, pos: (F32, F32), vel: (F32, F32)) -> (impulse: (F32, F32))
        ensures
            impulse@ == (if self.active {
                link_impulse(
                    pos@,
                    self.anchor@,
                    self.rest_length@,
                    self.spring_k@,
                    self.damp_k@,
                    vel@,
                )
            } else {
                origin()
            }),
    {
        if !self.active {
            return origin_point();
        }
        solve_distance_constraint(
            pos,
            self.anchor,
            self.rest_length,
            self.spring_k,
            self.damp_k,
            vel,
        )
    }
}

} // verus!
