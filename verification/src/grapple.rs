//! Grapples: ropes to swing on.

use crate::arithmetic::lemma_proper_fraction;
use crate::float::Float;
use crate::link::least_distance;
use crate::plane::{
    difference, difference_of, dot, dot_of, norm, norm_of, origin, origin_point, scaled, scaled_by,
    shrunk, shrunk_by, sum, sum_of, turned, turned_of,
};
use crate::scalar::F32;
use vstd::prelude::*;

verus! {

/// Directional bias for a grapple's swing motion.
#[derive(Clone, Copy, Debug, PartialEq, Eq, Structural)]
pub enum SwingBias {
    Neutral,
    Horizontal,
    Vertical,
}

impl Default for SwingBias {
    fn default() -> (result: Self)
        ensures
            result == SwingBias::Neutral,
    {
        SwingBias::Neutral
    }
}

/// Result of solving a grapple constraint for one frame.
#[derive(Clone, Copy, Debug)]
pub struct GrappleCorrection {
    pub position: Option<(F32, F32)>,
    pub velocity: Option<(F32, F32)>,
}

/// What a correction says: the new position and the new velocity, each where there is one.
pub struct Correction {
    pub position: Option<(Float, Float)>,
    pub velocity: Option<(Float, Float)>,
}

impl View for GrappleCorrection {
    type V = Correction;

    open spec fn view(&self) -> Correction {
        Correction {
            position: match self.position {
                Some(p) => Some(p@),
                None => None,
            },
            velocity: match self.velocity {
                Some(v) => Some(v@),
                None => None,
            },
        }
    }
}

impl Correction {
    /// The correction that changes nothing.
    pub open spec fn nothing() -> Correction {
        Correction { position: None, velocity: None }
    }
}

impl GrappleCorrection {
    /// The correction that changes nothing.
    pub fn none() -> (result: Self)
        ensures
            result@ == Correction::nothing(),
    {
        GrappleCorrection { position: None, velocity: None }
    }

    /// Whether there is a position to move to.
    pub fn applied(&self) -> (result: bool)
        ensures
            result == (self@.position is Some),
    {
        self.position.is_some()
    }
}

/// A grapple/swinging constraint. Designed for pendulum-style swinging mechanics.
///
/// Corrects positions, so that the rope feels rigid by default.
/// Stiffness 1 is fully rigid, 0 is no enforcement.
#[derive(Debug)]
pub struct GrappleConstraint {
    pub anchor: (F32, F32),
    pub anchor_object: Option<String>,
    pub length: F32,
    pub stiffness: F32,
    pub damping: F32,
    pub max_swing_speed: F32,
    pub auto_shorten: bool,
    pub swing_bias: SwingBias,
    pub active: bool,
}

/// The values that make up a grapple.
pub struct Grapple {
    pub anchor: (Float, Float),
    pub anchor_object: Option<Seq<char>>,
    pub length: Float,
    pub stiffness: Float,
    pub damping: Float,
    pub max_swing_speed: Float,
    pub auto_shorten: bool,
    pub swing_bias: SwingBias,
    pub active: bool,
}

impl View for GrappleConstraint {
    type V = Grapple;

    open spec fn view(&self) -> Grapple {
        Grapple {
            anchor: self.anchor@,
            anchor_object: match self.anchor_object {
                Some(name) => Some(name@),
                None => None,
            },
            length: self.length@,
            stiffness: self.stiffness@,
            damping: self.damping@,
            max_swing_speed: self.max_swing_speed@,
            auto_shorten: self.auto_shorten,
            swing_bias: self.swing_bias,
            active: self.active,
        }
    }
}

/// The number one.
pub open spec fn one() -> Float {
    Float::ratio(1, 1)
}

/// A number brought into the range from 0 to 1.
pub open spec fn unit_clamp(value: Float) -> Float {
    value.clamp(Float::zero(), one())
}

/// The part of a change of velocity that a swing bias lets through across its direction.
pub open spec fn bias_share() -> Float {
    Float::ratio(3, 5)
}

impl Grapple {
    /// A grapple with the usual settings: a rope of 200 that is nearly rigid, lightly damped, with
    /// no limit on the speed.
    pub open spec fn usual() -> Grapple {
        Grapple {
            anchor: origin(),
            anchor_object: None,
            length: Float::ratio(200, 1),
            stiffness: Float::ratio(4, 5),
            damping: Float::ratio(1, 20),
            max_swing_speed: Float::zero(),
            auto_shorten: false,
            swing_bias: SwingBias::Neutral,
            active: true,
        }
    }

    /// The usual grapple at a point, with a rope of this length but at least 1.
    pub open spec fn at(anchor: (Float, Float), length: Float) -> Grapple {
        Grapple { anchor, length: length.max(one()), ..Grapple::usual() }
    }

    /// The grapple at a point with these settings.
    pub open spec fn preset(
        anchor: (Float, Float),
        length: Float,
        stiffness: Float,
        damping: Float,
    ) -> Grapple {
        Grapple { stiffness, damping, ..Grapple::at(anchor, length) }
    }

    /// How far a point is from the anchor.
    pub open spec fn distance(self, position: (Float, Float)) -> Float {
        norm(difference(position, self.anchor))
    }

    /// Whether the rope acts on a point at all: it is active, and the point is not at the anchor.
    pub open spec fn engaged(self, position: (Float, Float)) -> bool {
        self.active && !self.distance(position).lt(least_distance())
    }

    /// Whether the rope pulls: the point is not within its length.
    pub open spec fn taut(self, position: (Float, Float)) -> bool {
        self.engaged(position) && !self.distance(position).le(self.length)
    }

    /// The grapple after a frame: a rope that shortens by itself has taken up its slack.
    pub open spec fn after(self, position: (Float, Float)) -> Grapple {
        let distance = self.distance(position);
        if self.engaged(position) && self.auto_shorten && distance.lt(self.length) {
            Grapple { length: distance, ..self }
        } else {
            self
        }
    }

    /// The direction from the anchor to a point.
    pub open spec fn direction(self, position: (Float, Float)) -> (Float, Float) {
        shrunk(difference(position, self.anchor), self.distance(position))
    }

    /// Where a point would be at the end of the rope.
    pub open spec fn rope_end(self, position: (Float, Float)) -> (Float, Float) {
        sum(self.anchor, scaled(self.direction(position), self.length))
    }

    /// Where a point is pulled to: towards the end of the rope, as far as the stiffness says.
    pub open spec fn pulled(self, position: (Float, Float)) -> (Float, Float) {
        sum(position, scaled(difference(self.rope_end(position), position), self.stiffness))
    }

    /// The velocity along the rope that is left: what leads away from the anchor is lessened by
    /// the stiffness.
    pub open spec fn radial(self, position: (Float, Float), velocity: (Float, Float)) -> Float {
        let radial = dot(velocity, self.direction(position));
        if Float::zero().lt(radial) {
            radial.times(one().minus(self.stiffness))
        } else {
            radial
        }
    }

    /// The velocity across the rope that is left after damping.
    pub open spec fn tangential(self, position: (Float, Float), velocity: (Float, Float)) -> Float {
        dot(velocity, turned(self.direction(position))).times(one().minus(self.damping))
    }

    /// The velocity put together again.
    pub open spec fn swung(self, position: (Float, Float), velocity: (Float, Float)) -> (
        Float,
        Float,
    ) {
        let direction = self.direction(position);
        sum(
            scaled(direction, self.radial(position, velocity)),
            scaled(turned(direction), self.tangential(position, velocity)),
        )
    }

    /// The velocity with the swing bias: a horizontal swing takes on only a share of the change of
    /// the vertical velocity, a vertical one only a share of that of the horizontal.
    pub open spec fn biased(self, before: (Float, Float), swung: (Float, Float)) -> (Float, Float) {
        match self.swing_bias {
            SwingBias::Neutral => swung,
            SwingBias::Horizontal => (
                swung.0,
                before.1.plus(swung.1.minus(before.1).times(bias_share())),
            ),
            SwingBias::Vertical => (
                before.0.plus(swung.0.minus(before.0).times(bias_share())),
                swung.1,
            ),
        }
    }

    /// The velocity with the limit on the speed, where there is one above zero.
    pub open spec fn limited(self, velocity: (Float, Float)) -> (Float, Float) {
        let speed = norm(velocity);
        if Float::zero().lt(self.max_swing_speed) && self.max_swing_speed.lt(speed) {
            scaled(velocity, self.max_swing_speed.over(speed))
        } else {
            velocity
        }
    }

    /// What the grapple does in one frame to a point at `position` that moves with `velocity`.
    pub open spec fn correction(
        self,
        position: (Float, Float),
        velocity: (Float, Float),
    ) -> Correction {
        if self.taut(position) {
            Correction {
                position: Some(self.pulled(position)),
                velocity: Some(self.limited(self.biased(velocity, self.swung(position, velocity)))),
            }
        } else {
            Correction::nothing()
        }
    }
}

impl Clone for GrappleConstraint {
    fn clone(&self) -> (result: Self)
        ensures
            result@ == self@,
    {
        GrappleConstraint {
            anchor: self.anchor,
            anchor_object: match &self.anchor_object {
                Some(name) => Some(name.clone()),
                None => None,
            },
            length: self.length,
            stiffness: self.stiffness,
            damping: self.damping,
            max_swing_speed: self.max_swing_speed,
            auto_shorten: self.auto_shorten,
            swing_bias: self.swing_bias,
            active: self.active,
        }
    }
}

impl Default for GrappleConstraint {
    fn default() -> (result: Self)
        ensures
            result@ == Grapple::usual(),
    {
        GrappleConstraint {
            anchor: origin_point(),
            anchor_object: None,
            length: F32::ratio(200, 1),
            stiffness: F32::ratio(4, 5),
            damping: F32::ratio(1, 20),
            max_swing_speed: F32::zero(),
            auto_shorten: false,
            swing_bias: SwingBias::Neutral,
            active: true,
        }
    }
}

impl GrappleConstraint {
    /// A grapple at a point of the world.
    pub fn at_point(anchor: (F32, F32), length: F32) -> (result: Self)
        ensures
            result@ == Grapple::at(anchor@, length@),
    {
        GrappleConstraint { anchor, length: length.max(F32::ratio(1, 1)), ..Self::default() }
    }

    /// A grapple that follows a named object.
    pub fn to_object(object_name: String, length: F32) -> (result: Self)
        ensures
            result@ == (Grapple {
                anchor_object: Some(object_name@),
                ..Grapple::at(origin(), length@)
            }),
    {
        GrappleConstraint {
            anchor_object: Some(object_name),
            length: length.max(F32::ratio(1, 1)),
            ..Self::default()
        }
    }

    /// The same grapple with this stiffness, brought into the range from 0 to 1.
    pub fn with_stiffness(self, stiffness: F32) -> (result: Self)
        ensures
            result@ == (Grapple { stiffness: unit_clamp(stiffness@), ..self@ }),
    {
        GrappleConstraint { stiffness: stiffness.clamp(F32::zero(), F32::ratio(1, 1)), ..self }
    }

    /// The same grapple with this damping, brought into the range from 0 to 1.
    pub fn with_damping(self, damping: F32) -> (result: Self)
        ensures
            result@ == (Grapple { damping: unit_clamp(damping@), ..self@ }),
    {
        GrappleConstraint { damping: damping.clamp(F32::zero(), F32::ratio(1, 1)), ..self }
    }

    /// The same grapple with this limit on the speed; zero or less is no limit.
    pub fn with_max_swing_speed(self, speed: F32) -> (result: Self)
        ensures
            result@ == (Grapple { max_swing_speed: speed@.max(Float::zero()), ..self@ }),
    {
        GrappleConstraint { max_swing_speed: speed.max(F32::zero()), ..self }
    }

    /// The same grapple with a rope that takes up its slack.
    pub fn with_auto_shorten(self) -> (result: Self)
        ensures
            result@ == (Grapple { auto_shorten: true, ..self@ }),
    {
        GrappleConstraint { auto_shorten: true, ..self }
    }

    /// The same grapple with this swing bias.
    pub fn with_swing_bias(self, bias: SwingBias) -> (result: Self)
        ensures
            result@ == (Grapple { swing_bias: bias, ..self@ }),
    {
        GrappleConstraint { swing_bias: bias, ..self }
    }

    /// Compute the grapple correction for this frame, and take up slack where the rope does so.
    pub fn solve(&mut self, obj_pos: (F32, F32), obj_vel: (F32, F32)) -> (result:
        GrappleCorrection)
        ensures
            final(self)@ == old(self)@.after(obj_pos@),
            final(self).anchor_object == old(self).anchor_object,
            result@ == old(self)@.correction(obj_pos@, obj_vel@),
    {
        if !self.active {
            return GrappleCorrection::none();
        }
        let offset = difference_of(obj_pos, self.anchor);
        let distance = norm_of(offset);
        if distance.lt(F32::ratio(1, 1000)) {
            return GrappleCorrection::none();
        }
        if self.auto_shorten && distance.lt(self.length) {
            self.length = distance;
        }
        if distance.le(self.length) {
            return GrappleCorrection::none();
        }
        let direction = shrunk_by(offset, distance);
        let rope_end = sum_of(self.anchor, scaled_by(direction, self.length));
        let pulled = sum_of(obj_pos, scaled_by(difference_of(rope_end, obj_pos), self.stiffness));

        let tangent = turned_of(direction);
        let radial_velocity = dot_of(obj_vel, direction);
        let tangent_velocity = dot_of(obj_vel, tangent);
        let corrected_radial = if F32::zero().lt(radial_velocity) {
            radial_velocity.times(F32::ratio(1, 1).minus(self.stiffness))
        } else {
            radial_velocity
        };
        let damped_tangent = tangent_velocity.times(F32::ratio(1, 1).minus(self.damping));
        let swung = sum_of(
            scaled_by(direction, corrected_radial),
            scaled_by(tangent, damped_tangent),
        );

        let mut velocity = match self.swing_bias {
            SwingBias::Neutral => swung,
            SwingBias::Horizontal => (
                swung.0,
                obj_vel.1.plus(swung.1.minus(obj_vel.1).times(F32::ratio(3, 5))),
            ),
            SwingBias::Vertical => (
                obj_vel.0.plus(swung.0.minus(obj_vel.0).times(F32::ratio(3, 5))),
                swung.1,
            ),
        };
        if F32::zero().lt(self.max_swing_speed) {
            let speed = norm_of(velocity);
            if self.max_swing_speed.lt(speed) {
                velocity = scaled_by(velocity, self.max_swing_speed.over(speed));
            }
        }
        GrappleCorrection { position: Some(pulled), velocity: Some(velocity) }
    }

    /// A stiff hook with little damping.
    pub fn grappling_hook(anchor: (F32, F32), length: F32) -> (result: Self)
        ensures
            result@ == Grapple::preset(
                anchor@,
                length@,
                Float::ratio(9, 10),
                Float::ratio(1, 20),
            ),
    {
        proof {
            lemma_proper_fraction(9, 10);
            lemma_proper_fraction(1, 20);
        }
        Self::at_point(anchor, length).with_stiffness(F32::ratio(9, 10)).with_damping(
            F32::ratio(1, 20),
        )
    }

    /// A springy web that swings sideways.
    pub fn web_swing(anchor: (F32, F32), length: F32) -> (result: Self)
        ensures
            result@ == (Grapple {
                swing_bias: SwingBias::Horizontal,
                ..Grapple::preset(anchor@, length@, Float::ratio(7, 10), Float::ratio(1, 50))
            }),
    {
        proof {
            lemma_proper_fraction(7, 10);
            lemma_proper_fraction(1, 50);
        }
        Self::at_point(anchor, length).with_stiffness(F32::ratio(7, 10)).with_damping(
            F32::ratio(1, 50),
        ).with_swing_bias(SwingBias::Horizontal)
    }

    /// A soft cord.
    pub fn bungee(anchor: (F32, F32), length: F32) -> (result: Self)
        ensures
            result@ == Grapple::preset(
                anchor@,
                length@,
                Float::ratio(3, 10),
                Float::ratio(3, 20),
            ),
    {
        proof {
            lemma_proper_fraction(3, 10);
            lemma_proper_fraction(3, 20);
        }
        Self::at_point(anchor, length).with_stiffness(F32::ratio(3, 10)).with_damping(
            F32::ratio(3, 20),
        )
    }

    /// A fully rigid tether.
    pub fn rigid_tether(anchor: (F32, F32), length: F32) -> (result: Self)
        ensures
            result@ == Grapple::preset(anchor@, length@, one(), Float::ratio(1, 10)),
    {
        proof {
            lemma_proper_fraction(1, 1);
            lemma_proper_fraction(1, 10);
        }
        Self::at_point(anchor, length).with_stiffness(F32::ratio(1, 1)).with_damping(
            F32::ratio(1, 10),
        )
    }

    /// A heavy ball on a nearly rigid chain, with a limit on its speed.
    pub fn wrecking_ball(anchor: (F32, F32), length: F32) -> (result: Self)
        ensures
            result@ == (Grapple {
                max_swing_speed: Float::ratio(800, 1),
                ..Grapple::preset(anchor@, length@, Float::ratio(19, 20), Float::ratio(1, 50))
            }),
    {
        proof {
            lemma_proper_fraction(19, 20);
            lemma_proper_fraction(1, 50);
        }
        Self::at_point(anchor, length).with_stiffness(F32::ratio(19, 20)).with_damping(
            F32::ratio(1, 50),
        ).with_max_swing_speed(F32::ratio(800, 1))
    }
}

} // verus!
