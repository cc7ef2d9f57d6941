//! What the constraints promise as a whole.

use crate::arithmetic::{
    lemma_difference_sign, lemma_direction_finite, lemma_minus_self, lemma_negated_factor,
    lemma_norm_unsigned, lemma_one, lemma_operations_valid, lemma_over_greater,
    lemma_plus_keeps_order, lemma_plus_zero, lemma_proper_fraction, lemma_rest_of_one,
    lemma_same_over, lemma_same_plus, lemma_same_square, lemma_same_times, lemma_sum_error,
    lemma_thousandth, lemma_times_at_most_one, lemma_times_keeps_order, lemma_times_one,
    lemma_times_zero, same,
};
use crate::float::{size, Float};
use crate::grapple::{bias_share, one, unit_clamp, Correction, Grapple, SwingBias};
use crate::link::{least_distance, link_impulse};
use crate::plane::{difference, dot, norm, scaled, shrunk, sum, turned};
use vstd::arithmetic::power2::{lemma_pow2_pos, pow2};
use vstd::prelude::*;

verus! {

/// Whether a point or a vector has components of the format, neither of them infinite.
pub open spec fn finite_vector(v: (Float, Float)) -> bool {
    v.0.valid() && v.1.valid() && v.0 is Finite && v.1 is Finite
}

/// Whether a number is a finite number of the format.
pub open spec fn finite_number(x: Float) -> bool {
    x.valid() && x is Finite
}

/// Whether a vector is zero.
pub open spec fn zero_vector(v: (Float, Float)) -> bool {
    v.0.is_zero() && v.1.is_zero()
}

/// Whether a number is zero or has the other sign.
pub open spec fn opposes(a: Float, b: Float) -> bool {
    a !is Nan && (a.is_zero() || a.is_negative() != b.is_negative())
}

/// Whether a number is zero or has the same sign.
pub open spec fn agrees(a: Float, b: Float) -> bool {
    a !is Nan && (a.is_zero() || a.is_negative() == b.is_negative())
}

/// A link that has its rest length, on a point that does not move along it, does nothing.
pub proof fn law_link_at_rest(
    pos_a: (Float, Float),
    pos_b: (Float, Float),
    rest_length: Float,
    stiffness: Float,
    damping: Float,
    vel_a: (Float, Float),
)
    requires
        finite_vector(difference(pos_a, pos_b)),
        finite_number(rest_length),
        norm(difference(pos_a, pos_b)) == rest_length,
        finite_number(stiffness),
        finite_number(damping),
        dot(vel_a, shrunk(difference(pos_a, pos_b), rest_length)).is_zero(),
    ensures
        zero_vector(link_impulse(pos_a, pos_b, rest_length, stiffness, damping, vel_a)),
{
    let offset = difference(pos_a, pos_b);
    let distance = norm(offset);
    if !distance.lt(least_distance()) {
        let direction = shrunk(offset, distance);
        lemma_direction_finite(offset);
        lemma_minus_self(distance);
        let stretch = distance.minus(rest_length);
        let radial = dot(vel_a, direction);
        lemma_operations_valid(stiffness, stiffness);
        lemma_operations_valid(damping, damping);
        lemma_times_zero(stiffness.negated(), stretch);
        lemma_times_zero(damping.negated(), radial);
        let spring = stiffness.negated().times(stretch);
        let damper = damping.negated().times(radial);
        let total = spring.plus(damper);
        assert(total.is_zero());
        lemma_times_zero(direction.0, total);
        lemma_times_zero(direction.1, total);
    }
}

/// A link restores its length: a point at rest is pulled to the anchor where the link is stretched,
/// and pushed away from it where the link is compressed. This holds wherever the force of the
/// spring is finite.
pub proof fn law_link_restores(
    pos_a: (Float, Float),
    pos_b: (Float, Float),
    rest_length: Float,
    stiffness: Float,
    damping: Float,
    vel_a: (Float, Float),
)
    requires
        finite_vector(difference(pos_a, pos_b)),
        !norm(difference(pos_a, pos_b)).lt(least_distance()),
        finite_number(rest_length),
        finite_number(stiffness),
        Float::zero().le(stiffness),
        finite_number(damping),
        zero_vector(vel_a),
        stiffness.times(norm(difference(pos_a, pos_b)).minus(rest_length)) is Finite,
    ensures
        ({
            let offset = difference(pos_a, pos_b);
            let impulse = link_impulse(pos_a, pos_b, rest_length, stiffness, damping, vel_a);
            &&& rest_length.lt(norm(offset)) ==> opposes(impulse.0, offset.0) && opposes(
                impulse.1,
                offset.1,
            )
            &&& norm(offset).lt(rest_length) ==> agrees(impulse.0, offset.0) && agrees(
                impulse.1,
                offset.1,
            )
        }),
{
    let offset = difference(pos_a, pos_b);
    let distance = norm(offset);
    let direction = shrunk(offset, distance);
    lemma_direction_finite(offset);
    lemma_norm_unsigned(offset);
    lemma_difference_sign(distance, rest_length);
    let stretch = distance.minus(rest_length);
    lemma_times_zero(direction.0, vel_a.0);
    lemma_times_zero(direction.1, vel_a.1);
    let radial = dot(vel_a, direction);
    assert(radial.is_zero());
    lemma_times_zero(damping.negated(), radial);
    let damper = damping.negated().times(radial);
    lemma_operations_valid(distance, rest_length);
    lemma_operations_valid(stiffness, stiffness);
    lemma_operations_valid(stiffness.negated(), stretch);
    let spring = stiffness.negated().times(stretch);
    if stiffness.is_zero() {
        lemma_times_zero(stretch, stiffness.negated());
    }
    assert(spring is Finite);
    lemma_plus_zero(spring, damper);
    let total = spring.plus(damper);
    assert(total is Finite);
    if total.is_zero() {
        lemma_times_zero(direction.0, total);
        lemma_times_zero(direction.1, total);
    }
    assert(direction.0.is_negative() == offset.0.is_negative());
    assert(direction.1.is_negative() == offset.1.is_negative());
    let impulse = scaled(direction, total);
    assert(impulse == link_impulse(pos_a, pos_b, rest_length, stiffness, damping, vel_a));
}

/// A link slows motion along it. Where its spring does not act, at the rest length or without
/// stiffness, the force along the link opposes the velocity along it: the link pulls a point to the
/// anchor that moves away from it, and pushes a point away that comes nearer.
pub proof fn law_link_damps(
    pos_a: (Float, Float),
    pos_b: (Float, Float),
    rest_length: Float,
    stiffness: Float,
    damping: Float,
    vel_a: (Float, Float),
)
    requires
        finite_vector(difference(pos_a, pos_b)),
        norm(difference(pos_a, pos_b)).minus(rest_length) is Finite,
        norm(difference(pos_a, pos_b)) == rest_length || stiffness.is_zero(),
        finite_number(stiffness),
        finite_number(damping),
        Float::zero().le(damping),
        finite_number(dot(vel_a, shrunk(
            difference(pos_a, pos_b),
            norm(difference(pos_a, pos_b)),
        ))),
        damping.times(dot(vel_a, shrunk(
            difference(pos_a, pos_b),
            norm(difference(pos_a, pos_b)),
        ))) is Finite,
    ensures
        ({
            let offset = difference(pos_a, pos_b);
            let radial = dot(vel_a, shrunk(offset, norm(offset)));
            let spring = stiffness.negated().times(norm(offset).minus(rest_length));
            let damper = damping.negated().times(radial);
            let impulse = link_impulse(pos_a, pos_b, rest_length, stiffness, damping, vel_a);
            &&& opposes(spring.plus(damper), radial)
            &&& Float::zero().lt(radial) ==> opposes(impulse.0, offset.0) && opposes(
                impulse.1,
                offset.1,
            )
            &&& radial.lt(Float::zero()) ==> agrees(impulse.0, offset.0) && agrees(
                impulse.1,
                offset.1,
            )
        }),
{
    let offset = difference(pos_a, pos_b);
    let distance = norm(offset);
    let direction = shrunk(offset, distance);
    let radial = dot(vel_a, direction);
    let stretch = distance.minus(rest_length);
    lemma_norm_unsigned(offset);
    lemma_operations_valid(stiffness, stiffness);
    lemma_operations_valid(damping, damping);
    lemma_operations_valid(damping.negated(), radial);
    if stiffness.is_zero() {
        lemma_times_zero(stretch, stiffness.negated());
    } else {
        lemma_minus_self(distance);
        lemma_times_zero(stiffness.negated(), stretch);
    }
    if damping.is_zero() {
        lemma_times_zero(radial, damping.negated());
    }
    if radial.is_zero() {
        lemma_times_zero(damping.negated(), radial);
    }
    let spring = stiffness.negated().times(stretch);
    let damper = damping.negated().times(radial);
    lemma_plus_zero(damper, spring);
    let total = spring.plus(damper);
    assert(opposes(total, radial));
    if !distance.lt(least_distance()) {
        lemma_direction_finite(offset);
        if total.is_zero() {
            lemma_times_zero(direction.0, total);
            lemma_times_zero(direction.1, total);
        }
        assert(direction.0.is_negative() == offset.0.is_negative());
        assert(direction.1.is_negative() == offset.1.is_negative());
        let impulse = scaled(direction, total);
        assert(impulse == link_impulse(pos_a, pos_b, rest_length, stiffness, damping, vel_a));
    }
}

/// A link acts alike on both of its ends: with the two points swapped and the velocity reversed, the
/// impulse is equal and opposite, but for the sign of zero.
pub proof fn law_action_and_reaction(
    pos_a: (Float, Float),
    pos_b: (Float, Float),
    rest_length: Float,
    stiffness: Float,
    damping: Float,
    vel_a: (Float, Float),
)
    ensures
        ({
            let reversed = (vel_a.0.negated(), vel_a.1.negated());
            let impulse = link_impulse(pos_a, pos_b, rest_length, stiffness, damping, vel_a);
            let other = link_impulse(pos_b, pos_a, rest_length, stiffness, damping, reversed);
            same(other.0, impulse.0.negated()) && same(other.1, impulse.1.negated())
        }),
{
    let offset = difference(pos_a, pos_b);
    let back = difference(pos_b, pos_a);
    let distance = norm(offset);
    let reversed = (vel_a.0.negated(), vel_a.1.negated());
    lemma_swapped_difference(pos_a.0, pos_b.0);
    lemma_swapped_difference(pos_a.1, pos_b.1);
    lemma_same_square(back.0, offset.0);
    lemma_same_square(back.1, offset.1);
    assert(norm(back) == distance);
    if !distance.lt(least_distance()) {
        lemma_thousandth();
        lemma_pow2_pos(139);
        assert(!distance.is_zero());
        let direction = shrunk(offset, distance);
        let other = shrunk(back, distance);
        lemma_same_over(back.0, offset.0.negated(), distance);
        lemma_same_over(back.1, offset.1.negated(), distance);
        lemma_negated_factor(offset.0, distance);
        lemma_negated_factor(offset.1, distance);
        lemma_reversed_product(vel_a.0, direction.0, other.0);
        lemma_reversed_product(vel_a.1, direction.1, other.1);
        lemma_same_plus(
            reversed.0.times(other.0),
            reversed.1.times(other.1),
            vel_a.0.times(direction.0),
            vel_a.1.times(direction.1),
        );
        let spring = stiffness.negated().times(distance.minus(rest_length));
        let radial = dot(vel_a, direction);
        let other_radial = dot(reversed, other);
        lemma_same_times(damping.negated(), other_radial, damping.negated(), radial);
        let damper = damping.negated().times(radial);
        let other_damper = damping.negated().times(other_radial);
        lemma_same_plus(spring, other_damper, spring, damper);
        let total = spring.plus(damper);
        let other_total = spring.plus(other_damper);
        lemma_same_times(other.0, other_total, direction.0.negated(), total);
        lemma_same_times(other.1, other_total, direction.1.negated(), total);
        lemma_negated_factor(direction.0, total);
        lemma_negated_factor(direction.1, total);
    }
}

/// A difference the other way round is the opposite.
proof fn lemma_swapped_difference(a: Float, b: Float)
    ensures
        same(b.minus(a), a.minus(b).negated()),
{
}

/// Two factors that are both turned around leave the product.
proof fn lemma_reversed_product(v: Float, d: Float, other: Float)
    requires
        same(other, d.negated()),
    ensures
        same(v.negated().times(other), v.times(d)),
{
    lemma_same_times(v.negated(), other, v.negated(), d.negated());
    lemma_negated_factor(v, d.negated());
    lemma_negated_factor(v, d);
}

/// Whether a setting lies from 0 to 1, or is no number.
pub open spec fn within_unit(x: Float) -> bool {
    x is Nan || (Float::zero().le(x) && x.le(one()))
}

/// A setting that was brought into the range from 0 to 1 is in it, and one that was in it before
/// is unchanged. One below the range becomes 0, and one above it becomes 1.
pub proof fn law_unit_clamp(x: Float)
    ensures
        within_unit(unit_clamp(x)),
        within_unit(x) ==> unit_clamp(x) == x,
        ({
            let least = Float::Finite { negative: false, magnitude: 0 };
            let most = Float::Finite { negative: false, magnitude: pow2(149) };
            &&& x.lt(least) ==> unit_clamp(x) == least
            &&& most.lt(x) ==> unit_clamp(x) == most
            &&& !x.lt(least) && !most.lt(x) ==> unit_clamp(x) == x
        }),
{
    lemma_one();
}

/// A rope is never made shorter than 1, and a length of 1 or more is kept. One that is not becomes 1,
/// and so does what is not a number.
pub proof fn law_rope_length(length: Float)
    ensures
        one().le(length.max(one())),
        one().le(length) ==> length.max(one()) == length,
        !one().le(length) ==> length.max(one()) == one(),
        one() == (Float::Finite { negative: false, magnitude: pow2(149) }),
{
    lemma_one();
}

/// A limit below zero becomes zero, and so does what is not a number; any other one is kept.
pub proof fn law_limit_setting(speed: Float)
    ensures
        Float::zero().le(speed) ==> speed.max(Float::zero()) == speed,
        !Float::zero().le(speed) ==> speed.max(Float::zero()) == (Float::Finite {
            negative: false,
            magnitude: 0,
        }),
{
}

/// A grapple has the usual settings where nothing else is said: a rope of 200 from the origin,
/// stiffness 4/5, damping 1/20, no limit on the speed, no bias, active, and following nobody.
pub proof fn law_usual_settings()
    ensures
        ({
            let usual = Grapple::usual();
            let nought = Float::Finite { negative: false, magnitude: 0 };
            &&& usual.anchor == (nought, nought)
            &&& usual.anchor_object is None
            &&& usual.length == Float::ratio(200, 1)
            &&& usual.stiffness == Float::ratio(4, 5)
            &&& usual.damping == Float::ratio(1, 20)
            &&& usual.max_swing_speed == nought
            &&& !usual.auto_shorten
            &&& usual.swing_bias is Neutral
            &&& usual.active
        }),
{
}

/// A grapple at a point has that anchor, and that length but at least 1, and is usual otherwise. A
/// preset has the stiffness and the damping given for it besides.
pub proof fn law_grapple_at_a_point(
    anchor: (Float, Float),
    length: Float,
    stiffness: Float,
    damping: Float,
)
    ensures
        ({
            let plain = Grapple::at(anchor, length);
            let preset = Grapple::preset(anchor, length, stiffness, damping);
            let least = Float::Finite { negative: false, magnitude: pow2(149) };
            &&& plain.anchor == anchor
            &&& least.le(length) ==> plain.length == length
            &&& !least.le(length) ==> plain.length == least
            &&& Grapple::usual() == (Grapple {
                anchor: Grapple::usual().anchor,
                length: Grapple::usual().length,
                ..plain
            })
            &&& preset.stiffness == stiffness
            &&& preset.damping == damping
            &&& plain == (Grapple {
                stiffness: plain.stiffness,
                damping: plain.damping,
                ..preset
            })
        }),
{
    lemma_one();
}

/// The length, in the operations of the format, is all that decides whether a grapple acts: it
/// corrects both the position and the velocity of a point just where it is active, and the point is
/// at a distance of a thousandth at least from the anchor that is not within the rope's length.
/// No other setting and no velocity matters.
pub proof fn law_rope_pulls_beyond_its_length(
    grapple: Grapple,
    position: (Float, Float),
    velocity: (Float, Float),
)
    ensures
        ({
            let x = position.0.minus(grapple.anchor.0);
            let y = position.1.minus(grapple.anchor.1);
            let distance = x.times(x).plus(y.times(y)).sqrt();
            let acts = grapple.active && !distance.lt(Float::ratio(1, 1000)) && !distance.le(
                grapple.length,
            );
            let correction = grapple.correction(position, velocity);
            &&& correction.position is Some <==> acts
            &&& correction.velocity is Some <==> acts
        }),
{
}

/// A rope that shortens by itself has the distance of the point as its length after a frame, where
/// that is less than the length it had and a thousandth at least; any other rope has the length it
/// had. Nothing else of a grapple changes.
pub proof fn law_length_after_a_frame(grapple: Grapple, position: (Float, Float))
    ensures
        ({
            let x = position.0.minus(grapple.anchor.0);
            let y = position.1.minus(grapple.anchor.1);
            let distance = x.times(x).plus(y.times(y)).sqrt();
            let shortens = grapple.active && grapple.auto_shorten && !distance.lt(
                Float::ratio(1, 1000),
            ) && distance.lt(grapple.length);
            let after = grapple.after(position);
            &&& shortens ==> after.length == distance
            &&& !shortens ==> after.length == grapple.length
            &&& grapple == (Grapple { length: grapple.length, ..after })
        }),
{
}

/// Where a point is brought to depends on the anchor, the length and the stiffness alone: not on its
/// velocity, nor on damping, bias or limit, nor on whether the rope shortens by itself.
pub proof fn law_place_ignores_motion(
    grapple: Grapple,
    other: Grapple,
    position: (Float, Float),
    velocity: (Float, Float),
    motion: (Float, Float),
)
    requires
        grapple.anchor == other.anchor,
        grapple.length == other.length,
        grapple.stiffness == other.stiffness,
        grapple.active == other.active,
    ensures
        grapple.correction(position, velocity).position == other.correction(
            position,
            motion,
        ).position,
{
}

/// The velocity that a point gets depends on the length of the rope only in so far as the rope acts.
pub proof fn law_motion_ignores_length(
    grapple: Grapple,
    other: Grapple,
    position: (Float, Float),
    velocity: (Float, Float),
)
    requires
        other == (Grapple {
            length: other.length,
            anchor_object: other.anchor_object,
            auto_shorten: other.auto_shorten,
            ..grapple
        }),
        grapple.correction(position, velocity).velocity is Some,
        other.correction(position, velocity).velocity is Some,
    ensures
        grapple.correction(position, velocity).velocity == other.correction(
            position,
            velocity,
        ).velocity,
{
}

/// The whole of a correction in the operations of the format: the point goes the share of the
/// stiffness on its way to the end of the rope; of its velocity the part away from the anchor loses
/// the share of the stiffness, the part across the rope that of the damping; a bias lets through
/// three fifths of the change across it; and a velocity above the limit is scaled down to it.
pub proof fn law_correction_in_full(
    grapple: Grapple,
    position: (Float, Float),
    velocity: (Float, Float),
)
    requires
        grapple.correction(position, velocity).position is Some,
    ensures
        ({
            let (vx, vy) = velocity;
            let x = position.0.minus(grapple.anchor.0);
            let y = position.1.minus(grapple.anchor.1);
            let distance = x.times(x).plus(y.times(y)).sqrt();
            let nx = x.over(distance);
            let ny = y.over(distance);
            let rest = Float::ratio(1, 1).minus(grapple.stiffness);
            let left = Float::ratio(1, 1).minus(grapple.damping);
            let away = vx.times(nx).plus(vy.times(ny));
            let along = if Float::zero().lt(away) {
                away.times(rest)
            } else {
                away
            };
            let across = vx.times(ny.negated()).plus(vy.times(nx)).times(left);
            let sx = nx.times(along).plus(ny.negated().times(across));
            let sy = ny.times(along).plus(nx.times(across));
            let wx = if grapple.swing_bias is Vertical {
                vx.plus(sx.minus(vx).times(Float::ratio(3, 5)))
            } else {
                sx
            };
            let wy = if grapple.swing_bias is Horizontal {
                vy.plus(sy.minus(vy).times(Float::ratio(3, 5)))
            } else {
                sy
            };
            let speed = wx.times(wx).plus(wy.times(wy)).sqrt();
            let limit = grapple.max_swing_speed;
            let spot = grapple.correction(position, velocity).position->0;
            let motion = grapple.correction(position, velocity).velocity->0;
            &&& spot.0 == position.0.plus(
                grapple.anchor.0.plus(nx.times(grapple.length)).minus(position.0).times(
                    grapple.stiffness,
                ),
            )
            &&& spot.1 == position.1.plus(
                grapple.anchor.1.plus(ny.times(grapple.length)).minus(position.1).times(
                    grapple.stiffness,
                ),
            )
            &&& Float::zero().lt(limit) && limit.lt(speed) ==> motion.0 == wx.times(
                limit.over(speed),
            ) && motion.1 == wy.times(limit.over(speed))
            &&& !(Float::zero().lt(limit) && limit.lt(speed)) ==> motion.0 == wx && motion.1 == wy
        }),
{
}

/// The whole of an impulse in the operations of the format: none where the points are closer than a
/// thousandth, else along the line through them against stretch and motion.
pub proof fn law_impulse_in_full(
    pos_a: (Float, Float),
    pos_b: (Float, Float),
    rest_length: Float,
    stiffness: Float,
    damping: Float,
    vel_a: (Float, Float),
)
    ensures
        ({
            let x = pos_a.0.minus(pos_b.0);
            let y = pos_a.1.minus(pos_b.1);
            let distance = x.times(x).plus(y.times(y)).sqrt();
            let nx = x.over(distance);
            let ny = y.over(distance);
            let along = vel_a.0.times(nx).plus(vel_a.1.times(ny));
            let force = stiffness.negated().times(distance.minus(rest_length)).plus(
                damping.negated().times(along),
            );
            let impulse = link_impulse(pos_a, pos_b, rest_length, stiffness, damping, vel_a);
            let nought = Float::Finite { negative: false, magnitude: 0 };
            &&& distance.lt(Float::ratio(1, 1000)) ==> impulse == (nought, nought)
            &&& !distance.lt(Float::ratio(1, 1000)) ==> impulse.0 == nx.times(force) && impulse.1
                == ny.times(force)
        }),
{
}

/// A grapple corrects both the position and the velocity, or neither; it corrects nothing while it
/// is inactive or the rope is slack.
pub proof fn law_correction_is_whole(
    grapple: Grapple,
    position: (Float, Float),
    velocity: (Float, Float),
)
    ensures
        ({
            let correction = grapple.correction(position, velocity);
            &&& correction.position is Some <==> correction.velocity is Some
            &&& correction.position is Some <==> grapple.taut(position)
            &&& !grapple.active ==> correction == Correction::nothing()
            &&& grapple.distance(position).le(grapple.length) ==> correction
                == Correction::nothing()
        }),
{
}

/// Solving a grapple changes nothing of it but the length, and never makes the rope longer.
pub proof fn law_rope_never_grows(grapple: Grapple, position: (Float, Float))
    ensures
        ({
            let after = grapple.after(position);
            &&& after == (Grapple { length: after.length, ..grapple })
            &&& after.length == grapple.length || after.length.lt(grapple.length)
            &&& !grapple.auto_shorten || !grapple.active ==> after == grapple
        }),
{
}

/// A rope that shortens by itself has no slack left after a frame, and is not shortened again
/// while the point stays.
pub proof fn law_slack_is_taken_up(grapple: Grapple, position: (Float, Float))
    requires
        grapple.active,
        grapple.auto_shorten,
        !grapple.distance(position).lt(least_distance()),
    ensures
        ({
            let after = grapple.after(position);
            &&& !after.distance(position).lt(after.length)
            &&& after.after(position) == after
        }),
{
}

/// Without stiffness a grapple enforces nothing: it leaves a point where it is, and leaves it the
/// velocity along the rope.
pub proof fn law_no_stiffness(
    grapple: Grapple,
    position: (Float, Float),
    velocity: (Float, Float),
)
    requires
        grapple.stiffness.is_zero(),
        finite_vector(position),
        finite_vector(difference(grapple.rope_end(position), position)),
        dot(velocity, grapple.direction(position)).valid(),
    ensures
        ({
            let pulled = grapple.pulled(position);
            &&& pulled.0 is Finite && pulled.0.units() == position.0.units()
            &&& pulled.1 is Finite && pulled.1.units() == position.1.units()
            &&& grapple.radial(position, velocity) == dot(velocity, grapple.direction(position))
        }),
{
    let way = difference(grapple.rope_end(position), position);
    let step = scaled(way, grapple.stiffness);
    lemma_times_zero(way.0, grapple.stiffness);
    lemma_times_zero(way.1, grapple.stiffness);
    lemma_plus_zero(position.0, step.0);
    lemma_plus_zero(position.1, step.1);
    lemma_one();
    lemma_plus_zero(one(), grapple.stiffness.negated());
    assert(!one().is_zero());
    lemma_times_one(dot(velocity, grapple.direction(position)));
}

/// With full stiffness a grapple is rigid. It brings a point to the end of the rope, where each
/// component is off by no more than what two roundings can do: one part in two to the power 24 of
/// the way there and of the place reached. It leaves no velocity away from the anchor.
pub proof fn law_full_stiffness(
    grapple: Grapple,
    position: (Float, Float),
    velocity: (Float, Float),
)
    requires
        grapple.stiffness == one(),
        finite_vector(position),
        finite_vector(grapple.rope_end(position)),
        finite_vector(difference(grapple.rope_end(position), position)),
        finite_vector(grapple.pulled(position)),
        dot(velocity, grapple.direction(position)) is Finite,
    ensures
        ({
            let end = grapple.rope_end(position);
            let way = difference(end, position);
            let pulled = grapple.pulled(position);
            let radial = grapple.radial(position, velocity);
            &&& 0x100_0000 * size(pulled.0.units() - end.0.units()) <= size(
                end.0.units() - position.0.units(),
            ) + size(position.0.units() + way.0.units())
            &&& 0x100_0000 * size(pulled.1.units() - end.1.units()) <= size(
                end.1.units() - position.1.units(),
            ) + size(position.1.units() + way.1.units())
            &&& !Float::zero().lt(radial)
        }),
{
    let end = grapple.rope_end(position);
    let way = difference(end, position);
    lemma_times_one(way.0);
    lemma_times_one(way.1);
    lemma_sum_error(end.0, position.0.negated());
    lemma_sum_error(end.1, position.1.negated());
    lemma_sum_error(position.0, way.0);
    lemma_sum_error(position.1, way.1);
    lemma_one();
    lemma_minus_self(one());
    lemma_times_zero(dot(velocity, grapple.direction(position)), Float::zero());
}

/// Whether a number lies between two others.
pub open spec fn between(value: Float, a: Float, b: Float) -> bool {
    (a.le(value) && value.le(b)) || (b.le(value) && value.le(a))
}

/// The stiffer a grapple, the further it pulls: it brings a point to a place between where the
/// point was and where a stiffer grapple would bring it. None pulls beyond where full stiffness
/// would bring the point.
pub proof fn law_stiffness_orders(grapple: Grapple, stiffer: Grapple, position: (Float, Float))
    requires
        stiffer == (Grapple { stiffness: stiffer.stiffness, ..grapple }),
        Float::zero().le(grapple.stiffness),
        grapple.stiffness.le(stiffer.stiffness),
        stiffer.stiffness.le(one()),
        finite_vector(position),
        finite_vector(difference(grapple.rope_end(position), position)),
    ensures
        between(grapple.pulled(position).0, position.0, stiffer.pulled(position).0),
        between(grapple.pulled(position).1, position.1, stiffer.pulled(position).1),
{
    let way = difference(grapple.rope_end(position), position);
    lemma_one();
    assert(stiffer.rope_end(position) == grapple.rope_end(position));
    lemma_shares_of_a_way(position.0, way.0, grapple.stiffness, stiffer.stiffness);
    lemma_shares_of_a_way(position.1, way.1, grapple.stiffness, stiffer.stiffness);
}

/// Of two shares of a way from a place, the greater one leads no less far.
proof fn lemma_shares_of_a_way(place: Float, way: Float, less: Float, more: Float)
    requires
        finite_number(place),
        finite_number(way),
        Float::zero().le(less),
        less.le(more),
        more.le(one()),
    ensures
        between(place.plus(way.times(less)), place, place.plus(way.times(more))),
{
    lemma_one();
    lemma_times_at_most_one(way, more);
    lemma_times_keeps_order(way, less, more);
    if less.is_zero() {
        lemma_times_zero(way, less);
    }
    if more.is_zero() {
        lemma_times_zero(way, more);
    }
    let near = way.times(less);
    let far = way.times(more);
    lemma_plus_zero(place, Float::zero());
    if way.is_negative() {
        lemma_plus_keeps_order(place, far, near);
        lemma_plus_keeps_order(place, near, Float::zero());
    } else {
        lemma_plus_keeps_order(place, near, far);
        lemma_plus_keeps_order(place, Float::zero(), near);
    }
}

/// A grapple adds no speed along the rope or across it. Velocity away from the anchor is lessened
/// but not turned around, velocity towards it is kept; velocity across the rope is lessened but not
/// turned around.
pub proof fn law_swing_adds_nothing(
    grapple: Grapple,
    position: (Float, Float),
    velocity: (Float, Float),
)
    requires
        Float::zero().le(grapple.stiffness),
        grapple.stiffness.le(one()),
        Float::zero().le(grapple.damping),
        grapple.damping.le(one()),
        finite_number(dot(velocity, grapple.direction(position))),
        finite_number(dot(velocity, turned(grapple.direction(position)))),
    ensures
        ({
            let away = dot(velocity, grapple.direction(position));
            let across = dot(velocity, turned(grapple.direction(position)));
            let radial = grapple.radial(position, velocity);
            let tangential = grapple.tangential(position, velocity);
            &&& Float::zero().lt(away) ==> Float::zero().le(radial) && radial.le(away)
            &&& !Float::zero().lt(away) ==> radial == away
            &&& tangential is Finite && tangential->magnitude <= across->magnitude
            &&& agrees(tangential, across)
        }),
{
    lemma_rest_of_one(grapple.stiffness);
    lemma_rest_of_one(grapple.damping);
    lemma_times_at_most_one(
        dot(velocity, grapple.direction(position)),
        one().minus(grapple.stiffness),
    );
    lemma_times_at_most_one(
        dot(velocity, turned(grapple.direction(position))),
        one().minus(grapple.damping),
    );
}

/// Damping takes from the velocity across the rope: without damping all of it is left, with full
/// damping none.
pub proof fn law_damping(grapple: Grapple, position: (Float, Float), velocity: (Float, Float))
    requires
        finite_number(dot(velocity, turned(grapple.direction(position)))),
    ensures
        grapple.damping.is_zero() ==> grapple.tangential(position, velocity) == dot(
            velocity,
            turned(grapple.direction(position)),
        ),
        grapple.damping == one() ==> grapple.tangential(position, velocity).is_zero(),
{
    let across = dot(velocity, turned(grapple.direction(position)));
    lemma_one();
    if grapple.damping.is_zero() {
        lemma_plus_zero(one(), grapple.damping.negated());
        assert(!one().is_zero());
        lemma_times_one(across);
    }
    if grapple.damping == one() {
        lemma_minus_self(one());
        lemma_times_zero(across, Float::zero());
    }
}

/// A swing bias leaves the velocity in its own direction as it is, and keeps the velocity across it
/// between what it was before the frame and what it would become without a bias, but for rounding.
pub proof fn law_swing_bias(grapple: Grapple, before: (Float, Float), swung: (Float, Float))
    requires
        finite_vector(before),
        finite_vector(difference(swung, before)),
    ensures
        ({
            let biased = grapple.biased(before, swung);
            let whole = sum(before, difference(swung, before));
            match grapple.swing_bias {
                SwingBias::Neutral => biased == swung,
                SwingBias::Horizontal => biased.0 == swung.0 && between(
                    biased.1,
                    before.1,
                    whole.1,
                ),
                SwingBias::Vertical => biased.1 == swung.1 && between(
                    biased.0,
                    before.0,
                    whole.0,
                ),
            }
        }),
{
    let change = difference(swung, before);
    lemma_one();
    lemma_proper_fraction(3, 5);
    lemma_times_one(change.0);
    lemma_times_one(change.1);
    lemma_shares_of_a_way(before.0, change.0, bias_share(), one());
    lemma_shares_of_a_way(before.1, change.1, bias_share(), one());
}

/// The limit on the speed makes no component of a velocity greater, and turns none around. Where
/// there is no limit above zero, or the speed does not exceed it, the velocity is unchanged.
pub proof fn law_speed_limit(grapple: Grapple, velocity: (Float, Float))
    requires
        finite_vector(velocity),
    ensures
        ({
            let limited = grapple.limited(velocity);
            &&& limited.0 is Finite && limited.0->magnitude <= velocity.0->magnitude
            &&& limited.1 is Finite && limited.1->magnitude <= velocity.1->magnitude
            &&& agrees(limited.0, velocity.0)
            &&& agrees(limited.1, velocity.1)
            &&& !Float::zero().lt(grapple.max_swing_speed) ==> limited == velocity
            &&& norm(velocity).le(grapple.max_swing_speed) ==> limited == velocity
        }),
{
    let speed = norm(velocity);
    let limit = grapple.max_swing_speed;
    lemma_norm_unsigned(velocity);
    if Float::zero().lt(limit) && limit.lt(speed) {
        lemma_over_greater(limit, speed);
        let scale = limit.over(speed);
        lemma_times_at_most_one(velocity.0, scale);
        lemma_times_at_most_one(velocity.1, scale);
    }
}

} // verus!
