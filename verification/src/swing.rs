//! How near the velocity on a rope is to what it is put together from.

use crate::arithmetic::{
    lemma_norm_unsigned, lemma_one, lemma_operations_valid, lemma_plus_zero, lemma_proper_fraction,
    lemma_rest_of_one, lemma_sum_error, lemma_times_at_most_one, lemma_times_one,
};
use crate::float::{one_exponent, size, Float};
use crate::grapple::{one, Grapple, SwingBias};
use crate::laws::finite_vector;
use crate::link::least_distance;
use crate::plane::{difference, dot, norm, shrunk, turned};
use crate::precision::{
    lemma_arm, lemma_bound_scaled, lemma_direction_near, lemma_link_motion, lemma_product_finite,
    lemma_product_near, lemma_ratio_near, lemma_size_of_product, lemma_sum_near,
};
use crate::rounding::lemma_pow2_monotone;
use vstd::arithmetic::power2::{lemma2_to64, lemma_pow2_adds, lemma_pow2_pos, pow2};
use vstd::prelude::*;

verus! {

/// A sum of two products, with its three roundings.
pub(crate) proof fn lemma_two_products(a: Float, b: Float, c: Float, e: Float)
    requires
        a.times(b).plus(c.times(e)) is Finite,
    ensures
        a is Finite && b is Finite && c is Finite && e is Finite,
        ({
            let unit = pow2(one_exponent());
            let p = a.units() * b.units();
            let q = c.units() * e.units();
            0x100_0000 * size(unit * a.times(b).plus(c.times(e)).units() - (p + q)) <= 3 * (size(p)
                + size(q)) + 0x200_0000 * unit
        }),
{
    let unit = pow2(149);
    let f = a.times(b);
    let g = c.times(e);
    lemma_pow2_pos(149);
    lemma_product_near(a, b);
    lemma_product_near(c, e);
    lemma_sum_error(f, g);
    let p = a.units() * b.units();
    let q = c.units() * e.units();
    let (x, y) = (f.units(), g.units());
    let s = f.plus(g).units();
    let rest = s - (x + y);
    let (uf, ug) = (unit * x, unit * y);
    assert(unit * s == uf + ug + unit * rest) by (nonlinear_arith)
        requires
            rest == s - (x + y),
            uf == unit * x,
            ug == unit * y,
    ;
    lemma_bound_scaled(unit as int, unit, rest, size(x + y));
    assert(unit * size(x + y) == size(uf + ug)) by (nonlinear_arith)
        requires
            uf == unit * x,
            ug == unit * y,
            unit > 0,
            size(x + y) == x + y || size(x + y) == -(x + y),
            size(uf + ug) == uf + ug || size(uf + ug) == -(uf + ug),
            size(x + y) >= 0,
            size(uf + ug) >= 0,
    ;
}

/// The direction of a vector has about the length one.
pub(crate) proof fn lemma_direction_is_unit(offset: (Float, Float))
    requires
        finite_vector(offset),
        norm(offset) is Finite,
        !norm(offset).lt(least_distance()),
    ensures
        ({
            let unit = pow2(one_exponent());
            let direction = shrunk(offset, norm(offset));
            let (c, d) = (direction.0.units(), direction.1.units());
            &&& finite_vector(direction)
            &&& 0x100_0000 * size(c * c + d * d - unit * unit) <= 32 * (unit * unit)
            &&& size(c) <= 2 * unit
            &&& size(d) <= 2 * unit
        }),
{
    let unit = pow2(149);
    let direction = shrunk(offset, norm(offset));
    lemma_one();
    lemma_pow2_monotone(30, 149);
    lemma_pow2_monotone(149, 213);
    lemma_arm(offset, one());
    assert(direction.0.times(one()) is Finite && direction.1.times(one()) is Finite);
    lemma_norm_unsigned(offset);
    lemma_operations_valid(offset.0, norm(offset));
    lemma_operations_valid(offset.1, norm(offset));
    lemma_times_one(direction.0);
    lemma_times_one(direction.1);
    let (c, d) = (direction.0.units(), direction.1.units());
    assert(-2 * unit <= c <= 2 * unit && -2 * unit <= d <= 2 * unit) by (nonlinear_arith)
        requires
            0x8_0000 * (c * c + d * d) <= 0x8_0001 * (unit * unit),
            unit > 0,
    ;
}

/// The bound on two products, where one factor of each is not greater than two.
pub(crate) proof fn lemma_products_bounded(unit: nat, c: int, r: int, d: int, t: int)
    requires
        size(c) <= 2 * unit,
        size(d) <= 2 * unit,
    ensures
        3 * (size(c * r) + size(d * t)) <= unit * (6 * (size(r) + size(t))),
{
    let (a, b) = (size(r) as int, size(t) as int);
    assert(size(c * r) <= 2 * (unit * a)) by (nonlinear_arith)
        requires
            -2 * unit <= c <= 2 * unit,
            a == r || a == -r,
            a >= 0,
    ;
    assert(size(d * t) <= 2 * (unit * b)) by (nonlinear_arith)
        requires
            -2 * unit <= d <= 2 * unit,
            b == t || b == -t,
            b >= 0,
    ;
    assert(unit * (6 * (a + b)) == 6 * (unit * a) + 6 * (unit * b)) by (nonlinear_arith);
}

/// What a vector has along a direction, where it was put together from parts along and across it.
proof fn lemma_put_together(unit: nat, c: int, d: int, r: int, t: int, x: int, y: int)
    requires
        unit > 0,
        0x100_0000 * size(c * c + d * d - unit * unit) <= 32 * (unit * unit),
        size(c) <= 2 * unit,
        size(d) <= 2 * unit,
        0x100_0000 * size(unit * x - (c * r - d * t)) <= unit * (6 * (size(r) + size(t)))
            + 0x200_0000 * unit,
        0x100_0000 * size(unit * y - (d * r + c * t)) <= unit * (6 * (size(r) + size(t)))
            + 0x200_0000 * unit,
    ensures
        0x4_0000 * size(c * x + d * y - unit * r) <= unit * (size(r) + size(t) + 0x20_0000),
{
    let n = size(r) + size(t);
    let bound = unit * (6 * n) + 0x200_0000 * unit;
    let e = unit * x - (c * r - d * t);
    let f = unit * y - (d * r + c * t);
    let uu = unit * unit;
    let g = c * c + d * d - uu;
    lemma_bound_scaled(c, 2 * unit, e, bound);
    lemma_bound_scaled(d, 2 * unit, f, bound);
    lemma_bound_scaled(r, size(r), g, 32 * uu);
    let z = c * x + d * y - unit * r;
    let (cx, dy) = (unit * (c * x), unit * (d * y));
    let (cr, dr, ur) = (r * (c * c), r * (d * d), r * uu);
    let cross = c * (d * t);
    assert(c * e == cx - cr + cross) by (nonlinear_arith)
        requires
            e == unit * x - (c * r - d * t),
            cx == unit * (c * x),
            cr == r * (c * c),
            cross == c * (d * t),
    ;
    assert(d * (d * r) == dr && d * (c * t) == cross && d * (unit * y) == dy) by (nonlinear_arith)
        requires
            dy == unit * (d * y),
            dr == r * (d * d),
            cross == c * (d * t),
    ;
    assert(d * f == d * (unit * y) - d * (d * r) - d * (c * t)) by (nonlinear_arith)
        requires
            f == unit * y - (d * r + c * t),
    ;
    assert(r * g == cr + dr - ur) by (nonlinear_arith)
        requires
            g == c * c + d * d - uu,
            cr == r * (c * c),
            dr == r * (d * d),
            ur == r * uu,
    ;
    assert(unit * z == cx + dy - ur) by (nonlinear_arith)
        requires
            z == c * x + d * y - unit * r,
            cx == unit * (c * x),
            dy == unit * (d * y),
            ur == r * uu,
            uu == unit * unit,
    ;
    let un = uu * n;
    assert((2 * unit) * bound == 12 * un + 0x400_0000 * uu) by (nonlinear_arith)
        requires
            bound == unit * (6 * n) + 0x200_0000 * unit,
            uu == unit * unit,
            un == uu * n,
    ;
    assert(size(r) * (32 * uu) <= 32 * un) by (nonlinear_arith)
        requires
            size(r) <= n,
            un == uu * n,
            uu >= 0,
    ;
    assert(uu >= 0 && un >= 0) by (nonlinear_arith)
        requires
            uu == unit * unit,
            un == uu * n,
            n >= 0,
    ;
    assert(0x100_0000 * size(unit * z) <= 64 * un + 0x800_0000 * uu);
    let m = size(z) as int;
    assert(size(unit * z) == unit * m) by (nonlinear_arith)
        requires
            m == z || m == -z,
            m >= 0,
            unit > 0,
            size(unit * z) == unit * z || size(unit * z) == -(unit * z),
            size(unit * z) >= 0,
    ;
    assert(0x4_0000 * m <= unit * (n + 0x20_0000)) by (nonlinear_arith)
        requires
            0x100_0000 * (unit * m) <= 64 * un + 0x800_0000 * uu,
            un == uu * n,
            uu == unit * unit,
            unit > 0,
    ;
}

/// The velocity on the rope is put together from its two parts: along the rope it is `radial` and
/// across the rope it is `tangential`, each within one part in two to the power 18 of the sum of
/// their sizes, and eight units besides. Products of two numbers are measured in units times two to
/// the power 149.
pub proof fn law_swing_has_its_parts(
    grapple: Grapple,
    position: (Float, Float),
    velocity: (Float, Float),
)
    requires
        finite_vector(difference(position, grapple.anchor)),
        grapple.distance(position) is Finite,
        !grapple.distance(position).lt(least_distance()),
        grapple.swung(position, velocity).0 is Finite,
        grapple.swung(position, velocity).1 is Finite,
    ensures
        ({
            let unit = pow2(one_exponent());
            let along = grapple.direction(position);
            let across = turned(along);
            let swung = grapple.swung(position, velocity);
            let radial = grapple.radial(position, velocity);
            let tangential = grapple.tangential(position, velocity);
            let bound = unit * (size(radial.units()) + size(tangential.units()) + 0x20_0000);
            &&& radial is Finite && tangential is Finite
            &&& 0x4_0000 * size(
                along.0.units() * swung.0.units() + along.1.units() * swung.1.units() - unit
                    * radial.units(),
            ) <= bound
            &&& 0x4_0000 * size(
                across.0.units() * swung.0.units() + across.1.units() * swung.1.units() - unit
                    * tangential.units(),
            ) <= bound
        }),
{
    let unit = pow2(149);
    let along = grapple.direction(position);
    let across = turned(along);
    let swung = grapple.swung(position, velocity);
    let radial = grapple.radial(position, velocity);
    let tangential = grapple.tangential(position, velocity);
    lemma_pow2_pos(149);
    lemma_direction_is_unit(difference(position, grapple.anchor));
    lemma_two_products(along.0, radial, across.0, tangential);
    lemma_two_products(along.1, radial, across.1, tangential);
    let (c, d) = (along.0.units(), along.1.units());
    let (r, t) = (radial.units(), tangential.units());
    let (x, y) = (swung.0.units(), swung.1.units());
    assert(across.0.units() == -d && across.1.units() == c);
    lemma_products_bounded(unit, c, r, -d, t);
    lemma_products_bounded(unit, d, r, c, t);
    assert((-d) * t == -(d * t)) by (nonlinear_arith);
    lemma_put_together(unit, c, d, r, t, x, y);
    assert((-d) * (-d) == d * d && (-d) * t + c * r == c * r - d * t) by (nonlinear_arith);
    assert(d * r + c * t == c * t - (-d) * r && (-d) * x == -(d * x)) by (nonlinear_arith);
    lemma_put_together(unit, c, -d, t, r, y, x);
}

/// A vector that is taken apart along and across a direction and put together again.
proof fn lemma_comes_back(unit: nat, c: int, d: int, v: int, w: int, r: int, t: int, x: int)
    requires
        unit > 0,
        0x100_0000 * size(c * c + d * d - unit * unit) <= 32 * (unit * unit),
        size(c) <= 2 * unit,
        size(d) <= 2 * unit,
        0x100_0000 * size(unit * r - (v * c + w * d)) <= unit * (6 * (size(v) + size(w)))
            + 0x200_0000 * unit,
        0x100_0000 * size(unit * t - (w * c - v * d)) <= unit * (6 * (size(v) + size(w)))
            + 0x200_0000 * unit,
        0x100_0000 * size(unit * x - (c * r - d * t)) <= unit * (6 * (size(r) + size(t)))
            + 0x200_0000 * unit,
    ensures
        0x2_0000 * size(x - v) <= size(v) + size(w) + 0x20_0000,
{
    let n = size(v) + size(w);
    lemma_part_bounded(unit, c, v, d, w, r);
    assert((-v) * d == -(v * d)) by (nonlinear_arith);
    lemma_part_bounded(unit, c, w, d, -v, t);
    let bound = unit * (6 * n) + 0x200_0000 * unit;
    let wide = unit * (36 * n + 24) + 0x200_0000 * unit;
    let e = unit * r - (v * c + w * d);
    let f = unit * t - (w * c - v * d);
    let g = unit * x - (c * r - d * t);
    let uu = unit * unit;
    let h = c * c + d * d - uu;
    let m = size(r) + size(t);
    assert(unit * (6 * m) <= unit * (36 * n + 24)) by (nonlinear_arith)
        requires
            m <= 6 * n + 4,
            unit > 0,
    ;
    lemma_bound_scaled(c, 2 * unit, e, bound);
    lemma_bound_scaled(d, 2 * unit, f, bound);
    lemma_bound_scaled(unit as int, unit, g, wide);
    lemma_bound_scaled(v, size(v), h, 32 * uu);
    let z = x - v;
    let (cr, dt) = (unit * (c * r), unit * (d * t));
    let (cv, dv) = (v * (c * c), v * (d * d));
    let cross = w * (c * d);
    assert(unit * g == uu * x - cr + dt) by (nonlinear_arith)
        requires
            g == unit * x - (c * r - d * t),
            cr == unit * (c * r),
            dt == unit * (d * t),
            uu == unit * unit,
    ;
    assert(c * (unit * r) == cr) by (nonlinear_arith)
        requires
            cr == unit * (c * r),
    ;
    assert(c * (v * c) == cv) by (nonlinear_arith)
        requires
            cv == v * (c * c),
    ;
    assert(c * (w * d) == cross && d * (w * c) == cross) by (nonlinear_arith)
        requires
            cross == w * (c * d),
    ;
    assert(d * (unit * t) == dt) by (nonlinear_arith)
        requires
            dt == unit * (d * t),
    ;
    assert(d * (v * d) == dv) by (nonlinear_arith)
        requires
            dv == v * (d * d),
    ;
    lemma_times_difference(c, unit * r, v * c, w * d);
    lemma_times_difference(d, unit * t, w * c, -(v * d));
    assert(d * (-(v * d)) == -(d * (v * d))) by (nonlinear_arith);
    assert(v * h == cv + dv - uu * v) by (nonlinear_arith)
        requires
            h == c * c + d * d - uu,
            cv == v * (c * c),
            dv == v * (d * d),
    ;
    assert(uu * z == uu * x - uu * v) by (nonlinear_arith)
        requires
            z == x - v,
    ;
    let un = uu * n;
    assert((2 * unit) * bound == 12 * un + 0x400_0000 * uu) by (nonlinear_arith)
        requires
            bound == unit * (6 * n) + 0x200_0000 * unit,
            uu == unit * unit,
            un == uu * n,
    ;
    assert(unit * wide == 36 * un + 0x200_0018 * uu) by (nonlinear_arith)
        requires
            wide == unit * (36 * n + 24) + 0x200_0000 * unit,
            uu == unit * unit,
            un == uu * n,
    ;
    assert(size(v) * (32 * uu) <= 32 * un) by (nonlinear_arith)
        requires
            size(v) <= n,
            un == uu * n,
            uu >= 0,
    ;
    assert(uu > 0 && un >= 0) by (nonlinear_arith)
        requires
            uu == unit * unit,
            unit > 0,
            un == uu * n,
            n >= 0,
    ;
    assert(0x100_0000 * size(uu * z) <= 128 * un + 0x1000_0000 * uu);
    let k = size(z) as int;
    assert(size(uu * z) == uu * k) by (nonlinear_arith)
        requires
            k == z || k == -z,
            k >= 0,
            uu > 0,
            size(uu * z) == uu * z || size(uu * z) == -(uu * z),
            size(uu * z) >= 0,
    ;
    assert(0x2_0000 * k <= n + 0x20_0000) by (nonlinear_arith)
        requires
            0x100_0000 * (uu * k) <= 128 * un + 0x1000_0000 * uu,
            un == uu * n,
            uu > 0,
    ;
}

/// A factor of a difference.
proof fn lemma_times_difference(k: int, a: int, b: int, c: int)
    ensures
        k * (a - (b + c)) == k * a - k * b - k * c,
{
    assert(k * (a - (b + c)) == k * a - k * b - k * c) by (nonlinear_arith);
}

/// A part of a vector is not much greater than the vector.
pub(crate) proof fn lemma_part_bounded(unit: nat, c: int, v: int, d: int, w: int, r: int)
    requires
        unit > 0,
        size(c) <= 2 * unit,
        size(d) <= 2 * unit,
        0x100_0000 * size(unit * r - (v * c + w * d)) <= unit * (6 * (size(v) + size(w)))
            + 0x200_0000 * unit,
    ensures
        size(r) <= 3 * (size(v) + size(w)) + 2,
{
    let n = size(v) + size(w);
    lemma_products_bounded(unit, c, v, d, w);
    assert(v * c == c * v && w * d == d * w) by (nonlinear_arith);
    let un = unit * n;
    assert(unit * (6 * n) == 6 * un) by (nonlinear_arith)
        requires
            un == unit * n,
    ;
    let k = size(r) as int;
    assert(size(unit * r) == unit * k) by (nonlinear_arith)
        requires
            k == r || k == -r,
            k >= 0,
            unit > 0,
            size(unit * r) == unit * r || size(unit * r) == -(unit * r),
            size(unit * r) >= 0,
    ;
    assert(un >= 0) by (nonlinear_arith)
        requires
            un == unit * n,
            n >= 0,
            unit > 0,
    ;
    assert(unit * k <= 3 * un + 2 * unit);
    assert(k <= 3 * n + 2) by (nonlinear_arith)
        requires
            unit * k <= 3 * un + 2 * unit,
            un == unit * n,
            unit > 0,
    ;
}

/// Without stiffness and damping a rope leaves the velocity as it is: each component comes back
/// within one part in two to the power 17 of the sum of the sizes of both, and 16 units besides.
pub proof fn law_free_swing(
    grapple: Grapple,
    position: (Float, Float),
    velocity: (Float, Float),
)
    requires
        grapple.stiffness.is_zero(),
        grapple.damping.is_zero(),
        finite_vector(difference(position, grapple.anchor)),
        grapple.distance(position) is Finite,
        !grapple.distance(position).lt(least_distance()),
        finite_vector(velocity),
        grapple.swung(position, velocity).0 is Finite,
        grapple.swung(position, velocity).1 is Finite,
    ensures
        ({
            let swung = grapple.swung(position, velocity);
            let bound = velocity.0->magnitude + velocity.1->magnitude + 0x20_0000;
            &&& 0x2_0000 * size(swung.0.units() - velocity.0.units()) <= bound
            &&& 0x2_0000 * size(swung.1.units() - velocity.1.units()) <= bound
        }),
{
    let unit = pow2(149);
    let along = grapple.direction(position);
    let across = turned(along);
    let swung = grapple.swung(position, velocity);
    let radial = grapple.radial(position, velocity);
    let tangential = grapple.tangential(position, velocity);
    lemma_pow2_pos(149);
    lemma_direction_is_unit(difference(position, grapple.anchor));
    lemma_two_products(along.0, radial, across.0, tangential);
    lemma_two_products(along.1, radial, across.1, tangential);
    lemma_parts_kept(grapple, position, velocity);
    lemma_two_products(velocity.0, along.0, velocity.1, along.1);
    lemma_two_products(velocity.0, across.0, velocity.1, across.1);
    let (c, d) = (along.0.units(), along.1.units());
    let (r, t) = (radial.units(), tangential.units());
    let (x, y) = (swung.0.units(), swung.1.units());
    let (v, w) = (velocity.0.units(), velocity.1.units());
    assert(across.0.units() == -d && across.1.units() == c);
    lemma_products_bounded(unit, c, r, -d, t);
    lemma_products_bounded(unit, d, r, c, t);
    lemma_products_bounded(unit, c, v, d, w);
    lemma_products_bounded(unit, -d, v, c, w);
    assert((-d) * t == -(d * t) && c * v == v * c && d * w == w * d && (-d) * v == v * (-d) && v * (
    -d) == -(v * d) && c * w == w * c) by (nonlinear_arith);
    lemma_comes_back(unit, c, d, v, w, r, t, x);
    assert((-d) * (-d) == d * d && w * c - v * d == w * c + v * (-d) && v * c + w * d == v * c - w * (
    -d) && d * r + c * t == c * t - (-d) * r) by (nonlinear_arith);
    lemma_comes_back(unit, c, -d, w, v, t, r, y);
}

/// Without stiffness and damping the two parts of the velocity are kept.
proof fn lemma_parts_kept(grapple: Grapple, position: (Float, Float), velocity: (Float, Float))
    requires
        grapple.stiffness.is_zero(),
        grapple.damping.is_zero(),
        finite_vector(velocity),
        finite_vector(grapple.direction(position)),
        grapple.radial(position, velocity) is Finite,
        grapple.tangential(position, velocity) is Finite,
    ensures
        grapple.radial(position, velocity) == dot(velocity, grapple.direction(position)),
        grapple.tangential(position, velocity) == dot(
            velocity,
            turned(grapple.direction(position)),
        ),
{
    let along = grapple.direction(position);
    let across = turned(along);
    lemma_one();
    lemma_operations_valid(velocity.0, along.0);
    lemma_operations_valid(velocity.1, along.1);
    lemma_operations_valid(velocity.0.times(along.0), velocity.1.times(along.1));
    lemma_operations_valid(along.1, along.1);
    lemma_operations_valid(velocity.0, across.0);
    lemma_operations_valid(velocity.1, across.1);
    lemma_operations_valid(velocity.0.times(across.0), velocity.1.times(across.1));
    lemma_plus_zero(one(), grapple.stiffness.negated());
    lemma_plus_zero(one(), grapple.damping.negated());
    assert(!one().is_zero());
    lemma_times_one(dot(velocity, along));
    lemma_times_one(dot(velocity, across));
}

/// A part of a velocity, lessened by a share: one less the share, and the product with it, are
/// rounded.
proof fn lemma_lessened(part: Float, share: Float)
    requires
        part is Finite,
        part.valid(),
        Float::zero().le(share),
        share.le(Float::ratio(1, 1)),
    ensures
        ({
            let unit = pow2(149);
            let left = part.times(Float::ratio(1, 1).minus(share));
            &&& left is Finite
            &&& size(left.units()) <= size(part.units())
            &&& 0x100_0000 * size(unit * left.units() - part.units() * (unit - share->magnitude))
                <= 3 * (unit * size(part.units())) + 0x80_0000 * unit
        }),
{
    let unit = pow2(149);
    let whole = Float::ratio(1, 1);
    let rest = whole.minus(share);
    lemma_one();
    lemma_pow2_pos(149);
    lemma_rest_of_one(share);
    lemma_times_at_most_one(part, rest);
    lemma_product_near(part, rest);
    assert(share.negated().units() == -(share->magnitude));
    lemma_sum_error(whole, share.negated());
    let a = part.units();
    let r = rest.units();
    let e = r - (unit - share->magnitude);
    lemma_bound_scaled(a, size(a), e, unit);
    lemma_size_of_product(a, r);
    let (m, n) = (size(a), size(r));
    assert(m * n <= unit * m && m * unit == unit * m) by (nonlinear_arith)
        requires
            n <= unit,
    ;
    assert(a * r == a * (unit - share->magnitude) + a * e) by (nonlinear_arith)
        requires
            e == r - (unit - share->magnitude),
    ;
}

/// One component of the velocity on a rope, against the direction of the rope. `p` and `q` are what
/// the velocity has along and across that direction, `r` and `t` the same as they are rounded, `a`
/// and `b` what is left of them with the shares `f` and `g`.
proof fn lemma_swung_component(
    unit: nat,
    c: int,
    e: int,
    p: int,
    q: int,
    f: nat,
    g: nat,
    r: int,
    t: int,
    a: int,
    b: int,
    x: int,
    v: nat,
)
    requires
        unit > 0,
        size(c) <= 2 * unit,
        size(e) <= 2 * unit,
        f <= unit,
        g <= unit,
        size(r) <= 3 * v + 2,
        size(t) <= 3 * v + 2,
        size(a) <= size(r),
        size(b) <= size(t),
        0x100_0000 * size(unit * r - p) <= unit * (6 * v) + 0x200_0000 * unit,
        0x100_0000 * size(unit * t - q) <= unit * (6 * v) + 0x200_0000 * unit,
        0x100_0000 * size(unit * a - r * f) <= 3 * (unit * size(r)) + 0x80_0000 * unit,
        0x100_0000 * size(unit * b - t * g) <= 3 * (unit * size(t)) + 0x80_0000 * unit,
        0x100_0000 * size(unit * x - (c * a - e * b)) <= unit * (6 * (size(a) + size(b)))
            + 0x200_0000 * unit,
    ensures
        0x100_0000 * size((unit * unit) * (unit * x) - (c * (f * p) - e * (g * q))) <= (unit * unit)
            * (unit * (96 * v + 0x1000_0000)),
{
    let uu = unit * unit;
    let uuu = uu * unit;
    let u3v = uuu * v;
    let e1 = unit * x - (c * a - e * b);
    let b1 = unit * (6 * (size(a) + size(b))) + 0x200_0000 * unit;
    lemma_bound_scaled(uu as int, uu, e1, b1);
    assert(uu * b1 <= 36 * u3v + 0x200_0018 * uuu) by (nonlinear_arith)
        requires
            b1 == unit * (6 * (size(a) + size(b))) + 0x200_0000 * unit,
            size(a) + size(b) <= 6 * v + 4,
            uuu == uu * unit,
            u3v == uuu * v,
    ;
    lemma_swung_part(unit, c, f, p, r, a, v);
    lemma_swung_part(unit, e, g, q, t, b, v);
    let (ca, eb) = (uu * (c * a), uu * (e * b));
    assert(uu * e1 == uu * (unit * x) - ca + eb) by (nonlinear_arith)
        requires
            e1 == unit * x - (c * a - e * b),
            ca == uu * (c * a),
            eb == uu * (e * b),
    ;
    assert(uu * (unit * (96 * v + 0x1000_0000)) == 96 * u3v + 0x1000_0000 * uuu)
        by (nonlinear_arith)
        requires
            uuu == uu * unit,
            u3v == uuu * v,
    ;
    assert(u3v >= 0 && uuu >= 0) by (nonlinear_arith)
        requires
            uuu == uu * unit,
            uu == unit * unit,
            u3v == uuu * v,
            unit > 0,
            v >= 0,
    ;
}

/// One of the two parts of such a component.
proof fn lemma_swung_part(unit: nat, c: int, f: nat, p: int, r: int, a: int, v: nat)
    requires
        unit > 0,
        size(c) <= 2 * unit,
        f <= unit,
        size(r) <= 3 * v + 2,
        0x100_0000 * size(unit * r - p) <= unit * (6 * v) + 0x200_0000 * unit,
        0x100_0000 * size(unit * a - r * f) <= 3 * (unit * size(r)) + 0x80_0000 * unit,
    ensures
        ({
            let uu = unit * unit;
            0x100_0000 * size(uu * (c * a) - c * (f * p)) <= 30 * ((uu * unit) * v) + 0x580_0000 * (uu
                * unit)
        }),
{
    let uu = unit * unit;
    let uuu = uu * unit;
    let u3v = uuu * v;
    let e1 = unit * a - r * f;
    let e2 = unit * r - p;
    let b1 = 3 * (unit * size(r)) + 0x80_0000 * unit;
    let b2 = unit * (6 * v) + 0x200_0000 * unit;
    let cu = c * unit;
    let cf = c * f;
    lemma_size_of_product(c, unit as int);
    lemma_size_of_product(c, f as int);
    assert(size(c) * size(unit as int) <= 2 * uu && size(c) * size(f as int) <= 2 * uu)
        by (nonlinear_arith)
        requires
            size(c) <= 2 * unit,
            f <= unit,
            size(f as int) == f,
            size(unit as int) == unit,
            uu == unit * unit,
    ;
    lemma_bound_scaled(cu, 2 * uu, e1, b1);
    lemma_bound_scaled(cf, 2 * uu, e2, b2);
    assert((2 * uu) * b1 <= 18 * u3v + 0x100_000c * uuu) by (nonlinear_arith)
        requires
            b1 == 3 * (unit * size(r)) + 0x80_0000 * unit,
            size(r) <= 3 * v + 2,
            uuu == uu * unit,
            u3v == uuu * v,
    ;
    assert((2 * uu) * b2 == 12 * u3v + 0x400_0000 * uuu) by (nonlinear_arith)
        requires
            b2 == unit * (6 * v) + 0x200_0000 * unit,
            uuu == uu * unit,
            u3v == uuu * v,
    ;
    let crf = unit * (c * (r * f));
    assert(cu * e1 == uu * (c * a) - crf) by (nonlinear_arith)
        requires
            e1 == unit * a - r * f,
            cu == c * unit,
            uu == unit * unit,
            crf == unit * (c * (r * f)),
    ;
    assert(cf * e2 == crf - c * (f * p)) by (nonlinear_arith)
        requires
            e2 == unit * r - p,
            cf == c * f,
            crf == unit * (c * (r * f)),
    ;
    assert(uuu >= 0) by (nonlinear_arith)
        requires
            uuu == uu * unit,
            uu == unit * unit,
            unit > 0,
    ;
}

/// One term of the velocity on a rope, against the offset itself in place of the direction.
proof fn lemma_against_the_offset(
    unit: nat,
    d: nat,
    x: int,
    c: int,
    straight: int,
    p: int,
    f: nat,
    v: nat,
)
    requires
        unit > 0,
        f <= unit,
        size(x) <= 2 * d,
        size(p) <= 2 * (unit * v),
        0x40_0000 * size(d * c - x * unit) <= 3 * (d * unit),
        0x100_0000 * size(d * p - unit * straight) <= 12 * ((d * unit) * v),
    ensures
        0x100_0000 * size((d * d) * (c * (f * p)) - (unit * unit) * (x * (f * straight))) <= 48 * (((d
            * d) * (unit * unit)) * (unit * v)),
{
    let du = d * unit;
    let dp = d * p;
    let us = unit * straight;
    let xu = x * unit;
    let e1 = d * c - xu;
    let e2 = dp - us;
    let fdp = f * dp;
    let fxu = f * xu;
    let whole = ((d * d) * (unit * unit)) * (unit * v);
    lemma_size_of_product(d as int, p);
    lemma_size_of_product(f as int, dp);
    lemma_size_of_product(x, unit as int);
    lemma_size_of_product(f as int, xu);
    let most = unit * (2 * (du * v));
    assert(size(fdp) <= most) by (nonlinear_arith)
        requires
            size(fdp) == f * (d * size(p)),
            size(p) <= 2 * (unit * v),
            f <= unit,
            du == d * unit,
            most == unit * (2 * (du * v)),
    ;
    let span = unit * (2 * du);
    assert(size(fxu) <= span) by (nonlinear_arith)
        requires
            size(fxu) == f * (size(x) * unit),
            size(x) <= 2 * d,
            f <= unit,
            du == d * unit,
            span == unit * (2 * du),
    ;
    lemma_bound_scaled(fdp, most, e1, 12 * du);
    lemma_bound_scaled(fxu, span, e2, 12 * (du * v));
    assert(most * (12 * du) == 24 * whole && span * (12 * (du * v)) == 24 * whole)
        by (nonlinear_arith)
        requires
            most == unit * (2 * (du * v)),
            span == unit * (2 * du),
            du == d * unit,
            whole == ((d * d) * (unit * unit)) * (unit * v),
    ;
    let dc = d * c;
    assert((d * d) * (c * (f * p)) == fdp * dc) by (nonlinear_arith)
        requires
            dc == d * c,
            dp == d * p,
            fdp == f * dp,
    ;
    assert(fdp * dc == fdp * xu + fdp * e1) by (nonlinear_arith)
        requires
            dc == xu + e1,
    ;
    assert(fdp * xu == fxu * dp) by (nonlinear_arith)
        requires
            fdp == f * dp,
            fxu == f * xu,
    ;
    assert(fxu * dp == fxu * us + fxu * e2) by (nonlinear_arith)
        requires
            dp == us + e2,
    ;
    assert(fxu * us == (unit * unit) * (x * (f * straight))) by (nonlinear_arith)
        requires
            fxu == f * xu,
            xu == x * unit,
            us == unit * straight,
    ;
}

/// What a velocity has along a direction, against what it has along the offset.
proof fn lemma_along_offset(
    unit: nat,
    d: nat,
    x: int,
    y: int,
    c: int,
    e: int,
    v: int,
    w: int,
)
    requires
        0x40_0000 * size(d * c - x * unit) <= 3 * (d * unit),
        0x40_0000 * size(d * e - y * unit) <= 3 * (d * unit),
    ensures
        0x100_0000 * size(d * (v * c + w * e) - unit * (v * x + w * y)) <= 12 * ((d * unit) * (size(
            v,
        ) + size(w))),
{
    let a = d * c - x * unit;
    let b = d * e - y * unit;
    let du = d * unit;
    lemma_bound_scaled(v, size(v), a, 12 * du);
    lemma_bound_scaled(w, size(w), b, 12 * du);
    assert(size(v) * (12 * du) + size(w) * (12 * du) == 12 * (du * (size(v) + size(w))))
        by (nonlinear_arith);
    assert(v * a == d * (v * c) - unit * (v * x)) by (nonlinear_arith)
        requires
            a == d * c - x * unit,
    ;
    assert(w * b == d * (w * e) - unit * (w * y)) by (nonlinear_arith)
        requires
            b == d * e - y * unit,
    ;
    assert(d * (v * c + w * e) == d * (v * c) + d * (w * e) && unit * (v * x + w * y) == unit * (v
        * x) + unit * (w * y)) by (nonlinear_arith);
}

/// One component of the velocity on a rope, against the offset.
proof fn lemma_swung_against_offset(
    unit: nat,
    d: nat,
    x: int,
    y: int,
    c: int,
    e: int,
    v: int,
    w: int,
    f: nat,
    g: nat,
    motion: int,
)
    requires
        unit > 0,
        f <= unit,
        g <= unit,
        size(x) <= 2 * d,
        size(y) <= 2 * d,
        size(c) <= 2 * unit,
        size(e) <= 2 * unit,
        0x40_0000 * size(d * c - x * unit) <= 3 * (d * unit),
        0x40_0000 * size(d * e - y * unit) <= 3 * (d * unit),
        0x100_0000 * size(
            (unit * unit) * (unit * motion) - (c * (f * (v * c + w * e)) - e * (g * (w * c - v
                * e))),
        ) <= (unit * unit) * (unit * (96 * (size(v) + size(w)) + 0x1000_0000)),
    ensures
        0x1_0000 * size(
            (unit * (d * d)) * motion - (x * (f * (v * x + w * y)) - y * (g * (w * x - v * y))),
        ) <= (unit * (d * d)) * (size(v) + size(w) + 0x10_0000),
{
    let uu = unit * unit;
    let dd = d * d;
    let n = size(v) + size(w);
    let (p, q) = (v * c + w * e, w * c - v * e);
    let (s, t) = (v * x + w * y, w * x - v * y);
    assert(size(-v) == size(v));
    assert((-v) * e == -(v * e) && (-v) * y == -(v * y)) by (nonlinear_arith);
    lemma_along_offset(unit, d, x, y, c, e, v, w);
    lemma_along_offset(unit, d, x, y, c, e, w, -v);
    lemma_products_bounded(unit, c, v, e, w);
    lemma_products_bounded(unit, c, w, e, -v);
    assert(c * v == v * c && e * w == w * e && c * w == w * c && e * (-v) == (-v) * e)
        by (nonlinear_arith);
    assert(unit * (6 * n) == 3 * (2 * (unit * n))) by (nonlinear_arith);
    lemma_against_the_offset(unit, d, x, c, s, p, f, n);
    lemma_against_the_offset(unit, d, y, e, t, q, g, n);
    let whole = (dd * uu) * (unit * n);
    let e1 = uu * (unit * motion) - (c * (f * p) - e * (g * q));
    let b1 = uu * (unit * (96 * n + 0x1000_0000));
    lemma_bound_scaled(dd as int, dd, e1, b1);
    let du3 = (dd * uu) * unit;
    assert(dd * b1 == 96 * whole + 0x1000_0000 * du3) by (nonlinear_arith)
        requires
            b1 == uu * (unit * (96 * n + 0x1000_0000)),
            whole == (dd * uu) * (unit * n),
            du3 == (dd * uu) * unit,
    ;
    let (cp, eq) = (dd * (c * (f * p)), dd * (e * (g * q)));
    assert(dd * e1 == dd * (uu * (unit * motion)) - cp + eq) by (nonlinear_arith)
        requires
            e1 == uu * (unit * motion) - (c * (f * p) - e * (g * q)),
            cp == dd * (c * (f * p)),
            eq == dd * (e * (g * q)),
    ;
    let goal = (unit * dd) * motion - (x * (f * s) - y * (g * t));
    let (xs, yt) = (uu * (x * (f * s)), uu * (y * (g * t)));
    assert(uu * goal == dd * (uu * (unit * motion)) - xs + yt) by (nonlinear_arith)
        requires
            goal == (unit * dd) * motion - (x * (f * s) - y * (g * t)),
            xs == uu * (x * (f * s)),
            yt == uu * (y * (g * t)),
    ;
    assert(uu > 0 && whole >= 0 && du3 >= 0) by (nonlinear_arith)
        requires
            uu == unit * unit,
            unit > 0,
            dd == d * d,
            whole == (dd * uu) * (unit * n),
            du3 == (dd * uu) * unit,
            n >= 0,
    ;
    assert(0x100_0000 * size(uu * goal) <= 192 * whole + 0x1000_0000 * du3);
    lemma_size_of_product(uu as int, goal);
    let k = size(goal);
    let ud = unit * dd;
    assert(whole == uu * (ud * n) && du3 == uu * ud) by (nonlinear_arith)
        requires
            whole == (dd * uu) * (unit * n),
            du3 == (dd * uu) * unit,
            ud == unit * dd,
    ;
    let udn = ud * n;
    assert(0x100_0000 * k <= 192 * udn + 0x1000_0000 * ud) by (nonlinear_arith)
        requires
            0x100_0000 * (uu * k) <= 192 * (uu * udn) + 0x1000_0000 * (uu * ud),
            uu > 0,
    ;
    assert(ud * (n + 0x10_0000) == udn + 0x10_0000 * ud) by (nonlinear_arith)
        requires
            udn == ud * n,
    ;
    assert(udn >= 0) by (nonlinear_arith)
        requires
            udn == ud * n,
            ud == unit * dd,
            dd == d * d,
            n >= 0,
            unit > 0,
    ;
}

/// What becomes of a velocity on a rope, without bias and limit: the part away from the anchor is
/// lessened by the share of the stiffness, and kept where it leads to the anchor; the part across
/// the rope is lessened by the share of the damping. Each component, times the square of the
/// distance, is off by one part in two to the power 16 of the sizes of the velocity at most, and
/// 16 units besides. This holds wherever nothing overflows on the way.
pub proof fn law_velocity_on_a_rope(
    grapple: Grapple,
    position: (Float, Float),
    velocity: (Float, Float),
)
    requires
        grapple.correction(position, velocity).velocity is Some,
        grapple.swing_bias is Neutral,
        !Float::zero().lt(grapple.max_swing_speed),
        Float::zero().le(grapple.stiffness),
        grapple.stiffness.le(Float::ratio(1, 1)),
        Float::zero().le(grapple.damping),
        grapple.damping.le(Float::ratio(1, 1)),
        finite_vector(velocity),
        velocity.0->magnitude <= pow2(270),
        velocity.1->magnitude <= pow2(270),
        ({
            let x = position.0.minus(grapple.anchor.0);
            let y = position.1.minus(grapple.anchor.1);
            finite_vector((x, y)) && x.times(x).plus(y.times(y)).sqrt() is Finite
        }),
    ensures
        ({
            let unit = pow2(149);
            let dx = position.0.minus(grapple.anchor.0);
            let dy = position.1.minus(grapple.anchor.1);
            let distance = dx.times(dx).plus(dy.times(dy)).sqrt();
            let away = velocity.0.times(dx.over(distance)).plus(
                velocity.1.times(dy.over(distance)),
            );
            let (x, y) = (dx.units(), dy.units());
            let d = distance->magnitude;
            let (v, w) = (velocity.0.units(), velocity.1.units());
            let kept = if Float::zero().lt(away) {
                unit - grapple.stiffness->magnitude
            } else {
                unit as int
            };
            let left = unit - grapple.damping->magnitude;
            let along = kept * (v * x + w * y);
            let across = left * (w * x - v * y);
            let motion = grapple.correction(position, velocity).velocity->0;
            let bound = (unit * (d * d)) * (size(v) + size(w) + 0x10_0000);
            &&& motion.0 is Finite && motion.1 is Finite
            &&& 0x1_0000 * size(
                (unit * (d * d)) * motion.0.units() - (x * along - y * across),
            ) <= bound
            &&& 0x1_0000 * size(
                (unit * (d * d)) * motion.1.units() - (y * along + x * across),
            ) <= bound
        }),
{
    let unit = pow2(149);
    let offset = difference(position, grapple.anchor);
    let distance = norm(offset);
    let along = grapple.direction(position);
    let across = turned(along);
    let radial = dot(velocity, along);
    let sideways = dot(velocity, across);
    let a = grapple.radial(position, velocity);
    let b = grapple.tangential(position, velocity);
    let motion = grapple.swung(position, velocity);
    let (c, e) = (along.0.units(), along.1.units());
    let (x, y) = (offset.0.units(), offset.1.units());
    let (v, w) = (velocity.0.units(), velocity.1.units());
    let d = distance->magnitude;
    let n = size(v) + size(w);
    let (r, t) = (radial.units(), sideways.units());
    let f = if Float::zero().lt(radial) {
        (unit - grapple.stiffness->magnitude) as nat
    } else {
        unit
    };
    let g = (unit - grapple.damping->magnitude) as nat;
    lemma_one();
    lemma_pow2_pos(149);
    lemma_direction_is_unit(offset);
    lemma_direction_near(offset);
    assert(across.0.units() == -e && across.1.units() == c);
    lemma_link_motion(velocity, along);
    lemma_link_motion(velocity, across);
    assert(v * (-e) + w * c == w * c - v * e) by (nonlinear_arith);
    lemma_parts_left(grapple, position, velocity);
    lemma_swung_finite(grapple, position, velocity, n);
    lemma_two_products(along.0, a, across.0, b);
    lemma_two_products(along.1, a, across.1, b);
    lemma_products_bounded(unit, c, a.units(), -e, b.units());
    lemma_products_bounded(unit, e, a.units(), c, b.units());
    assert((-e) * b.units() == -(e * b.units())) by (nonlinear_arith);
    let (p, q) = (v * c + w * e, w * c - v * e);
    assert(motion == grapple.correction(position, velocity).velocity->0);
    lemma_swung_component(
        unit,
        c,
        e,
        p,
        q,
        f,
        g,
        r,
        t,
        a.units(),
        b.units(),
        motion.0.units(),
        n,
    );
    lemma_swung_against_offset(unit, d, x, y, c, e, v, w, f, g, motion.0.units());
    // the other component is the first one of the picture turned by a quarter
    assert(c * b.units() == -((-c) * b.units())) by (nonlinear_arith);
    lemma_swung_component(
        unit,
        e,
        -c,
        p,
        q,
        f,
        g,
        r,
        t,
        a.units(),
        b.units(),
        motion.1.units(),
        n,
    );
    assert(d * (-c) - (-x) * unit == -(d * c - x * unit) && w * e + (-v) * (-c) == p && (-v) * e - w
        * (-c) == q && w * y + (-v) * (-x) == v * x + w * y && (-v) * y - w * (-x) == w * x - v * y)
        by (nonlinear_arith)
        requires
            p == v * c + w * e,
            q == w * c - v * e,
    ;
    lemma_swung_against_offset(unit, d, y, -x, e, -c, w, -v, f, g, motion.1.units());
    let (s, z) = (v * x + w * y, w * x - v * y);
    assert((-x) * (g * z) == -(x * (g * z))) by (nonlinear_arith);
}

/// What is left of the two parts of a velocity.
proof fn lemma_parts_left(grapple: Grapple, position: (Float, Float), velocity: (Float, Float))
    requires
        Float::zero().le(grapple.stiffness),
        grapple.stiffness.le(Float::ratio(1, 1)),
        Float::zero().le(grapple.damping),
        grapple.damping.le(Float::ratio(1, 1)),
        finite_vector(velocity),
        finite_vector(grapple.direction(position)),
        dot(velocity, grapple.direction(position)) is Finite,
        dot(velocity, turned(grapple.direction(position))) is Finite,
    ensures
        ({
            let unit = pow2(149);
            let radial = dot(velocity, grapple.direction(position));
            let sideways = dot(velocity, turned(grapple.direction(position)));
            let a = grapple.radial(position, velocity);
            let b = grapple.tangential(position, velocity);
            let f = if Float::zero().lt(radial) {
                unit - grapple.stiffness->magnitude
            } else {
                unit as int
            };
            let g = unit - grapple.damping->magnitude;
            &&& 0 <= f <= unit && 0 <= g <= unit
            &&& a is Finite && b is Finite
            &&& size(a.units()) <= size(radial.units())
            &&& size(b.units()) <= size(sideways.units())
            &&& 0x100_0000 * size(unit * a.units() - radial.units() * f) <= 3 * (unit * size(
                radial.units(),
            )) + 0x80_0000 * unit
            &&& 0x100_0000 * size(unit * b.units() - sideways.units() * g) <= 3 * (unit * size(
                sideways.units(),
            )) + 0x80_0000 * unit
        }),
{
    let unit = pow2(149);
    let along = grapple.direction(position);
    let across = turned(along);
    let radial = dot(velocity, along);
    let sideways = dot(velocity, across);
    lemma_one();
    lemma_pow2_pos(149);
    lemma_operations_valid(velocity.0, along.0);
    lemma_operations_valid(velocity.1, along.1);
    lemma_operations_valid(velocity.0.times(along.0), velocity.1.times(along.1));
    lemma_operations_valid(along.1, along.1);
    lemma_operations_valid(velocity.0, across.0);
    lemma_operations_valid(velocity.1, across.1);
    lemma_operations_valid(velocity.0.times(across.0), velocity.1.times(across.1));
    lemma_lessened(radial, grapple.stiffness);
    lemma_lessened(sideways, grapple.damping);
    let r = radial.units();
    assert(unit * r - r * unit == 0) by (nonlinear_arith);
    assert(3 * (unit * size(r)) >= 0) by (nonlinear_arith);
}

/// The velocity on a rope is finite where the velocity before is not too great.
proof fn lemma_swung_finite(
    grapple: Grapple,
    position: (Float, Float),
    velocity: (Float, Float),
    n: nat,
)
    requires
        n <= 2 * pow2(270),
        finite_vector(grapple.direction(position)),
        size(grapple.direction(position).0.units()) <= 2 * pow2(149),
        size(grapple.direction(position).1.units()) <= 2 * pow2(149),
        grapple.radial(position, velocity) is Finite,
        grapple.tangential(position, velocity) is Finite,
        size(grapple.radial(position, velocity).units()) <= 3 * n + 2,
        size(grapple.tangential(position, velocity).units()) <= 3 * n + 2,
    ensures
        grapple.swung(position, velocity).0 is Finite,
        grapple.swung(position, velocity).1 is Finite,
{
    let unit = pow2(149);
    let along = grapple.direction(position);
    let across = turned(along);
    let a = grapple.radial(position, velocity);
    let b = grapple.tangential(position, velocity);
    let (small, most) = (pow2(270), pow2(274));
    lemma2_to64();
    lemma_pow2_pos(270);
    lemma_pow2_adds(4, 270);
    lemma_pow2_adds(1, 274);
    lemma_pow2_monotone(64, 270);
    assert(size(across.0.units()) == size(along.1.units()));
    lemma_bounded_product_finite(along.0, a);
    lemma_bounded_product_finite(along.1, a);
    lemma_bounded_product_finite(across.0, b);
    lemma_bounded_product_finite(across.1, b);
    lemma_sum_near(along.0.times(a), across.0.times(b), 2 * most);
    lemma_sum_near(along.1.times(a), across.1.times(b), 2 * most);
}

proof fn lemma_bounded_product_finite(part: Float, a: Float)
    requires
        part is Finite,
        a is Finite,
        size(part.units()) <= 2 * pow2(149),
        size(a.units()) <= 7 * pow2(270),
    ensures
        part.times(a) is Finite,
        part.times(a)->magnitude <= pow2(274),
{
    let unit = pow2(149);
    let (small, most) = (pow2(270), pow2(274));
    let (c, m) = (size(part.units()), size(a.units()));
    lemma2_to64();
    lemma_pow2_adds(4, 270);
    lemma_size_of_product(part.units(), a.units());
    assert(c * m <= unit * most) by (nonlinear_arith)
        requires
            c <= 2 * unit,
            m <= 7 * small,
            most == 16 * small,
    ;
    lemma_product_finite(part, a);
}

/// One component with a bias across it: two fifths of what it was and three fifths of what it would
/// be.
proof fn lemma_biased_component(before: Float, swung: Float)
    requires
        before is Finite,
        before.valid(),
        swung is Finite,
        size(before.units()) <= pow2(272),
        size(swung.units()) <= pow2(272),
    ensures
        ({
            let biased = before.plus(swung.minus(before).times(Float::ratio(3, 5)));
            &&& biased is Finite
            &&& 0x4_0000 * size(
                5 * biased.units() - (2 * before.units() + 3 * swung.units()),
            ) <= size(before.units()) + size(swung.units()) + 0x10_0000
        }),
{
    let unit = pow2(149);
    let share = Float::ratio(3, 5);
    let (v, n) = (before.units(), swung.units());
    let bound = size(v) + size(n);
    lemma2_to64();
    lemma_pow2_pos(149);
    lemma_pow2_adds(3, 272);
    lemma_pow2_pos(272);
    lemma_one();
    lemma_proper_fraction(3, 5);
    lemma_three_fifths();
    assert(before.negated().units() == -v);
    lemma_sum_near(swung, before.negated(), bound);
    let change = swung.minus(before);
    let h = change.units();
    lemma_times_at_most_one(change, share);
    lemma_product_near(change, share);
    let step = change.times(share);
    let g = step.units();
    let k = share.units();
    assert(size(h) <= 2 * bound && size(g) <= 2 * bound);
    lemma_sum_near(before, step, 3 * bound);
    let biased = before.plus(step);
    let w = biased.units();
    lemma_bias_errors(unit, v, n, h, k, g, w);
}

/// The errors of a bias, added up. The unknowns count the units of the velocity before and without
/// a bias, of the change between them, of the share of it, of the step, and of the result.
proof fn lemma_bias_errors(unit: nat, v: int, n: int, h: int, k: int, g: int, w: int)
    requires
        unit > 0,
        size(k) <= unit,
        size(h) <= 2 * (size(v) + size(n)),
        0x100_0000 * size(h - (n - v)) <= size(v) + size(n),
        0x100_0000 * size(unit * g - h * k) <= size(h * k) + 0x80_0000 * unit,
        0x100_0000 * size(w - (v + g)) <= 3 * (size(v) + size(n)),
        0x100_0000 * size(5 * k - 3 * unit) <= 3 * unit,
    ensures
        0x4_0000 * size(5 * w - (2 * v + 3 * n)) <= size(v) + size(n) + 0x10_0000,
{
    let bound = size(v) + size(n);
    let e0 = h - (n - v);
    let e1 = unit * g - h * k;
    let e2 = w - (v + g);
    let e3 = 5 * k - 3 * unit;
    let ub = unit * bound;
    lemma_bound_scaled((3 * unit) as int, 3 * unit, e0, bound);
    lemma_bound_scaled((5 * unit) as int, 5 * unit, e2, 3 * bound);
    lemma_bound_scaled(h, 2 * bound, e3, 3 * unit);
    assert((3 * unit) * bound == 3 * ub && (5 * unit) * (3 * bound) == 15 * ub && (2 * bound) * (3
        * unit) == 6 * ub) by (nonlinear_arith)
        requires
            ub == unit * bound,
    ;
    lemma_size_of_product(h, k);
    assert(size(h) * size(k) <= 2 * ub) by (nonlinear_arith)
        requires
            size(h) <= 2 * bound,
            size(k) <= unit,
            ub == unit * bound,
    ;
    let goal = 5 * w - (2 * v + 3 * n);
    let (uw, uv, un, ug, uh) = (unit * w, unit * v, unit * n, unit * g, unit * h);
    assert(unit * goal == 5 * uw - 2 * uv - 3 * un) by (nonlinear_arith)
        requires
            goal == 5 * w - (2 * v + 3 * n),
            uw == unit * w,
            uv == unit * v,
            un == unit * n,
    ;
    assert((3 * unit) * e0 == 3 * uh - 3 * un + 3 * uv) by (nonlinear_arith)
        requires
            e0 == h - (n - v),
            uh == unit * h,
            un == unit * n,
            uv == unit * v,
    ;
    assert((5 * unit) * e2 == 5 * uw - 5 * uv - 5 * ug) by (nonlinear_arith)
        requires
            e2 == w - (v + g),
            uw == unit * w,
            uv == unit * v,
            ug == unit * g,
    ;
    assert(h * e3 == 5 * (h * k) - 3 * uh) by (nonlinear_arith)
        requires
            e3 == 5 * k - 3 * unit,
            uh == unit * h,
    ;
    assert(unit * goal == (5 * unit) * e2 + 5 * e1 + h * e3 + (3 * unit) * e0);
    assert(ub >= 0) by (nonlinear_arith)
        requires
            ub == unit * bound,
            unit > 0,
    ;
    assert(0x100_0000 * size(unit * goal) <= 64 * ub + 0x400_0000 * unit);
    lemma_size_of_product(unit as int, goal);
    let z = size(goal);
    assert(0x4_0000 * z <= bound + 0x10_0000) by (nonlinear_arith)
        requires
            0x100_0000 * (unit * z) <= 64 * ub + 0x400_0000 * unit,
            ub == unit * bound,
            unit > 0,
    ;
}

/// Three fifths are rounded by one part in two to the power 24 at most.
proof fn lemma_three_fifths()
    ensures
        0x100_0000 * size(5 * Float::ratio(3, 5).units() - 3 * pow2(149)) <= 3 * pow2(149),
{
    let unit = pow2(149);
    let wide = 2 * (3 * unit);
    lemma2_to64();
    lemma_proper_fraction(3, 5);
    lemma_pow2_monotone(64, 149);
    lemma_ratio_near(wide, 5);
}

/// A swing bias, seen from outside and without a limit: a horizontal one leaves the horizontal
/// velocity as it is without a bias, and gives as the vertical one two fifths of what that was
/// before and three fifths of what it is without a bias; a vertical one does the same the other way
/// round. This is off by one part in two to the power 18 of the two at most, and four units besides,
/// for velocities up to two to the power 123.
pub proof fn law_bias_holds_back(
    grapple: Grapple,
    plain: Grapple,
    position: (Float, Float),
    velocity: (Float, Float),
)
    requires
        plain == (Grapple { swing_bias: SwingBias::Neutral, ..grapple }),
        !Float::zero().lt(grapple.max_swing_speed),
        grapple.correction(position, velocity).velocity is Some,
    ensures
        ({
            let free = plain.correction(position, velocity).velocity->0;
            let held = grapple.correction(position, velocity).velocity->0;
            &&& plain.correction(position, velocity).velocity is Some
            &&& grapple.swing_bias is Neutral ==> held == free
            &&& grapple.swing_bias is Horizontal ==> held.0 == free.0
            &&& grapple.swing_bias is Vertical ==> held.1 == free.1
            &&& grapple.swing_bias is Horizontal && velocity.1.valid() && velocity.1 is Finite
                && free.1 is Finite && velocity.1->magnitude <= pow2(272) && free.1->magnitude
                <= pow2(272) ==> held.1 is Finite && 0x4_0000 * size(
                5 * held.1.units() - (2 * velocity.1.units() + 3 * free.1.units()),
            ) <= velocity.1->magnitude + free.1->magnitude + 0x10_0000
            &&& grapple.swing_bias is Vertical && velocity.0.valid() && velocity.0 is Finite
                && free.0 is Finite && velocity.0->magnitude <= pow2(272) && free.0->magnitude
                <= pow2(272) ==> held.0 is Finite && 0x4_0000 * size(
                5 * held.0.units() - (2 * velocity.0.units() + 3 * free.0.units()),
            ) <= velocity.0->magnitude + free.0->magnitude + 0x10_0000
        }),
{
    let free = plain.correction(position, velocity).velocity->0;
    let held = grapple.correction(position, velocity).velocity->0;
    let swung = grapple.swung(position, velocity);
    assert(plain.swung(position, velocity) == swung);
    assert(free == swung);
    assert(held == grapple.biased(velocity, swung));
    if velocity.1.valid() && velocity.1 is Finite && free.1 is Finite && velocity.1->magnitude
        <= pow2(272) && free.1->magnitude <= pow2(272) {
        lemma_biased_component(velocity.1, free.1);
    }
    if velocity.0.valid() && velocity.0 is Finite && free.0 is Finite && velocity.0->magnitude
        <= pow2(272) && free.0->magnitude <= pow2(272) {
        lemma_biased_component(velocity.0, free.0);
    }
}

} // verus!
