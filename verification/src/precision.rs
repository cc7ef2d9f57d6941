//! How near speeds are to their limit and ropes to their length.
//!
//! Each rounding is off by one part in two to the power 24 at most, or by half a unit where numbers
//! are very small. The steps that measure a vector and bring it to another length add up to less
//! than one part in two to the power 19 of the square of that length.

use crate::arithmetic::{
    lemma_direction_finite, lemma_minus_self, lemma_norm_unsigned, lemma_one,
    lemma_operations_valid, lemma_over_greater, lemma_power_representable, lemma_round_valid,
    lemma_same_plus, lemma_same_times, lemma_square, lemma_sum_error, lemma_thousandth,
    lemma_times_at_most_one, lemma_times_one, lemma_times_zero, lemma_unsigned_sum, same,
};
use crate::float::{nearest, one_exponent, size, spacing, whole_root, Float};
use crate::grapple::{one, Grapple};
use crate::laws::{finite_number, finite_vector};
use crate::link::{least_distance, link_impulse};
use crate::plane::{difference, dot, norm, scaled, shrunk, sum};
use crate::rounding::{
    lemma_nearest_keeps_order, lemma_nearest_of_representable, lemma_neighbours,
    lemma_pow2_monotone, lemma_spacing_bounds, lemma_whole_root,
};
use crate::swing::{
    lemma_direction_is_unit, lemma_part_bounded, lemma_products_bounded, lemma_two_products,
};
use vstd::arithmetic::div_mod::{lemma_fundamental_div_mod, lemma_mod_bound};
use vstd::arithmetic::power2::{lemma2_to64, lemma2_to64_rest, lemma_pow2_adds, lemma_pow2_pos, pow2};
use vstd::prelude::*;

verus! {

/// The spacing is one part in two to the power 24 at most, or a unit.
proof fn lemma_unit_bound(twice: nat)
    ensures
        pow2(spacing(twice)) > 0,
        0x100_0000 * pow2(spacing(twice)) <= twice || pow2(spacing(twice)) == 1,
{
    let e = spacing(twice);
    lemma2_to64();
    lemma_pow2_pos(e);
    lemma_spacing_bounds(twice);
    if e > 0 {
        lemma_pow2_adds(24, e);
    }
}

/// Rounding a fraction goes up by half the spacing at most.
proof fn lemma_fraction_up(wide: nat, unit: nat)
    requires
        unit > 0,
    ensures
        2 * (0x100_0000 * (unit * nearest(wide / unit, wide % unit == 0))) <= 0x100_0001 * wide
            + 0x100_0000 * unit,
{
    let twice = wide / unit;
    let exact = wide % unit == 0;
    let n = nearest(twice, exact);
    let step = pow2(spacing(twice));
    let below = lemma_neighbours(twice);
    lemma_unit_bound(twice);
    lemma_fundamental_div_mod(wide as int, unit as int);
    lemma_mod_bound(wide as int, unit as int);
    assert((below + 1) * step == below * step + step) by (nonlinear_arith);
    assert(2 * n <= twice + step);
    assert(0x100_0000 * step <= twice + 0x100_0000);
    assert(2 * (0x100_0000 * n) <= 0x100_0001 * twice + 0x100_0000);
    assert(2 * (0x100_0000 * (unit * n)) <= 0x100_0001 * (unit * twice) + 0x100_0000 * unit)
        by (nonlinear_arith)
        requires
            2 * (0x100_0000 * n) <= 0x100_0001 * twice + 0x100_0000,
            unit > 0,
    ;
}

/// Rounding a fraction goes down by half the spacing at most.
proof fn lemma_fraction_down(wide: nat, unit: nat)
    requires
        unit > 0,
    ensures
        2 * (0x100_0000 * (unit * nearest(wide / unit, wide % unit == 0))) + 0x100_0000 * unit
            >= 0xff_ffff * wide,
{
    let twice = wide / unit;
    let rest_of_wide = wide % unit;
    let exact = rest_of_wide == 0;
    let n = nearest(twice, exact);
    let step = pow2(spacing(twice));
    let below = lemma_neighbours(twice);
    lemma_unit_bound(twice);
    lemma_fundamental_div_mod(wide as int, unit as int);
    lemma_mod_bound(wide as int, unit as int);
    assert((below + 1) * step == below * step + step) by (nonlinear_arith);
    let up: nat = if exact {
        twice
    } else {
        twice + 1
    };
    assert(2 * n >= up - step);
    assert(unit * up >= wide) by (nonlinear_arith)
        requires
            wide == unit * twice + rest_of_wide,
            0 <= rest_of_wide < unit,
            up == (if rest_of_wide == 0 {
                twice
            } else {
                twice + 1
            }),
    ;
    assert(0x100_0000 * step <= twice + 0x100_0000);
    assert(2 * (0x100_0000 * n) + 0x100_0000 >= 0xff_ffff * up);
    assert(2 * (0x100_0000 * (unit * n)) + 0x100_0000 * unit >= 0xff_ffff * (unit * up))
        by (nonlinear_arith)
        requires
            2 * (0x100_0000 * n) + 0x100_0000 >= 0xff_ffff * up,
            unit > 0,
    ;
}

/// Rounding a fraction that is not very small is off by one part in two to the power 24 at most.
pub(crate) proof fn lemma_ratio_near(wide: nat, unit: nat)
    requires
        unit > 0,
        wide >= 0x400_0000 * unit,
    ensures
        0x100_0000 * size(2 * (unit * nearest(wide / unit, wide % unit == 0)) - wide) <= wide,
{
    let twice = wide / unit;
    let rest = wide % unit;
    let exact = rest == 0;
    let n = nearest(twice, exact);
    let step = pow2(spacing(twice));
    let below = lemma_neighbours(twice);
    lemma_unit_bound(twice);
    lemma_spacing_bounds(twice);
    lemma2_to64();
    lemma_fundamental_div_mod(wide as int, unit as int);
    lemma_mod_bound(wide as int, unit as int);
    assert(twice >= 0x400_0000) by (nonlinear_arith)
        requires
            wide >= 0x400_0000 * unit,
            wide == unit * twice + rest,
            rest < unit,
            unit > 0,
    ;
    assert((below + 1) * step == below * step + step) by (nonlinear_arith);
    assert(0x100_0000 * step <= twice);
    let up: nat = if exact {
        twice
    } else {
        twice + 1
    };
    assert(2 * n <= twice + step && 2 * n >= up - step);
    let (un, ut, us) = (unit * n, unit * twice, unit * step);
    assert(2 * un <= ut + us && 2 * un + us >= ut + rest && 0x100_0000 * us <= ut)
        by (nonlinear_arith)
        requires
            un == unit * n,
            ut == unit * twice,
            us == unit * step,
            2 * n <= twice + step,
            2 * n >= up - step,
            up == (if rest == 0 {
                twice
            } else {
                twice + 1
            }),
            0 <= rest < unit,
            0x100_0000 * step <= twice,
            unit > 0,
    ;
}

/// A root is rounded down by one part in two to the power 24 at most.
proof fn lemma_root_down(square: nat)
    requires
        square >= 0x1_0000_0000_0000_0000,
    ensures
        ({
            let root = whole_root(square);
            let n = nearest(root, root * root == square);
            4 * (0x1_0000_0000_0000 * (n * n)) >= 0xffff_fe00_0001 * square
        }),
{
    let root = whole_root(square);
    let exact = root * root == square;
    let n = nearest(root, exact);
    let step = pow2(spacing(root));
    let below = lemma_neighbours(root);
    lemma_whole_root(square);
    lemma_unit_bound(root);
    assert(root >= 0xffff_ffff) by (nonlinear_arith)
        requires
            square < (root + 1) * (root + 1),
            square >= 0x1_0000_0000_0000_0000,
    ;
    assert((below + 1) * step == below * step + step) by (nonlinear_arith);
    let up: nat = if exact {
        root
    } else {
        root + 1
    };
    assert(up * up >= square);
    assert(2 * n >= up - step);
    assert(0x100_0000 * step <= root);
    assert(2 * (0x100_0000 * n) >= 0xff_ffff * up);
    assert(4 * (0x1_0000_0000_0000 * (n * n)) >= 0xffff_fe00_0001 * (up * up)) by (nonlinear_arith)
        requires
            2 * (0x100_0000 * n) >= 0xff_ffff * up,
            up >= 0,
    ;
}

/// A root is rounded up by one part in two to the power 24 at most.
proof fn lemma_root_up(square: nat)
    requires
        square >= 0x1_0000_0000_0000_0000,
    ensures
        ({
            let root = whole_root(square);
            let n = nearest(root, root * root == square);
            4 * (0x1_0000_0000_0000 * (n * n)) <= 0x1_0000_0200_0001 * square
        }),
{
    let root = whole_root(square);
    let n = nearest(root, root * root == square);
    let step = pow2(spacing(root));
    let below = lemma_neighbours(root);
    lemma_whole_root(square);
    lemma_unit_bound(root);
    assert(root >= 0xffff_ffff) by (nonlinear_arith)
        requires
            square < (root + 1) * (root + 1),
            square >= 0x1_0000_0000_0000_0000,
    ;
    assert((below + 1) * step == below * step + step) by (nonlinear_arith);
    assert(2 * n <= root + step);
    assert(0x100_0000 * step <= root);
    assert(2 * (0x100_0000 * n) <= 0x100_0001 * root);
    assert(4 * (0x1_0000_0000_0000 * (n * n)) <= 0x1_0000_0200_0001 * (root * root))
        by (nonlinear_arith)
        requires
            2 * (0x100_0000 * n) <= 0x100_0001 * root,
            n >= 0,
    ;
}

/// A measured speed is not much less than the exact one.
proof fn lemma_speed_measured(v: (Float, Float))
    requires
        v.0.valid(),
        v.1.valid(),
        v.0 is Finite,
        v.1 is Finite,
        norm(v) is Finite,
    ensures
        ({
            let x = v.0->magnitude;
            let y = v.1->magnitude;
            let speed = norm(v)->magnitude;
            0x20_0000 * (x * x + y * y) <= 0x20_0001 * (speed * speed + pow2(one_exponent()))
        }),
{
    let x = v.0->magnitude;
    let y = v.1->magnitude;
    let unit = pow2(149);
    let a = v.0.times(v.0);
    let b = v.1.times(v.1);
    let c = a.plus(b);
    let speed = norm(v)->magnitude;
    lemma_pow2_pos(149);
    lemma_square(v.0);
    lemma_square(v.1);
    lemma_operations_valid(v.0, v.0);
    lemma_operations_valid(v.1, v.1);
    lemma_unsigned_sum(a, b);
    assert(c is Finite && a is Finite && b is Finite);
    let ma = a->magnitude;
    let mb = b->magnitude;
    let mc = c->magnitude;
    lemma_fraction_down(2 * (x * x), unit);
    lemma_fraction_down(2 * (y * y), unit);
    lemma_sum_error(a, b);
    assert(a.units() == ma && b.units() == mb && c.units() == mc);
    let ua = unit * ma;
    let ub = unit * mb;
    let uc = unit * mc;
    let squares = x * x + y * y;
    assert(0x100_0000 * (ua + ub) + 0x100_0000 * unit >= 0xff_ffff * squares);
    assert(0x100_0000 * mc >= 0xff_ffff * (ma + mb));
    assert(0x100_0000 * uc >= 0xff_ffff * (ua + ub)) by (nonlinear_arith)
        requires
            0x100_0000 * mc >= 0xff_ffff * (ma + mb),
            uc == unit * mc,
            ua == unit * ma,
            ub == unit * mb,
            unit > 0,
    ;
    let s2 = speed * speed;
    assert(s2 >= 0) by (nonlinear_arith)
        requires
            s2 == speed * speed,
    ;
    if mc == 0 {
        assert(uc == 0);
    } else {
        let square = 4 * (mc * unit);
        lemma2_to64();
        lemma_pow2_monotone(64, 149);
        assert(square >= 0x1_0000_0000_0000_0000) by (nonlinear_arith)
            requires
                square == 4 * (mc * unit),
                mc >= 1,
                unit >= 0x1_0000_0000_0000_0000,
        ;
        lemma_root_down(square);
        assert(mc * unit == uc) by (nonlinear_arith)
            requires
                uc == unit * mc,
        ;
    }
    assert(0x1_0000_0000_0000 * s2 >= 0xffff_fe00_0001 * uc);
}

/// A measured length is not much more than the exact one.
proof fn lemma_length_measured(v: (Float, Float))
    requires
        v.0.valid(),
        v.1.valid(),
        v.0 is Finite,
        v.1 is Finite,
        norm(v) is Finite,
    ensures
        ({
            let x = v.0->magnitude;
            let y = v.1->magnitude;
            let length = norm(v)->magnitude;
            0x20_0000 * (length * length) <= 0x20_0001 * (x * x + y * y + 2 * pow2(one_exponent()))
        }),
{
    let x = v.0->magnitude;
    let y = v.1->magnitude;
    let unit = pow2(149);
    let a = v.0.times(v.0);
    let b = v.1.times(v.1);
    let c = a.plus(b);
    let length = norm(v)->magnitude;
    lemma_pow2_pos(149);
    lemma_square(v.0);
    lemma_square(v.1);
    lemma_operations_valid(v.0, v.0);
    lemma_operations_valid(v.1, v.1);
    lemma_unsigned_sum(a, b);
    assert(c is Finite && a is Finite && b is Finite);
    let ma = a->magnitude;
    let mb = b->magnitude;
    let mc = c->magnitude;
    lemma_fraction_up(2 * (x * x), unit);
    lemma_fraction_up(2 * (y * y), unit);
    lemma_sum_error(a, b);
    assert(a.units() == ma && b.units() == mb && c.units() == mc);
    let ua = unit * ma;
    let ub = unit * mb;
    let uc = unit * mc;
    let squares = x * x + y * y;
    assert(squares >= 0) by (nonlinear_arith)
        requires
            squares == x * x + y * y,
    ;
    assert(0x100_0000 * (ua + ub) <= 0x100_0001 * squares + 0x100_0000 * unit);
    assert(0x100_0000 * mc <= 0x100_0001 * (ma + mb));
    assert(0x100_0000 * uc <= 0x100_0001 * (ua + ub)) by (nonlinear_arith)
        requires
            0x100_0000 * mc <= 0x100_0001 * (ma + mb),
            uc == unit * mc,
            ua == unit * ma,
            ub == unit * mb,
            unit > 0,
    ;
    let l2 = length * length;
    if mc == 0 {
        assert(length == 0);
        assert(l2 == 0) by (nonlinear_arith)
            requires
                l2 == length * length,
                length == 0,
        ;
    } else {
        let square = 4 * (mc * unit);
        lemma2_to64();
        lemma_pow2_monotone(64, 149);
        assert(square >= 0x1_0000_0000_0000_0000) by (nonlinear_arith)
            requires
                square == 4 * (mc * unit),
                mc >= 1,
                unit >= 0x1_0000_0000_0000_0000,
        ;
        lemma_root_up(square);
        assert(mc * unit == uc) by (nonlinear_arith)
            requires
                uc == unit * mc,
        ;
        assert(0x1_0000_0000_0000 * l2 <= 0x1_0000_0200_0001 * uc);
    }
}

/// A component of a velocity, scaled by the ratio of a limit to a speed, where both roundings go up.
proof fn lemma_scaled_component(x: nat, limit: nat, speed: nat, unit: nat, ratio: nat, scaled: nat)
    requires
        unit > 0,
        speed > 0,
        2 * (0x100_0000 * (speed * ratio)) <= 0x100_0001 * (2 * (limit * unit)) + 0x100_0000 * speed,
        2 * (0x100_0000 * (unit * scaled)) <= 0x100_0001 * (2 * (x * ratio)) + 0x100_0000 * unit,
        0x200_0000 * speed <= limit * unit,
    ensures
        2 * (0x40_0000 * (speed * scaled)) <= 2 * (0x40_0001 * (x * limit)) + 0x40_0000 * speed,
{
    let b = speed * scaled;
    let a = x * limit;
    let ub = unit * b;
    let ua = unit * a;
    let us = unit * speed;
    let xs = x * speed;
    let xq = x * (speed * ratio);
    assert(2 * (0x100_0000 * ub) <= 0x100_0001 * (2 * xq) + 0x100_0000 * us) by {
        let left = 2 * (0x100_0000 * (unit * scaled));
        let right = 0x100_0001 * (2 * (x * ratio)) + 0x100_0000 * unit;
        assert(speed * left <= speed * right) by (nonlinear_arith)
            requires
                left <= right,
                speed > 0,
        ;
        assert(speed * left == 2 * (0x100_0000 * ub)) by (nonlinear_arith)
            requires
                left == 2 * (0x100_0000 * (unit * scaled)),
                ub == unit * (speed * scaled),
        ;
        assert(speed * right == 0x100_0001 * (2 * xq) + 0x100_0000 * us) by (nonlinear_arith)
            requires
                right == 0x100_0001 * (2 * (x * ratio)) + 0x100_0000 * unit,
                xq == x * (speed * ratio),
                us == unit * speed,
        ;
    }
    assert(2 * (0x100_0000 * xq) <= 0x100_0001 * (2 * ua) + 0x100_0000 * xs) by {
        let left = 2 * (0x100_0000 * (speed * ratio));
        let right = 0x100_0001 * (2 * (limit * unit)) + 0x100_0000 * speed;
        assert(x * left <= x * right) by (nonlinear_arith)
            requires
                left <= right,
                x >= 0,
        ;
        assert(x * left == 2 * (0x100_0000 * xq)) by (nonlinear_arith)
            requires
                left == 2 * (0x100_0000 * (speed * ratio)),
                xq == x * (speed * ratio),
        ;
        assert(x * right == 0x100_0001 * (2 * ua) + 0x100_0000 * xs) by (nonlinear_arith)
            requires
                right == 0x100_0001 * (2 * (limit * unit)) + 0x100_0000 * speed,
                ua == unit * (x * limit),
                xs == x * speed,
        ;
    }
    assert(0x200_0000 * xs <= ua) by (nonlinear_arith)
        requires
            0x200_0000 * speed <= limit * unit,
            xs == x * speed,
            ua == unit * (x * limit),
            x >= 0,
    ;
    assert(2 * (0x40_0000 * ub) <= 2 * (0x40_0001 * ua) + 0x40_0000 * us);
    assert(2 * (0x40_0000 * b) <= 2 * (0x40_0001 * a) + 0x40_0000 * speed) by (nonlinear_arith)
        requires
            2 * (0x40_0000 * ub) <= 2 * (0x40_0001 * ua) + 0x40_0000 * us,
            ub == unit * b,
            ua == unit * a,
            us == unit * speed,
            unit > 0,
    ;
}

/// Two scaled components together, each off by a share of the speed besides.
proof fn lemma_scaled_square(x: nat, y: nat, limit: nat, speed: nat, share: nat, u: nat, v: nat)
    requires
        speed > 0,
        2 * (0x40_0000 * (speed * u)) <= 2 * (0x40_0001 * (x * limit)) + 0x40_0000 * (share
            * speed),
        2 * (0x40_0000 * (speed * v)) <= 2 * (0x40_0001 * (y * limit)) + 0x40_0000 * (share
            * speed),
        0x20_0000 * (x * x + y * y) <= 0x20_0002 * (speed * speed),
        limit >= 0x800_0000 * share,
    ensures
        0x8_0000 * (u * u + v * v) <= 0x8_0001 * (limit * limit),
{
    let s2 = speed * speed;
    let l2 = limit * limit;
    let a = x * limit;
    let b = y * limit;
    let d2 = x * x + y * y;
    let extra = share * speed;
    lemma_not_far(x, y, speed);
    lemma_square_of_bound(speed, u, a, extra);
    lemma_square_of_bound(speed, v, b, extra);
    let uu = u * u;
    let vv = v * v;
    let aa = a * a;
    let bb = b * b;
    let ea = extra * a;
    let eb = extra * b;
    let ee = extra * extra;
    let ls = l2 * s2;
    assert(aa + bb == l2 * d2) by (nonlinear_arith)
        requires
            aa == (x * limit) * (x * limit),
            bb == (y * limit) * (y * limit),
            l2 == limit * limit,
            d2 == x * x + y * y,
    ;
    assert(0x20_0000 * (l2 * d2) <= 0x20_0002 * ls) by (nonlinear_arith)
        requires
            0x20_0000 * d2 <= 0x20_0002 * s2,
            ls == l2 * s2,
            l2 >= 0,
    ;
    let part = share * limit;
    assert(0x800_0000 * part <= l2) by (nonlinear_arith)
        requires
            limit >= 0x800_0000 * share,
            part == share * limit,
            l2 == limit * limit,
            limit >= 0,
    ;
    assert(ea + eb <= 4 * (part * s2)) by (nonlinear_arith)
        requires
            ea == (share * speed) * (x * limit),
            eb == (share * speed) * (y * limit),
            part == share * limit,
            x <= 2 * speed,
            y <= 2 * speed,
            s2 == speed * speed,
            part >= 0,
            speed > 0,
    ;
    assert(0x800_0000 * (part * s2) <= ls) by (nonlinear_arith)
        requires
            0x800_0000 * part <= l2,
            ls == l2 * s2,
            s2 >= 0,
    ;
    assert(0x800_0000 * ee <= part * s2) by (nonlinear_arith)
        requires
            ee == (share * speed) * (share * speed),
            part == share * limit,
            limit >= 0x800_0000 * share,
            s2 == speed * speed,
            share >= 0,
    ;
    assert(s2 > 0) by (nonlinear_arith)
        requires
            s2 == speed * speed,
            speed > 0,
    ;
    let p = s2 * (uu + vv);
    assert(p == s2 * uu + s2 * vv) by (nonlinear_arith)
        requires
            p == s2 * (uu + vv),
    ;
    assert(0x8_0000 * p <= 0x8_0001 * ls);
    assert(0x8_0000 * (uu + vv) <= 0x8_0001 * l2) by (nonlinear_arith)
        requires
            0x8_0000 * p <= 0x8_0001 * ls,
            p == s2 * (uu + vv),
            ls == l2 * s2,
            s2 > 0,
    ;
}

/// The square of a bound on a scaled component.
proof fn lemma_square_of_bound(speed: nat, u: nat, a: nat, extra: nat)
    requires
        2 * (0x40_0000 * (speed * u)) <= 2 * (0x40_0001 * a) + 0x40_0000 * extra,
    ensures
        4 * (0x1000_0000_0000 * ((speed * speed) * (u * u))) <= 4 * (0x1000_0080_0001 * (a * a)) + 4
            * (0x1000_0040_0000 * (extra * a)) + 0x1000_0000_0000 * (extra * extra),
{
    let w = 2 * (0x40_0000 * (speed * u));
    let c = 2 * (0x40_0001 * a) + 0x40_0000 * extra;
    assert(w * w <= c * c) by (nonlinear_arith)
        requires
            0 <= w <= c,
    ;
    assert(w * w == 4 * (0x1000_0000_0000 * ((speed * speed) * (u * u)))) by (nonlinear_arith)
        requires
            w == 2 * (0x40_0000 * (speed * u)),
    ;
    assert(c * c == 4 * (0x1000_0080_0001 * (a * a)) + 4 * (0x1000_0040_0000 * (extra * a))
        + 0x1000_0000_0000 * (extra * extra)) by (nonlinear_arith)
        requires
            c == 2 * (0x40_0001 * a) + 0x40_0000 * extra,
    ;
}

/// A measured length is at most two to the power 64, or it is infinite.
proof fn lemma_norm_bound(v: (Float, Float))
    requires
        v.0.valid(),
        v.1.valid(),
        v.0 is Finite,
        v.1 is Finite,
        norm(v) is Finite,
    ensures
        norm(v)->magnitude <= pow2(213),
{
    let a = v.0.times(v.0);
    let b = v.1.times(v.1);
    let c = a.plus(b);
    lemma_square(v.0);
    lemma_square(v.1);
    lemma_operations_valid(v.0, v.0);
    lemma_operations_valid(v.1, v.1);
    lemma_operations_valid(a, b);
    lemma_unsigned_sum(a, b);
    lemma_pow2_pos(213);
    let m = c->magnitude;
    let unit = pow2(149);
    let most = pow2(214);
    if m > 0 {
        let square = 4 * (m * unit);
        let root = whole_root(square);
        lemma_whole_root(square);
        lemma2_to64();
        lemma_pow2_pos(149);
        lemma_pow2_adds(2, 277);
        lemma_pow2_adds(279, 149);
        lemma_pow2_adds(214, 214);
        let top = pow2(277);
        assert(square < most * most) by (nonlinear_arith)
            requires
                square == 4 * (m * unit),
                m < top,
                unit > 0,
                most * most == (4 * top) * unit,
        ;
        assert(root < most) by (nonlinear_arith)
            requires
                root * root <= square,
                square < most * most,
                0 <= root,
                0 <= most,
        ;
        lemma_pow2_adds(1, 213);
        lemma_power_representable(213);
        lemma_nearest_of_representable(pow2(213));
        lemma_nearest_keeps_order(root, root * root == square, most, true);
    }
}

/// The limit on the speed is kept: the square of the exact length of a limited velocity exceeds that
/// of the limit by one part in two to the power 19 at most. This holds of limits from two to the
/// power -60 on. With smaller ones the squares of the speeds may leave the range in which the
/// format is precise.
pub proof fn law_speed_is_limited(grapple: Grapple, velocity: (Float, Float))
    requires
        finite_vector(velocity),
        finite_number(grapple.max_swing_speed),
        Float::zero().lt(grapple.max_swing_speed),
        grapple.max_swing_speed->magnitude >= pow2(89),
    ensures
        ({
            let limit = grapple.max_swing_speed->magnitude;
            let limited = grapple.limited(velocity);
            let u = limited.0->magnitude;
            let v = limited.1->magnitude;
            &&& finite_vector(limited)
            &&& 0x8_0000 * (u * u + v * v) <= 0x8_0001 * (limit * limit)
        }),
{
    let unit = pow2(149);
    let speed = norm(velocity);
    let limit = grapple.max_swing_speed;
    let s = speed->magnitude;
    let l = limit->magnitude;
    let x = velocity.0->magnitude;
    let y = velocity.1->magnitude;
    lemma2_to64();
    lemma_pow2_pos(149);
    lemma_pow2_monotone(64, 89);
    lemma_norm_unsigned(velocity);
    if speed is Finite {
        lemma_speed_measured(velocity);
        lemma_norm_bound(velocity);
    }
    let small = pow2(89);
    lemma_pow2_adds(29, 149);
    lemma_pow2_adds(89, 89);
    assert(0x2000_0000 * unit <= small * small);
    assert(small * small <= l * l) by (nonlinear_arith)
        requires
            0 <= small <= l,
    ;
    assert(limit.units() == l);
    if speed is Infinite {
        let scale = limit.over(speed);
        lemma_operations_valid(limit, speed);
        lemma_operations_valid(velocity.0, scale);
        lemma_operations_valid(velocity.1, scale);
        lemma_times_zero(velocity.0, scale);
        lemma_times_zero(velocity.1, scale);
        assert(l * l >= 0) by (nonlinear_arith);
        assert(0 * 0 == 0);
    } else if limit.lt(speed) {
        let scale = limit.over(speed);
        let q = scale->magnitude;
        let limited = grapple.limited(velocity);
        lemma_over_greater(limit, speed);
        lemma_times_at_most_one(velocity.0, scale);
        lemma_times_at_most_one(velocity.1, scale);
        lemma_operations_valid(limit, speed);
        lemma_operations_valid(velocity.0, scale);
        lemma_operations_valid(velocity.1, scale);
        lemma_fraction_up(2 * (l * unit), s);
        lemma_fraction_up(2 * (x * q), unit);
        lemma_fraction_up(2 * (y * q), unit);
        lemma_pow2_adds(89, 149);
        lemma_pow2_adds(25, 213);
        assert(small * unit <= l * unit) by (nonlinear_arith)
            requires
                small <= l,
                unit > 0,
        ;
        assert(l * l <= s * s) by (nonlinear_arith)
            requires
                0 <= l <= s,
        ;
        lemma_scaled_component(x, l, s, unit, q, limited.0->magnitude);
        lemma_scaled_component(y, l, s, unit, q, limited.1->magnitude);
        lemma_scaled_square(x, y, l, s, 1, limited.0->magnitude, limited.1->magnitude);
    } else {
        assert(s * s <= l * l) by (nonlinear_arith)
            requires
                0 <= s <= l,
        ;
    }
}

/// A component of a direction, stretched to a length, where both roundings go up.
proof fn lemma_stretched_component(
    x: nat,
    length: nat,
    distance: nat,
    unit: nat,
    count: nat,
    direction: nat,
    stretched: nat,
)
    requires
        unit > 0,
        distance > 0,
        2 * (0x100_0000 * (distance * direction)) <= 0x100_0001 * (2 * (x * unit)) + 0x100_0000
            * distance,
        2 * (0x100_0000 * (unit * stretched)) <= 0x100_0001 * (2 * (direction * length))
            + 0x100_0000 * unit,
        length <= count * unit,
    ensures
        2 * (0x40_0000 * (distance * stretched)) <= 2 * (0x40_0001 * (x * length)) + 0x40_0000 * ((2
            * count + 2) * distance),
{
    let b = distance * stretched;
    let a = x * length;
    let ub = unit * b;
    let ua = unit * a;
    let us = unit * distance;
    let ls = length * distance;
    let ln = length * (distance * direction);
    assert(2 * (0x100_0000 * ub) <= 0x100_0001 * (2 * ln) + 0x100_0000 * us) by {
        let left = 2 * (0x100_0000 * (unit * stretched));
        let right = 0x100_0001 * (2 * (direction * length)) + 0x100_0000 * unit;
        assert(distance * left <= distance * right) by (nonlinear_arith)
            requires
                left <= right,
                distance > 0,
        ;
        assert(distance * left == 2 * (0x100_0000 * ub)) by (nonlinear_arith)
            requires
                left == 2 * (0x100_0000 * (unit * stretched)),
                ub == unit * (distance * stretched),
        ;
        assert(distance * right == 0x100_0001 * (2 * ln) + 0x100_0000 * us) by (nonlinear_arith)
            requires
                right == 0x100_0001 * (2 * (direction * length)) + 0x100_0000 * unit,
                ln == length * (distance * direction),
                us == unit * distance,
        ;
    }
    assert(2 * (0x100_0000 * ln) <= 0x100_0001 * (2 * ua) + 0x100_0000 * ls) by {
        let left = 2 * (0x100_0000 * (distance * direction));
        let right = 0x100_0001 * (2 * (x * unit)) + 0x100_0000 * distance;
        assert(length * left <= length * right) by (nonlinear_arith)
            requires
                left <= right,
                length >= 0,
        ;
        assert(length * left == 2 * (0x100_0000 * ln)) by (nonlinear_arith)
            requires
                left == 2 * (0x100_0000 * (distance * direction)),
                ln == length * (distance * direction),
        ;
        assert(length * right == 0x100_0001 * (2 * ua) + 0x100_0000 * ls) by (nonlinear_arith)
            requires
                right == 0x100_0001 * (2 * (x * unit)) + 0x100_0000 * distance,
                ua == unit * (x * length),
                ls == length * distance,
        ;
    }
    let cs = count * us;
    assert(ls <= cs) by (nonlinear_arith)
        requires
            length <= count * unit,
            cs == count * us,
            ls == length * distance,
            us == unit * distance,
            distance > 0,
    ;
    assert(us >= 0 && ua >= 0) by (nonlinear_arith)
        requires
            us == unit * distance,
            ua == unit * (x * length),
            unit > 0,
            distance > 0,
            x >= 0,
            length >= 0,
    ;
    assert(2 * (0x40_0000 * ub) <= 2 * (0x40_0001 * ua) + 0x40_0000 * (2 * cs + 2 * us));
    assert(2 * (0x40_0000 * b) <= 2 * (0x40_0001 * a) + 0x40_0000 * ((2 * count + 2) * distance))
        by (nonlinear_arith)
        requires
            2 * (0x40_0000 * ub) <= 2 * (0x40_0001 * ua) + 0x40_0000 * (2 * cs + 2 * us),
            cs == count * us,
            ub == unit * b,
            ua == unit * a,
            us == unit * distance,
            unit > 0,
    ;
}

/// A component of a direction, stretched to a length, where both roundings go down.
proof fn lemma_stretched_component_down(
    x: nat,
    length: nat,
    distance: nat,
    unit: nat,
    count: nat,
    direction: nat,
    stretched: nat,
)
    requires
        unit > 0,
        distance > 0,
        2 * (0x100_0000 * (distance * direction)) + 0x100_0000 * distance >= 0xff_ffff * (2 * (x
            * unit)),
        2 * (0x100_0000 * (unit * stretched)) + 0x100_0000 * unit >= 0xff_ffff * (2 * (direction
            * length)),
        length <= count * unit,
    ensures
        2 * (0x40_0000 * (distance * stretched)) + 0x40_0000 * ((2 * count + 2) * distance) >= 2 * (
        0x3f_ffff * (x * length)),
{
    let b = distance * stretched;
    let a = x * length;
    let ub = unit * b;
    let ua = unit * a;
    let us = unit * distance;
    let ls = length * distance;
    let ln = length * (distance * direction);
    assert(2 * (0x100_0000 * ub) + 0x100_0000 * us >= 0xff_ffff * (2 * ln)) by {
        let left = 2 * (0x100_0000 * (unit * stretched)) + 0x100_0000 * unit;
        let right = 0xff_ffff * (2 * (direction * length));
        assert(distance * left >= distance * right) by (nonlinear_arith)
            requires
                left >= right,
                distance > 0,
        ;
        assert(distance * left == 2 * (0x100_0000 * ub) + 0x100_0000 * us) by (nonlinear_arith)
            requires
                left == 2 * (0x100_0000 * (unit * stretched)) + 0x100_0000 * unit,
                ub == unit * (distance * stretched),
                us == unit * distance,
        ;
        assert(distance * right == 0xff_ffff * (2 * ln)) by (nonlinear_arith)
            requires
                right == 0xff_ffff * (2 * (direction * length)),
                ln == length * (distance * direction),
        ;
    }
    assert(2 * (0x100_0000 * ln) + 0x100_0000 * ls >= 0xff_ffff * (2 * ua)) by {
        let left = 2 * (0x100_0000 * (distance * direction)) + 0x100_0000 * distance;
        let right = 0xff_ffff * (2 * (x * unit));
        assert(length * left >= length * right) by (nonlinear_arith)
            requires
                left >= right,
                length >= 0,
        ;
        assert(length * left == 2 * (0x100_0000 * ln) + 0x100_0000 * ls) by (nonlinear_arith)
            requires
                left == 2 * (0x100_0000 * (distance * direction)) + 0x100_0000 * distance,
                ln == length * (distance * direction),
                ls == length * distance,
        ;
        assert(length * right == 0xff_ffff * (2 * ua)) by (nonlinear_arith)
            requires
                right == 0xff_ffff * (2 * (x * unit)),
                ua == unit * (x * length),
        ;
    }
    let cs = count * us;
    assert(ls <= cs) by (nonlinear_arith)
        requires
            length <= count * unit,
            cs == count * us,
            ls == length * distance,
            us == unit * distance,
            distance > 0,
    ;
    assert(us >= 0 && ua >= 0 && cs >= 0) by (nonlinear_arith)
        requires
            us == unit * distance,
            ua == unit * (x * length),
            cs == count * us,
            count >= 0,
            unit > 0,
            distance > 0,
            x >= 0,
            length >= 0,
    ;
    assert(2 * (0x40_0000 * ub) + 0x40_0000 * (2 * cs + 2 * us) >= 2 * (0x3f_ffff * ua));
    assert(2 * (0x40_0000 * b) + 0x40_0000 * ((2 * count + 2) * distance) >= 2 * (0x3f_ffff * a))
        by (nonlinear_arith)
        requires
            2 * (0x40_0000 * ub) + 0x40_0000 * (2 * cs + 2 * us) >= 2 * (0x3f_ffff * ua),
            cs == count * us,
            ub == unit * b,
            ua == unit * a,
            us == unit * distance,
            unit > 0,
    ;
}

/// The square of a bound from below on a stretched component.
proof fn lemma_square_of_bound_down(distance: nat, u: nat, a: nat, extra: nat)
    requires
        2 * (0x40_0000 * (distance * u)) + 0x40_0000 * extra >= 2 * (0x3f_ffff * a),
    ensures
        4 * (0x1000_0000_0000 * ((distance * distance) * (u * u))) + 4 * (0x1000_0000_0000 * (extra
            * (distance * u))) + 0x1000_0000_0000 * (extra * extra) >= 4 * (0xfff_ff80_0001 * (a
            * a)),
{
    let w = 2 * (0x40_0000 * (distance * u)) + 0x40_0000 * extra;
    let c = 2 * (0x3f_ffff * a);
    assert(w * w >= c * c) by (nonlinear_arith)
        requires
            w >= c >= 0,
    ;
    assert(w * w == 4 * (0x1000_0000_0000 * ((distance * distance) * (u * u))) + 4 * (
    0x1000_0000_0000 * (extra * (distance * u))) + 0x1000_0000_0000 * (extra * extra))
        by (nonlinear_arith)
        requires
            w == 2 * (0x40_0000 * (distance * u)) + 0x40_0000 * extra,
    ;
    assert(c * c == 4 * (0xfff_ff80_0001 * (a * a))) by (nonlinear_arith)
        requires
            c == 2 * (0x3f_ffff * a),
    ;
}

/// Two stretched components together, each off by a share of the distance besides.
proof fn lemma_stretched_square(
    x: nat,
    y: nat,
    length: nat,
    distance: nat,
    share: nat,
    u: nat,
    v: nat,
)
    requires
        distance > 0,
        2 * (0x40_0000 * (distance * u)) + 0x40_0000 * (share * distance) >= 2 * (0x3f_ffff * (x
            * length)),
        2 * (0x40_0000 * (distance * v)) + 0x40_0000 * (share * distance) >= 2 * (0x3f_ffff * (y
            * length)),
        0x20_0002 * (x * x + y * y) >= 0x20_0000 * (distance * distance),
        length >= 0x800_0000 * share,
        u <= 2 * length,
        v <= 2 * length,
    ensures
        0x8_0000 * (u * u + v * v) >= 0x7_ffff * (length * length),
{
    let s2 = distance * distance;
    let l2 = length * length;
    let a = x * length;
    let b = y * length;
    let d2 = x * x + y * y;
    let extra = share * distance;
    lemma_square_of_bound_down(distance, u, a, extra);
    lemma_square_of_bound_down(distance, v, b, extra);
    let uu = u * u;
    let vv = v * v;
    let aa = a * a;
    let bb = b * b;
    let eu = extra * (distance * u);
    let ev = extra * (distance * v);
    let ee = extra * extra;
    let ls = l2 * s2;
    assert(aa + bb == l2 * d2) by (nonlinear_arith)
        requires
            aa == (x * length) * (x * length),
            bb == (y * length) * (y * length),
            l2 == length * length,
            d2 == x * x + y * y,
    ;
    assert(0x20_0002 * (l2 * d2) >= 0x20_0000 * ls) by (nonlinear_arith)
        requires
            0x20_0002 * d2 >= 0x20_0000 * s2,
            ls == l2 * s2,
            l2 >= 0,
    ;
    let part = share * length;
    assert(0x800_0000 * part <= l2) by (nonlinear_arith)
        requires
            length >= 0x800_0000 * share,
            part == share * length,
            l2 == length * length,
            length >= 0,
    ;
    assert(eu + ev <= 4 * (part * s2)) by (nonlinear_arith)
        requires
            eu == (share * distance) * (distance * u),
            ev == (share * distance) * (distance * v),
            part == share * length,
            u <= 2 * length,
            v <= 2 * length,
            s2 == distance * distance,
            share >= 0,
            s2 >= 0,
    ;
    assert(0x800_0000 * (part * s2) <= ls) by (nonlinear_arith)
        requires
            0x800_0000 * part <= l2,
            ls == l2 * s2,
            s2 >= 0,
    ;
    assert(0x800_0000 * ee <= part * s2) by (nonlinear_arith)
        requires
            ee == (share * distance) * (share * distance),
            part == share * length,
            length >= 0x800_0000 * share,
            s2 == distance * distance,
            share >= 0,
    ;
    assert(s2 > 0) by (nonlinear_arith)
        requires
            s2 == distance * distance,
            distance > 0,
    ;
    let p = s2 * (uu + vv);
    assert(p == s2 * uu + s2 * vv) by (nonlinear_arith)
        requires
            p == s2 * (uu + vv),
    ;
    assert(0x8_0000 * p >= 0x7_ffff * ls);
    assert(0x8_0000 * (uu + vv) >= 0x7_ffff * l2) by (nonlinear_arith)
        requires
            0x8_0000 * p >= 0x7_ffff * ls,
            p == s2 * (uu + vv),
            ls == l2 * s2,
            s2 > 0,
    ;
}

/// Neither component exceeds twice the measured length.
proof fn lemma_not_far(x: nat, y: nat, distance: nat)
    requires
        0x20_0000 * (x * x + y * y) <= 0x20_0002 * (distance * distance),
    ensures
        x <= 2 * distance,
        y <= 2 * distance,
{
    assert(x <= 2 * distance && y <= 2 * distance) by (nonlinear_arith)
        requires
            0x20_0000 * (x * x + y * y) <= 0x20_0002 * (distance * distance),
            x >= 0,
            y >= 0,
            distance >= 0,
    ;
}

/// Neither component of an arm exceeds twice the length of its rope.
proof fn lemma_not_long(u: nat, v: nat, length: nat)
    requires
        0x8_0000 * (u * u + v * v) <= 0x8_0001 * (length * length),
    ensures
        u <= 2 * length,
        v <= 2 * length,
{
    assert(u <= 2 * length && v <= 2 * length) by (nonlinear_arith)
        requires
            0x8_0000 * (u * u + v * v) <= 0x8_0001 * (length * length),
            u >= 0,
            v >= 0,
            length >= 0,
    ;
}

/// A component of a direction, stretched to a length that is not too great, stays finite.
proof fn lemma_arm_finite(x: Float, distance: Float, length: Float)
    requires
        x.valid(),
        x is Finite,
        distance is Finite,
        distance->magnitude > 0,
        x->magnitude <= 2 * distance->magnitude,
        x.over(distance) is Finite,
        x.over(distance).valid(),
        length is Finite,
        length.valid(),
        length->magnitude <= pow2(213),
    ensures
        x.over(distance).times(length) is Finite,
        x.over(distance).times(length).valid(),
{
    let unit = pow2(149);
    let m = x->magnitude;
    let s = distance->magnitude;
    let l = length->magnitude;
    let n = x.over(distance)->magnitude;
    let wide = 2 * (n * l);
    let a = nearest(wide / unit, wide % unit == 0);
    lemma2_to64();
    lemma_pow2_pos(149);
    lemma_fraction_up(2 * (m * unit), s);
    lemma_fraction_up(wide, unit);
    lemma_operations_valid(x.over(distance), length);
    assert(m * unit <= (2 * s) * unit) by (nonlinear_arith)
        requires
            m <= 2 * s,
            unit > 0,
    ;
    assert(n <= 3 * unit) by (nonlinear_arith)
        requires
            2 * (0x100_0000 * (s * n)) <= 0x100_0001 * (2 * (m * unit)) + 0x100_0000 * s,
            m * unit <= (2 * s) * unit,
            s > 0,
            unit > 0,
    ;
    assert(n * l <= (3 * unit) * l) by (nonlinear_arith)
        requires
            n <= 3 * unit,
            l >= 0,
    ;
    assert(a <= 4 * l + 1) by (nonlinear_arith)
        requires
            2 * (0x100_0000 * (unit * a)) <= 0x100_0001 * wide + 0x100_0000 * unit,
            wide == 2 * (n * l),
            n * l <= (3 * unit) * l,
            unit > 0,
    ;
    lemma_pow2_adds(3, 213);
    lemma_pow2_pos(213);
    lemma_pow2_monotone(216, 277);
}

/// A vector that was measured, brought to a length: each component is that of the vector, times the
/// length and divided by the distance, within one part in two to the power 20; and the square of
/// the whole is that of the length within one part in two to the power 19.
pub(crate) proof fn lemma_arm(offset: (Float, Float), length: Float)
    requires
        finite_vector(offset),
        norm(offset) is Finite,
        !norm(offset).lt(least_distance()),
        finite_number(length),
        Float::zero().lt(length),
        pow2(30) <= length->magnitude <= pow2(213),
    ensures
        ({
            let arm = scaled(shrunk(offset, norm(offset)), length);
            let (x, y) = (offset.0.units(), offset.1.units());
            let (u, v) = (arm.0.units(), arm.1.units());
            let s = norm(offset)->magnitude;
            let l = length->magnitude;
            &&& finite_vector(arm)
            &&& 0x20_0000 * (x * x + y * y) <= 0x20_0002 * (s * s)
            &&& 0x20_0002 * (x * x + y * y) >= 0x20_0000 * (s * s)
            &&& 0x8_0000 * (u * u + v * v) <= 0x8_0001 * (l * l)
            &&& 0x8_0000 * (u * u + v * v) >= 0x7_ffff * (l * l)
            &&& 0x40_0000 * size(s * u - x * l) <= 3 * (s * l)
            &&& 0x40_0000 * size(s * v - y * l) <= 3 * (s * l)
        }),
{
    let distance = norm(offset);
    let direction = shrunk(offset, distance);
    let arm = scaled(direction, length);
    let unit = pow2(149);
    let l = length->magnitude;
    let s = distance->magnitude;
    let x = offset.0->magnitude;
    let y = offset.1->magnitude;
    lemma_norm_unsigned(offset);
    lemma2_to64();
    lemma2_to64_rest();
    lemma_pow2_pos(149);
    lemma_thousandth();
    lemma_speed_measured(offset);
    lemma_length_measured(offset);
    lemma_direction_finite(offset);
    let small = pow2(139);
    lemma_pow2_adds(29, 149);
    lemma_pow2_adds(139, 139);
    lemma_pow2_monotone(178, 278);
    lemma_pow2_pos(139);
    assert(distance.units() == s && length.units() == l);
    assert(s >= small);
    assert(small * small <= s * s) by (nonlinear_arith)
        requires
            0 <= small <= s,
    ;
    lemma_fraction_up(2 * (x * unit), s);
    lemma_fraction_up(2 * (y * unit), s);
    lemma_fraction_up(2 * (direction.0->magnitude * l), unit);
    lemma_fraction_up(2 * (direction.1->magnitude * l), unit);
    lemma_fraction_down(2 * (x * unit), s);
    lemma_fraction_down(2 * (y * unit), s);
    lemma_fraction_down(2 * (direction.0->magnitude * l), unit);
    lemma_fraction_down(2 * (direction.1->magnitude * l), unit);
    lemma_not_far(x, y, s);
    lemma_arm_finite(offset.0, distance, length);
    lemma_arm_finite(offset.1, distance, length);
    let whole = l / unit;
    let count = whole + 1;
    lemma_fundamental_div_mod(l as int, unit as int);
    lemma_mod_bound(l as int, unit as int);
    assert(l <= count * unit && unit * whole <= l) by (nonlinear_arith)
        requires
            l == unit * whole + l % unit,
            0 <= l % unit < unit,
            count == whole + 1,
    ;
    let u = arm.0->magnitude;
    let v = arm.1->magnitude;
    lemma_stretched_component(x, l, s, unit, count, direction.0->magnitude, u);
    lemma_stretched_component(y, l, s, unit, count, direction.1->magnitude, v);
    lemma_stretched_component_down(x, l, s, unit, count, direction.0->magnitude, u);
    lemma_stretched_component_down(y, l, s, unit, count, direction.1->magnitude, v);
    lemma_pow2_monotone(64, 149);
    assert(0x1_0000_0000_0000_0000 * whole <= unit * whole) by (nonlinear_arith)
        requires
            0x1_0000_0000_0000_0000 <= unit,
            0 <= whole,
    ;
    let share = 2 * count + 2;
    lemma_scaled_square(x, y, l, s, share, u, v);
    lemma_not_long(u, v, l);
    lemma_stretched_square(x, y, l, s, share, u, v);
    lemma_component_near(x, l, s, share, u);
    lemma_component_near(y, l, s, share, v);
    lemma_signed_component(offset.0, distance, length, s, l);
    lemma_signed_component(offset.1, distance, length, s, l);
    lemma_signed_square(offset.0);
    lemma_signed_square(offset.1);
    lemma_signed_square(arm.0);
    lemma_signed_square(arm.1);
}

/// The two bounds on a stretched component, put together.
proof fn lemma_component_near(x: nat, length: nat, distance: nat, share: nat, u: nat)
    requires
        2 * (0x40_0000 * (distance * u)) <= 2 * (0x40_0001 * (x * length)) + 0x40_0000 * (share
            * distance),
        2 * (0x40_0000 * (distance * u)) + 0x40_0000 * (share * distance) >= 2 * (0x3f_ffff * (x
            * length)),
        length >= 0x800_0000 * share,
        x <= 2 * distance,
    ensures
        0x40_0000 * size(distance * u - x * length) <= 3 * (distance * length),
{
    let a = x * length;
    let b = distance * length;
    let c = share * distance;
    assert(0x800_0000 * c <= b) by (nonlinear_arith)
        requires
            length >= 0x800_0000 * share,
            b == distance * length,
            c == share * distance,
            distance >= 0,
    ;
    assert(a <= 2 * b) by (nonlinear_arith)
        requires
            x <= 2 * distance,
            a == x * length,
            b == distance * length,
            length >= 0,
    ;
}

/// A stretched component has the sign of the component that was stretched.
proof fn lemma_signed_component(x: Float, distance: Float, length: Float, s: nat, l: nat)
    requires
        x is Finite,
        distance is Finite,
        distance->magnitude > 0,
        !distance.is_negative(),
        length is Finite,
        !length.is_negative(),
        x.over(distance) is Finite,
        x.over(distance).times(length) is Finite,
        0x40_0000 * size(s * x.over(distance).times(length)->magnitude - x->magnitude * l) <= 3 * (s
            * l),
    ensures
        0x40_0000 * size(s * x.over(distance).times(length).units() - x.units() * l) <= 3 * (s * l),
{
    let arm = x.over(distance).times(length);
    assert(arm.is_negative() == x.is_negative());
    let m = arm->magnitude;
    let n = x->magnitude;
    if x.is_negative() {
        assert(s * (-m) == -(s * m) && (-n) * l == -(n * l)) by (nonlinear_arith);
    }
}

/// The sign does not matter to a square.
proof fn lemma_signed_square(x: Float)
    requires
        x is Finite,
    ensures
        x.units() * x.units() == x->magnitude * x->magnitude,
{
    let (u, m) = (x.units(), x->magnitude as int);
    assert(u * u == m * m) by (nonlinear_arith)
        requires
            u == m || u == -m,
    ;
}

/// The rope is as long as it should be: the square of the exact length of the vector from the anchor
/// to the end of a taut rope, before it is added to the anchor, differs from that of the rope's
/// length by one part in two to the power 19 at most. This holds of ropes from two to the power -119
/// on. From below it holds where the measured distance is not infinite: otherwise the point is
/// brought to the anchor itself.
pub proof fn law_rope_reaches_its_length(grapple: Grapple, position: (Float, Float))
    requires
        grapple.taut(position),
        finite_vector(difference(position, grapple.anchor)),
        finite_number(grapple.length),
        Float::zero().lt(grapple.length),
        grapple.length->magnitude >= pow2(30),
    ensures
        ({
            let length = grapple.length->magnitude;
            let arm = scaled(grapple.direction(position), grapple.length);
            let u = arm.0->magnitude;
            let v = arm.1->magnitude;
            &&& finite_vector(arm)
            &&& 0x8_0000 * (u * u + v * v) <= 0x8_0001 * (length * length)
            &&& grapple.distance(position) is Finite ==> 0x8_0000 * (u * u + v * v) >= 0x7_ffff * (
            length * length)
        }),
{
    let offset = difference(position, grapple.anchor);
    let distance = grapple.distance(position);
    let direction = grapple.direction(position);
    let arm = scaled(direction, grapple.length);
    let l = grapple.length->magnitude;
    lemma_norm_unsigned(offset);
    if distance is Infinite {
        lemma_operations_valid(offset.0, distance);
        lemma_operations_valid(offset.1, distance);
        lemma_operations_valid(direction.0, grapple.length);
        lemma_operations_valid(direction.1, grapple.length);
        lemma_times_zero(grapple.length, direction.0);
        lemma_times_zero(grapple.length, direction.1);
        assert(l * l >= 0) by (nonlinear_arith);
        assert(0 * 0 == 0);
    } else {
        assert(distance.units() == distance->magnitude && grapple.length.units() == l);
        lemma_norm_bound(offset);
        lemma_arm(offset, grapple.length);
        lemma_signed_square(arm.0);
        lemma_signed_square(arm.1);
    }
}

/// A sum that is not too great is finite, and off by one part in two to the power 24 of its bound
/// at most.
pub(crate) proof fn lemma_sum_near(a: Float, b: Float, bound: nat)
    requires
        a is Finite,
        b is Finite,
        size(a.units() + b.units()) <= bound,
        bound <= pow2(275),
    ensures
        a.plus(b) is Finite,
        a.plus(b).valid(),
        0x100_0000 * size(a.plus(b).units() - (a.units() + b.units())) <= bound,
{
    let sum = a.units() + b.units();
    let most = pow2(275);
    lemma_pow2_adds(2, 275);
    lemma_pow2_pos(275);
    lemma2_to64();
    lemma_power_representable(275);
    lemma_nearest_of_representable(most);
    lemma_nearest_keeps_order(2 * size(sum), true, 2 * most, true);
    if sum != 0 {
        lemma_round_valid(sum < 0, 2 * size(sum), true);
    } else {
        lemma_operations_valid(Float::zero(), Float::zero());
    }
    lemma_sum_error(a, b);
}

/// One coordinate of a rigid pull, from the anchor and the arm to the place reached, in three sums.
proof fn lemma_pulled_coordinate(anchor: Float, arm: Float, position: Float, reach: nat)
    requires
        anchor is Finite,
        arm is Finite,
        position is Finite,
        anchor->magnitude <= reach,
        arm->magnitude <= 2 * reach,
        position->magnitude <= reach,
        reach <= pow2(272),
    ensures
        ({
            let pulled = position.plus(anchor.plus(arm).minus(position).times(one()));
            &&& pulled is Finite
            &&& pulled->magnitude <= 6 * reach
            &&& 0x100_0000 * size(pulled.units() - (anchor.units() + arm.units())) <= 14 * reach
        }),
{
    lemma2_to64();
    lemma_pow2_adds(3, 272);
    lemma_sum_near(anchor, arm, 3 * reach);
    let end = anchor.plus(arm);
    let e = end.units();
    let x = position.units();
    assert(size(e - x) <= 5 * reach);
    assert(position.negated().units() == -x);
    lemma_sum_near(end, position.negated(), 5 * reach);
    let way = end.minus(position);
    let w = way.units();
    assert(0x100_0000 * size(w - (e - x)) <= 5 * reach);
    lemma_times_one(way);
    assert(size(x + w) <= 5 * reach);
    lemma_sum_near(position, way, 5 * reach);
}

/// One coordinate of the middle of a body after its corner was moved, in two sums.
proof fn lemma_moved_coordinate(pulled: Float, half: Float, reach: nat)
    requires
        pulled is Finite,
        half is Finite,
        pulled->magnitude <= 6 * reach,
        half->magnitude <= reach,
        reach <= pow2(272),
    ensures
        ({
            let center = pulled.minus(half).plus(half);
            &&& center is Finite
            &&& 0x100_0000 * size(center.units() - pulled.units()) <= 14 * reach
        }),
{
    lemma2_to64();
    lemma_pow2_adds(3, 272);
    assert(half.negated().units() == -half.units());
    lemma_sum_near(pulled, half.negated(), 7 * reach);
    let corner = pulled.minus(half);
    let c = corner.units();
    assert(0x100_0000 * size(c - (pulled.units() - half.units())) <= 7 * reach);
    assert(size(c + half.units()) <= 7 * reach);
    lemma_sum_near(corner, half, 7 * reach);
}

/// A vector that is shifted a little does not get much longer.
proof fn lemma_shifted_square(a: int, b: int, p: int, q: int, length: nat, reach: nat)
    requires
        a * a + b * b <= length * length,
        size(p - a) <= 28 * reach,
        size(q - b) <= 28 * reach,
    ensures
        p * p + q * q <= (length + 42 * reach) * (length + 42 * reach),
{
    let e = p - a;
    let f = q - b;
    let (m, n) = (size(a) as int, size(b) as int);
    let k = 28 * reach;
    assert(a * a == m * m && b * b == n * n) by (nonlinear_arith)
        requires
            m == a || m == -a,
            n == b || n == -b,
    ;
    assert(2 * (m + n) <= 3 * length) by (nonlinear_arith)
        requires
            m * m + n * n <= length * length,
            m >= 0,
            n >= 0,
            length >= 0,
    ;
    assert(a * e <= m * k) by (nonlinear_arith)
        requires
            -m <= a <= m,
            -k <= e <= k,
    ;
    assert(b * f <= n * k) by (nonlinear_arith)
        requires
            -n <= b <= n,
            -k <= f <= k,
    ;
    assert(e * e <= k * k && f * f <= k * k) by (nonlinear_arith)
        requires
            -k <= e <= k,
            -k <= f <= k,
    ;
    assert(p * p == a * a + 2 * (a * e) + e * e) by (nonlinear_arith)
        requires
            p == a + e,
    ;
    assert(q * q == b * b + 2 * (b * f) + f * f) by (nonlinear_arith)
        requires
            q == b + f,
    ;
    let lr = length * reach;
    let rr = reach * reach;
    assert(2 * ((m + n) * k) <= 84 * lr && k * k == 784 * rr && m * k + n * k == (m + n) * k)
        by (nonlinear_arith)
        requires
            2 * (m + n) <= 3 * length,
            k == 28 * reach,
            lr == length * reach,
            rr == reach * reach,
            reach >= 0,
    ;
    assert((length + 42 * reach) * (length + 42 * reach) == length * length + 84 * lr + 1764 * rr)
        by (nonlinear_arith)
        requires
            lr == length * reach,
            rr == reach * reach,
    ;
    assert(rr >= 0) by (nonlinear_arith)
        requires
            rr == reach * reach,
    ;
}

/// A number that is not smaller has a square that is not smaller.
proof fn lemma_square_grows(a: nat, b: nat)
    requires
        a <= b,
    ensures
        a * a <= b * b,
{
    assert(a * a <= b * b) by (nonlinear_arith)
        requires
            0 <= a <= b,
    ;
}

/// A point that lies near the end of an arm, which has about the length of its rope, lies about
/// that length from the anchor.
proof fn lemma_near_the_end(u: int, v: int, p: int, q: int, length: nat, reach: nat)
    requires
        0x8_0000 * (u * u + v * v) <= 0x8_0001 * (length * length),
        0x100_0000 * size(p - u) <= 28 * reach,
        0x100_0000 * size(q - v) <= 28 * reach,
        length <= reach,
    ensures
        0x10_0000_0000 * (p * p + q * q) <= (0x4_0000 * length + reach) * (0x4_0000 * length
            + reach),
        0x8_0000 * (u * u + v * v) >= 0x7_ffff * (length * length) && 0x4_0000 * length >= reach
            ==> 0x10_0000_0000 * (p * p + q * q) >= (0x4_0000 * length - reach) * (0x4_0000 * length
            - reach),
{
    let (a, b) = (0x100_0000 * u, 0x100_0000 * v);
    let (c, d) = (0x100_0000 * p, 0x100_0000 * q);
    let uv = u * u + v * v;
    let pq = p * p + q * q;
    let ll = length * length;
    assert(a * a + b * b == 0x1_0000_0000_0000 * uv) by (nonlinear_arith)
        requires
            a == 0x100_0000 * u,
            b == 0x100_0000 * v,
            uv == u * u + v * v,
    ;
    assert(c * c + d * d == 0x1_0000_0000_0000 * pq) by (nonlinear_arith)
        requires
            c == 0x100_0000 * p,
            d == 0x100_0000 * q,
            pq == p * p + q * q,
    ;
    assert(size(c - a) == 0x100_0000 * size(p - u));
    assert(size(d - b) == 0x100_0000 * size(q - v));
    let long = 0x100_0010 * length;
    assert(long * long == 0x1_0000_2000_0100 * ll) by (nonlinear_arith)
        requires
            long == 0x100_0010 * length,
            ll == length * length,
    ;
    assert(ll >= 0) by (nonlinear_arith)
        requires
            ll == length * length,
    ;
    lemma_shifted_square(a, b, c, d, long, reach);
    let outer = 0x4_0000 * length + reach;
    let wide = 64 * outer;
    lemma_square_grows(long + 42 * reach, wide);
    assert(wide * wide == 4096 * (outer * outer)) by (nonlinear_arith)
        requires
            wide == 64 * outer,
    ;
    if 0x8_0000 * uv >= 0x7_ffff * ll && 0x4_0000 * length >= reach {
        let inner = (0x4_0000 * length - reach) as nat;
        let narrow = 64 * inner;
        assert(narrow * narrow == 4096 * (inner * inner)) by (nonlinear_arith)
            requires
                narrow == 64 * inner,
        ;
        if 0x10_0000_0000 * pq < inner * inner {
            lemma_shifted_square(c, d, a, b, narrow, reach);
            let short = narrow + 42 * reach;
            let lr = length * reach;
            let rr = reach * reach;
            assert(short * short == 0x1_0000_0000_0000 * ll - 0x2c00_0000 * lr + 484 * rr)
                by (nonlinear_arith)
                requires
                    short == 0x100_0000 * length - 22 * reach,
                    ll == length * length,
                    lr == length * reach,
                    rr == reach * reach,
            ;
            assert(ll <= lr && rr <= 0x4_0000 * lr && ll > 0 && rr > 0) by (nonlinear_arith)
                requires
                    length <= reach,
                    reach <= 0x4_0000 * length,
                    0 < length,
                    ll == length * length,
                    lr == length * reach,
                    rr == reach * reach,
            ;
            assert(false);
        }
    }
}

/// A grapple of full stiffness brings the middle of a body to the rope's length from the anchor.
/// The body is moved by its corner, which lies `half` from its middle. Where no coordinate, extent
/// or length is greater than `reach`, the exact distance differs from the length by one part in two
/// to the power 18 of `reach` at most. From below it holds where the distance that was measured is
/// not infinite: otherwise the body is brought to the anchor itself.
pub proof fn law_rigid_rope(
    grapple: Grapple,
    position: (Float, Float),
    half: (Float, Float),
    reach: nat,
)
    requires
        grapple.taut(position),
        grapple.stiffness == one(),
        finite_vector(grapple.anchor),
        finite_vector(position),
        finite_vector(half),
        finite_number(grapple.length),
        Float::zero().lt(grapple.length),
        grapple.length->magnitude >= pow2(30),
        grapple.length->magnitude <= reach,
        grapple.anchor.0->magnitude <= reach,
        grapple.anchor.1->magnitude <= reach,
        position.0->magnitude <= reach,
        position.1->magnitude <= reach,
        half.0->magnitude <= reach,
        half.1->magnitude <= reach,
        reach <= pow2(272),
    ensures
        ({
            let center = sum(difference(grapple.pulled(position), half), half);
            let p = center.0.units() - grapple.anchor.0.units();
            let q = center.1.units() - grapple.anchor.1.units();
            let length = grapple.length->magnitude;
            &&& center.0 is Finite && center.1 is Finite
            &&& 0x10_0000_0000 * (p * p + q * q) <= (0x4_0000 * length + reach) * (0x4_0000 * length
                + reach)
            &&& grapple.distance(position) is Finite && 0x4_0000 * length >= reach
                ==> 0x10_0000_0000 * (p * p + q * q) >= (0x4_0000 * length - reach) * (0x4_0000
                * length - reach)
        }),
{
    let anchor = grapple.anchor;
    let arm = scaled(grapple.direction(position), grapple.length);
    let center = sum(difference(grapple.pulled(position), half), half);
    let length = grapple.length->magnitude;
    lemma2_to64();
    lemma_pow2_adds(3, 272);
    assert(anchor.0.negated().units() == -anchor.0.units());
    assert(anchor.1.negated().units() == -anchor.1.units());
    lemma_sum_near(position.0, anchor.0.negated(), 2 * reach);
    lemma_sum_near(position.1, anchor.1.negated(), 2 * reach);
    law_rope_reaches_its_length(grapple, position);
    let (u, v) = (arm.0->magnitude, arm.1->magnitude);
    lemma_not_long(u, v, length);
    let pulled = grapple.pulled(position);
    lemma_pulled_coordinate(anchor.0, arm.0, position.0, reach);
    lemma_pulled_coordinate(anchor.1, arm.1, position.1, reach);
    lemma_moved_coordinate(pulled.0, half.0, reach);
    lemma_moved_coordinate(pulled.1, half.1, reach);
    let (x, y) = (arm.0.units(), arm.1.units());
    assert(x * x == u * u && y * y == v * v) by (nonlinear_arith)
        requires
            x == u || x == -u,
            y == v || y == -v,
    ;
    lemma_near_the_end(
        x,
        y,
        center.0.units() - anchor.0.units(),
        center.1.units() - anchor.1.units(),
        length,
        reach,
    );
}

/// A product is off by one part in two to the power 24 and half a unit at most.
pub(crate) proof fn lemma_product_near(a: Float, b: Float)
    requires
        a is Finite,
        b is Finite,
        a.times(b) is Finite,
    ensures
        0x100_0000 * size(pow2(one_exponent()) * a.times(b).units() - a.units() * b.units()) <= size(
            a.units() * b.units(),
        ) + 0x80_0000 * pow2(one_exponent()),
{
    let unit = pow2(149);
    let (m, n) = (a->magnitude, b->magnitude);
    let r = a.times(b)->magnitude;
    lemma_pow2_pos(149);
    lemma_fraction_up(2 * (m * n), unit);
    lemma_fraction_down(2 * (m * n), unit);
    assert(a.units() * b.units() == (if a.is_negative() != b.is_negative() {
        -(m * n)
    } else {
        (m * n) as int
    })) by (nonlinear_arith)
        requires
            a.units() == (if a.is_negative() {
                -m
            } else {
                m as int
            }),
            b.units() == (if b.is_negative() {
                -n
            } else {
                n as int
            }),
    ;
    assert(unit * (-r) == -(unit * r)) by (nonlinear_arith);
    assert(m * n >= 0) by (nonlinear_arith);
}

/// A bound on a number, scaled.
pub(crate) proof fn lemma_bound_scaled(k: int, most: nat, e: int, bound: nat)
    requires
        size(k) <= most,
        0x100_0000 * size(e) <= bound,
    ensures
        0x100_0000 * size(k * e) <= most * bound,
{
    let (a, b) = (size(k) as int, size(e) as int);
    assert(size(k * e) == a * b) by {
        assert(k * e == a * b || k * e == -(a * b)) by (nonlinear_arith)
            requires
                k == a || k == -a,
                e == b || e == -b,
        ;
        assert(a * b >= 0) by (nonlinear_arith)
            requires
                a >= 0,
                b >= 0,
        ;
    }
    assert(0x100_0000 * (a * b) <= most * bound) by (nonlinear_arith)
        requires
            0 <= a <= most,
            0 <= b,
            0x100_0000 * b <= bound,
    ;
}

/// The errors of a pull, added up. The unknowns are the counts of units of the anchor, the position,
/// the arm, the offset, the end of the rope, the way to it, the step along that way, and the place
/// reached.
proof fn lemma_pull_errors(
    one: nat,
    share: nat,
    reach: nat,
    anchor: int,
    position: int,
    arm: int,
    offset: int,
    end: int,
    way: int,
    step: int,
    pulled: int,
)
    requires
        share <= one,
        reach >= 0x100_0000,
        0x100_0000 * size(offset - (position - anchor)) <= 2 * reach,
        0x100_0000 * size(end - (anchor + arm)) <= 3 * reach,
        0x100_0000 * size(way - (end - position)) <= 5 * reach,
        0x100_0000 * size(one * step - way * share) <= 6 * (one * reach) + 0x80_0000 * one,
        0x100_0000 * size(pulled - (position + step)) <= 8 * reach,
    ensures
        0x100_0000 * size(one * (pulled - anchor) - ((one - share) * offset + share * arm)) <= 25 * (
        one * reach),
{
    let e0 = position - anchor - offset;
    let e1 = end - (anchor + arm);
    let e2 = way - (end - position);
    let e3 = one * step - way * share;
    let e4 = pulled - (position + step);
    lemma_bound_scaled(one - share, one, e0, 2 * reach);
    lemma_bound_scaled(share as int, one, e1, 3 * reach);
    lemma_bound_scaled(share as int, one, e2, 5 * reach);
    lemma_bound_scaled(one as int, one, e4, 8 * reach);
    let or = one * reach;
    assert(one * (2 * reach) == 2 * or && one * (3 * reach) == 3 * or && one * (5 * reach) == 5 * or
        && one * (8 * reach) == 8 * or && 0x100_0000 * one <= or) by (nonlinear_arith)
        requires
            or == one * reach,
            reach >= 0x100_0000,
            one >= 0,
    ;
    assert(one * (pulled - anchor) - ((one - share) * offset + share * arm) == one * e4 + e3 + share
        * e2 + share * e1 + (one - share) * e0) by (nonlinear_arith)
        requires
            e0 == position - anchor - offset,
            e1 == end - (anchor + arm),
            e2 == way - (end - position),
            e3 == one * step - way * share,
            e4 == pulled - (position + step),
    ;
}

/// One coordinate of a pull: from the offset and the arm to the place reached.
proof fn lemma_partly_pulled_coordinate(
    anchor: Float,
    arm: Float,
    position: Float,
    stiffness: Float,
    reach: nat,
)
    requires
        anchor is Finite,
        arm is Finite,
        position is Finite,
        anchor->magnitude <= reach,
        arm->magnitude <= 2 * reach,
        position->magnitude <= reach,
        stiffness is Finite,
        stiffness.units() == stiffness->magnitude,
        stiffness->magnitude <= pow2(one_exponent()),
        0x100_0000 <= reach <= pow2(272),
    ensures
        ({
            let one = pow2(one_exponent());
            let share = stiffness->magnitude;
            let offset = position.minus(anchor);
            let pulled = position.plus(anchor.plus(arm).minus(position).times(stiffness));
            &&& pulled is Finite
            &&& 0x100_0000 * size(
                one * (pulled.units() - anchor.units()) - ((one - share) * offset.units() + share
                    * arm.units()),
            ) <= 25 * (one * reach)
        }),
{
    let one = pow2(149);
    let share = stiffness->magnitude;
    lemma2_to64();
    lemma_pow2_adds(3, 272);
    let x = position.units();
    assert(anchor.negated().units() == -anchor.units());
    assert(position.negated().units() == -x);
    lemma_sum_near(position, anchor.negated(), 2 * reach);
    lemma_sum_near(anchor, arm, 3 * reach);
    let end = anchor.plus(arm);
    let e = end.units();
    assert(size(e - x) <= 5 * reach);
    lemma_sum_near(end, position.negated(), 5 * reach);
    let way = end.minus(position);
    let w = way.units();
    assert(0x100_0000 * size(w - (e - x)) <= 5 * reach);
    assert(size(w) <= 6 * reach);
    lemma_times_at_most_one(way, stiffness);
    lemma_product_near(way, stiffness);
    let step = way.times(stiffness);
    let or = one * reach;
    assert(size(w * share) <= 6 * or) by (nonlinear_arith)
        requires
            -(6 * reach) <= w <= 6 * reach,
            0 <= share <= one,
            or == one * reach,
    ;
    assert(size(x + step.units()) <= 7 * reach);
    lemma_sum_near(position, step, 8 * reach);
    lemma_pull_errors(
        one,
        share,
        reach,
        anchor.units(),
        x,
        arm.units(),
        position.minus(anchor).units(),
        e,
        w,
        step.units(),
        position.plus(step).units(),
    );
}

/// One coordinate of the place reached, against the offset scaled to the distance that is left.
proof fn lemma_along_the_offset(
    one: nat,
    share: nat,
    distance: nat,
    length: nat,
    reach: nat,
    offset: int,
    arm: int,
    p: int,
)
    requires
        share <= one,
        length <= distance,
        length <= reach,
        0x100_0000 * size(one * p - ((one - share) * offset + share * arm)) <= 25 * (one * reach),
        0x40_0000 * size(distance * arm - offset * length) <= 3 * (distance * length),
    ensures
        0x100_0000 * size(
            distance * (one * p) - offset * (one * distance - share * (distance - length)),
        ) <= 28 * (2 * (distance * (one * reach))),
{
    let e = one * p - ((one - share) * offset + share * arm);
    let f = distance * arm - offset * length;
    let or = one * reach;
    let dor = distance * or;
    lemma_bound_scaled(distance as int, distance, e, 25 * or);
    lemma_bound_scaled(share as int, one, f, 12 * (distance * length));
    assert(distance * (25 * or) == 25 * dor) by (nonlinear_arith)
        requires
            dor == distance * or,
    ;
    assert(one * (12 * (distance * length)) <= 12 * dor) by (nonlinear_arith)
        requires
            length <= reach,
            or == one * reach,
            dor == distance * or,
            one >= 0,
            distance >= 0,
    ;
    assert(distance * (one * p) - offset * (one * distance - share * (distance - length)) == distance
        * e + share * f) by (nonlinear_arith)
        requires
            e == one * p - ((one - share) * offset + share * arm),
            f == distance * arm - offset * length,
    ;
}

/// A common factor leaves a bound on squares.
proof fn lemma_factor_leaves(k: nat, p: int, q: int, goal: nat, slack: nat)
    requires
        k > 0,
    ensures
        ({
            let (u, v) = (k * p, k * q);
            let most = 0x4_0000 * (k * goal) + 2 * (k * slack);
            let least = 0x4_0000 * (k * goal) - 2 * (k * slack);
            &&& 0x10_0000_0000 * (u * u + v * v) <= most * most ==> 0x4_0000_0000 * (p * p + q * q)
                <= (0x2_0000 * goal + slack) * (0x2_0000 * goal + slack)
            &&& 0x10_0000_0000 * (u * u + v * v) >= least * least ==> 0x4_0000_0000 * (p * p + q
                * q) >= (0x2_0000 * goal - slack) * (0x2_0000 * goal - slack)
        }),
{
    let (u, v) = (k * p, k * q);
    let a = 0x2_0000 * goal + slack;
    let b = 0x2_0000 * goal - slack;
    let most = 0x4_0000 * (k * goal) + 2 * (k * slack);
    let least = 0x4_0000 * (k * goal) - 2 * (k * slack);
    let kk = k * k;
    let pq = p * p + q * q;
    assert(kk > 0) by (nonlinear_arith)
        requires
            kk == k * k,
            k > 0,
    ;
    assert(u * u + v * v == kk * pq) by (nonlinear_arith)
        requires
            u == k * p,
            v == k * q,
            kk == k * k,
            pq == p * p + q * q,
    ;
    assert(most == 2 * (k * a)) by (nonlinear_arith)
        requires
            most == 0x4_0000 * (k * goal) + 2 * (k * slack),
            a == 0x2_0000 * goal + slack,
    ;
    assert(least == 2 * (k * b)) by (nonlinear_arith)
        requires
            least == 0x4_0000 * (k * goal) - 2 * (k * slack),
            b == 0x2_0000 * goal - slack,
    ;
    assert(most * most == 4 * (kk * (a * a))) by (nonlinear_arith)
        requires
            most == 2 * (k * a),
            kk == k * k,
    ;
    assert(least * least == 4 * (kk * (b * b))) by (nonlinear_arith)
        requires
            least == 2 * (k * b),
            kk == k * k,
    ;
    let (aa, bb) = (a * a, b * b);
    if 0x10_0000_0000 * (u * u + v * v) <= most * most {
        assert(0x4_0000_0000 * pq <= aa) by (nonlinear_arith)
            requires
                0x10_0000_0000 * (kk * pq) <= 4 * (kk * aa),
                kk > 0,
        ;
    }
    if 0x10_0000_0000 * (u * u + v * v) >= least * least {
        assert(0x4_0000_0000 * pq >= bb) by (nonlinear_arith)
            requires
                0x10_0000_0000 * (kk * pq) >= 4 * (kk * bb),
                kk > 0,
        ;
    }
}

/// The square of a vector that is scaled.
proof fn lemma_scaled_offset(x: int, y: int, distance: nat, goal: nat)
    requires
        0x20_0000 * (x * x + y * y) <= 0x20_0002 * (distance * distance),
        0x20_0002 * (x * x + y * y) >= 0x20_0000 * (distance * distance),
    ensures
        ({
            let (u, v) = (x * goal, y * goal);
            let length = distance * goal;
            &&& 0x8_0000 * (u * u + v * v) <= 0x8_0001 * (length * length)
            &&& 0x8_0000 * (u * u + v * v) >= 0x7_ffff * (length * length)
        }),
{
    let (u, v) = (x * goal, y * goal);
    let length = distance * goal;
    let xy = x * x + y * y;
    let dd = distance * distance;
    let gg = goal * goal;
    assert(u * u + v * v == gg * xy) by (nonlinear_arith)
        requires
            u == x * goal,
            v == y * goal,
            gg == goal * goal,
            xy == x * x + y * y,
    ;
    assert(length * length == gg * dd) by (nonlinear_arith)
        requires
            length == distance * goal,
            gg == goal * goal,
            dd == distance * distance,
    ;
    assert(dd >= 0 && gg >= 0) by (nonlinear_arith)
        requires
            dd == distance * distance,
            gg == goal * goal,
    ;
    assert(0x8_0000 * xy <= 0x8_0001 * dd);
    assert(0x8_0000 * xy >= 0x7_ffff * dd);
    assert(0x8_0000 * (gg * xy) <= 0x8_0001 * (gg * dd) && 0x8_0000 * (gg * xy) >= 0x7_ffff * (gg
        * dd)) by (nonlinear_arith)
        requires
            0x8_0000 * xy <= 0x8_0001 * dd,
            0x8_0000 * xy >= 0x7_ffff * dd,
            gg >= 0,
    ;
}

/// A taut grapple takes up the share of the stretch that its stiffness says: it brings a point to
/// the distance from the anchor that it had, less that share of what the distance exceeds the length
/// by. Where no coordinate and no distance is greater than `reach`, the exact distance differs from
/// this by one part in two to the power 17 of `reach` at most. All is measured in units of the
/// format, the wanted distance in units times two to the power 149.
pub proof fn law_pull_takes_its_share(grapple: Grapple, position: (Float, Float), reach: nat)
    requires
        grapple.taut(position),
        Float::zero().le(grapple.stiffness),
        grapple.stiffness.le(one()),
        finite_vector(grapple.anchor),
        finite_vector(position),
        finite_number(grapple.length),
        Float::zero().lt(grapple.length),
        grapple.length->magnitude >= pow2(30),
        grapple.distance(position) is Finite,
        grapple.distance(position)->magnitude <= reach,
        grapple.anchor.0->magnitude <= reach,
        grapple.anchor.1->magnitude <= reach,
        position.0->magnitude <= reach,
        position.1->magnitude <= reach,
        reach <= pow2(272),
    ensures
        ({
            let one = pow2(one_exponent());
            let pulled = grapple.pulled(position);
            let p = one * (pulled.0.units() - grapple.anchor.0.units());
            let q = one * (pulled.1.units() - grapple.anchor.1.units());
            let distance = grapple.distance(position)->magnitude;
            let stretch = distance - grapple.length->magnitude;
            let wanted = one * distance - grapple.stiffness->magnitude * stretch;
            let slack = one * reach;
            &&& pulled.0 is Finite && pulled.1 is Finite
            &&& 0x4_0000_0000 * (p * p + q * q) <= (0x2_0000 * wanted + slack) * (0x2_0000 * wanted
                + slack)
            &&& 0x2_0000 * wanted >= slack ==> 0x4_0000_0000 * (p * p + q * q) >= (0x2_0000 * wanted
                - slack) * (0x2_0000 * wanted - slack)
        }),
{
    let unit = pow2(149);
    let anchor = grapple.anchor;
    let offset = difference(position, anchor);
    let arm = scaled(grapple.direction(position), grapple.length);
    let pulled = grapple.pulled(position);
    let d = grapple.distance(position)->magnitude;
    let l = grapple.length->magnitude;
    let share = grapple.stiffness->magnitude;
    lemma2_to64();
    lemma_one();
    lemma_pow2_pos(149);
    lemma_pow2_adds(3, 272);
    lemma_pow2_monotone(24, 30);
    assert(anchor.0.negated().units() == -anchor.0.units());
    assert(anchor.1.negated().units() == -anchor.1.units());
    lemma_sum_near(position.0, anchor.0.negated(), 2 * reach);
    lemma_sum_near(position.1, anchor.1.negated(), 2 * reach);
    lemma_norm_unsigned(offset);
    lemma_norm_bound(offset);
    assert(grapple.distance(position).units() == d && grapple.length.units() == l);
    assert(l < d);
    assert(grapple.stiffness.units() == share && share <= unit);
    lemma_arm(offset, grapple.length);
    lemma_signed_square(arm.0);
    lemma_signed_square(arm.1);
    lemma_not_long(arm.0->magnitude, arm.1->magnitude, l);
    lemma_partly_pulled_coordinate(anchor.0, arm.0, position.0, grapple.stiffness, reach);
    lemma_partly_pulled_coordinate(anchor.1, arm.1, position.1, grapple.stiffness, reach);
    let p = pulled.0.units() - anchor.0.units();
    let q = pulled.1.units() - anchor.1.units();
    lemma_share_of_stretch(unit, share, d, l, reach, offset, arm, p, q);
}

/// The distance reached, from the bounds on its coordinates.
proof fn lemma_share_of_stretch(
    one: nat,
    share: nat,
    distance: nat,
    length: nat,
    reach: nat,
    offset: (Float, Float),
    arm: (Float, Float),
    p: int,
    q: int,
)
    requires
        share <= one,
        length < distance <= reach,
        ({
            let (x, y) = (offset.0.units(), offset.1.units());
            let (u, v) = (arm.0.units(), arm.1.units());
            &&& 0x20_0000 * (x * x + y * y) <= 0x20_0002 * (distance * distance)
            &&& 0x20_0002 * (x * x + y * y) >= 0x20_0000 * (distance * distance)
            &&& 0x40_0000 * size(distance * u - x * length) <= 3 * (distance * length)
            &&& 0x40_0000 * size(distance * v - y * length) <= 3 * (distance * length)
            &&& 0x100_0000 * size(one * p - ((one - share) * x + share * u)) <= 25 * (one * reach)
            &&& 0x100_0000 * size(one * q - ((one - share) * y + share * v)) <= 25 * (one * reach)
        }),
    ensures
        ({
            let wanted = one * distance - share * (distance - length);
            let slack = one * reach;
            &&& 0x4_0000_0000 * ((one * p) * (one * p) + (one * q) * (one * q)) <= (0x2_0000 * wanted
                + slack) * (0x2_0000 * wanted + slack)
            &&& 0x2_0000 * wanted >= slack ==> 0x4_0000_0000 * ((one * p) * (one * p) + (one * q) * (
            one * q)) >= (0x2_0000 * wanted - slack) * (0x2_0000 * wanted - slack)
        }),
{
    let (x, y) = (offset.0.units(), offset.1.units());
    let (u, v) = (arm.0.units(), arm.1.units());
    let wanted = one * distance - share * (distance - length);
    assert(0 <= wanted <= one * reach) by (nonlinear_arith)
        requires
            wanted == one * distance - share * (distance - length),
            0 <= share <= one,
            0 <= length < distance <= reach,
    ;
    let goal = wanted as nat;
    let slack = one * reach;
    lemma_along_the_offset(one, share, distance, length, reach, x, u, p);
    lemma_along_the_offset(one, share, distance, length, reach, y, v, q);
    lemma_scaled_offset(x, y, distance, goal);
    assert(distance * goal <= 2 * (distance * slack) && (0x2_0000 * goal >= slack ==> 0x4_0000 * (
    distance * goal) >= 2 * (distance * slack))) by (nonlinear_arith)
        requires
            0 <= goal <= slack,
            distance > 0,
    ;
    lemma_near_the_end(
        x * goal,
        y * goal,
        distance * (one * p),
        distance * (one * q),
        distance * goal,
        2 * (distance * slack),
    );
    lemma_factor_leaves(distance, one * p, one * q, goal, slack);
}

/// A component of a velocity, scaled by the ratio of a limit to a speed, where both roundings go
/// down.
proof fn lemma_scaled_component_down(
    x: nat,
    limit: nat,
    speed: nat,
    unit: nat,
    ratio: nat,
    scaled: nat,
)
    requires
        unit > 0,
        speed > 0,
        2 * (0x100_0000 * (speed * ratio)) + 0x100_0000 * speed >= 0xff_ffff * (2 * (limit * unit)),
        2 * (0x100_0000 * (unit * scaled)) + 0x100_0000 * unit >= 0xff_ffff * (2 * (x * ratio)),
        0x200_0000 * speed <= limit * unit,
    ensures
        2 * (0x40_0000 * (speed * scaled)) + 0x40_0000 * speed >= 2 * (0x3f_ffff * (x * limit)),
{
    let b = speed * scaled;
    let a = x * limit;
    let ub = unit * b;
    let ua = unit * a;
    let us = unit * speed;
    let xs = x * speed;
    let xq = x * (speed * ratio);
    assert(2 * (0x100_0000 * ub) + 0x100_0000 * us >= 0xff_ffff * (2 * xq)) by {
        let left = 2 * (0x100_0000 * (unit * scaled)) + 0x100_0000 * unit;
        let right = 0xff_ffff * (2 * (x * ratio));
        assert(speed * left >= speed * right) by (nonlinear_arith)
            requires
                left >= right,
                speed > 0,
        ;
        assert(speed * left == 2 * (0x100_0000 * ub) + 0x100_0000 * us) by (nonlinear_arith)
            requires
                left == 2 * (0x100_0000 * (unit * scaled)) + 0x100_0000 * unit,
                ub == unit * (speed * scaled),
                us == unit * speed,
        ;
        assert(speed * right == 0xff_ffff * (2 * xq)) by (nonlinear_arith)
            requires
                right == 0xff_ffff * (2 * (x * ratio)),
                xq == x * (speed * ratio),
        ;
    }
    assert(2 * (0x100_0000 * xq) + 0x100_0000 * xs >= 0xff_ffff * (2 * ua)) by {
        let left = 2 * (0x100_0000 * (speed * ratio)) + 0x100_0000 * speed;
        let right = 0xff_ffff * (2 * (limit * unit));
        assert(x * left >= x * right) by (nonlinear_arith)
            requires
                left >= right,
                x >= 0,
        ;
        assert(x * left == 2 * (0x100_0000 * xq) + 0x100_0000 * xs) by (nonlinear_arith)
            requires
                left == 2 * (0x100_0000 * (speed * ratio)) + 0x100_0000 * speed,
                xq == x * (speed * ratio),
                xs == x * speed,
        ;
        assert(x * right == 0xff_ffff * (2 * ua)) by (nonlinear_arith)
            requires
                right == 0xff_ffff * (2 * (limit * unit)),
                ua == unit * (x * limit),
        ;
    }
    assert(0x200_0000 * xs <= ua) by (nonlinear_arith)
        requires
            0x200_0000 * speed <= limit * unit,
            xs == x * speed,
            ua == unit * (x * limit),
            x >= 0,
    ;
    assert(2 * (0x40_0000 * ub) + 0x40_0000 * us >= 2 * (0x3f_ffff * ua));
    assert(2 * (0x40_0000 * b) + 0x40_0000 * speed >= 2 * (0x3f_ffff * a)) by (nonlinear_arith)
        requires
            2 * (0x40_0000 * ub) + 0x40_0000 * us >= 2 * (0x3f_ffff * ua),
            ub == unit * b,
            ua == unit * a,
            us == unit * speed,
            unit > 0,
    ;
}

/// A velocity above the limit, brought down to it: the exact speed is the limit from both sides, and
/// each component is that of the velocity in the ratio of the limit to the measured speed.
proof fn lemma_brought_to_the_limit(velocity: (Float, Float), limit: Float)
    requires
        finite_vector(velocity),
        finite_number(limit),
        limit->magnitude >= pow2(89),
        Float::zero().lt(limit),
        norm(velocity) is Finite,
        limit.lt(norm(velocity)),
    ensures
        ({
            let limited = scaled(velocity, limit.over(norm(velocity)));
            let (u, v) = (limited.0.units(), limited.1.units());
            let (x, y) = (velocity.0.units(), velocity.1.units());
            let s = norm(velocity)->magnitude;
            let l = limit->magnitude;
            &&& limited.0 is Finite && limited.1 is Finite
            &&& 0x8_0000 * (u * u + v * v) <= 0x8_0001 * (l * l)
            &&& 0x8_0000 * (u * u + v * v) >= 0x7_ffff * (l * l)
            &&& 0x40_0000 * size(s * u - x * l) <= 3 * (s * l)
            &&& 0x40_0000 * size(s * v - y * l) <= 3 * (s * l)
        }),
{
    let unit = pow2(149);
    let speed = norm(velocity);
    let s = speed->magnitude;
    let l = limit->magnitude;
    let x = velocity.0->magnitude;
    let y = velocity.1->magnitude;
    lemma2_to64();
    lemma_pow2_pos(149);
    lemma_pow2_monotone(64, 89);
    lemma_norm_unsigned(velocity);
    lemma_speed_measured(velocity);
    lemma_length_measured(velocity);
    lemma_norm_bound(velocity);
    let small = pow2(89);
    lemma_pow2_adds(29, 149);
    lemma_pow2_adds(89, 89);
    assert(0x2000_0000 * unit <= small * small);
    assert(small * small <= l * l) by (nonlinear_arith)
        requires
            0 <= small <= l,
    ;
    assert(limit.units() == l && speed.units() == s);
    let scale = limit.over(speed);
    let q = scale->magnitude;
    let limited = scaled(velocity, scale);
    lemma_over_greater(limit, speed);
    lemma_times_at_most_one(velocity.0, scale);
    lemma_times_at_most_one(velocity.1, scale);
    lemma_fraction_up(2 * (l * unit), s);
    lemma_fraction_up(2 * (x * q), unit);
    lemma_fraction_up(2 * (y * q), unit);
    lemma_fraction_down(2 * (l * unit), s);
    lemma_fraction_down(2 * (x * q), unit);
    lemma_fraction_down(2 * (y * q), unit);
    lemma_pow2_adds(89, 149);
    lemma_pow2_adds(25, 213);
    assert(small * unit <= l * unit) by (nonlinear_arith)
        requires
            small <= l,
            unit > 0,
    ;
    assert(l * l <= s * s) by (nonlinear_arith)
        requires
            0 <= l <= s,
    ;
    let u = limited.0->magnitude;
    let v = limited.1->magnitude;
    lemma_scaled_component(x, l, s, unit, q, u);
    lemma_scaled_component(y, l, s, unit, q, v);
    lemma_scaled_component_down(x, l, s, unit, q, u);
    lemma_scaled_component_down(y, l, s, unit, q, v);
    lemma_scaled_square(x, y, l, s, 1, u, v);
    lemma_not_long(u, v, l);
    lemma_not_far(x, y, s);
    lemma_stretched_square(x, y, l, s, 1, u, v);
    lemma_component_near(x, l, s, 1, u);
    lemma_component_near(y, l, s, 1, v);
    lemma_sign_of_scaled(velocity.0, scale, s, l);
    lemma_sign_of_scaled(velocity.1, scale, s, l);
    lemma_signed_square(limited.0);
    lemma_signed_square(limited.1);
}

/// A component that is scaled by a number that is not negative keeps its sign.
proof fn lemma_sign_of_scaled(x: Float, scale: Float, s: nat, l: nat)
    requires
        x is Finite,
        scale is Finite,
        !scale.is_negative(),
        x.times(scale) is Finite,
        0x40_0000 * size(s * x.times(scale)->magnitude - x->magnitude * l) <= 3 * (s * l),
    ensures
        0x40_0000 * size(s * x.times(scale).units() - x.units() * l) <= 3 * (s * l),
{
    let m = x.times(scale)->magnitude;
    let n = x->magnitude;
    if x.is_negative() {
        assert(s * (-m) == -(s * m) && (-n) * l == -(n * l)) by (nonlinear_arith);
    }
}

/// The limit on the speed, seen from outside: a grapple with a limit gives a point the velocity that
/// the same grapple without one gives it, where that is no faster than the limit or there is none
/// above zero. Where it is faster, the point gets the limit as its speed and keeps its direction:
/// the square of the exact speed is that of the limit within one part in two to the power 19, from
/// both sides, and the components are in the ratio of the limit to the speed.
pub proof fn law_limit_slows_to_the_limit(
    grapple: Grapple,
    free: Grapple,
    position: (Float, Float),
    velocity: (Float, Float),
)
    requires
        free == (Grapple {
            max_swing_speed: Float::Finite { negative: false, magnitude: 0 },
            ..grapple
        }),
        grapple.correction(position, velocity).velocity is Some,
    ensures
        ({
            let fast = free.correction(position, velocity).velocity->0;
            let slow = grapple.correction(position, velocity).velocity->0;
            let limit = grapple.max_swing_speed;
            let speed = fast.0.times(fast.0).plus(fast.1.times(fast.1)).sqrt();
            let (x, y) = (fast.0.units(), fast.1.units());
            let (u, v) = (slow.0.units(), slow.1.units());
            let s = speed->magnitude;
            let l = limit->magnitude;
            &&& free.correction(position, velocity).velocity is Some
            &&& !(Float::Finite { negative: false, magnitude: 0 }).lt(limit) ==> slow == fast
            &&& !limit.lt(speed) ==> slow == fast
            &&& finite_vector(fast) && finite_number(limit) && !limit.is_negative()
                && limit->magnitude >= pow2(89) && speed is Finite && limit.lt(speed) ==> {
                &&& slow.0 is Finite && slow.1 is Finite
                &&& 0x8_0000 * (u * u + v * v) <= 0x8_0001 * (l * l)
                &&& 0x8_0000 * (u * u + v * v) >= 0x7_ffff * (l * l)
                &&& 0x40_0000 * size(s * u - x * l) <= 3 * (s * l)
                &&& 0x40_0000 * size(s * v - y * l) <= 3 * (s * l)
            }
        }),
{
    let fast = free.correction(position, velocity).velocity->0;
    let limit = grapple.max_swing_speed;
    let speed = norm(fast);
    lemma_same_before_the_limit(grapple, free, position, velocity);
    lemma_pow2_pos(89);
    if finite_vector(fast) && finite_number(limit) && !limit.is_negative() && limit->magnitude
        >= pow2(89) && speed is Finite && limit.lt(speed) {
        lemma_brought_to_the_limit(fast, limit);
    }
}

/// With and without a limit the velocity is the same up to where the limit is applied.
proof fn lemma_same_before_the_limit(
    grapple: Grapple,
    free: Grapple,
    position: (Float, Float),
    velocity: (Float, Float),
)
    requires
        free == (Grapple { max_swing_speed: Float::zero(), ..grapple }),
        grapple.correction(position, velocity).velocity is Some,
    ensures
        free.correction(position, velocity).velocity is Some,
        grapple.correction(position, velocity).velocity->0 == grapple.limited(
            free.correction(position, velocity).velocity->0,
        ),
{
    let swung = grapple.swung(position, velocity);
    assert(free.swung(position, velocity) == swung);
    assert(free.biased(velocity, swung) == grapple.biased(velocity, swung));
    assert(free.limited(free.biased(velocity, swung)) == free.biased(velocity, swung));
}

/// A taut grapple pulls a point straight to the anchor: each coordinate of the place reached, seen
/// from the anchor, is that of the point in the ratio of the distance that is left to the distance
/// that there was, where the stiffness says what share of the stretch is taken up. Where no
/// coordinate and no distance is greater than `reach`, it is off by no more than 56 parts in two to
/// the power 24 of `reach`.
pub proof fn law_pull_goes_straight(
    grapple: Grapple,
    position: (Float, Float),
    velocity: (Float, Float),
    reach: nat,
)
    requires
        grapple.correction(position, velocity).position is Some,
        Float::zero().le(grapple.stiffness),
        grapple.stiffness.le(Float::Finite { negative: false, magnitude: pow2(149) }),
        finite_vector(grapple.anchor),
        finite_vector(position),
        finite_number(grapple.length),
        Float::zero().lt(grapple.length),
        grapple.length->magnitude >= pow2(30),
        ({
            let x = position.0.minus(grapple.anchor.0);
            let y = position.1.minus(grapple.anchor.1);
            let distance = x.times(x).plus(y.times(y)).sqrt();
            distance is Finite && distance->magnitude <= reach
        }),
        grapple.anchor.0->magnitude <= reach,
        grapple.anchor.1->magnitude <= reach,
        position.0->magnitude <= reach,
        position.1->magnitude <= reach,
        reach <= pow2(272),
    ensures
        ({
            let unit = pow2(149);
            let x = position.0.minus(grapple.anchor.0);
            let y = position.1.minus(grapple.anchor.1);
            let distance = x.times(x).plus(y.times(y)).sqrt()->magnitude;
            let spot = grapple.correction(position, velocity).position->0;
            let p = spot.0.units() - grapple.anchor.0.units();
            let q = spot.1.units() - grapple.anchor.1.units();
            let stretch = distance - grapple.length->magnitude;
            let wanted = unit * distance - grapple.stiffness->magnitude * stretch;
            let bound = 28 * (2 * (distance * (unit * reach)));
            &&& spot.0 is Finite && spot.1 is Finite
            &&& 0x100_0000 * size(distance * (unit * p) - x.units() * wanted) <= bound
            &&& 0x100_0000 * size(distance * (unit * q) - y.units() * wanted) <= bound
        }),
{
    let unit = pow2(149);
    let anchor = grapple.anchor;
    let offset = difference(position, anchor);
    let arm = scaled(grapple.direction(position), grapple.length);
    let pulled = grapple.pulled(position);
    let d = grapple.distance(position)->magnitude;
    let l = grapple.length->magnitude;
    let share = grapple.stiffness->magnitude;
    lemma2_to64();
    lemma_one();
    lemma_pow2_pos(149);
    lemma_pow2_adds(3, 272);
    lemma_pow2_monotone(24, 30);
    assert(anchor.0.negated().units() == -anchor.0.units());
    assert(anchor.1.negated().units() == -anchor.1.units());
    lemma_sum_near(position.0, anchor.0.negated(), 2 * reach);
    lemma_sum_near(position.1, anchor.1.negated(), 2 * reach);
    lemma_norm_unsigned(offset);
    lemma_norm_bound(offset);
    assert(grapple.distance(position).units() == d && grapple.length.units() == l);
    assert(l < d);
    assert(grapple.stiffness.units() == share && share <= unit);
    lemma_arm(offset, grapple.length);
    lemma_signed_square(arm.0);
    lemma_signed_square(arm.1);
    lemma_not_long(arm.0->magnitude, arm.1->magnitude, l);
    lemma_partly_pulled_coordinate(anchor.0, arm.0, position.0, grapple.stiffness, reach);
    lemma_partly_pulled_coordinate(anchor.1, arm.1, position.1, grapple.stiffness, reach);
    let p = pulled.0.units() - anchor.0.units();
    let q = pulled.1.units() - anchor.1.units();
    lemma_along_the_offset(unit, share, d, l, reach, offset.0.units(), arm.0.units(), p);
    lemma_along_the_offset(unit, share, d, l, reach, offset.1.units(), arm.1.units(), q);
}

/// A rope acts on what is really beyond its length, and only on that, but for one part in two to the
/// power 19 of the square of the length. This holds of active ropes from a thousandth on, and of
/// points whose offset can be measured.
pub proof fn law_rope_acts_beyond_its_length(
    grapple: Grapple,
    position: (Float, Float),
    velocity: (Float, Float),
)
    requires
        grapple.active,
        finite_number(grapple.length),
        Float::ratio(1, 1000).le(grapple.length),
        finite_vector((
            position.0.minus(grapple.anchor.0),
            position.1.minus(grapple.anchor.1),
        )),
    ensures
        ({
            let x = position.0.minus(grapple.anchor.0).units();
            let y = position.1.minus(grapple.anchor.1).units();
            let l = grapple.length->magnitude;
            let correction = grapple.correction(position, velocity);
            &&& 0x8_0000 * (x * x + y * y) > 0x8_0001 * (l * l) ==> correction.position is Some
                && correction.velocity is Some
            &&& 0x8_0000 * (x * x + y * y) < 0x7_ffff * (l * l) && grapple.distance(
                position,
            ) is Finite ==> correction.position is None && correction.velocity is None
        }),
{
    let offset = difference(position, grapple.anchor);
    let distance = grapple.distance(position);
    let l = grapple.length->magnitude;
    let unit = pow2(149);
    lemma_norm_unsigned(offset);
    lemma_thousandth();
    lemma_pow2_pos(139);
    lemma_signed_square(offset.0);
    lemma_signed_square(offset.1);
    assert(grapple.length.units() == l);
    if distance is Finite {
        let s = distance->magnitude;
        let small = pow2(139);
        assert(distance.units() == s);
        lemma_speed_measured(offset);
        lemma_length_measured(offset);
        lemma2_to64();
        lemma_pow2_adds(29, 149);
        lemma_pow2_adds(139, 139);
        lemma_pow2_monotone(178, 278);
        assert(l >= small);
        assert(small * small <= l * l) by (nonlinear_arith)
            requires
                0 <= small <= l,
        ;
        if s <= l {
            lemma_square_grows(s, l);
        } else {
            lemma_square_grows(l, s);
        }
    }
}

/// The size of a product.
pub(crate) proof fn lemma_size_of_product(a: int, b: int)
    ensures
        size(a * b) == size(a) * size(b),
{
    let (m, n) = (size(a) as int, size(b) as int);
    assert(a * b == m * n || a * b == -(m * n)) by (nonlinear_arith)
        requires
            m == a || m == -a,
            n == b || n == -b,
    ;
    assert(m * n >= 0) by (nonlinear_arith)
        requires
            m >= 0,
            n >= 0,
    ;
}

/// A product that is not too great is finite.
pub(crate) proof fn lemma_product_finite(a: Float, b: Float)
    requires
        a is Finite,
        b is Finite,
        size(a.units() * b.units()) <= pow2(149) * pow2(274),
    ensures
        a.times(b) is Finite,
        a.times(b)->magnitude <= pow2(274),
{
    let unit = pow2(149);
    let most = pow2(274);
    let wide = 2 * (a->magnitude * b->magnitude);
    lemma_pow2_pos(149);
    lemma_pow2_pos(274);
    lemma_size_of_product(a.units(), b.units());
    assert(size(a.units()) == a->magnitude && size(b.units()) == b->magnitude);
    lemma_pow2_adds(3, 274);
    lemma2_to64();
    lemma_power_representable(274);
    lemma_nearest_of_representable(most);
    lemma_fundamental_div_mod(wide as int, unit as int);
    lemma_mod_bound(wide as int, unit as int);
    let twice = wide / unit;
    let rest = wide % unit;
    assert(twice <= 2 * most && (twice == 2 * most ==> rest == 0)) by (nonlinear_arith)
        requires
            wide <= 2 * (unit * most),
            wide == unit * twice + rest,
            0 <= rest,
            unit > 0,
    ;
    lemma_nearest_keeps_order(twice, rest == 0, 2 * most, true);
}

/// The force of a spring, as it is rounded.
proof fn lemma_spring_force(unit: nat, k: int, w: int, h: int, f: int)
    requires
        0x100_0000 * size(h - w) <= size(w),
        0x100_0000 * size(unit * f + k * h) <= size(k * h) + 0x80_0000 * unit,
    ensures
        0x100_0000 * size(unit * f + k * w) <= 3 * size(k * w) + 0x80_0000 * unit,
{
    lemma_bound_scaled(k, size(k), h - w, size(w));
    lemma_size_of_product(k, w);
    assert(k * h == k * w + k * (h - w)) by (nonlinear_arith);
}

/// The force of a damper, as it is rounded.
proof fn lemma_damper_force(unit: nat, q: int, r: int, g: int, along: int, v: nat)
    requires
        unit > 0,
        0x100_0000 * size(unit * r - along) <= unit * (6 * v) + 0x200_0000 * unit,
        size(r) <= 3 * v + 2,
        0x100_0000 * size(unit * g + q * r) <= size(q * r) + 0x80_0000 * unit,
    ensures
        0x100_0000 * size((unit * unit) * g + q * along) <= 9 * (unit * (size(q) * v)) + 0x200_0002 * (
        unit * size(q)) + 0x80_0000 * (unit * unit),
        unit * size(g) <= 4 * (size(q) * v) + 3 * size(q) + unit,
{
    let uu = unit * unit;
    let qv = size(q) * v;
    let big = size(q);
    let uqv = unit * qv;
    let ubig = unit * big;
    lemma_size_of_product(q, r);
    assert(size(q) * size(r) <= 3 * qv + 2 * big) by (nonlinear_arith)
        requires
            size(r) <= 3 * v + 2,
            qv == size(q) * v,
            big == size(q),
    ;
    let e2 = unit * g + q * r;
    let e3 = unit * r - along;
    let b3 = unit * (6 * v) + 0x200_0000 * unit;
    lemma_bound_scaled(q, size(q), e3, b3);
    assert(size(q) * b3 == 6 * uqv + 0x200_0000 * ubig) by (nonlinear_arith)
        requires
            b3 == unit * (6 * v) + 0x200_0000 * unit,
            qv == size(q) * v,
            uqv == unit * qv,
            ubig == unit * big,
            big == size(q),
    ;
    let b2 = 3 * qv + 2 * big + 0x80_0000 * unit;
    lemma_bound_scaled(unit as int, unit, e2, b2);
    assert(unit * b2 == 3 * uqv + 2 * ubig + 0x80_0000 * uu) by (nonlinear_arith)
        requires
            b2 == 3 * qv + 2 * big + 0x80_0000 * unit,
            uqv == unit * qv,
            ubig == unit * big,
            uu == unit * unit,
    ;
    assert(unit * e2 == uu * g + unit * (q * r)) by (nonlinear_arith)
        requires
            e2 == unit * g + q * r,
            uu == unit * unit,
    ;
    assert(q * e3 == unit * (q * r) - q * along) by (nonlinear_arith)
        requires
            e3 == unit * r - along,
    ;
    lemma_size_of_product(unit as int, g);
}

/// The force along a link: how far the sum of spring and damper, as it is rounded, lies from the
/// exact one. `kw` and `q * along` are the exact forces; `f`, `g` and `t` count the units of the
/// rounded ones and of their sum.
proof fn lemma_force(
    unit: nat,
    kw: int,
    q: int,
    f: int,
    g: int,
    t: int,
    along: int,
    v: nat,
    m: nat,
)
    requires
        unit > 0,
        m == size(kw) + size(q) * (v + 0x40_0000) + 0x40_0000 * unit,
        0x100_0000 * size(unit * f + kw) <= 3 * size(kw) + 0x80_0000 * unit,
        0x100_0000 * size((unit * unit) * g + q * along) <= 9 * (unit * (size(q) * v)) + 0x200_0002 * (
        unit * size(q)) + 0x80_0000 * (unit * unit),
        unit * size(g) <= 4 * (size(q) * v) + 3 * size(q) + unit,
        size(along) <= 2 * (unit * v),
        0x100_0000 * size(t - (f + g)) <= size(f + g),
    ensures
        0x100_0000 * size((unit * unit) * t + (unit * kw + q * along)) <= 13 * (unit * m),
        unit * size(t) <= 3 * m,
{
    let uu = unit * unit;
    let n = size(kw);
    let big = size(q);
    let qv = big * v;
    let (un, uqv, ubig, um) = (unit * n, unit * qv, unit * big, unit * m);
    assert(big * (v + 0x40_0000) == qv + 0x40_0000 * big) by (nonlinear_arith)
        requires
            qv == big * v,
    ;
    assert(um == un + uqv + 0x40_0000 * ubig + 0x40_0000 * uu) by (nonlinear_arith)
        requires
            m == n + (qv + 0x40_0000 * big) + 0x40_0000 * unit,
            um == unit * m,
            un == unit * n,
            uqv == unit * qv,
            ubig == unit * big,
            uu == unit * unit,
    ;
    assert(uu > 0) by (nonlinear_arith)
        requires
            uu == unit * unit,
            unit > 0,
    ;
    let e1 = unit * f + kw;
    let b1 = 3 * n + 0x80_0000 * unit;
    lemma_bound_scaled(unit as int, unit, e1, b1);
    assert(unit * b1 == 3 * un + 0x80_0000 * uu) by (nonlinear_arith)
        requires
            b1 == 3 * n + 0x80_0000 * unit,
            un == unit * n,
            uu == unit * unit,
    ;
    assert(unit * e1 == uu * f + unit * kw) by (nonlinear_arith)
        requires
            e1 == unit * f + kw,
            uu == unit * unit,
    ;
    let e4 = t - (f + g);
    let z = size(f + g);
    lemma_bound_scaled(uu as int, uu, e4, z);
    lemma_size_of_product(unit as int, f);
    assert(unit * z <= unit * size(f) + unit * size(g)) by (nonlinear_arith)
        requires
            z <= size(f) + size(g),
            unit > 0,
    ;
    assert(unit * z <= 2 * n + 4 * qv + 3 * big + 2 * unit);
    assert(uu * z <= 2 * un + 4 * uqv + 3 * ubig + 2 * uu) by (nonlinear_arith)
        requires
            unit * z <= 2 * n + 4 * qv + 3 * big + 2 * unit,
            uu == unit * unit,
            un == unit * n,
            uqv == unit * qv,
            ubig == unit * big,
            unit > 0,
    ;
    assert(uu * e4 == uu * t - uu * f - uu * g) by (nonlinear_arith)
        requires
            e4 == t - (f + g),
    ;
    let target = uu * t + (unit * kw + q * along);
    assert(target == uu * e4 + unit * e1 + (uu * g + q * along));
    assert(0x100_0000 * size(target) <= 13 * um);
    lemma_size_of_product(q, along);
    assert(big * size(along) <= 2 * uqv) by (nonlinear_arith)
        requires
            size(along) <= 2 * (unit * v),
            qv == big * v,
            uqv == unit * qv,
            big >= 0,
    ;
    lemma_size_of_product(unit as int, kw);
    lemma_size_of_product(uu as int, t);
    assert(uu * size(t) <= 3 * um);
    assert(unit * size(t) <= 3 * m) by (nonlinear_arith)
        requires
            uu * size(t) <= 3 * um,
            um == unit * m,
            uu == unit * unit,
            unit > 0,
    ;
}

/// One component of an impulse, from the force along the link. `x` is the component of the offset
/// and `c` that of the direction; `a` and `b` are how far the direction is off.
proof fn lemma_impulse_component(
    unit: nat,
    s: nat,
    x: int,
    y: int,
    c: int,
    e: int,
    v0: int,
    v1: int,
    kw: int,
    q: int,
    t: int,
    i: int,
    m: nat,
)
    requires
        unit > 0,
        m == size(kw) + size(q) * (size(v0) + size(v1) + 0x40_0000) + 0x40_0000 * unit,
        size(c) <= 2 * unit,
        size(e) <= 2 * unit,
        size(x) <= 2 * s,
        0x40_0000 * size(s * c - x * unit) <= 3 * (s * unit),
        0x40_0000 * size(s * e - y * unit) <= 3 * (s * unit),
        0x100_0000 * size((unit * unit) * t + (unit * kw + q * (v0 * c + v1 * e))) <= 13 * (unit
            * m),
        unit * size(t) <= 3 * m,
        0x100_0000 * size(unit * i - c * t) <= size(c * t) + 0x80_0000 * unit,
    ensures
        0x2_0000 * size((unit * (s * s)) * i + x * (kw * s + q * (v0 * x + v1 * y))) <= (s * s) * m,
{
    let uu = unit * unit;
    let ss = s * s;
    let along = v0 * c + v1 * e;
    let z = unit * kw + q * along;
    let v = size(v0) + size(v1);
    let qv = size(q) * v;
    assert(size(q) * (v + 0x40_0000) >= qv) by (nonlinear_arith)
        requires
            qv == size(q) * v,
            size(q) >= 0,
    ;
    // the component against the exact force
    lemma_size_of_product(c, t);
    assert(size(c) * size(t) <= 6 * m) by (nonlinear_arith)
        requires
            size(c) <= 2 * unit,
            unit * size(t) <= 3 * m,
            size(t) >= 0,
    ;
    let e1 = unit * i - c * t;
    assert(0x100_0000 * size(e1) <= 8 * m);
    let e2 = uu * t + z;
    lemma_bound_scaled(uu as int, uu, e1, 8 * m);
    lemma_bound_scaled(c, 2 * unit, e2, 13 * (unit * m));
    let uum = uu * m;
    assert(uu * (8 * m) == 8 * uum && (2 * unit) * (13 * (unit * m)) == 26 * uum)
        by (nonlinear_arith)
        requires
            uum == uu * m,
            uu == unit * unit,
    ;
    let e3 = (uu * unit) * i + c * z;
    assert(uu * e1 == (uu * unit) * i - uu * (c * t)) by (nonlinear_arith)
        requires
            e1 == unit * i - c * t,
    ;
    assert(c * e2 == uu * (c * t) + c * z) by (nonlinear_arith)
        requires
            e2 == uu * t + z,
    ;
    assert(0x100_0000 * size(e3) <= 34 * uum);
    // the direction against the offset
    let a = s * c - x * unit;
    let b = s * e - y * unit;
    let su = s * unit;
    let turn = v0 * a + v1 * b;
    lemma_bound_scaled(v0, size(v0), a, 12 * su);
    lemma_bound_scaled(v1, size(v1), b, 12 * su);
    let sv = su * v;
    assert(size(v0) * (12 * su) + size(v1) * (12 * su) == 12 * sv) by (nonlinear_arith)
        requires
            sv == su * v,
            v == size(v0) + size(v1),
    ;
    assert(0x100_0000 * size(turn) <= 12 * sv);
    lemma_bound_scaled(q, size(q), turn, 12 * sv);
    let part = q * turn;
    let pb = size(q) * (12 * sv);
    let xu = x * unit;
    lemma_size_of_product(x, unit as int);
    assert(size(xu) <= 2 * su) by (nonlinear_arith)
        requires
            size(xu) == size(x) * unit,
            size(x) <= 2 * s,
            su == s * unit,
            unit > 0,
    ;
    lemma_bound_scaled(xu, 2 * su, part, pb);
    let sum = ss * uum;
    assert((2 * su) * pb <= 24 * sum) by (nonlinear_arith)
        requires
            pb == size(q) * (12 * sv),
            sv == su * v,
            su == s * unit,
            qv == size(q) * v,
            qv <= m,
            sum == ss * uum,
            uum == uu * m,
            uu == unit * unit,
            ss == s * s,
    ;
    // the exact force
    lemma_size_of_product(v0, c);
    lemma_size_of_product(v1, e);
    assert(size(v0) * size(c) + size(v1) * size(e) <= 2 * (unit * v)) by (nonlinear_arith)
        requires
            size(c) <= 2 * unit,
            size(e) <= 2 * unit,
            v == size(v0) + size(v1),
    ;
    lemma_size_of_product(q, along);
    lemma_size_of_product(unit as int, kw);
    assert(size(q) * size(along) <= 2 * (unit * qv)) by (nonlinear_arith)
        requires
            size(along) <= 2 * (unit * v),
            qv == size(q) * v,
            size(q) >= 0,
    ;
    assert(size(z) <= 2 * (unit * m)) by (nonlinear_arith)
        requires
            size(z) <= unit * size(kw) + 2 * (unit * qv),
            size(kw) + qv <= m,
            unit > 0,
    ;
    let sz = s * z;
    lemma_size_of_product(s as int, z);
    assert(size(sz) <= 2 * (su * m)) by (nonlinear_arith)
        requires
            size(sz) == s * size(z),
            size(z) <= 2 * (unit * m),
            su == s * unit,
            s >= 0,
    ;
    lemma_bound_scaled(sz, 2 * (su * m), a, 12 * su);
    assert((2 * (su * m)) * (12 * su) == 24 * sum) by (nonlinear_arith)
        requires
            su == s * unit,
            sum == ss * uum,
            uum == uu * m,
            uu == unit * unit,
            ss == s * s,
    ;
    // all together
    lemma_bound_scaled(ss as int, ss, e3, 34 * uum);
    assert(ss * (34 * uum) == 34 * sum) by (nonlinear_arith)
        requires
            sum == ss * uum,
    ;
    assert(uu > 0) by (nonlinear_arith)
        requires
            uu == unit * unit,
            unit > 0,
    ;
    let whole = kw * s + q * (v0 * x + v1 * y);
    lemma_offset_identity(unit, s, x, y, c, e, v0, v1, kw, q);
    let goal = (unit * ss) * i + x * whole;
    assert(uu * goal == ss * e3 - (sz * a + xu * part)) by {
        assert(uu * goal == ss * ((uu * unit) * i) + uu * (x * whole)) by (nonlinear_arith)
            requires
                goal == (unit * ss) * i + x * whole,
        ;
        assert(ss * e3 == ss * ((uu * unit) * i) + ss * (c * z)) by (nonlinear_arith)
            requires
                e3 == (uu * unit) * i + c * z,
        ;
    }
    assert(0x100_0000 * size(uu * goal) <= 128 * sum);
    lemma_size_of_product(uu as int, goal);
    assert(0x2_0000 * size(goal) <= ss * m) by (nonlinear_arith)
        requires
            0x100_0000 * (uu * size(goal)) <= 128 * sum,
            sum == ss * (uu * m),
            uu > 0,
    {
        assert(sum == uu * (ss * m));
    }
}

/// How the force along a direction that is a little off stands to the one along the offset itself.
proof fn lemma_offset_identity(
    unit: nat,
    s: nat,
    x: int,
    y: int,
    c: int,
    e: int,
    v0: int,
    v1: int,
    kw: int,
    q: int,
)
    ensures
        ({
            let a = s * c - x * unit;
            let b = s * e - y * unit;
            let z = unit * kw + q * (v0 * c + v1 * e);
            let whole = kw * s + q * (v0 * x + v1 * y);
            (s * s) * (c * z) == (unit * unit) * (x * whole) + ((s * z) * a + (x * unit) * (q * (v0
                * a + v1 * b)))
        }),
{
    let a = s * c - x * unit;
    let b = s * e - y * unit;
    let along = v0 * c + v1 * e;
    let z = unit * kw + q * along;
    let straight = v0 * x + v1 * y;
    let whole = kw * s + q * straight;
    let turn = v0 * a + v1 * b;
    let sz = s * z;
    let xu = x * unit;
    assert(s * along == unit * straight + turn) by {
        assert(s * along == v0 * (s * c) + v1 * (s * e)) by (nonlinear_arith)
            requires
                along == v0 * c + v1 * e,
        ;
        assert(v0 * (s * c) == v0 * (x * unit) + v0 * a) by (nonlinear_arith)
            requires
                a == s * c - x * unit,
        ;
        assert(v1 * (s * e) == v1 * (y * unit) + v1 * b) by (nonlinear_arith)
            requires
                b == s * e - y * unit,
        ;
        assert(v0 * (x * unit) + v1 * (y * unit) == unit * straight) by (nonlinear_arith)
            requires
                straight == v0 * x + v1 * y,
        ;
    }
    let qt = q * turn;
    assert(sz == unit * whole + qt) by {
        let sa = s * along;
        assert(sz == unit * (kw * s) + q * sa) by (nonlinear_arith)
            requires
                sz == s * z,
                z == unit * kw + q * along,
                sa == s * along,
        ;
        let us = unit * straight;
        assert(q * sa == q * us + qt) by (nonlinear_arith)
            requires
                sa == us + turn,
                qt == q * turn,
        ;
        assert(unit * whole == unit * (kw * s) + q * us) by (nonlinear_arith)
            requires
                whole == kw * s + q * straight,
                us == unit * straight,
        ;
    }
    let sc = s * c;
    assert((s * s) * (c * z) == sz * sc) by (nonlinear_arith)
        requires
            sz == s * z,
            sc == s * c,
    ;
    assert(sz * sc == sz * xu + sz * a) by (nonlinear_arith)
        requires
            sc == xu + a,
    ;
    let uw = unit * whole;
    assert(sz * xu == xu * uw + xu * qt) by (nonlinear_arith)
        requires
            sz == uw + qt,
    ;
    assert(xu * uw == (unit * unit) * (x * whole)) by (nonlinear_arith)
        requires
            xu == x * unit,
            uw == unit * whole,
    ;
}

/// What bounds the force of a link: the force of its spring, that of its damper on all of the
/// velocity, and a little for numbers that are very small. In units times two to the power 149.
pub open spec fn force_bound(spring: int, damping: int, velocity: (int, int)) -> nat {
    size(spring) + size(damping) * (size(velocity.0) + size(velocity.1) + 0x40_0000) + 0x40_0000
        * pow2(149)
}

/// The rounded spring of a link.
proof fn lemma_link_spring(distance: Float, rest_length: Float, stiffness: Float)
    requires
        distance is Finite,
        rest_length is Finite,
        stiffness is Finite,
        size(distance.units() - rest_length.units()) <= pow2(274),
        size(stiffness.units() * (distance.units() - rest_length.units())) <= pow2(149) * pow2(
            270,
        ),
    ensures
        ({
            let spring = stiffness.negated().times(distance.minus(rest_length));
            let kw = stiffness.units() * (distance.units() - rest_length.units());
            &&& spring is Finite
            &&& spring->magnitude <= pow2(274)
            &&& 0x100_0000 * size(pow2(149) * spring.units() + kw) <= 3 * size(kw) + 0x80_0000
                * pow2(149)
        }),
{
    let unit = pow2(149);
    let k = stiffness.units();
    let w = distance.units() - rest_length.units();
    assert(rest_length.negated().units() == -rest_length.units());
    assert(stiffness.negated().units() == -k);
    lemma2_to64();
    lemma_pow2_adds(1, 274);
    lemma_pow2_adds(4, 270);
    lemma_pow2_pos(270);
    lemma_sum_near(distance, rest_length.negated(), size(w));
    let stretch = distance.minus(rest_length);
    let h = stretch.units();
    assert((-k) * h == -(k * h)) by (nonlinear_arith);
    lemma_bound_scaled(k, size(k), h - w, size(w));
    lemma_size_of_product(k, w);
    assert(k * h == k * w + k * (h - w)) by (nonlinear_arith);
    let (a, b) = (pow2(270), pow2(274));
    assert(unit * b == 16 * (unit * a)) by (nonlinear_arith)
        requires
            b == 16 * a,
    ;
    lemma_product_finite(stiffness.negated(), stretch);
    lemma_product_near(stiffness.negated(), stretch);
    let f = stiffness.negated().times(stretch).units();
    lemma_spring_force(unit, k, w, h, f);
}

/// The rounded velocity along a direction.
pub(crate) proof fn lemma_link_motion(velocity: (Float, Float), direction: (Float, Float))
    requires
        velocity.0 is Finite,
        velocity.1 is Finite,
        direction.0 is Finite,
        direction.1 is Finite,
        size(velocity.0.units()) <= pow2(270),
        size(velocity.1.units()) <= pow2(270),
        size(direction.0.units()) <= 2 * pow2(149),
        size(direction.1.units()) <= 2 * pow2(149),
    ensures
        ({
            let radial = dot(velocity, direction);
            let (v, w) = (velocity.0.units(), velocity.1.units());
            let along = v * direction.0.units() + w * direction.1.units();
            let n = size(v) + size(w);
            &&& radial is Finite
            &&& 0x100_0000 * size(pow2(149) * radial.units() - along) <= pow2(149) * (6 * n)
                + 0x200_0000 * pow2(149)
            &&& size(radial.units()) <= 3 * n + 2
            &&& size(along) <= 2 * (pow2(149) * n)
        }),
{
    let unit = pow2(149);
    let (v, w) = (velocity.0.units(), velocity.1.units());
    let (c, d) = (direction.0.units(), direction.1.units());
    let (a, b) = (pow2(270), pow2(274));
    lemma2_to64();
    lemma_pow2_pos(149);
    lemma_pow2_adds(4, 270);
    lemma_pow2_adds(1, 274);
    lemma_size_of_product(v, c);
    lemma_size_of_product(w, d);
    assert(size(v) * size(c) <= unit * b && size(w) * size(d) <= unit * b) by (nonlinear_arith)
        requires
            size(v) <= a,
            size(w) <= a,
            size(c) <= 2 * unit,
            size(d) <= 2 * unit,
            b == 16 * a,
    ;
    lemma_product_finite(velocity.0, direction.0);
    lemma_product_finite(velocity.1, direction.1);
    lemma_sum_near(velocity.0.times(direction.0), velocity.1.times(direction.1), 2 * b);
    lemma_two_products(velocity.0, direction.0, velocity.1, direction.1);
    lemma_products_bounded(unit, c, v, d, w);
    assert(c * v == v * c && d * w == w * d) by (nonlinear_arith);
    let r = dot(velocity, direction).units();
    lemma_part_bounded(unit, c, v, d, w, r);
    let n = size(v) + size(w);
    assert(unit * (6 * n) == 3 * (2 * (unit * n))) by (nonlinear_arith);
}

/// The rounded force along a link.
proof fn lemma_link_force(
    distance: Float,
    rest_length: Float,
    stiffness: Float,
    damping: Float,
    velocity: (Float, Float),
    direction: (Float, Float),
)
    requires
        distance is Finite,
        rest_length is Finite,
        stiffness is Finite,
        damping is Finite,
        velocity.0 is Finite,
        velocity.1 is Finite,
        direction.0 is Finite,
        direction.1 is Finite,
        size(velocity.0.units()) <= pow2(270),
        size(velocity.1.units()) <= pow2(270),
        size(direction.0.units()) <= 2 * pow2(149),
        size(direction.1.units()) <= 2 * pow2(149),
        size(distance.units() - rest_length.units()) <= pow2(274),
        force_bound(
            stiffness.units() * (distance.units() - rest_length.units()),
            damping.units(),
            (velocity.0.units(), velocity.1.units()),
        ) <= pow2(149) * pow2(270),
    ensures
        ({
            let unit = pow2(149);
            let kw = stiffness.units() * (distance.units() - rest_length.units());
            let q = damping.units();
            let m = force_bound(kw, q, (velocity.0.units(), velocity.1.units()));
            let along = velocity.0.units() * direction.0.units() + velocity.1.units()
                * direction.1.units();
            let spring = stiffness.negated().times(distance.minus(rest_length));
            let damper = damping.negated().times(dot(velocity, direction));
            let total = spring.plus(damper);
            &&& total is Finite
            &&& 0x100_0000 * size((unit * unit) * total.units() + (unit * kw + q * along)) <= 13 * (
            unit * m)
            &&& unit * size(total.units()) <= 3 * m
        }),
{
    let unit = pow2(149);
    let kw = stiffness.units() * (distance.units() - rest_length.units());
    let q = damping.units();
    let (v, w) = (velocity.0.units(), velocity.1.units());
    let m = force_bound(kw, q, (v, w));
    let n = size(v) + size(w);
    let along = v * direction.0.units() + w * direction.1.units();
    let radial = dot(velocity, direction);
    let r = radial.units();
    let (a, b) = (pow2(270), pow2(274));
    lemma2_to64();
    lemma_pow2_pos(149);
    lemma_pow2_pos(270);
    lemma_pow2_adds(4, 270);
    lemma_pow2_adds(1, 274);
    let qv = size(q) * n;
    assert(size(q) * (n + 0x40_0000) == qv + 0x40_0000 * size(q)) by (nonlinear_arith)
        requires
            qv == size(q) * n,
    ;
    lemma_link_spring(distance, rest_length, stiffness);
    lemma_link_motion(velocity, direction);
    assert(damping.negated().units() == -q);
    assert((-q) * r == -(q * r)) by (nonlinear_arith);
    lemma_size_of_product(q, r);
    assert(size(q) * size(r) <= 3 * qv + 2 * size(q)) by (nonlinear_arith)
        requires
            size(r) <= 3 * n + 2,
            qv == size(q) * n,
    ;
    assert(unit * b == 16 * (unit * a)) by (nonlinear_arith)
        requires
            b == 16 * a,
    ;
    lemma_product_finite(damping.negated(), radial);
    lemma_product_near(damping.negated(), radial);
    let spring = stiffness.negated().times(distance.minus(rest_length));
    let damper = damping.negated().times(radial);
    let (f, g) = (spring.units(), damper.units());
    lemma_damper_force(unit, q, r, g, along, n);
    lemma_sum_near(spring, damper, 2 * b);
    lemma_sum_error(spring, damper);
    lemma_force(unit, kw, q, f, g, spring.plus(damper).units(), along, n, m);
}

/// The impulse of a link is its force along the line through the two points: against the stretch, in
/// the strength of the stiffness, and against the velocity along that line, in the strength of the
/// damping. Each component, times the square of the distance, is off by one part in two to the
/// power 17 of the greatest force at most. This holds wherever nothing overflows on the way.
pub proof fn law_impulse_is_the_force(
    pos_a: (Float, Float),
    pos_b: (Float, Float),
    rest_length: Float,
    stiffness: Float,
    damping: Float,
    vel_a: (Float, Float),
)
    requires
        finite_number(rest_length),
        finite_number(stiffness),
        finite_number(damping),
        finite_vector(vel_a),
        vel_a.0->magnitude <= pow2(270),
        vel_a.1->magnitude <= pow2(270),
        ({
            let x = pos_a.0.minus(pos_b.0);
            let y = pos_a.1.minus(pos_b.1);
            let distance = x.times(x).plus(y.times(y)).sqrt();
            let stretch = distance->magnitude - rest_length.units();
            &&& finite_vector((x, y))
            &&& distance is Finite
            &&& !distance.lt(Float::ratio(1, 1000))
            &&& size(stretch) <= pow2(274)
            &&& force_bound(
                stiffness.units() * stretch,
                damping.units(),
                (vel_a.0.units(), vel_a.1.units()),
            ) <= pow2(149) * pow2(270)
        }),
    ensures
        ({
            let unit = pow2(149);
            let dx = pos_a.0.minus(pos_b.0);
            let dy = pos_a.1.minus(pos_b.1);
            let distance = dx.times(dx).plus(dy.times(dy)).sqrt();
            let (x, y) = (dx.units(), dy.units());
            let d = distance->magnitude;
            let spring = stiffness.units() * (d - rest_length.units());
            let (v, w) = (vel_a.0.units(), vel_a.1.units());
            let force = spring * d + damping.units() * (v * x + w * y);
            let m = force_bound(spring, damping.units(), (v, w));
            let impulse = link_impulse(pos_a, pos_b, rest_length, stiffness, damping, vel_a);
            &&& impulse.0 is Finite && impulse.1 is Finite
            &&& 0x2_0000 * size((unit * (d * d)) * impulse.0.units() + x * force) <= (d * d) * m
            &&& 0x2_0000 * size((unit * (d * d)) * impulse.1.units() + y * force) <= (d * d) * m
        }),
{
    let unit = pow2(149);
    let offset = difference(pos_a, pos_b);
    let distance = norm(offset);
    let direction = shrunk(offset, distance);
    let (x, y) = (offset.0.units(), offset.1.units());
    let d = distance->magnitude;
    let (c, e) = (direction.0.units(), direction.1.units());
    let (v, w) = (vel_a.0.units(), vel_a.1.units());
    let q = damping.units();
    lemma_norm_unsigned(offset);
    assert(distance.units() == d);
    let kw = stiffness.units() * (d - rest_length.units());
    let m = force_bound(kw, q, (v, w));
    lemma2_to64();
    lemma_pow2_pos(149);
    lemma_direction_is_unit(offset);
    lemma_direction_near(offset);
    lemma_link_force(distance, rest_length, stiffness, damping, vel_a, direction);
    let spring = stiffness.negated().times(distance.minus(rest_length));
    let damper = damping.negated().times(dot(vel_a, direction));
    let total = spring.plus(damper);
    let t = total.units();
    lemma_impulse_finite(direction.0, total, m);
    lemma_impulse_finite(direction.1, total, m);
    lemma_product_near(direction.0, total);
    lemma_product_near(direction.1, total);
    let impulse = scaled(direction, total);
    assert(impulse == link_impulse(pos_a, pos_b, rest_length, stiffness, damping, vel_a));
    lemma_impulse_component(unit, d, x, y, c, e, v, w, kw, q, t, impulse.0.units(), m);
    assert(w * e + v * c == v * c + w * e && w * y + v * x == v * x + w * y);
    lemma_impulse_component(unit, d, y, x, e, c, w, v, kw, q, t, impulse.1.units(), m);
}

/// A component of a direction times a force that is not too great is finite.
proof fn lemma_impulse_finite(part: Float, total: Float, m: nat)
    requires
        part is Finite,
        total is Finite,
        size(part.units()) <= 2 * pow2(149),
        pow2(149) * size(total.units()) <= 3 * m,
        m <= pow2(149) * pow2(270),
    ensures
        part.times(total) is Finite,
{
    let unit = pow2(149);
    let (a, b) = (pow2(270), pow2(274));
    let (c, t) = (size(part.units()), size(total.units()));
    lemma2_to64();
    lemma_pow2_adds(4, 270);
    lemma_size_of_product(part.units(), total.units());
    assert(c * t <= unit * b) by (nonlinear_arith)
        requires
            c <= 2 * unit,
            unit * t <= 3 * m,
            m <= unit * a,
            b == 16 * a,
    ;
    lemma_product_finite(part, total);
}

/// The direction of a vector, against the vector itself.
pub(crate) proof fn lemma_direction_near(offset: (Float, Float))
    requires
        finite_vector(offset),
        norm(offset) is Finite,
        !norm(offset).lt(least_distance()),
    ensures
        ({
            let unit = pow2(149);
            let direction = shrunk(offset, norm(offset));
            let s = norm(offset)->magnitude;
            &&& 0x40_0000 * size(s * direction.0.units() - offset.0.units() * unit) <= 3 * (s * unit)
            &&& 0x40_0000 * size(s * direction.1.units() - offset.1.units() * unit) <= 3 * (s * unit)
            &&& size(offset.0.units()) <= 2 * s
            &&& size(offset.1.units()) <= 2 * s
        }),
{
    let direction = shrunk(offset, norm(offset));
    lemma_one();
    lemma_pow2_monotone(30, 149);
    lemma_pow2_monotone(149, 213);
    lemma_arm(offset, one());
    lemma_norm_unsigned(offset);
    lemma_operations_valid(offset.0, norm(offset));
    lemma_operations_valid(offset.1, norm(offset));
    lemma_times_one(direction.0);
    lemma_times_one(direction.1);
    lemma_signed_square(offset.0);
    lemma_signed_square(offset.1);
    lemma_not_far(offset.0->magnitude, offset.1->magnitude, norm(offset)->magnitude);
}

/// A spring is not without effect: on a point at rest, a link whose stiffness and stretch are not
/// zero has an impulse that is not zero, where its force is not below the normal numbers.
pub proof fn law_stretch_has_an_impulse(
    pos_a: (Float, Float),
    pos_b: (Float, Float),
    rest_length: Float,
    stiffness: Float,
    damping: Float,
    vel_a: (Float, Float),
)
    requires
        finite_number(rest_length),
        finite_number(stiffness),
        finite_number(damping),
        vel_a.0.is_zero(),
        vel_a.1.is_zero(),
        ({
            let x = pos_a.0.minus(pos_b.0);
            let y = pos_a.1.minus(pos_b.1);
            let distance = x.times(x).plus(y.times(y)).sqrt();
            let stretch = distance->magnitude - rest_length.units();
            &&& finite_vector((x, y))
            &&& distance is Finite
            &&& !distance.lt(Float::ratio(1, 1000))
            &&& size(stretch) <= pow2(274)
            &&& 0x80_0000 * pow2(149) <= size(stiffness.units() * stretch) <= pow2(149) * pow2(269)
        }),
    ensures
        ({
            let impulse = link_impulse(pos_a, pos_b, rest_length, stiffness, damping, vel_a);
            !impulse.0.is_zero() || !impulse.1.is_zero()
        }),
{
    let unit = pow2(149);
    let zero = Float::zero();
    let offset = difference(pos_a, pos_b);
    let distance = norm(offset);
    let (x, y) = (offset.0.units(), offset.1.units());
    let d = distance->magnitude;
    let kw = stiffness.units() * (d - rest_length.units());
    lemma_norm_unsigned(offset);
    lemma_pow2_pos(149);
    lemma_pow2_pos(269);
    lemma2_to64();
    lemma_pow2_adds(1, 269);
    lemma_operations_valid(distance, rest_length);
    lemma_damping_at_rest(pos_a, pos_b, rest_length, stiffness, damping, vel_a);
    lemma_thousandth();
    lemma_pow2_pos(139);
    lemma_one();
    assert(finite_number(zero)) by {
        lemma_minus_self(one());
        lemma_operations_valid(one(), one());
    }
    assert(vel_a.0.valid() && vel_a.1.valid());
    let m = force_bound(kw, 0, (0, 0));
    let (a, b) = (pow2(269), pow2(270));
    assert(m == size(kw) + 0x40_0000 * unit) by {
        let none = size(0);
        assert(none * (none + none + 0x40_0000) == 0) by (nonlinear_arith)
            requires
                none == 0,
        ;
    }
    assert(unit * b == unit * a + unit * a) by (nonlinear_arith)
        requires
            b == 2 * a,
    ;
    assert(0x40_0000 * unit <= unit * a) by (nonlinear_arith)
        requires
            0x80_0000 * unit <= unit * a,
            unit > 0,
    ;
    law_impulse_is_the_force(pos_a, pos_b, rest_length, stiffness, zero, vel_a);
    lemma_arm_of_offset(offset);
    let impulse = link_impulse(pos_a, pos_b, rest_length, stiffness, zero, vel_a);
    if impulse.0.is_zero() && impulse.1.is_zero() {
        let force = kw * d;
        let dd = d * d;
        assert(0 * x + 0 * y == 0 && 0 * (0 * x + 0 * y) == 0);
        assert((unit * dd) * 0 == 0) by (nonlinear_arith);
        lemma_size_of_product(x, force);
        lemma_size_of_product(y, force);
        lemma_size_of_product(kw, d as int);
        lemma_lost_is_small(size(x), d, size(kw), m);
        lemma_lost_is_small(size(y), d, size(kw), m);
        assert(dd > 0) by (nonlinear_arith)
            requires
                dd == d * d,
                d > 0,
        ;
    }
}

/// Measured lengths are near exact ones.
proof fn lemma_arm_of_offset(offset: (Float, Float))
    requires
        finite_vector(offset),
        norm(offset) is Finite,
        !norm(offset).lt(least_distance()),
    ensures
        ({
            let (x, y) = (size(offset.0.units()), size(offset.1.units()));
            let s = norm(offset)->magnitude;
            0x20_0002 * (x * x + y * y) >= 0x20_0000 * (s * s)
        }),
{
    lemma_one();
    lemma_pow2_monotone(30, 149);
    lemma_pow2_monotone(149, 213);
    lemma_arm(offset, one());
    lemma_signed_square(offset.0);
    lemma_signed_square(offset.1);
}

/// A component of a force that is lost is a small one.
proof fn lemma_lost_is_small(x: nat, d: nat, k: nat, m: nat)
    requires
        d > 0,
        k > 0,
        m <= 2 * k,
        0x2_0000 * (x * (k * d)) <= (d * d) * m,
    ensures
        4 * (x * x) <= d * d,
{
    let kd = k * d;
    assert((d * d) * m <= 2 * (d * kd) && kd > 0) by (nonlinear_arith)
        requires
            m <= 2 * k,
            kd == k * d,
            k > 0,
            d > 0,
    ;
    assert(0x1_0000 * x <= d) by (nonlinear_arith)
        requires
            0x2_0000 * (x * kd) <= 2 * (d * kd),
            kd > 0,
    ;
    assert(4 * (x * x) <= d * d) by (nonlinear_arith)
        requires
            0x1_0000 * x <= d,
    ;
}

/// On a point at rest the damping does not matter.
proof fn lemma_damping_at_rest(
    pos_a: (Float, Float),
    pos_b: (Float, Float),
    rest_length: Float,
    stiffness: Float,
    damping: Float,
    vel_a: (Float, Float),
)
    requires
        finite_vector(difference(pos_a, pos_b)),
        norm(difference(pos_a, pos_b)) is Finite,
        !norm(difference(pos_a, pos_b)).lt(least_distance()),
        damping is Finite,
        vel_a.0.is_zero(),
        vel_a.1.is_zero(),
    ensures
        ({
            let impulse = link_impulse(pos_a, pos_b, rest_length, stiffness, damping, vel_a);
            let other = link_impulse(pos_a, pos_b, rest_length, stiffness, Float::zero(), vel_a);
            same(impulse.0, other.0) && same(impulse.1, other.1)
        }),
{
    let offset = difference(pos_a, pos_b);
    let distance = norm(offset);
    let direction = shrunk(offset, distance);
    lemma_direction_finite(offset);
    lemma_times_zero(direction.0, vel_a.0);
    lemma_times_zero(direction.1, vel_a.1);
    let radial = dot(vel_a, direction);
    assert(radial.is_zero());
    lemma_times_zero(damping.negated(), radial);
    lemma_times_zero(Float::zero().negated(), radial);
    let spring = stiffness.negated().times(distance.minus(rest_length));
    let a = damping.negated().times(radial);
    let b = Float::zero().negated().times(radial);
    lemma_same_plus(spring, a, spring, b);
    lemma_same_times(direction.0, spring.plus(a), direction.0, spring.plus(b));
    lemma_same_times(direction.1, spring.plus(a), direction.1, spring.plus(b));
}

} // verus!
