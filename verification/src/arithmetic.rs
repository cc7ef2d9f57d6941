//! Facts about the arithmetic of single-precision numbers.

use crate::float::{
    decode, nearest, one_exponent, overflow_exponent, representable, round, size, spacing,
    whole_root, Float,
};
use crate::plane::{norm, shrunk};
use crate::rounding::{
    law_rounding_is_to_nearest, lemma_nearest_is_representable, lemma_nearest_keeps_order,
    lemma_nearest_of_representable,
    lemma_neighbours, lemma_on_grid, lemma_pow2_monotone, lemma_spacing_bounds, lemma_whole_root,
};
use vstd::arithmetic::div_mod::{
    lemma_div_is_ordered, lemma_fundamental_div_mod, lemma_fundamental_div_mod_converse,
    lemma_mod_bound,
};
use vstd::arithmetic::power2::{
    lemma2_to64, lemma_pow2_adds, lemma_pow2_pos, lemma_pow2_unfold, pow2,
};
use vstd::prelude::*;

verus! {

/// Every bit pattern has a value of the format.
pub proof fn law_bits_are_valid(bits: u32)
    ensures
        decode(bits).valid(),
{
    let exponent = (bits as nat / 0x80_0000) % 0x100;
    let fraction = bits as nat % 0x80_0000;
    lemma2_to64();
    lemma_pow2_monotone(24, 277);
    if exponent == 0 {
        assert(fraction < 0x100_0000 && fraction == fraction * pow2(0)) by (nonlinear_arith)
            requires
                fraction < 0x80_0000,
                pow2(0) == 1,
        ;
    } else if exponent < 0xff {
        let significand = 0x80_0000 + fraction;
        let e = (exponent - 1) as nat;
        let unit = pow2(e);
        lemma_pow2_adds(24, 253);
        lemma_pow2_monotone(e, 253);
        let most = pow2(253);
        assert(significand * unit < pow2(277)) by (nonlinear_arith)
            requires
                significand < 0x100_0000,
                0 < unit <= most,
                pow2(277) == 0x100_0000 * most,
        ;
        assert(significand < 0x100_0000 && significand * unit == significand * pow2(e));
    }
}

pub proof fn lemma_round_valid(negative: bool, twice: nat, exact: bool)
    ensures
        round(negative, twice, exact).valid(),
{
    if nearest(twice, exact) < pow2(overflow_exponent()) {
        lemma_nearest_is_representable(twice, exact);
    }
}

proof fn lemma_zero_representable()
    ensures
        representable(0),
{
    lemma_pow2_pos(277);
    lemma2_to64();
    let zero: nat = 0;
    assert(zero < 0x100_0000 && zero == zero * pow2(0)) by (nonlinear_arith)
        requires
            zero == 0,
    ;
}

/// Zero is zero, whatever its sign.
pub proof fn lemma_nearest_zero()
    ensures
        nearest(0, true) == 0,
        pow2(overflow_exponent()) > 0,
{
    lemma_zero_representable();
    lemma_nearest_of_representable(0);
    lemma_pow2_pos(277);
}

/// The arithmetic stays within the format.
pub proof fn lemma_operations_valid(a: Float, b: Float)
    requires
        a.valid(),
        b.valid(),
    ensures
        a.negated().valid(),
        a.plus(b).valid(),
        a.minus(b).valid(),
        a.times(b).valid(),
        a.over(b).valid(),
        a.sqrt().valid(),
{
    lemma_zero_representable();
    lemma_sum_valid(a, b);
    lemma_sum_valid(a, b.negated());
    if a is Finite && b is Finite {
        let p = 2 * (a->magnitude * b->magnitude);
        lemma_round_valid(
            a.is_negative() != b.is_negative(),
            p / pow2(one_exponent()),
            p % pow2(one_exponent()) == 0,
        );
        let q = 2 * (a->magnitude * pow2(one_exponent()));
        lemma_round_valid(
            a.is_negative() != b.is_negative(),
            q / b->magnitude,
            q % b->magnitude == 0,
        );
    }
    if a is Finite {
        let square = 4 * (a->magnitude * pow2(one_exponent()));
        let root = whole_root(square);
        lemma_round_valid(false, root, root * root == square);
    }
}

proof fn lemma_sum_valid(a: Float, b: Float)
    requires
        a.valid(),
        b.valid(),
    ensures
        a.plus(b).valid(),
{
    lemma_zero_representable();
    if a is Finite && b is Finite {
        let sum = a.units() + b.units();
        lemma_round_valid(sum < 0, 2 * size(sum), true);
    }
}

/// One is two to the power 149 units.
pub proof fn lemma_one()
    ensures
        Float::ratio(1, 1) == (Float::Finite { negative: false, magnitude: pow2(one_exponent()) }),
        Float::ratio(1, 1).valid(),
        pow2(one_exponent()) > 0,
{
    let unit = pow2(149);
    lemma2_to64();
    lemma_pow2_monotone(149, 276);
    lemma_pow2_unfold(277);
    let significand: nat = 1;
    assert(significand < 0x100_0000 && unit == significand * pow2(149));
    assert(representable(unit));
    lemma_nearest_of_representable(unit);
    assert((1 * unit) == unit);
    lemma_fundamental_div_mod_converse((2 * unit) as int, 1, (2 * unit) as int, 0);
}

/// A proper fraction lies from 0 to 1.
pub proof fn lemma_proper_fraction(numerator: nat, denominator: nat)
    requires
        numerator <= denominator,
        denominator > 0,
    ensures
        Float::ratio(numerator, denominator) is Finite,
        Float::ratio(numerator, denominator).valid(),
        Float::zero().le(Float::ratio(numerator, denominator)),
        Float::ratio(numerator, denominator).le(Float::ratio(1, 1)),
{
    let unit = pow2(149);
    let d = denominator;
    let wide = 2 * (numerator * unit);
    let twice = wide / d;
    let exact = wide % d == 0;
    lemma_one();
    lemma_pow2_monotone(149, 276);
    lemma_pow2_unfold(277);
    lemma_fundamental_div_mod(wide as int, d as int);
    lemma_mod_bound(wide as int, d as int);
    let rest = wide % d;
    assert(twice <= 2 * unit && (twice == 2 * unit ==> rest == 0)) by (nonlinear_arith)
        requires
            wide == 2 * (numerator * unit),
            wide == d * twice + rest,
            0 <= rest < d,
            numerator <= d,
            unit > 0,
    ;
    lemma_nearest_keeps_order(twice, exact, 2 * unit, true);
    lemma_nearest_of_representable(unit);
    lemma_round_valid(false, twice, exact);
}

/// Multiplying by one changes nothing.
pub proof fn lemma_times_one(x: Float)
    requires
        x.valid(),
    ensures
        x.times(Float::ratio(1, 1)) == x,
{
    lemma_one();
    lemma_pow2_pos(149);
    if x is Finite {
        let m = x->magnitude;
        let unit = pow2(149);
        assert(2 * (m * unit) == (2 * m) * unit) by (nonlinear_arith);
        lemma_fundamental_div_mod_converse((2 * (m * unit)) as int, unit as int, (2 * m) as int, 0);
        lemma_nearest_of_representable(m);
    }
}

/// A finite number multiplied by zero is zero.
pub proof fn lemma_times_zero(x: Float, zero: Float)
    requires
        x is Finite,
        zero.is_zero(),
    ensures
        x.times(zero).is_zero(),
        zero.times(x).is_zero(),
{
    let m = x->magnitude;
    assert(m * 0 == 0 && 0 * m == 0);
    lemma_pow2_pos(149);
    lemma_fundamental_div_mod_converse(0, pow2(149) as int, 0, 0);
    lemma_nearest_zero();
}

/// Adding zero changes no number, but for the sign of zero.
pub proof fn lemma_plus_zero(x: Float, zero: Float)
    requires
        x.valid(),
        zero.is_zero(),
    ensures
        !x.is_zero() ==> x.plus(zero) == x && zero.plus(x) == x,
        x.is_zero() ==> x.plus(zero).is_zero() && zero.plus(x).is_zero(),
{
    if x is Finite {
        lemma_nearest_of_representable(x->magnitude);
    }
}

/// A finite number less itself is zero.
pub proof fn lemma_minus_self(x: Float)
    requires
        x is Finite,
    ensures
        x.minus(x) == Float::zero(),
{
}

/// A factor of size one at most does not make a number greater.
pub proof fn lemma_times_at_most_one(x: Float, factor: Float)
    requires
        x.valid(),
        x is Finite,
        factor is Finite,
        factor->magnitude <= pow2(one_exponent()),
    ensures
        x.times(factor) is Finite,
        x.times(factor)->magnitude <= x->magnitude,
{
    let unit = pow2(149);
    let m = x->magnitude;
    let f = factor->magnitude;
    let wide = 2 * (m * f);
    lemma_pow2_pos(149);
    lemma_fundamental_div_mod(wide as int, unit as int);
    lemma_mod_bound(wide as int, unit as int);
    let twice = wide / unit;
    let rest = wide % unit;
    assert(twice <= 2 * m && (twice == 2 * m ==> rest == 0)) by (nonlinear_arith)
        requires
            wide == 2 * (m * f),
            wide == unit * twice + rest,
            0 <= rest,
            0 <= f <= unit,
            unit > 0,
            m >= 0,
    ;
    lemma_nearest_keeps_order(twice, rest == 0, 2 * m, true);
    lemma_nearest_of_representable(m);
}

/// A sum is off by at most one part in two to the power 24 of the exact one.
pub proof fn lemma_sum_error(a: Float, b: Float)
    requires
        a is Finite,
        b is Finite,
        a.plus(b) is Finite,
    ensures
        0x100_0000 * size(a.plus(b).units() - (a.units() + b.units())) <= size(
            a.units() + b.units(),
        ),
{
    let sum = a.units() + b.units();
    if sum != 0 {
        let twice = 2 * size(sum);
        let e = spacing(twice);
        let unit = pow2(e);
        let below = lemma_neighbours(twice);
        lemma_spacing_bounds(twice);
        lemma2_to64();
        assert((below + 1) * unit == below * unit + unit) by (nonlinear_arith);
        if e > 0 {
            lemma_pow2_adds(24, e);
        }
    }
}

/// Whether this is a number without the negative sign: zero, above it, or infinite.
pub open spec fn unsigned(x: Float) -> bool {
    x !is Nan && !x.is_negative()
}

/// A power of two within the range of the format is one of its numbers.
pub proof fn lemma_power_representable(exponent: nat)
    requires
        exponent < overflow_exponent(),
    ensures
        representable(pow2(exponent)),
{
    lemma_pow2_monotone(exponent, 276);
    lemma_pow2_unfold(277);
    lemma_pow2_pos(276);
    let significand: nat = 1;
    assert(significand < 0x100_0000 && pow2(exponent) == significand * pow2(exponent));
}

/// A square has no negative sign, and that of a number of size one or more is one or more.
pub proof fn lemma_square(x: Float)
    requires
        x.valid(),
        x is Finite,
    ensures
        unsigned(x.times(x)),
        x->magnitude >= pow2(one_exponent()) ==> Float::ratio(1, 1).le(x.times(x)),
{
    let unit = pow2(149);
    let m = x->magnitude;
    let wide = 2 * (m * m);
    lemma_one();
    lemma_pow2_pos(149);
    lemma_fundamental_div_mod(wide as int, unit as int);
    lemma_mod_bound(wide as int, unit as int);
    let twice = wide / unit;
    let rest = wide % unit;
    if m >= unit {
        assert(twice >= 2 * unit) by (nonlinear_arith)
            requires
                wide == 2 * (m * m),
                wide == unit * twice + rest,
                rest < unit,
                m >= unit,
                unit > 0,
        ;
        lemma_nearest_keeps_order(2 * unit, true, twice, rest == 0);
        lemma_power_representable(149);
        lemma_nearest_of_representable(unit);
    }
}

/// A sum of numbers without the negative sign has none either, and is not below them.
pub proof fn lemma_unsigned_sum(a: Float, b: Float)
    requires
        a.valid(),
        b.valid(),
        unsigned(a),
        unsigned(b),
    ensures
        unsigned(a.plus(b)),
        a.le(a.plus(b)),
        b.le(a.plus(b)),
{
    if a is Finite && b is Finite {
        let ma = a->magnitude;
        let mb = b->magnitude;
        if ma + mb > 0 {
            lemma_nearest_keeps_order(2 * ma, true, 2 * (ma + mb), true);
            lemma_nearest_keeps_order(2 * mb, true, 2 * (ma + mb), true);
            lemma_nearest_of_representable(ma);
            lemma_nearest_of_representable(mb);
        }
    }
}

/// The root of a number without the negative sign has none either, and that of one or more is one
/// or more.
pub proof fn lemma_unsigned_root(x: Float)
    requires
        x.valid(),
        unsigned(x),
    ensures
        unsigned(x.sqrt()),
        Float::ratio(1, 1).le(x) ==> Float::ratio(1, 1).le(x.sqrt()),
{
    lemma_one();
    lemma_pow2_pos(149);
    if x is Finite && Float::ratio(1, 1).le(x) {
        let unit = pow2(149);
        let m = x->magnitude;
        let square = 4 * (m * unit);
        let root = whole_root(square);
        lemma_whole_root(square);
        assert(square >= (2 * unit) * (2 * unit)) by (nonlinear_arith)
            requires
                square == 4 * (m * unit),
                m >= unit,
                unit > 0,
        ;
        assert(root >= 2 * unit) by (nonlinear_arith)
            requires
                square < (root + 1) * (root + 1),
                square >= (2 * unit) * (2 * unit),
                root >= 0,
                unit > 0,
        ;
        lemma_nearest_keeps_order(2 * unit, true, root, root * root == square);
        lemma_power_representable(149);
        lemma_nearest_of_representable(unit);
    }
}

/// Dividing by one or more makes no number greater.
pub proof fn lemma_over_at_least_one(x: Float, divisor: Float)
    requires
        x.valid(),
        x is Finite,
        Float::ratio(1, 1).le(divisor),
    ensures
        x.over(divisor) is Finite,
        x.over(divisor)->magnitude <= x->magnitude,
{
    lemma_one();
    if divisor is Finite {
        let unit = pow2(149);
        let m = x->magnitude;
        let d = divisor->magnitude;
        let wide = 2 * (m * unit);
        lemma_pow2_pos(149);
        assert(d >= unit);
        lemma_fundamental_div_mod(wide as int, d as int);
        lemma_mod_bound(wide as int, d as int);
        let twice = wide / d;
        let rest = wide % d;
        assert(twice <= 2 * m && (twice == 2 * m ==> rest == 0)) by (nonlinear_arith)
            requires
                wide == 2 * (m * unit),
                wide == d * twice + rest,
                0 <= rest,
                d >= unit,
                unit > 0,
                m >= 0,
        ;
        lemma_nearest_keeps_order(twice, rest == 0, 2 * m, true);
        lemma_nearest_of_representable(m);
    }
}

/// A thousandth is more than one part in 1024.
pub proof fn lemma_thousandth()
    ensures
        Float::ratio(1, 1000) is Finite,
        Float::ratio(1, 1000)->magnitude >= pow2(139),
        !Float::ratio(1, 1000).is_negative(),
        pow2(one_exponent()) == 1024 * pow2(139),
{
    let unit = pow2(149);
    let small = pow2(139);
    lemma2_to64();
    lemma_pow2_adds(10, 139);
    lemma_pow2_pos(139);
    lemma_proper_fraction(1, 1000);
    let wide = 2 * (1 * unit);
    lemma_fundamental_div_mod(wide as int, 1000);
    lemma_mod_bound(wide as int, 1000);
    let twice = wide / 1000;
    assert(twice >= 2 * small);
    lemma_nearest_keeps_order(2 * small, true, twice, wide % 1000 == 0);
    lemma_power_representable(139);
    lemma_nearest_of_representable(small);
}

/// A number below one, divided by a thousandth or more, stays finite.
proof fn lemma_over_thousandth(x: Float, divisor: Float)
    requires
        x.valid(),
        x is Finite,
        x->magnitude < pow2(one_exponent()),
        Float::ratio(1, 1000).le(divisor),
    ensures
        x.over(divisor) is Finite,
{
    lemma_thousandth();
    if divisor is Finite {
        let unit = pow2(149);
        let small = pow2(139);
        let m = x->magnitude;
        let d = divisor->magnitude;
        let wide = 2 * (m * unit);
        lemma_pow2_pos(139);
        lemma_fundamental_div_mod(wide as int, d as int);
        lemma_mod_bound(wide as int, d as int);
        let twice = wide / d;
        let rest = wide % d;
        assert(twice <= 2 * (1024 * unit)) by (nonlinear_arith)
            requires
                wide == 2 * (m * unit),
                wide == d * twice + rest,
                0 <= rest,
                d >= small,
                unit == 1024 * small,
                small > 0,
                0 <= m < unit,
        ;
        lemma2_to64();
        lemma_pow2_adds(10, 149);
        lemma_nearest_keeps_order(twice, rest == 0, 2 * pow2(159) + 1, true);
        lemma_pow2_unfold(160);
        lemma_nearest_keeps_order(2 * pow2(159) + 1, true, 2 * pow2(160), true);
        lemma_power_representable(160);
        lemma_nearest_of_representable(pow2(160));
        lemma_pow2_monotone(161, 277);
        lemma_pow2_unfold(161);
    }
}

/// The length of a vector with finite components is a number without the negative sign.
pub proof fn lemma_norm_unsigned(v: (Float, Float))
    requires
        v.0.valid(),
        v.1.valid(),
        v.0 is Finite,
        v.1 is Finite,
    ensures
        unsigned(norm(v)),
        norm(v).valid(),
        v.0->magnitude >= pow2(one_exponent()) ==> Float::ratio(1, 1).le(norm(v)),
        v.1->magnitude >= pow2(one_exponent()) ==> Float::ratio(1, 1).le(norm(v)),
{
    let a = v.0.times(v.0);
    let b = v.1.times(v.1);
    lemma_operations_valid(v.0, v.0);
    lemma_operations_valid(v.1, v.1);
    lemma_operations_valid(a, b);
    lemma_operations_valid(a.plus(b), a.plus(b));
    lemma_square(v.0);
    lemma_square(v.1);
    lemma_unsigned_sum(a, b);
    lemma_unsigned_root(a.plus(b));
    lemma_one();
    lemma_le_transitive(Float::ratio(1, 1), a, a.plus(b));
    lemma_le_transitive(Float::ratio(1, 1), b, a.plus(b));
}

/// The order is transitive.
pub proof fn lemma_le_transitive(a: Float, b: Float, c: Float)
    ensures
        a.le(b) && b.le(c) ==> a.le(c),
        a.lt(b) && b.le(c) ==> a.lt(c),
        a.le(b) && b.lt(c) ==> a.lt(c),
{
}

/// The direction of a vector with finite components that is not too short is finite.
pub proof fn lemma_direction_finite(v: (Float, Float))
    requires
        v.0.valid(),
        v.1.valid(),
        v.0 is Finite,
        v.1 is Finite,
        !norm(v).lt(Float::ratio(1, 1000)),
    ensures
        shrunk(v, norm(v)).0 is Finite,
        shrunk(v, norm(v)).1 is Finite,
        shrunk(v, norm(v)).0.valid(),
        shrunk(v, norm(v)).1.valid(),
{
    let d = norm(v);
    lemma_norm_unsigned(v);
    lemma_thousandth();
    lemma_operations_valid(v.0, d);
    lemma_operations_valid(v.1, d);
    if v.0->magnitude >= pow2(one_exponent()) {
        lemma_over_at_least_one(v.0, d);
    } else {
        lemma_over_thousandth(v.0, d);
    }
    if v.1->magnitude >= pow2(one_exponent()) {
        lemma_over_at_least_one(v.1, d);
    } else {
        lemma_over_thousandth(v.1, d);
    }
}

/// The sign of the difference of two finite numbers tells which of them is greater.
pub proof fn lemma_difference_sign(a: Float, b: Float)
    requires
        a is Finite,
        b is Finite,
    ensures
        a.lt(b) ==> a.minus(b).is_negative(),
        b.lt(a) ==> !a.minus(b).is_negative(),
{
    assert(b.negated().units() == -b.units());
}

/// A number divided by a greater one gives one at most.
pub proof fn lemma_over_greater(a: Float, b: Float)
    requires
        Float::zero().le(a),
        a.lt(b),
    ensures
        a.over(b) is Finite,
        a.over(b)->magnitude <= pow2(one_exponent()),
{
    lemma_pow2_pos(149);
    if b is Finite {
        let unit = pow2(149);
        let m = a->magnitude;
        let d = b->magnitude;
        let wide = 2 * (m * unit);
        assert(a.units() == m && b.units() == d);
        lemma_fundamental_div_mod(wide as int, d as int);
        lemma_mod_bound(wide as int, d as int);
        let twice = wide / d;
        let rest = wide % d;
        assert(twice < 2 * unit) by (nonlinear_arith)
            requires
                wide == 2 * (m * unit),
                wide == d * twice + rest,
                0 <= rest,
                0 <= m < d,
                unit > 0,
        ;
        lemma_nearest_keeps_order(twice, rest == 0, 2 * unit, true);
        lemma_power_representable(149);
        lemma_nearest_of_representable(unit);
        lemma_pow2_monotone(149, 276);
        lemma_pow2_unfold(277);
    }
}

/// Adding keeps order.
pub proof fn lemma_plus_keeps_order(x: Float, a: Float, b: Float)
    requires
        x is Finite,
        a is Finite,
        b is Finite,
        a.units() <= b.units(),
    ensures
        x.plus(a).le(x.plus(b)),
{
    let low = x.units() + a.units();
    let high = x.units() + b.units();
    if low > 0 {
        lemma_nearest_keeps_order(2 * size(low), true, 2 * size(high), true);
    } else if high < 0 {
        lemma_nearest_keeps_order(2 * size(high), true, 2 * size(low), true);
    }
}

/// Multiplying by a factor that is not smaller does not give a smaller size.
pub proof fn lemma_times_keeps_order(x: Float, a: Float, b: Float)
    requires
        x is Finite,
        a is Finite,
        b is Finite,
        a->magnitude <= b->magnitude,
        x.times(b) is Finite,
    ensures
        x.times(a) is Finite,
        x.times(a)->magnitude <= x.times(b)->magnitude,
{
    let unit = pow2(149);
    let m = x->magnitude;
    let wide_a = 2 * (m * a->magnitude);
    let wide_b = 2 * (m * b->magnitude);
    lemma_pow2_pos(149);
    let (f, g) = (a->magnitude, b->magnitude);
    assert(m * f <= m * g) by (nonlinear_arith)
        requires
            f <= g,
            0 <= m,
    ;
    lemma_div_is_ordered(wide_a as int, wide_b as int, unit as int);
    lemma_fundamental_div_mod(wide_a as int, unit as int);
    lemma_fundamental_div_mod(wide_b as int, unit as int);
    lemma_mod_bound(wide_a as int, unit as int);
    lemma_nearest_keeps_order(
        wide_a / unit,
        wide_a % unit == 0,
        wide_b / unit,
        wide_b % unit == 0,
    );
}

/// One less a number from 0 to 1 lies from 0 to 1.
pub proof fn lemma_rest_of_one(x: Float)
    requires
        Float::zero().le(x),
        x.le(Float::ratio(1, 1)),
    ensures
        ({
            let rest = Float::ratio(1, 1).minus(x);
            rest is Finite && !rest.is_negative() && rest->magnitude <= pow2(one_exponent())
        }),
{
    let one = Float::ratio(1, 1);
    lemma_one();
    lemma_plus_keeps_order(one, x.negated(), Float::zero());
    lemma_plus_zero(one, Float::zero());
    assert(!one.is_zero());
}

/// Whether two numbers are the same, but for the sign of zero.
pub open spec fn same(a: Float, b: Float) -> bool {
    a == b || (a.is_zero() && b.is_zero())
}

/// Sums of the same numbers are the same, and sums of opposite numbers are opposite.
pub proof fn lemma_same_plus(a: Float, b: Float, c: Float, d: Float)
    ensures
        same(a, c) && same(b, d) ==> same(a.plus(b), c.plus(d)),
        same(a, c.negated()) && same(b, d.negated()) ==> same(a.plus(b), c.plus(d).negated()),
{
}

/// Products of the same numbers are the same.
pub proof fn lemma_same_times(a: Float, b: Float, c: Float, d: Float)
    requires
        same(a, c),
        same(b, d),
    ensures
        same(a.times(b), c.times(d)),
{
    if a.is_zero() && b is Finite {
        lemma_times_zero(b, a);
        lemma_times_zero(d, c);
    } else if b.is_zero() && a is Finite {
        lemma_times_zero(a, b);
        lemma_times_zero(c, d);
    }
}

/// A factor with the other sign gives a product with the other sign, and so does a dividend.
pub proof fn lemma_negated_factor(a: Float, b: Float)
    ensures
        a.negated().times(b) == a.times(b).negated(),
        a.times(b.negated()) == a.times(b).negated(),
        a.negated().over(b) == a.over(b).negated(),
{
}

/// The same numbers, or opposite ones, have the same square.
pub proof fn lemma_same_square(a: Float, b: Float)
    requires
        same(a, b) || same(a, b.negated()),
    ensures
        a.times(a) == b.times(b),
{
}

/// The same numbers, divided by one that is not zero, are the same.
pub proof fn lemma_same_over(a: Float, b: Float, divisor: Float)
    requires
        same(a, b),
        !divisor.is_zero(),
    ensures
        same(a.over(divisor), b.over(divisor)),
{
    if a.is_zero() && divisor is Finite {
        let d = divisor->magnitude;
        let unit = pow2(149);
        lemma_nearest_zero();
        assert(0 * unit == 0);
        lemma_fundamental_div_mod_converse(0, d as int, 0, 0);
    }
}

/// Whether `n` is the number of the format that a fraction is rounded to, as far as a number with
/// `significand` and `exponent` can tell: that one is not nearer, and if it is as near then `n` is
/// the even one, a multiple of twice what they are apart.
pub open spec fn nearest_to(
    n: int,
    numerator: int,
    denominator: nat,
    significand: int,
    exponent: nat,
) -> bool {
    let other = significand * pow2(exponent);
    let gap = size(n - other);
    &&& size(n * denominator - numerator) <= size(other * denominator - numerator)
    &&& size(n * denominator - numerator) == size(other * denominator - numerator) && gap > 0
        ==> size(n) % (2 * gap) == 0
}

/// What is not below the numbers of the format, and not above them: a number with 24 significant
/// bits that is less than two to the power 277 is at most the greatest one.
proof fn lemma_greatest(significand: nat, exponent: nat)
    requires
        significand < 0x100_0000,
        significand * pow2(exponent) < pow2(277),
    ensures
        significand * pow2(exponent) <= 0xff_ffff * pow2(253),
{
    let top = pow2(253);
    lemma2_to64();
    lemma_pow2_adds(24, 253);
    if exponent <= 253 {
        lemma_pow2_monotone(exponent, 253);
        let unit = pow2(exponent);
        assert(significand * unit <= 0xff_ffff * top) by (nonlinear_arith)
            requires
                significand <= 0xff_ffff,
                0 < unit <= top,
        ;
    } else {
        let shift = (exponent - 253) as nat;
        lemma_pow2_adds(shift, 253);
        let part = pow2(shift);
        let count = significand * part;
        assert(significand * (part * top) == count * top) by (nonlinear_arith)
            requires
                count == significand * part,
        ;
        lemma_pow2_pos(253);
        assert(count < 0x100_0000) by (nonlinear_arith)
            requires
                count * top < 0x100_0000 * top,
                top > 0,
        ;
        assert(count * top <= 0xff_ffff * top) by (nonlinear_arith)
            requires
                count <= 0xff_ffff,
                top > 0,
        ;
    }
}

/// What rounding makes of a fraction, in full.
proof fn lemma_fraction_rounded(
    numerator: nat,
    denominator: nat,
    significand: nat,
    exponent: nat,
)
    requires
        denominator > 0,
        significand < 0x100_0000,
    ensures
        ({
            let n = nearest(
                2 * numerator / denominator,
                (2 * numerator) % denominator == 0,
            );
            &&& nearest_to(n as int, numerator as int, denominator, significand as int, exponent)
            &&& n >= pow2(277) <==> numerator >= (pow2(277) - pow2(252)) * denominator
        }),
{
    let wide = 2 * numerator;
    let d = denominator;
    let twice = wide / d;
    let rest = wide % d;
    let exact = rest == 0;
    let n = nearest(twice, exact);
    let other = significand * pow2(exponent);
    lemma_fundamental_div_mod(wide as int, d as int);
    lemma_mod_bound(wide as int, d as int);
    law_rounding_is_to_nearest(twice, exact, significand, exponent);
    lemma_nearer(n, other, numerator, d, twice, rest);
    // the end of the format
    let top = pow2(253);
    lemma2_to64();
    lemma_pow2_adds(24, 253);
    lemma_pow2_adds(1, 252);
    lemma_pow2_adds(23, 254);
    lemma_pow2_adds(1, 253);
    lemma_pow2_pos(252);
    let half = pow2(252);
    let edge = (pow2(277) - half) as nat;
    if n < pow2(277) {
        lemma_nearest_is_representable(twice, exact);
        let (m, e) = choose|m: nat, e: nat| m < 0x100_0000 && n == #[trigger] (m * pow2(e));
        lemma_greatest(m, e);
        law_rounding_is_to_nearest(twice, exact, 0x80_0000, 254);
        let above = 0x80_0000nat * pow2(254);
        assert(above == pow2(277));
        lemma_nearer(n, above, numerator, d, twice, rest);
        lemma_below_the_edge(n, numerator, d, top, half);
    } else {
        law_rounding_is_to_nearest(twice, exact, 0xff_ffff, 253);
        let below = 0xff_ffffnat * top;
        lemma_nearer(n, below, numerator, d, twice, rest);
        lemma_above_the_edge(n, numerator, d, top, half);
    }
}

/// A number that is rounded to one of the format is below the edge.
proof fn lemma_below_the_edge(n: nat, numerator: nat, d: nat, top: nat, half: nat)
    requires
        d > 0,
        top == 2 * half,
        half > 0,
        n <= 0xff_ffff * top,
        ({
            let above = 0x100_0000 * top;
            let gap = size(n - above);
            &&& size(n * d - numerator) <= size(above * d - numerator)
            &&& size(n * d - numerator) == size(above * d - numerator) && gap > 0 ==> n % (2 * gap)
                == 0
        }),
    ensures
        numerator < (0x100_0000 * top - half) * d,
{
    let above = 0x100_0000 * top;
    let low = 0xff_ffff * top;
    let (ad, nd, ld, hd) = (above * d, n * d, low * d, half * d);
    assert(ad == ld + 2 * hd && nd <= ld && hd > 0 && (above - half) * d == ad - hd)
        by (nonlinear_arith)
        requires
            ad == above * d,
            nd == n * d,
            ld == low * d,
            hd == half * d,
            n <= low,
            above == low + 2 * half,
            d > 0,
            half > 0,
    ;
    if numerator >= ad - hd {
        assert(nd == ld);
        assert(n == low) by (nonlinear_arith)
            requires
                n * d == low * d,
                d > 0,
        ;
        let gap = size(n - above);
        assert(gap == top);
        let count: nat = 0x7f_ffff;
        assert(n == (2 * gap) * count + gap) by (nonlinear_arith)
            requires
                n == 0xff_ffff * gap,
                count == 0x7f_ffff,
        ;
        lemma_fundamental_div_mod_converse(n as int, (2 * gap) as int, count as int, gap as int);
    }
}

/// A number that is rounded beyond the format is not below the edge.
proof fn lemma_above_the_edge(n: nat, numerator: nat, d: nat, top: nat, half: nat)
    requires
        d > 0,
        top == 2 * half,
        half > 0,
        n >= 0x100_0000 * top,
        size(n * d - numerator) <= size((0xff_ffff * top) * d - numerator),
    ensures
        numerator >= (0x100_0000 * top - half) * d,
{
    let above = 0x100_0000 * top;
    let low = 0xff_ffff * top;
    let (ad, nd, ld, hd) = (above * d, n * d, low * d, half * d);
    assert(ad == ld + 2 * hd && nd >= ad && hd > 0 && (above - half) * d == ad - hd)
        by (nonlinear_arith)
        requires
            ad == above * d,
            nd == n * d,
            ld == low * d,
            hd == half * d,
            n >= above,
            above == low + 2 * half,
            d > 0,
            half > 0,
    ;
}

/// A comparison with the doubled whole part of a fraction decides one with the fraction.
proof fn lemma_nearer(n: nat, other: nat, numerator: nat, d: nat, twice: nat, rest: nat)
    requires
        d > 0,
        2 * numerator == d * twice + rest,
        rest < d,
        ({
            let aim: int = 2 * twice + (if rest == 0 {
                0int
            } else {
                1int
            });
            size(4 * n - aim) <= size(4 * other - aim)
        }),
    ensures
        size(n * d - numerator) <= size(other * d - numerator),
        size(n * d - numerator) == size(other * d - numerator) && n != other ==> ({
            let aim: int = 2 * twice + (if rest == 0 {
                0int
            } else {
                1int
            });
            size(4 * n - aim) == size(4 * other - aim)
        }),
{
    let (nd, od, td) = (n * d, other * d, d * twice);
    let sum = n + other;
    let sd = sum * d;
    assert(sd == nd + od) by (nonlinear_arith)
        requires
            sd == sum * d,
            sum == n + other,
            nd == n * d,
            od == other * d,
    ;
    assert(n < other ==> nd < od) by (nonlinear_arith)
        requires
            nd == n * d,
            od == other * d,
            d > 0,
    ;
    assert(other < n ==> od < nd) by (nonlinear_arith)
        requires
            nd == n * d,
            od == other * d,
            d > 0,
    ;
    assert(twice < sum ==> td + d <= sd) by (nonlinear_arith)
        requires
            td == d * twice,
            sd == sum * d,
            d > 0,
    ;
    assert(twice > sum ==> td >= sd + d) by (nonlinear_arith)
        requires
            td == d * twice,
            sd == sum * d,
            d > 0,
    ;
    assert(twice == sum ==> td == sd) by (nonlinear_arith)
        requires
            td == d * twice,
            sd == sum * d,
    ;
}

/// A sum of two numbers is the number of the format that is nearest to the exact sum, the even one
/// of two. It is infinite just where the exact sum is beyond the greatest number by half of the last
/// spacing or more. A sum that is zero is negative only where both numbers are.
pub proof fn law_sum_is_nearest(a: Float, b: Float, significand: int, exponent: nat)
    requires
        a is Finite,
        b is Finite,
        -0x100_0000 < significand < 0x100_0000,
    ensures
        ({
            let exact = a.units() + b.units();
            let sum = a.plus(b);
            &&& sum is Infinite <==> size(exact) >= pow2(277) - pow2(252)
            &&& sum !is Infinite ==> sum is Finite && nearest_to(
                sum.units(),
                exact,
                1,
                significand,
                exponent,
            )
            &&& exact != 0 ==> sum.is_negative() == (exact < 0)
            &&& exact == 0 ==> sum.is_negative() == (a.is_negative() && b.is_negative())
            &&& sum is Finite ==> exists|m: nat, e: nat|
                m < 0x100_0000 && sum->magnitude == #[trigger] (m * pow2(e))
        }),
{
    let exact = a.units() + b.units();
    let sum = a.plus(b);
    let n = size(exact);
    let m = size(significand);
    lemma_fraction_rounded(n, 1, m, exponent);
    lemma_fundamental_div_mod_converse((2 * n) as int, 1, (2 * n) as int, 0);
    lemma_pow2_pos(252);
    lemma_edge();
    if exact == 0 {
        lemma_zero_representable();
    } else {
        lemma_round_valid(exact < 0, 2 * n, true);
        if sum is Finite {
            lemma_signed_nearest(sum->magnitude, n, 1, exact < 0, significand, exponent);
        }
    }
    if exact == 0 {
        let other = significand * pow2(exponent);
        assert(0 * 1 == 0);
    }
}

/// The edge of the format is above zero.
proof fn lemma_edge()
    ensures
        pow2(277) - pow2(252) > 0,
{
    lemma_pow2_adds(25, 252);
    lemma_pow2_pos(252);
    lemma2_to64();
}

/// Being nearest does not depend on the sign, and a number with the other sign is not nearer.
proof fn lemma_signed_nearest(
    n: nat,
    numerator: nat,
    d: nat,
    negative: bool,
    significand: int,
    exponent: nat,
)
    requires
        d > 0,
        numerator == 0 ==> n == 0,
        nearest_to(n as int, numerator as int, d, size(significand) as int, exponent),
    ensures
        nearest_to(
            if negative {
                -n
            } else {
                n as int
            },
            if negative {
                -numerator
            } else {
                numerator as int
            },
            d,
            significand,
            exponent,
        ),
{
    let place = pow2(exponent);
    let m = size(significand);
    let other = significand * place;
    let plain = m * place;
    lemma_pow2_pos(exponent);
    assert(other == plain || other == -plain) by (nonlinear_arith)
        requires
            other == significand * place,
            plain == m * place,
            m == significand || m == -significand,
    ;
    let (nd, pd, od) = (n * d, plain * d, other * d);
    assert((-n) * d == -nd) by (nonlinear_arith)
        requires
            nd == n * d,
    ;
    assert(nd >= 0 && pd >= 0 && plain >= 0 && (other == plain ==> od == pd) && (other == -plain
        ==> od == -pd) && (pd == 0 ==> plain == 0)) by (nonlinear_arith)
        requires
            nd == n * d,
            pd == plain * d,
            od == other * d,
            plain == m * place,
            m >= 0,
            place > 0,
            d > 0,
            n >= 0,
    ;
    assert((nd == pd ==> n == plain) && (nd == 0 ==> n == 0)) by (nonlinear_arith)
        requires
            nd == n * d,
            pd == plain * d,
            d > 0,
    ;
    let t = if negative {
        -n
    } else {
        n as int
    };
    let aim = if negative {
        -numerator
    } else {
        numerator as int
    };
    let same_side = (other >= 0) == !negative || other == 0;
    if !same_side {
        // the other sign: no nearer, and as near only where both are zero away
        assert(size(t * d - aim) <= size(od - aim));
        assert(size(t * d - aim) == size(od - aim) ==> numerator == 0 && nd == pd);
    }
}

/// A product of two numbers is the number of the format that is nearest to the exact product, the
/// even one of two, and infinite just where that is too great. Its sign is negative where those of
/// the two differ. Exact products are measured in units times two to the power 149.
pub proof fn law_product_is_nearest(a: Float, b: Float, significand: int, exponent: nat)
    requires
        a is Finite,
        b is Finite,
        -0x100_0000 < significand < 0x100_0000,
    ensures
        ({
            let exact = a.units() * b.units();
            let product = a.times(b);
            let unit = pow2(149);
            &&& product is Infinite <==> size(exact) >= (pow2(277) - pow2(252)) * unit
            &&& product !is Infinite ==> product is Finite && nearest_to(
                product.units(),
                exact,
                unit,
                significand,
                exponent,
            )
            &&& product.is_negative() == (a.is_negative() != b.is_negative())
            &&& product is Finite ==> exists|m: nat, e: nat|
                m < 0x100_0000 && product->magnitude == #[trigger] (m * pow2(e))
        }),
{
    let unit = pow2(149);
    let n = a->magnitude * b->magnitude;
    let negative = a.is_negative() != b.is_negative();
    let product = a.times(b);
    lemma_pow2_pos(149);
    lemma_edge();
    lemma_signed_product(a, b);
    lemma_fraction_rounded(n, unit, size(significand), exponent);
    lemma_round_valid(negative, 2 * n / unit, (2 * n) % unit == 0);
    if n == 0 {
        lemma_fundamental_div_mod_converse(0, unit as int, 0, 0);
        lemma_nearest_zero();
    }
    if product is Finite {
        lemma_signed_nearest(product->magnitude, n, unit, negative, significand, exponent);
    }
}

/// The sign and the size of a product.
proof fn lemma_signed_product(a: Float, b: Float)
    requires
        a is Finite,
        b is Finite,
    ensures
        a.units() * b.units() == (if a.is_negative() != b.is_negative() {
            -(a->magnitude * b->magnitude)
        } else {
            (a->magnitude * b->magnitude) as int
        }),
{
    let (m, n) = (a->magnitude, b->magnitude);
    assert((-m) * (-n) == m * n && (-m) * n == -(m * n) && m * (-n) == -(m * n))
        by (nonlinear_arith);
}

/// A quotient of two numbers is the number of the format that is nearest to the exact quotient, the
/// even one of two, and infinite just where that is too great. Its sign is negative where those of
/// the two differ.
pub proof fn law_quotient_is_nearest(a: Float, b: Float, significand: int, exponent: nat)
    requires
        a is Finite,
        b is Finite,
        b->magnitude > 0,
        -0x100_0000 < significand < 0x100_0000,
    ensures
        ({
            let negative = a.is_negative() != b.is_negative();
            let numerator = a->magnitude * pow2(149);
            let quotient = a.over(b);
            &&& quotient is Infinite <==> numerator >= (pow2(277) - pow2(252)) * b->magnitude
            &&& quotient !is Infinite ==> quotient is Finite && nearest_to(
                quotient.units(),
                if negative {
                    -numerator
                } else {
                    numerator as int
                },
                b->magnitude,
                significand,
                exponent,
            )
            &&& quotient.is_negative() == negative
            &&& quotient is Finite ==> exists|m: nat, e: nat|
                m < 0x100_0000 && quotient->magnitude == #[trigger] (m * pow2(e))
        }),
{
    let d = b->magnitude;
    let n = a->magnitude * pow2(149);
    let negative = a.is_negative() != b.is_negative();
    let quotient = a.over(b);
    lemma_edge();
    lemma_fraction_rounded(n, d, size(significand), exponent);
    lemma_round_valid(negative, 2 * n / d, (2 * n) % d == 0);
    if n == 0 {
        lemma_fundamental_div_mod_converse(0, d as int, 0, 0);
        lemma_nearest_zero();
    }
    if quotient is Finite {
        lemma_signed_nearest(quotient->magnitude, n, d, negative, significand, exponent);
    }
}

/// A numeral stands for the number of the format that is nearest to the fraction that it writes.
pub proof fn law_numeral_is_nearest(
    numerator: nat,
    denominator: nat,
    significand: int,
    exponent: nat,
)
    requires
        denominator > 0,
        -0x100_0000 < significand < 0x100_0000,
    ensures
        ({
            let value = Float::ratio(numerator, denominator);
            &&& value is Infinite <==> numerator * pow2(149) >= (pow2(277) - pow2(252))
                * denominator
            &&& value !is Infinite ==> value is Finite && nearest_to(
                value.units(),
                (numerator * pow2(149)) as int,
                denominator,
                significand,
                exponent,
            )
            &&& !value.is_negative()
            &&& value is Finite ==> exists|m: nat, e: nat|
                m < 0x100_0000 && value->magnitude == #[trigger] (m * pow2(e))
        }),
{
    let d = denominator;
    let n = numerator * pow2(149);
    let value = Float::ratio(numerator, denominator);
    lemma_edge();
    lemma_fraction_rounded(n, d, size(significand), exponent);
    lemma_round_valid(false, 2 * n / d, (2 * n) % d == 0);
    if n == 0 {
        lemma_fundamental_div_mod_converse(0, d as int, 0, 0);
        lemma_nearest_zero();
    }
    if value is Finite {
        lemma_signed_nearest(value->magnitude, n, d, false, significand, exponent);
    }
}

/// The root of a number is the number of the format that is nearest to the exact root, the even one
/// of two: what lies half way to another number of the format is on the other side of the exact
/// root. Only zero keeps a negative sign; other negative numbers have no root.
pub proof fn law_root_is_nearest(a: Float, significand: nat, exponent: nat)
    requires
        a is Finite,
        a.valid(),
        significand < 0x100_0000,
    ensures
        a.is_zero() ==> a.sqrt() == a,
        !a.is_zero() && a.is_negative() ==> a.sqrt() is Nan,
        !a.is_zero() && !a.is_negative() ==> ({
            let root = a.sqrt();
            let n = root->magnitude;
            let other = significand * pow2(exponent);
            let gap = size(n - other);
            let square = 4 * (a->magnitude * pow2(149));
            &&& root is Finite && !root.is_negative()
            &&& other < n ==> (n + other) * (n + other) <= square
            &&& other > n ==> (n + other) * (n + other) >= square
            &&& gap > 0 && (n + other) * (n + other) == square ==> n % (2 * gap) == 0
            &&& exists|m: nat, e: nat| m < 0x100_0000 && n == #[trigger] (m * pow2(e))
        }),
{
    if !a.is_zero() && !a.is_negative() {
        let unit = pow2(149);
        let square = 4 * (a->magnitude * unit);
        let r = whole_root(square);
        let exact = r * r == square;
        let n = nearest(r, exact);
        let other = significand * pow2(exponent);
        let sum = n + other;
        lemma_whole_root(square);
        law_rounding_is_to_nearest(r, exact, significand, exponent);
        lemma_round_valid(false, r, exact);
        lemma_root_in_range(a);
        assert(sum <= r ==> sum * sum <= r * r) by (nonlinear_arith)
            requires
                sum >= 0,
                r >= 0,
        ;
        assert(sum >= r ==> sum * sum >= r * r) by (nonlinear_arith)
            requires
                sum >= 0,
                r >= 0,
        ;
        assert(sum >= r + 1 ==> sum * sum >= (r + 1) * (r + 1)) by (nonlinear_arith)
            requires
                sum >= 0,
                r >= 0,
        ;
        assert(r * r == sum * sum ==> r == sum) by (nonlinear_arith)
            requires
                sum >= 0,
                r >= 0,
        ;
    }
}

/// A root stays within the format.
proof fn lemma_root_in_range(a: Float)
    requires
        a is Finite,
        a.valid(),
        !a.is_negative(),
        !a.is_zero(),
    ensures
        a.sqrt() is Finite,
{
    let unit = pow2(149);
    let m = a->magnitude;
    let most = pow2(214);
    let top = pow2(277);
    let square = 4 * (m * unit);
    let root = whole_root(square);
    lemma_whole_root(square);
    lemma2_to64();
    lemma_pow2_pos(149);
    lemma_pow2_adds(2, 277);
    lemma_pow2_adds(279, 149);
    lemma_pow2_adds(214, 214);
    assert(square < most * most) by (nonlinear_arith)
        requires
            square == 4 * (m * unit),
            m < top,
            unit > 0,
            most * most == (4 * top) * unit,
    ;
    assert(root < most) by (nonlinear_arith)
        requires
            root * root <= square,
            square < most * most,
            0 <= root,
            0 <= most,
    ;
    lemma_pow2_adds(1, 213);
    lemma_power_representable(213);
    lemma_nearest_of_representable(pow2(213));
    lemma_nearest_keeps_order(root, root * root == square, most, true);
    lemma_pow2_monotone(214, 277);
    lemma_pow2_pos(213);
}

/// What is not finite: a sum, product, quotient or root of what is not a number is not one; an
/// infinity keeps its sign under finite terms, and takes the product of the signs under factors;
/// what has no value is not a number.
pub proof fn law_beyond_the_finite(a: Float, b: Float)
    ensures
        a is Nan || b is Nan ==> a.plus(b) is Nan && a.times(b) is Nan && a.over(b) is Nan,
        a is Nan ==> a.sqrt() is Nan && a.negated() is Nan,
        a is Infinite && b is Finite ==> a.plus(b) == a && b.plus(a) == a,
        a is Infinite && b is Infinite ==> a.plus(b) == (if a.is_negative() == b.is_negative() {
            a
        } else {
            Float::Nan
        }),
        a is Infinite && b is Infinite ==> a.over(b) is Nan,
        a is Infinite && b !is Nan && !b.is_zero() ==> a.times(b) == (Float::Infinite {
            negative: a.is_negative() != b.is_negative(),
        }) && b.times(a) == a.times(b),
        a is Infinite && b.is_zero() ==> a.times(b) is Nan && b.times(a) is Nan,
        a is Infinite && b is Finite ==> a.over(b) == (Float::Infinite {
            negative: a.is_negative() != b.is_negative(),
        }),
        a is Finite && b is Infinite ==> a.over(b) == (Float::Finite {
            negative: a.is_negative() != b.is_negative(),
            magnitude: 0,
        }),
        a is Finite && !a.is_zero() && b.is_zero() ==> a.over(b) == (Float::Infinite {
            negative: a.is_negative() != b.is_negative(),
        }),
        a.is_zero() && b.is_zero() ==> a.over(b) is Nan,
        a is Infinite ==> a.sqrt() == (if a.is_negative() {
            Float::Nan
        } else {
            a
        }),
        a.minus(b) == a.plus(b.negated()),
        a is Finite ==> a.negated() is Finite && a.negated().units() == -a.units()
            && a.negated().is_negative() == !a.is_negative(),
        a is Infinite ==> a.negated() == (Float::Infinite { negative: !a.is_negative() }),
{
}

/// Numbers are in the order of their counts of units, between the two infinities. What is not a
/// number is in no order with anything.
pub proof fn law_order(a: Float, b: Float)
    ensures
        a is Finite && b is Finite ==> (a.lt(b) <==> a.units() < b.units()) && (a.le(b)
            <==> a.units() <= b.units()),
        a is Nan || b is Nan ==> !a.lt(b) && !a.le(b),
        a is Infinite && b is Finite ==> a.lt(b) == a.is_negative() && a.le(b) == a.is_negative()
            && b.lt(a) == !a.is_negative() && b.le(a) == !a.is_negative(),
        a is Infinite && b is Infinite ==> a.lt(b) == (a.is_negative() && !b.is_negative())
            && a.le(b) == (a.is_negative() || !b.is_negative()),
{
}

/// The greater of two numbers is one of them that neither is above; what is not a number gives way
/// to the other one. A number in a range stays, any other one becomes the end it is beyond, and
/// what is not a number stays so.
pub proof fn law_max_and_clamp(a: Float, b: Float, c: Float)
    ensures
        a is Nan ==> a.max(b) == b,
        a !is Nan && b is Nan ==> a.max(b) == a,
        b.le(a) ==> a.max(b) == a,
        a.lt(b) ==> a.max(b) == b,
        a.lt(b) ==> a.clamp(b, c) == b,
        !a.lt(b) && c.lt(a) ==> a.clamp(b, c) == c,
        !a.lt(b) && !c.lt(a) ==> a.clamp(b, c) == a,
{
}

/// The bit patterns without the sign bit, up to that of infinity, are all the numbers of the format
/// that are not negative, in order: the first is zero, and between the numbers of two neighbours
/// there is none. Then come infinity and what is not a number. The sign bit makes the opposite.
pub proof fn law_bits_are_in_order(bits: u32, significand: nat, exponent: nat)
    requires
        significand < 0x100_0000,
    ensures
        decode(0) == Float::zero(),
        decode(0x7f80_0000) == (Float::Infinite { negative: false }),
        0x7f80_0000 < bits < 0x8000_0000 ==> decode(bits) is Nan,
        bits < 0x7f80_0000 ==> decode(bits) is Finite && !decode(bits).is_negative(),
        bits < 0x7f7f_ffff ==> ({
            let this = decode(bits)->magnitude;
            let next = decode((bits + 1) as u32)->magnitude;
            let other = significand * pow2(exponent);
            this < next && (other <= this || next <= other)
        }),
        bits < 0x8000_0000 ==> decode((bits + 0x8000_0000) as u32) == decode(bits).negated(),
{
    lemma2_to64();
    if bits < 0x7f7f_ffff {
        lemma_next_number(bits, significand, exponent);
    }
}

/// The number of the next bit pattern.
proof fn lemma_next_number(bits: u32, significand: nat, exponent: nat)
    requires
        bits < 0x7f7f_ffff,
        significand < 0x100_0000,
    ensures
        ({
            let this = decode(bits)->magnitude;
            let next = decode((bits + 1) as u32)->magnitude;
            let other = significand * pow2(exponent);
            this < next && (other <= this || next <= other)
        }),
{
    let field = bits as nat / 0x80_0000;
    let fraction = bits as nat % 0x80_0000;
    let e: nat = if field == 0 {
        0
    } else {
        (field - 1) as nat
    };
    let count: nat = if field == 0 {
        fraction
    } else {
        0x80_0000 + fraction
    };
    let unit = pow2(e);
    let this = decode(bits)->magnitude;
    let next = decode((bits + 1) as u32)->magnitude;
    let other = significand * pow2(exponent);
    lemma2_to64();
    lemma_pow2_pos(e);
    assert(this == count * unit) by {
        if field == 0 {
            assert(fraction * 1 == fraction);
        }
    }
    assert(next == (count + 1) * unit) by {
        if fraction == 0x7f_ffff {
            if field == 0 {
                assert(0x80_0000 * 1 == 0x80_0000);
            } else {
                lemma_pow2_unfold((e + 1) as nat);
                assert(0x80_0000 * (2 * unit) == 0x100_0000 * unit) by (nonlinear_arith);
            }
        } else if field == 0 {
            assert((count + 1) * unit == fraction + 1) by (nonlinear_arith)
                requires
                    count == fraction,
                    unit == 1,
            ;
        }
    }
    assert((count + 1) * unit == count * unit + unit) by (nonlinear_arith);
    if this < other < next {
        if e > 0 {
            assert(this >= 0x80_0000 * unit) by (nonlinear_arith)
                requires
                    this == count * unit,
                    count >= 0x80_0000,
                    unit > 0,
            ;
        }
        lemma_on_grid(significand, exponent, e);
        let k = choose|k: nat| significand * pow2(exponent) == #[trigger] (k * pow2(e));
        assert(k > count && k < count + 1) by (nonlinear_arith)
            requires
                count * unit < k * unit < (count + 1) * unit,
                unit > 0,
        ;
    }
}

/// A half is two to the power 148 units, and half of a number is rounded by half a unit at most.
pub proof fn lemma_half(x: Float)
    requires
        x is Finite,
        x.valid(),
    ensures
        x.times(Float::ratio(1, 2)) is Finite,
        -1 <= 2 * x.times(Float::ratio(1, 2)).units() - x.units() <= 1,
{
    let half = Float::ratio(1, 2);
    let low = pow2(148);
    let unit = pow2(149);
    let m = x->magnitude;
    lemma2_to64();
    lemma_pow2_unfold(149);
    lemma_pow2_pos(148);
    lemma_power_representable(148);
    lemma_nearest_of_representable(low);
    lemma_pow2_monotone(149, 277);
    assert((2 * (1 * unit)) / 2 == 2 * low && (2 * (1 * unit)) % 2 == 0);
    assert(half == (Float::Finite { negative: false, magnitude: low }));
    let wide = 2 * (m * low);
    assert(wide == m * unit) by (nonlinear_arith)
        requires
            wide == 2 * (m * low),
            unit == 2 * low,
    ;
    lemma_fundamental_div_mod_converse(wide as int, unit as int, m as int, 0);
    assert(x.times(half) == round(x.is_negative(), m, true));
    lemma_half_magnitude(m);
}

/// A magnitude of the format, halved.
proof fn lemma_half_magnitude(m: nat)
    requires
        representable(m),
    ensures
        nearest(m, true) < pow2(277),
        -1 <= 2 * nearest(m, true) - m <= 1,
{
    let (significand, exponent) = choose|significand: nat, exponent: nat|
        significand < 0x100_0000 && m == #[trigger] (significand * pow2(exponent));
    let n = nearest(m, true);
    lemma2_to64();
    if exponent == 0 {
        assert(significand * 1 == significand);
        let below = significand / 2;
        assert(below < 0x100_0000 && below == below * pow2(0)) by (nonlinear_arith)
            requires
                pow2(0) == 1,
                below < 0x100_0000,
        ;
        law_rounding_is_to_nearest(m, true, below, 0);
        assert(below * pow2(0) == below);
        assert(size(4 * n - 2 * m) <= 2);
        lemma_pow2_monotone(25, 277);
    } else {
        lemma_pow2_unfold(exponent);
        let place = pow2((exponent - 1) as nat);
        let h = significand * place;
        assert(m == 2 * h) by (nonlinear_arith)
            requires
                m == significand * pow2(exponent),
                pow2(exponent) == 2 * place,
                h == significand * place,
        ;
        assert(significand < 0x100_0000 && h == significand * pow2((exponent - 1) as nat));
        assert(representable(h));
        lemma_nearest_of_representable(h);
    }
}

} // verus!
