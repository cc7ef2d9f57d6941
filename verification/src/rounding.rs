//! Facts about rounding: how a shifted whole number rounds, which numbers round to themselves,
//! that rounding keeps order, and that its result is the nearest one.

use crate::float::{is_root, nearest, overflow_exponent, representable, size, spacing, whole_root};
use vstd::arithmetic::div_mod::{
    lemma_fundamental_div_mod, lemma_fundamental_div_mod_converse, lemma_mod_bound,
};
use vstd::arithmetic::power2::{
    lemma2_to64, lemma_pow2_adds, lemma_pow2_pos, lemma_pow2_strictly_increases,
    lemma_pow2_unfold, pow2,
};
use vstd::prelude::*;

verus! {

/// Whether `significand`, shifted by `exponent` places, is the double of a real number of which
/// `twice` is the whole part and `whole` says that it has no fraction. Where `exact` is false the
/// real number lies above `significand` and below its successor, at the shifted place.
pub open spec fn describes(
    significand: nat,
    exponent: int,
    exact: bool,
    twice: nat,
    whole: bool,
) -> bool {
    if exponent >= 0 {
        let place = pow2(exponent as nat);
        &&& significand * place <= twice < (significand + 1) * place
        &&& exact <==> (whole && twice == significand * place)
    } else {
        let place = pow2((-exponent) as nat);
        &&& twice == significand / place
        &&& whole <==> (exact && significand % place == 0)
    }
}

pub proof fn lemma_pow2_monotone(a: nat, b: nat)
    requires
        a <= b,
    ensures
        0 < pow2(a) <= pow2(b),
{
    lemma_pow2_pos(a);
    if a < b {
        lemma_pow2_strictly_increases(a, b);
    }
}

pub proof fn lemma_spacing(twice: nat, exponent: nat)
    requires
        twice < pow2(25 + exponent),
        exponent == 0 || pow2((24 + exponent) as nat) <= twice,
    ensures
        spacing(twice) == exponent,
    decreases exponent,
{
    lemma2_to64();
    if exponent > 0 {
        lemma_pow2_monotone(25, (24 + exponent) as nat);
        lemma_pow2_unfold((25 + exponent) as nat);
        lemma_pow2_unfold((24 + exponent) as nat);
        lemma_spacing(twice / 2, (exponent - 1) as nat);
    }
}

/// The spacing is found: it brings the number to 24 bits, and to no fewer unless it is the least.
pub proof fn lemma_spacing_bounds(twice: nat)
    ensures
        twice < pow2(25 + spacing(twice)),
        spacing(twice) == 0 || pow2((24 + spacing(twice)) as nat) <= twice,
    decreases twice,
{
    lemma2_to64();
    if twice >= 0x200_0000 {
        lemma_spacing_bounds(twice / 2);
        lemma_pow2_unfold((25 + spacing(twice)) as nat);
        lemma_pow2_unfold((24 + spacing(twice)) as nat);
    }
}

/// The spacing around a shifted number follows from its length in bits.
pub proof fn lemma_spacing_of_shifted(
    significand: nat,
    length: nat,
    exponent: int,
    exact: bool,
    twice: nat,
    whole: bool,
)
    requires
        describes(significand, exponent, exact, twice, whole),
        length > 0,
        pow2((length - 1) as nat) <= significand < pow2(length),
    ensures
        spacing(twice) == (if length + exponent > 25 {
            length + exponent - 25
        } else {
            0
        }),
{
    let e: nat = if length + exponent > 25 {
        (length + exponent - 25) as nat
    } else {
        0
    };
    if exponent >= 0 {
        let place = pow2(exponent as nat);
        let top = pow2(length);
        let half = pow2((length - 1) as nat);
        lemma_pow2_pos(exponent as nat);
        lemma_pow2_adds(length, exponent as nat);
        lemma_pow2_adds((length - 1) as nat, exponent as nat);
        assert((significand + 1) * place <= top * place) by (nonlinear_arith)
            requires
                significand + 1 <= top,
                place > 0,
        ;
        assert(half * place <= significand * place) by (nonlinear_arith)
            requires
                half <= significand,
                place > 0,
        ;
        lemma_pow2_monotone((length + exponent) as nat, (25 + e) as nat);
        lemma_spacing(twice, e);
    } else {
        let k = (-exponent) as nat;
        let place = pow2(k);
        lemma_pow2_pos(k);
        lemma_fundamental_div_mod(significand as int, place as int);
        lemma_mod_bound(significand as int, place as int);
        if length <= k {
            lemma_pow2_monotone(length, k);
            assert(twice == 0) by (nonlinear_arith)
                requires
                    significand == place * twice + significand % place,
                    significand % place >= 0,
                    significand < place,
            ;
            lemma_pow2_pos((25 + e) as nat);
            lemma_spacing(twice, e);
        } else {
            let top = pow2((length - k) as nat);
            let half = pow2((length - 1 - k) as nat);
            lemma_pow2_adds((length - k) as nat, k);
            lemma_pow2_adds((length - 1 - k) as nat, k);
            assert(half <= twice < top) by (nonlinear_arith)
                requires
                    significand == place * twice + significand % place,
                    0 <= significand % place < place,
                    half * place <= significand < top * place,
            ;
            lemma_pow2_monotone((length - k) as nat, (25 + e) as nat);
            lemma_spacing(twice, e);
        }
    }
}

/// How a shifted number rounds where the spacing drops bits of it: `kept` stays, `bit` is the
/// first bit that goes, and `low` holds the others.
pub proof fn lemma_nearest_of_dropped(
    significand: nat,
    exponent: int,
    exact: bool,
    twice: nat,
    whole: bool,
    kept: nat,
    bit: nat,
    low: nat,
)
    requires
        describes(significand, exponent, exact, twice, whole),
        spacing(twice) >= exponent,
        bit < 2,
        low < pow2((spacing(twice) - exponent) as nat),
        significand == (2 * kept + bit) * pow2((spacing(twice) - exponent) as nat) + low,
    ensures
        nearest(twice, whole) == (if bit == 1 && (low != 0 || !exact || kept % 2 == 1) {
            kept + 1
        } else {
            kept
        }) * pow2(spacing(twice)),
{
    let e = spacing(twice);
    let unit = pow2(e);
    let part = pow2((e - exponent) as nat);
    let over: nat;
    if exponent >= 0 {
        let place = pow2(exponent as nat);
        lemma_pow2_adds((e - exponent) as nat, exponent as nat);
        lemma_pow2_pos(exponent as nat);
        let beyond = (twice - significand * place) as nat;
        over = low * place + beyond;
        assert((significand + 1) * place == significand * place + place) by (nonlinear_arith);
        assert(significand * place == kept * (2 * unit) + bit * unit + low * place)
            by (nonlinear_arith)
            requires
                significand == (2 * kept + bit) * part + low,
                unit == part * place,
        ;
        assert(low * place + place <= unit) by (nonlinear_arith)
            requires
                low + 1 <= part,
                unit == part * place,
                place >= 0,
        ;
        assert((low * place == 0) == (low == 0)) by (nonlinear_arith)
            requires
                place > 0,
        ;
    } else {
        let place = pow2((-exponent) as nat);
        lemma_pow2_adds(e, (-exponent) as nat);
        lemma_pow2_pos((-exponent) as nat);
        lemma_fundamental_div_mod(low as int, place as int);
        lemma_mod_bound(low as int, place as int);
        over = low / place;
        let r = low % place;
        assert(significand == place * (kept * (2 * unit) + bit * unit + over) + r)
            by (nonlinear_arith)
            requires
                significand == (2 * kept + bit) * part + low,
                part == unit * place,
                low == place * over + r,
        ;
        lemma_fundamental_div_mod_converse(
            significand as int,
            place as int,
            (kept * (2 * unit) + bit * unit + over) as int,
            r as int,
        );
        assert(over < unit) by (nonlinear_arith)
            requires
                low < unit * place,
                low == place * over + r,
                r >= 0,
        ;
        assert(low == 0 <==> (over == 0 && r == 0)) by (nonlinear_arith)
            requires
                low == place * over + r,
                place > 0,
                over >= 0,
                r >= 0,
        ;
    }
    lemma_pow2_pos(e);
    assert(0 <= bit * unit + over < 2 * unit) by (nonlinear_arith)
        requires
            bit < 2,
            over < unit,
    ;
    lemma_fundamental_div_mod_converse(
        twice as int,
        (2 * unit) as int,
        kept as int,
        (bit * unit + over) as int,
    );
    if bit == 0 {
        assert(bit * unit == 0);
    } else {
        assert(bit * unit == unit);
    }
}

/// How a shifted number rounds where the spacing keeps all its bits.
pub proof fn lemma_nearest_of_kept(
    significand: nat,
    exponent: int,
    twice: nat,
    whole: bool,
)
    requires
        describes(significand, exponent, true, twice, whole),
        spacing(twice) < exponent,
    ensures
        nearest(twice, whole) == significand * pow2((exponent - 1 - spacing(twice)) as nat) * pow2(
            spacing(twice),
        ),
{
    let e = spacing(twice);
    let unit = pow2(e);
    let shift = pow2((exponent - 1 - e) as nat);
    lemma_pow2_unfold((e + 1) as nat);
    lemma_pow2_adds((exponent - 1 - e) as nat, (e + 1) as nat);
    lemma_pow2_pos(e);
    let kept = significand * shift;
    assert(twice == kept * (2 * unit)) by (nonlinear_arith)
        requires
            twice == significand * (shift * (2 * unit)),
            kept == significand * shift,
    ;
    lemma_fundamental_div_mod_converse(twice as int, (2 * unit) as int, kept as int, 0);
}

/// A quotient with `shift` extra places describes the double of a quotient of shifted numbers.
pub proof fn lemma_quotient_described(
    numerator: nat,
    denominator: nat,
    shift: nat,
    raised: nat,
    lowered: nat,
)
    requires
        denominator > 0,
    ensures
        describes(
            numerator * pow2(shift) / denominator,
            raised - lowered - shift,
            numerator * pow2(shift) % denominator == 0,
            (numerator * pow2(raised)) / (denominator * pow2(lowered)),
            (numerator * pow2(raised)) % (denominator * pow2(lowered)) == 0,
        ),
{
    let wide = numerator * pow2(shift);
    let significand = wide / denominator;
    let r = wide % denominator;
    let exponent = raised - lowered - shift;
    let low = pow2(lowered);
    let a = numerator * pow2(raised);
    let b = denominator * low;
    lemma_pow2_pos(lowered);
    assert(b > 0) by (nonlinear_arith)
        requires
            b == denominator * low,
            denominator > 0,
            low > 0,
    ;
    lemma_fundamental_div_mod(wide as int, denominator as int);
    lemma_mod_bound(wide as int, denominator as int);
    lemma_fundamental_div_mod(a as int, b as int);
    lemma_mod_bound(a as int, b as int);
    let twice = a / b;
    let left = a % b;
    if exponent >= 0 {
        let place = pow2(exponent as nat);
        lemma_pow2_pos(exponent as nat);
        lemma_pow2_adds(shift, lowered);
        lemma_pow2_adds((shift + lowered) as nat, exponent as nat);
        assert(raised == shift + lowered + exponent);
        let p = pow2(shift);
        assert(numerator * (p * low * place) == (numerator * p) * (low * place))
            by (nonlinear_arith);
        let ds = denominator * significand;
        assert((ds + r) * (low * place) == ds * (low * place) + r * (low * place))
            by (nonlinear_arith);
        assert((denominator * significand) * (low * place) == (denominator * low) * (significand
            * place)) by (nonlinear_arith);
        assert(a == b * (significand * place) + r * (low * place));
        assert(r * (low * place) < b * place) by (nonlinear_arith)
            requires
                r < denominator,
                b == denominator * low,
                low > 0,
                place > 0,
        ;
        assert((r * (low * place) == 0) == (r == 0)) by (nonlinear_arith)
            requires
                low > 0,
                place > 0,
                r >= 0,
        ;
        assert(r * (low * place) >= 0) by (nonlinear_arith)
            requires
                low > 0,
                place > 0,
                r >= 0,
        ;
        let base = significand * place;
        assert((significand + 1) * place == base + place) by (nonlinear_arith)
            requires
                base == significand * place,
        ;
        assert(base <= twice < base + place) by (nonlinear_arith)
            requires
                a == b * twice + left,
                0 <= left < b,
                b * base <= a,
                a < b * base + b * place,
        ;
        if r == 0 {
            assert(twice == base && left == 0) by (nonlinear_arith)
                requires
                    a == b * twice + left,
                    0 <= left < b,
                    a == b * base,
            ;
        } else if twice == base {
            assert(left != 0);
        }
    } else {
        let w = (-exponent) as nat;
        let place = pow2(w);
        lemma_pow2_pos(w);
        lemma_pow2_adds(shift, lowered);
        lemma_pow2_adds(raised, w);
        assert(raised + w == shift + lowered);
        lemma_fundamental_div_mod(significand as int, place as int);
        lemma_mod_bound(significand as int, place as int);
        let q = significand / place;
        let t = significand % place;
        let p = pow2(shift);
        let u = pow2(raised);
        assert((numerator * u) * place == numerator * (u * place)) by (nonlinear_arith);
        assert(numerator * (p * low) == (numerator * p) * low) by (nonlinear_arith);
        assert(denominator * (place * q + t) + r == denominator * place * q + (denominator * t
            + r)) by (nonlinear_arith);
        let dpq = denominator * place * q;
        assert((dpq + (denominator * t + r)) * low == dpq * low + (denominator * t + r) * low)
            by (nonlinear_arith);
        assert((denominator * place * q) * low == (denominator * low) * q * place)
            by (nonlinear_arith);
        assert(a * place == b * q * place + (denominator * t + r) * low);
        let part = (denominator * t + r) * low;
        assert(0 <= part < b * place) by (nonlinear_arith)
            requires
                part == (denominator * t + r) * low,
                0 <= t <= place - 1,
                0 <= r < denominator,
                b == denominator * low,
                low > 0,
        ;
        let rem = a - b * q;
        assert(rem * place == part) by (nonlinear_arith)
            requires
                a * place == b * q * place + part,
                rem == a - b * q,
        ;
        assert(0 <= rem < b) by (nonlinear_arith)
            requires
                rem * place == part,
                0 <= part < b * place,
                place > 0,
        ;
        lemma_fundamental_div_mod_converse(a as int, b as int, q as int, rem);
        assert((rem == 0) == (t == 0 && r == 0)) by (nonlinear_arith)
            requires
                rem * place == (denominator * t + r) * low,
                place > 0,
                low > 0,
                denominator > 0,
                t >= 0,
                r >= 0,
        ;
    }
}

/// Every natural number has a whole root, and only one.
pub proof fn lemma_whole_root(n: nat)
    ensures
        is_root(n, whole_root(n)),
{
    lemma_root_exists(n);
}

proof fn lemma_root_exists(n: nat)
    ensures
        exists|root: nat| is_root(n, root),
    decreases n,
{
    if n == 0 {
        assert(0 * 0 == 0 && 0 < (0 + 1) * (0 + 1)) by (nonlinear_arith);
        assert(is_root(n, 0));
    } else {
        lemma_root_exists((n - 1) as nat);
        let before = (n - 1) as nat;
        let root = choose|root: nat| is_root(before, root);
        if (root + 1) * (root + 1) <= n {
            assert(n < (root + 2) * (root + 2)) by (nonlinear_arith)
                requires
                    n - 1 < (root + 1) * (root + 1),
            ;
            assert(is_root(n, root + 1));
        } else {
            assert(is_root(n, root));
        }
    }
}

/// The root of a number describes the root of that number shifted by an even count of places.
pub proof fn lemma_root_described(value: nat, root: nat, half: nat)
    requires
        is_root(value, root),
    ensures
        ({
            let square = value * pow2(2 * half);
            let twice = whole_root(square);
            describes(root, half as int, root * root == value, twice, twice * twice == square)
        }),
{
    let place = pow2(half);
    let square = value * pow2(2 * half);
    let twice = whole_root(square);
    lemma_whole_root(square);
    lemma_pow2_pos(half);
    lemma_pow2_adds(half, half);
    let base = root * place;
    let next = (root + 1) * place;
    assert(base * base == (root * root) * (place * place)) by (nonlinear_arith)
        requires
            base == root * place,
    ;
    assert(next * next == ((root + 1) * (root + 1)) * (place * place)) by (nonlinear_arith)
        requires
            next == (root + 1) * place,
    ;
    assert(place * place > 0) by (nonlinear_arith)
        requires
            place > 0,
    ;
    let pp = place * place;
    assert(base * base <= square < next * next) by (nonlinear_arith)
        requires
            base * base == (root * root) * pp,
            next * next == ((root + 1) * (root + 1)) * pp,
            square == value * pp,
            root * root <= value < (root + 1) * (root + 1),
            pp > 0,
    ;
    assert(base <= twice) by (nonlinear_arith)
        requires
            base * base <= square,
            square < (twice + 1) * (twice + 1),
            base >= 0,
            twice >= 0,
    ;
    assert(twice < next) by (nonlinear_arith)
        requires
            twice * twice <= square,
            square < next * next,
            next >= 0,
            twice >= 0,
    ;
    if root * root == value {
        assert(twice == base) by (nonlinear_arith)
            requires
                base * base == square,
                twice * twice <= square,
                base <= twice,
                base >= 0,
        ;
    } else if twice == base {
        assert(base * base != square) by (nonlinear_arith)
            requires
                base * base == (root * root) * pp,
                square == value * pp,
                root * root != value,
                pp > 0,
        ;
    }
}

/// What `nearest` chooses from: the two neighbours of the real number at its spacing. The lower one
/// fits in 24 bits, and needs all of them unless the spacing is the least.
pub proof fn lemma_neighbours(twice: nat) -> (below: nat)
    ensures
        below == twice / (2 * pow2(spacing(twice))),
        below < 0x100_0000,
        spacing(twice) > 0 ==> below >= 0x80_0000,
        pow2(spacing(twice)) > 0,
        2 * (below * pow2(spacing(twice))) + twice % (2 * pow2(spacing(twice))) == twice,
        0 <= twice % (2 * pow2(spacing(twice))) < 2 * pow2(spacing(twice)),
        forall|exact: bool| #[trigger]
            nearest(twice, exact) == below * pow2(spacing(twice)) || nearest(twice, exact) == below
                * pow2(spacing(twice)) + pow2(spacing(twice)),
{
    let e = spacing(twice);
    let unit = pow2(e);
    let below = twice / (2 * unit);
    let rest = twice % (2 * unit);
    lemma2_to64();
    lemma_pow2_pos(e);
    lemma_spacing_bounds(twice);
    lemma_pow2_adds(25, e);
    lemma_fundamental_div_mod(twice as int, (2 * unit) as int);
    lemma_mod_bound(twice as int, (2 * unit) as int);
    assert((2 * unit) * below == 2 * (below * unit)) by (nonlinear_arith);
    assert((below + 1) * unit == below * unit + unit) by (nonlinear_arith);
    assert(below < 0x100_0000) by (nonlinear_arith)
        requires
            2 * (below * unit) <= twice,
            twice < 0x200_0000 * unit,
            unit > 0,
    ;
    if e > 0 {
        lemma_pow2_adds(24, e);
        assert(below >= 0x80_0000) by (nonlinear_arith)
            requires
                twice == 2 * (below * unit) + rest,
                rest < 2 * unit,
                twice >= 0x100_0000 * unit,
                unit > 0,
        ;
    }
    below
}

/// A number of the format that is not below a normal one at a spacing is a multiple of that
/// spacing.
pub(crate) proof fn lemma_on_grid(significand: nat, exponent: nat, spacing: nat)
    requires
        significand < 0x100_0000,
        spacing == 0 || significand * pow2(exponent) >= 0x80_0000 * pow2(spacing),
    ensures
        exists|count: nat| significand * pow2(exponent) == #[trigger] (count * pow2(spacing)),
{
    if exponent >= spacing {
        let shift = (exponent - spacing) as nat;
        lemma_pow2_adds(shift, spacing);
        let count = significand * pow2(shift);
        let ps = pow2(shift);
        let pe = pow2(spacing);
        assert((significand * ps) * pe == significand * (ps * pe)) by (nonlinear_arith);
        assert(significand * pow2(exponent) == count * pow2(spacing));
    } else {
        lemma_pow2_unfold(spacing);
        lemma_pow2_monotone(exponent, (spacing - 1) as nat);
        let low = pow2(exponent);
        let half = pow2((spacing - 1) as nat);
        assert(significand * low < 0x80_0000 * (2 * half)) by (nonlinear_arith)
            requires
                significand < 0x100_0000,
                0 < low <= half,
        ;
    }
}

/// A number of the format is rounded to itself.
pub proof fn lemma_nearest_of_representable(magnitude: nat)
    requires
        representable(magnitude),
    ensures
        nearest(2 * magnitude, true) == magnitude,
{
    let twice = 2 * magnitude;
    let e = spacing(twice);
    let unit = pow2(e);
    let (significand, exponent) = choose|significand: nat, exponent: nat|
        significand < 0x100_0000 && magnitude == #[trigger] (significand * pow2(exponent));
    lemma_spacing_bounds(twice);
    lemma2_to64();
    if e > 0 {
        lemma_pow2_adds(24, e);
    }
    lemma_on_grid(significand, exponent, e);
    let count = choose|count: nat| significand * pow2(exponent) == #[trigger] (count * pow2(e));
    lemma_pow2_pos(e);
    assert(twice == count * (2 * unit)) by (nonlinear_arith)
        requires
            twice == 2 * magnitude,
            magnitude == count * unit,
    ;
    lemma_fundamental_div_mod_converse(twice as int, (2 * unit) as int, count as int, 0);
}

/// What rounding gives has at most 24 significant bits.
pub proof fn lemma_nearest_is_representable(twice: nat, exact: bool)
    requires
        nearest(twice, exact) < pow2(overflow_exponent()),
    ensures
        representable(nearest(twice, exact)),
{
    let e = spacing(twice);
    let unit = pow2(e);
    let below = lemma_neighbours(twice);
    let result = nearest(twice, exact);
    if result == below * unit {
        assert(below < 0x100_0000 && result == below * pow2(e));
    } else if below + 1 < 0x100_0000 {
        let above = below + 1;
        assert((below + 1) * unit == below * unit + unit) by (nonlinear_arith);
        assert(above < 0x100_0000 && result == above * pow2(e));
    } else {
        lemma_pow2_unfold((e + 1) as nat);
        let significand: nat = 0x80_0000;
        assert(below * unit + unit == 0x100_0000 * unit) by (nonlinear_arith)
            requires
                below + 1 == 0x100_0000,
        ;
        assert(significand < 0x100_0000 && result == significand * pow2((e + 1) as nat));
    }
}

/// Rounding keeps order: of two real numbers the greater does not round to less. The numbers come
/// as for `nearest`, and a number with a fraction is above the one without.
pub proof fn lemma_nearest_keeps_order(a: nat, exact_a: bool, b: nat, exact_b: bool)
    requires
        a < b || (a == b && (exact_a || !exact_b)),
    ensures
        nearest(a, exact_a) <= nearest(b, exact_b),
{
    let ea = spacing(a);
    let eb = spacing(b);
    let unit_a = pow2(ea);
    let unit_b = pow2(eb);
    let below_a = lemma_neighbours(a);
    let below_b = lemma_neighbours(b);
    lemma_spacing_bounds(a);
    lemma_spacing_bounds(b);
    assert(ea <= eb) by {
        if ea > eb {
            lemma_pow2_monotone((25 + eb) as nat, (24 + ea) as nat);
        }
    }
    assert((below_a + 1) * unit_a == below_a * unit_a + unit_a) by (nonlinear_arith);
    assert((below_b + 1) * unit_b == below_b * unit_b + unit_b) by (nonlinear_arith);
    if ea < eb {
        lemma_pow2_unfold(eb);
        lemma_pow2_monotone(ea, (eb - 1) as nat);
        let half = pow2((eb - 1) as nat);
        assert(below_a * unit_a + unit_a <= below_b * unit_b) by (nonlinear_arith)
            requires
                below_a < 0x100_0000,
                below_b >= 0x80_0000,
                unit_b == 2 * half,
                0 < unit_a <= half,
        ;
    } else {
        let unit = unit_a;
        let rest_a = a % (2 * unit);
        let rest_b = b % (2 * unit);
        assert(below_a <= below_b) by (nonlinear_arith)
            requires
                2 * (below_a * unit) + rest_a == a,
                2 * (below_b * unit) + rest_b == b,
                0 <= rest_a,
                rest_b < 2 * unit,
                a <= b,
                unit > 0,
        ;
        if below_a < below_b {
            assert(below_a * unit + unit <= below_b * unit) by (nonlinear_arith)
                requires
                    below_a + 1 <= below_b,
                    unit > 0,
            ;
        } else {
            assert(rest_a <= rest_b);
        }
    }
}

/// Rounding is to the nearest: no number with 24 significant bits lies nearer to the real number.
/// Distances are measured in quarters, and a real number with a fraction counts as lying half way
/// to the next half, which changes no comparison with a whole number. Of two that are equally near
/// it is the even one: a multiple of twice what they are apart.
pub proof fn law_rounding_is_to_nearest(twice: nat, exact: bool, significand: nat, exponent: nat)
    requires
        significand < 0x100_0000,
    ensures
        ({
            let aim: int = 2 * twice + (if exact {
                0int
            } else {
                1int
            });
            let other = significand * pow2(exponent);
            let gap = size(nearest(twice, exact) - other);
            &&& size(4 * nearest(twice, exact) - aim) <= size(4 * other - aim)
            &&& size(4 * nearest(twice, exact) - aim) == size(4 * other - aim) && gap > 0
                ==> nearest(twice, exact) % (2 * gap) == 0
        }),
{
    let e = spacing(twice);
    let unit = pow2(e);
    let below = lemma_neighbours(twice);
    let rest = twice % (2 * unit);
    let low = below * unit;
    let other = significand * pow2(exponent);
    assert((below + 1) * unit == low + unit) by (nonlinear_arith)
        requires
            low == below * unit,
    ;
    assert(other <= low || other >= low + unit) by {
        if low < other < low + unit {
            if e > 0 {
                assert(low >= 0x80_0000 * unit) by (nonlinear_arith)
                    requires
                        low == below * unit,
                        below >= 0x80_0000,
                        unit > 0,
                ;
            }
            lemma_on_grid(significand, exponent, e);
            let count = choose|count: nat|
                significand * pow2(exponent) == #[trigger] (count * pow2(e));
            assert(false) by (nonlinear_arith)
                requires
                    below * unit < count * unit < below * unit + unit,
                    unit > 0,
            ;
        }
    }
    let n = nearest(twice, exact);
    let aim: int = 2 * twice + (if exact {
        0int
    } else {
        1int
    });
    if size(4 * n - aim) == size(4 * other - aim) && n != other {
        assert(exact && rest == unit && size(n - other) == unit);
        if below % 2 == 1 {
            let count = (below + 1) / 2;
            assert((below + 1) * unit == count * (2 * unit)) by (nonlinear_arith)
                requires
                    below + 1 == 2 * count,
            ;
            lemma_fundamental_div_mod_converse(n as int, (2 * unit) as int, count as int, 0);
        } else {
            let count = below / 2;
            assert(below * unit == count * (2 * unit)) by (nonlinear_arith)
                requires
                    below == 2 * count,
            ;
            lemma_fundamental_div_mod_converse(n as int, (2 * unit) as int, count as int, 0);
        }
    }
}

} // verus!
