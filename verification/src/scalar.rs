//! Single-precision numbers, computed bit for bit.
//!
//! The results are those of IEEE 754 arithmetic on every machine, so that a simulation replays
//! alike wherever it runs. `crate::float` says what each operation means.

use crate::float::{
    decode, is_root, nearest, one_exponent, overflow_exponent, round, round_fraction, size, spacing,
    whole_root, Float,
};
use crate::rounding::{
    describes, lemma_nearest_of_dropped, lemma_nearest_of_kept, lemma_pow2_monotone,
    lemma_quotient_described, lemma_root_described, lemma_spacing_bounds, lemma_spacing_of_shifted,
};
use vstd::arithmetic::div_mod::{lemma_fundamental_div_mod, lemma_mod_bound};
use vstd::arithmetic::power2::{
    lemma2_to64, lemma2_to64_rest, lemma_pow2_adds, lemma_pow2_pos, lemma_pow2_unfold, pow2,
};
use vstd::prelude::*;

verus! {

/// A single-precision number, held as its bit pattern.
#[derive(Clone, Copy, Debug)]
pub struct F32 {
    pub bits: u32,
}

impl View for F32 {
    type V = Float;

    open spec fn view(&self) -> Float {
        decode(self.bits)
    }
}

const SIGN: u32 = 0x8000_0000;

const FRACTION: u32 = 0x80_0000;

const INFINITY: u32 = 0x7f80_0000;

const NOT_A_NUMBER: u32 = 0x7fc0_0000;

/// A power of two.
fn power(exponent: u32) -> (result: u128)
    requires
        exponent < 128,
    ensures
        result == pow2(exponent as nat),
{
    let mut result: u128 = 1;
    let mut count: u32 = 0;
    proof {
        lemma2_to64();
    }
    while count < exponent
        invariant
            count <= exponent < 128,
            result == pow2(count as nat),
        decreases exponent - count,
    {
        proof {
            lemma_pow2_unfold((count + 1) as nat);
            lemma_pow2_monotone((count + 1) as nat, 127);
            lemma2_to64_rest();
            lemma_pow2_adds(63, 64);
        }
        result = result * 2;
        count = count + 1;
    }
    result
}

/// The number of bits up to the highest one that is set.
fn bit_length(value: u128) -> (length: u32)
    requires
        value > 0,
    ensures
        0 < length <= 128,
        pow2((length - 1) as nat) <= value < pow2(length as nat),
{
    let mut rest: u128 = value;
    let mut length: u32 = 0;
    proof {
        lemma2_to64();
        lemma2_to64_rest();
        lemma_pow2_adds(64, 64);
        assert(value < (rest + 1) * pow2(0)) by (nonlinear_arith)
            requires
                rest == value,
                pow2(0) == 1,
        ;
    }
    while rest > 0
        invariant
            value > 0,
            length == 0 ==> rest == value,
            rest * pow2(length as nat) <= value < (rest + 1) * pow2(length as nat),
            length > 0 ==> pow2((length - 1) as nat) <= value,
            pow2(128) == 0x1_0000_0000_0000_0000_0000_0000_0000_0000,
            length <= 128,
        decreases rest,
    {
        proof {
            let place = pow2(length as nat);
            lemma_pow2_unfold((length + 1) as nat);
            lemma_pow2_pos(length as nat);
            let half = (rest / 2) as nat;
            assert(place <= value) by (nonlinear_arith)
                requires
                    rest * place <= value,
                    rest >= 1,
            ;
            if length == 128 {
                assert(false);
            }
            assert(half * (2 * place) <= rest * place) by (nonlinear_arith)
                requires
                    2 * half <= rest,
                    place > 0,
            ;
            assert((rest + 1) * place <= (half + 1) * (2 * place)) by (nonlinear_arith)
                requires
                    rest <= 2 * half + 1,
                    place > 0,
            ;
        }
        rest = rest / 2;
        length = length + 1;
    }
    assert((rest + 1) * pow2(length as nat) == pow2(length as nat)) by (nonlinear_arith)
        requires
            rest == 0,
    ;
    length
}

/// What the packed exponent and significand mean, also where the significand has just grown by
/// one bit.
proof fn lemma_packed(negative: bool, significand: nat, exponent: nat)
    requires
        significand <= 0x100_0000,
        exponent <= 253,
        exponent == 0 || significand >= 0x80_0000,
    ensures
        decode(
            ((if negative {
                SIGN as int
            } else {
                0
            }) + exponent * FRACTION + significand) as u32,
        ) == (if significand * pow2(exponent) < pow2(overflow_exponent()) {
            Float::Finite { negative, magnitude: significand * pow2(exponent) }
        } else {
            Float::Infinite { negative }
        }),
{
    lemma2_to64();
    lemma_pow2_adds(24, 253);
    lemma_pow2_pos(exponent);
    let unit = pow2(exponent);
    let sign: int = if negative {
        SIGN as int
    } else {
        0
    };
    let bits = (sign + exponent * FRACTION + significand) as u32;
    assert(bits == sign + exponent * FRACTION + significand);
    assert(pow2(277) == 0x100_0000 * pow2(253)) by (nonlinear_arith)
        requires
            pow2(277) == pow2(24) * pow2(253),
            pow2(24) == 0x100_0000,
    ;
    let field = (bits as nat / 0x80_0000) % 0x100;
    let fraction = bits as nat % 0x80_0000;
    if significand < 0x80_0000 {
        assert(field == 0 && fraction == significand);
        lemma_pow2_monotone(24, 277);
        assert(significand * unit == significand) by (nonlinear_arith)
            requires
                unit == 1,
        ;
    } else if significand < 0x100_0000 {
        assert(field == exponent + 1 && fraction == significand - 0x80_0000);
        lemma_pow2_monotone(exponent, 253);
        assert(significand * unit < 0x100_0000 * pow2(253)) by (nonlinear_arith)
            requires
                significand < 0x100_0000,
                0 < unit <= pow2(253),
        ;
        assert(decode(bits) == (Float::Finite { negative, magnitude: significand * unit }));
    } else {
        assert(significand * unit == 0x100_0000 * unit);
        lemma_pow2_unfold((exponent + 1) as nat);
        if exponent < 253 {
            assert(field == exponent + 2 && fraction == 0);
            lemma_pow2_monotone((exponent + 1) as nat, 253);
            assert((0x80_0000 + fraction) * pow2((field - 1) as nat) == 0x80_0000 * (2 * unit))
                by (nonlinear_arith)
                requires
                    fraction == 0,
                    pow2((field - 1) as nat) == 2 * unit,
            ;
            assert(decode(bits) == (Float::Finite { negative, magnitude: significand * unit }));
        } else {
            assert(field == 0xff && fraction == 0);
            assert(decode(bits) == (Float::Infinite { negative }));
        }
    }
}

proof fn lemma_infinity(negative: bool)
    ensures
        decode(
            ((if negative {
                SIGN as int
            } else {
                0
            }) + INFINITY) as u32,
        ) == (Float::Infinite { negative }),
{
}

/// A number whose spacing is beyond the last one of the format rounds to infinity.
proof fn lemma_overflow(twice: nat, whole: bool)
    requires
        spacing(twice) > 253,
    ensures
        nearest(twice, whole) >= pow2(overflow_exponent()),
{
    let unit = pow2(spacing(twice));
    lemma_spacing_bounds(twice);
    lemma2_to64();
    lemma_pow2_pos(spacing(twice));
    lemma_pow2_adds(24, spacing(twice));
    lemma_fundamental_div_mod(twice as int, (2 * unit) as int);
    lemma_mod_bound(twice as int, (2 * unit) as int);
    let below = twice / (2 * unit);
    assert(below >= 0x80_0000) by (nonlinear_arith)
        requires
            0x100_0000 * unit <= twice,
            twice == (2 * unit) * below + twice % (2 * unit),
            twice % (2 * unit) < 2 * unit,
            unit > 0,
    ;
    assert(below * unit >= 0x80_0000 * unit && (below + 1) * unit >= 0x80_0000 * unit)
        by (nonlinear_arith)
        requires
            below >= 0x80_0000,
            unit > 0,
    ;
    lemma_pow2_adds(23, spacing(twice));
    lemma_pow2_monotone(277, (23 + spacing(twice)) as nat);
}

/// How many bits of a significand are left where `drop` of them go.
proof fn lemma_dropped_length(significand: nat, length: nat, drop: nat, quotient: nat)
    requires
        length > 0,
        length <= drop + 25,
        pow2((length - 1) as nat) <= significand < pow2(length),
        quotient == significand / pow2(drop),
    ensures
        quotient < 0x200_0000,
        length == drop + 25 ==> quotient >= 0x100_0000,
{
    let place = pow2(drop);
    lemma2_to64();
    lemma_pow2_pos(drop);
    lemma_pow2_adds(25, drop);
    lemma_pow2_adds(24, drop);
    lemma_pow2_monotone(length, (drop + 25) as nat);
    lemma_fundamental_div_mod(significand as int, place as int);
    lemma_mod_bound(significand as int, place as int);
    assert(quotient < 0x200_0000) by (nonlinear_arith)
        requires
            significand == place * quotient + significand % place,
            significand % place >= 0,
            significand < 0x200_0000 * place,
            place > 0,
    ;
    if length == drop + 25 {
        assert(quotient >= 0x100_0000) by (nonlinear_arith)
            requires
                significand == place * quotient + significand % place,
                significand % place < place,
                significand >= 0x100_0000 * place,
                place > 0,
        ;
    }
}

/// Rounds half of a shifted number to a whole number of places that the format has around it.
fn keep(
    significand: u128,
    length: u32,
    exponent: i32,
    exact: bool,
    kept_exponent: i32,
    Ghost(twice): Ghost<nat>,
    Ghost(whole): Ghost<bool>,
) -> (kept: u32)
    requires
        0 < length <= 128,
        pow2((length - 1) as nat) <= significand < pow2(length as nat),
        -1000 <= exponent <= 1000,
        0 <= kept_exponent <= 253,
        kept_exponent == (if length + exponent > 25 {
            length + exponent - 25
        } else {
            0
        }),
        kept_exponent == spacing(twice),
        !exact ==> significand >= 0x200_0000,
        describes(significand as nat, exponent as int, exact, twice, whole),
    ensures
        kept <= 0x100_0000,
        kept_exponent == 0 || kept >= 0x80_0000,
        nearest(twice, whole) == kept * pow2(kept_exponent as nat),
{
    proof {
        lemma2_to64();
        if length <= 25 {
            lemma_pow2_monotone(length as nat, 25);
        }
    }
    let kept: u32;
    let drop: i32 = kept_exponent - exponent;
    if drop < 0 {
        let shift: u32 = (-1 - drop) as u32;
        proof {
            lemma_nearest_of_kept(significand as nat, exponent as int, twice, whole);
            lemma_pow2_adds(length as nat, shift as nat);
            lemma_pow2_adds((length - 1) as nat, shift as nat);
            lemma_pow2_monotone((length + shift) as nat, 24);
            let place = pow2(shift as nat);
            lemma_pow2_pos(shift as nat);
            let top = pow2(length as nat);
            let half = pow2((length - 1) as nat);
            assert(half * place <= significand * place < top * place) by (nonlinear_arith)
                requires
                    half <= significand < top,
                    place > 0,
            ;
        }
        kept = (significand * power(shift)) as u32;
    } else if drop > 127 {
        proof {
            lemma_pow2_monotone(length as nat, drop as nat);
            assert((2 * 0 + 0) * pow2(drop as nat) == 0) by (nonlinear_arith);
            lemma_nearest_of_dropped(
                significand as nat,
                exponent as int,
                exact,
                twice,
                whole,
                0,
                0,
                significand as nat,
            );
        }
        kept = 0;
    } else {
        let place: u128 = power(drop as u32);
        proof {
            lemma_pow2_pos(drop as nat);
            lemma_fundamental_div_mod(significand as int, place as int);
            lemma_mod_bound(significand as int, place as int);
            lemma_dropped_length(
                significand as nat,
                length as nat,
                drop as nat,
                (significand / place) as nat,
            );
        }
        let quotient: u32 = (significand / place) as u32;
        let low: u128 = significand % place;
        let below: u32 = quotient / 2;
        let bit: u32 = quotient % 2;
        proof {
            assert(significand == (2 * below + bit) * place + low) by (nonlinear_arith)
                requires
                    significand == place * quotient + low,
                    quotient == 2 * below + bit,
            ;
            lemma_nearest_of_dropped(
                significand as nat,
                exponent as int,
                exact,
                twice,
                whole,
                below as nat,
                bit as nat,
                low as nat,
            );
        }
        kept = if bit == 1 && (low != 0 || !exact || below % 2 == 1) { below + 1 } else { below };
    }
    kept
}

/// Rounds half of a shifted number to the format.
fn assemble(
    negative: bool,
    significand: u128,
    exponent: i32,
    exact: bool,
    Ghost(twice): Ghost<nat>,
    Ghost(whole): Ghost<bool>,
) -> (result: F32)
    requires
        -1000 <= exponent <= 1000,
        significand == 0 ==> exact,
        !exact ==> significand >= 0x200_0000,
        describes(significand as nat, exponent as int, exact, twice, whole),
    ensures
        result@ == round(negative, twice, whole),
{
    let sign: u32 = if negative { SIGN } else { 0 };
    if significand == 0 {
        proof {
            lemma2_to64();
            lemma_pow2_pos(277);
            lemma_packed(negative, 0, 0);
            if exponent < 0 {
                lemma_pow2_pos((-exponent) as nat);
            }
        }
        return F32 { bits: sign };
    }
    let length: u32 = bit_length(significand);
    let reach: i32 = length as i32 + exponent;
    let kept_exponent: i32 = if reach > 25 { reach - 25 } else { 0 };
    proof {
        lemma_spacing_of_shifted(
            significand as nat,
            length as nat,
            exponent as int,
            exact,
            twice,
            whole,
        );
        lemma2_to64();
    }
    if kept_exponent > 253 {
        proof {
            lemma_overflow(twice, whole);
            lemma_infinity(negative);
        }
        return F32 { bits: sign + INFINITY };
    }
    let kept: u32 = keep(
        significand,
        length,
        exponent,
        exact,
        kept_exponent,
        Ghost(twice),
        Ghost(whole),
    );
    proof {
        lemma_packed(negative, kept as nat, kept_exponent as nat);
    }
    F32 { bits: sign + kept_exponent as u32 * FRACTION + kept }
}

/// A number taken apart.
enum Parts {
    Nan,
    Infinite { negative: bool },
    Finite { negative: bool, significand: u32, exponent: u32 },
}

impl Parts {
    spec fn value(self) -> Float {
        match self {
            Parts::Nan => Float::Nan,
            Parts::Infinite { negative } => Float::Infinite { negative },
            Parts::Finite { negative, significand, exponent } => Float::Finite {
                negative,
                magnitude: significand as nat * pow2(exponent as nat),
            },
        }
    }

    spec fn in_range(self) -> bool {
        match self {
            Parts::Finite { significand, exponent, .. } => {
                &&& significand < 0x100_0000
                &&& exponent <= 253
                &&& exponent == 0 || significand >= 0x80_0000
            },
            _ => true,
        }
    }
}

fn signed_infinity(negative: bool) -> (result: F32)
    ensures
        result@ == (Float::Infinite { negative }),
{
    proof {
        lemma_infinity(negative);
    }
    F32 { bits: if negative { SIGN + INFINITY } else { INFINITY } }
}

fn signed_zero(negative: bool) -> (result: F32)
    ensures
        result@ == (Float::Finite { negative, magnitude: 0 }),
{
    F32 { bits: if negative { SIGN } else { 0 } }
}

fn not_a_number() -> (result: F32)
    ensures
        result@ is Nan,
{
    F32 { bits: NOT_A_NUMBER }
}

/// The sum of two finite numbers, of which the first has the greater exponent.
fn sum_of_parts(
    negative_a: bool,
    a: u32,
    exponent_a: u32,
    negative_b: bool,
    b: u32,
    exponent_b: u32,
) -> (result: F32)
    requires
        a < 0x100_0000,
        b < 0x100_0000,
        exponent_b <= exponent_a <= 253,
        exponent_a == 0 || a >= 0x80_0000,
    ensures
        result@ == (Float::Finite {
            negative: negative_a,
            magnitude: a as nat * pow2(exponent_a as nat),
        }).plus(
            Float::Finite { negative: negative_b, magnitude: b as nat * pow2(exponent_b as nat) },
        ),
{
    let ghost unit = pow2(exponent_b as nat);
    let ghost first = (Float::Finite {
        negative: negative_a,
        magnitude: a as nat * pow2(exponent_a as nat),
    });
    let ghost second = (Float::Finite { negative: negative_b, magnitude: b as nat * unit });
    let ghost sum = first.units() + second.units();
    proof {
        lemma2_to64();
        lemma2_to64_rest();
        lemma_pow2_pos(exponent_b as nat);
        lemma_zero_product(a as nat, exponent_a as nat);
        lemma_zero_product(b as nat, exponent_b as nat);
    }
    let gap: u32 = exponent_a - exponent_b;
    if gap <= 64 {
        let place: u128 = power(gap);
        proof {
            lemma_pow2_monotone(gap as nat, 64);
            assert(a * place <= 0x100_0000 * 0x1_0000_0000_0000_0000) by (nonlinear_arith)
                requires
                    a < 0x100_0000,
                    place <= 0x1_0000_0000_0000_0000,
            ;
            lemma_pow2_adds(gap as nat, exponent_b as nat);
            assert((a * place) * unit == a * (place * unit)) by (nonlinear_arith);
        }
        let wide: u128 = a as u128 * place;
        let (negative, total): (bool, u128) = if negative_a == negative_b {
            (negative_a, wide + b as u128)
        } else if wide >= b as u128 {
            (negative_a, wide - b as u128)
        } else {
            (negative_b, b as u128 - wide)
        };
        proof {
            let w = wide as int;
            let v = b as int;
            assert((w + v) * unit == w * unit + v * unit) by (nonlinear_arith);
            assert((w - v) * unit == w * unit - v * unit) by (nonlinear_arith);
            assert((v - w) * unit == v * unit - w * unit) by (nonlinear_arith);
            lemma_zero_product(total as nat, exponent_b as nat);
            assert(size(sum) == total * unit);
        }
        if total == 0 {
            return signed_zero(negative_a && negative_b);
        }
        proof {
            lemma_pow2_unfold((exponent_b + 1) as nat);
            let t = total as nat;
            assert(2 * (t * unit) == t * (2 * unit)) by (nonlinear_arith);
            assert((t + 1) * (2 * unit) == t * (2 * unit) + 2 * unit) by (nonlinear_arith);
            assert(negative == (sum < 0));
        }
        assemble(
            negative,
            total,
            exponent_b as i32 + 1,
            true,
            Ghost(2 * size(sum)),
            Ghost(true),
        )
    } else {
        let wide: u128 = a as u128 * 0x100_0000_0000;
        if b == 0 {
            proof {
                lemma_wide_sum(a as nat, exponent_a as nat, 0, exponent_b as nat);
            }
            return assemble(
                negative_a,
                wide,
                exponent_a as i32 - 39,
                true,
                Ghost(2 * size(sum)),
                Ghost(true),
            );
        }
        let total: u128 = if negative_a == negative_b { wide } else { wide - 1 };
        proof {
            lemma_wide_sum(a as nat, exponent_a as nat, b as nat, exponent_b as nat);
        }
        assemble(
            negative_a,
            total,
            exponent_a as i32 - 39,
            false,
            Ghost(2 * size(sum)),
            Ghost(true),
        )
    }
}

/// How a number lies that is widened by 40 places and has another one, too small to reach those
/// places, added to it or taken from it.
proof fn lemma_wide_sum(a: nat, exponent_a: nat, b: nat, exponent_b: nat)
    requires
        0x80_0000 <= a < 0x100_0000,
        b < 0x100_0000,
        exponent_a > exponent_b + 64,
    ensures
        ({
            let wide = a * 0x100_0000_0000;
            let big = a * pow2(exponent_a);
            let small = b * pow2(exponent_b);
            let exponent = exponent_a - 39;
            &&& b == 0 ==> describes(wide, exponent, true, 2 * big, true)
            &&& b > 0 ==> describes(wide, exponent, false, (2 * (big + small)) as nat, true)
            &&& b > 0 ==> describes(
                (wide - 1) as nat,
                exponent,
                false,
                (2 * (big - small)) as nat,
                true,
            )
            &&& small < big
        }),
{
    let wide = a * 0x100_0000_0000;
    let big = a * pow2(exponent_a);
    let small = b * pow2(exponent_b);
    let place = pow2((exponent_a - 39) as nat);
    let unit = pow2(exponent_b);
    lemma2_to64();
    lemma2_to64_rest();
    lemma_pow2_adds(40, (exponent_a - 39) as nat);
    lemma_pow2_unfold((exponent_a + 1) as nat);
    lemma_pow2_pos((exponent_a - 39) as nat);
    lemma_pow2_pos(exponent_b);
    lemma_pow2_adds(25, exponent_b);
    lemma_pow2_monotone((25 + exponent_b) as nat, (exponent_a - 39) as nat);
    assert(wide * place == a * (0x100_0000_0000 * place)) by (nonlinear_arith)
        requires
            wide == a * 0x100_0000_0000,
    ;
    assert(2 * (a * pow2(exponent_a)) == a * (2 * pow2(exponent_a))) by (nonlinear_arith);
    assert(2 * big == wide * place);
    assert((wide + 1) * place == wide * place + place) by (nonlinear_arith);
    assert((wide - 1) * place == wide * place - place) by (nonlinear_arith);
    assert(2 * (b * unit) < 0x200_0000 * unit) by (nonlinear_arith)
        requires
            b < 0x100_0000,
            unit > 0,
    ;
    assert((b * unit > 0) == (b > 0)) by (nonlinear_arith)
        requires
            unit > 0,
    ;
    assert(wide * place >= place) by (nonlinear_arith)
        requires
            wide >= 1,
            place > 0,
    ;
}

proof fn lemma_zero_product(significand: nat, exponent: nat)
    ensures
        (significand * pow2(exponent) == 0) == (significand == 0),
{
    lemma_pow2_pos(exponent);
    let place = pow2(exponent);
    assert((significand * place == 0) == (significand == 0)) by (nonlinear_arith)
        requires
            place > 0,
            significand >= 0,
    ;
}

/// The product of two finite numbers.
fn product_of_parts(negative: bool, a: u32, exponent_a: u32, b: u32, exponent_b: u32) -> (result:
    F32)
    requires
        a < 0x100_0000,
        b < 0x100_0000,
        exponent_a <= 253,
        exponent_b <= 253,
    ensures
        result@ == round_fraction(
            negative,
            (a as nat * pow2(exponent_a as nat)) * (b as nat * pow2(exponent_b as nat)),
            pow2(one_exponent()),
        ),
{
    assert(a * b <= 0x100_0000 * 0x100_0000) by (nonlinear_arith)
        requires
            a < 0x100_0000,
            b < 0x100_0000,
    ;
    let product: u128 = a as u128 * b as u128;
    let ghost raised = (exponent_a + exponent_b + 1) as nat;
    let ghost twice = (product as nat * pow2(raised)) / (1 * pow2(149));
    let ghost whole = (product as nat * pow2(raised)) % (1 * pow2(149)) == 0;
    proof {
        lemma2_to64();
        let pa = pow2(exponent_a as nat);
        let pb = pow2(exponent_b as nat);
        lemma_pow2_adds(exponent_a as nat, exponent_b as nat);
        lemma_pow2_unfold(raised);
        assert(product as nat * (2 * (pa * pb)) == 2 * ((a as nat * pa) * (b as nat * pb)))
            by (nonlinear_arith)
            requires
                product == a * b,
        ;
        lemma_quotient_described(product as nat, 1, 0, raised, 149);
        assert(product * pow2(0) == product) by (nonlinear_arith)
            requires
                pow2(0) == 1,
        ;
    }
    assemble(
        negative,
        product,
        exponent_a as i32 + exponent_b as i32 - 148,
        true,
        Ghost(twice),
        Ghost(whole),
    )
}

/// The quotient of two finite numbers, of which the second is not zero.
fn quotient_of_parts(negative: bool, a: u32, exponent_a: u32, b: u32, exponent_b: u32) -> (result:
    F32)
    requires
        b > 0,
        exponent_a <= 253,
        exponent_b <= 253,
    ensures
        result@ == round_fraction(
            negative,
            (a as nat * pow2(exponent_a as nat)) * pow2(one_exponent()),
            b as nat * pow2(exponent_b as nat),
        ),
{
    let wide: u128 = a as u128 * 0x1_0000_0000_0000_0000;
    let quotient: u128 = wide / b as u128;
    let exact: bool = wide % b as u128 == 0;
    let ghost raised = (exponent_a + 150) as nat;
    let ghost below = b as nat * pow2(exponent_b as nat);
    let ghost twice = (a as nat * pow2(raised)) / below;
    let ghost whole = (a as nat * pow2(raised)) % below == 0;
    proof {
        lemma2_to64();
        lemma2_to64_rest();
        let pa = pow2(exponent_a as nat);
        let one = pow2(149);
        lemma_pow2_adds(exponent_a as nat, 149);
        lemma_pow2_unfold(raised);
        assert(a as nat * (2 * (pa * one)) == 2 * ((a as nat * pa) * one)) by (nonlinear_arith);
        lemma_quotient_described(a as nat, b as nat, 64, raised, exponent_b as nat);
        lemma_fundamental_div_mod(wide as int, b as int);
        lemma_mod_bound(wide as int, b as int);
        if a == 0 {
            assert(quotient == 0 && exact);
        } else {
            assert(quotient >= 0x200_0000) by (nonlinear_arith)
                requires
                    wide == b * quotient + wide % b as u128,
                    wide % (b as u128) < b,
                    wide >= 0x1_0000_0000_0000_0000,
                    0 < b < 0x1_0000_0000,
            ;
        }
    }
    assemble(
        negative,
        quotient,
        exponent_a as i32 - exponent_b as i32 + 86,
        exact,
        Ghost(twice),
        Ghost(whole),
    )
}

/// The whole root of a number below two to the power 86.
fn integer_root(value: u128) -> (root: u128)
    requires
        value < 0x40_0000_0000_0000_0000_0000,
    ensures
        root < 0x800_0000_0000,
        is_root(value as nat, root as nat),
{
    let mut low: u128 = 0;
    let mut high: u128 = 0x800_0000_0000;
    while high - low > 1
        invariant
            low < high <= 0x800_0000_0000,
            low * low <= value < high * high,
        decreases high - low,
    {
        let middle: u128 = low + (high - low) / 2;
        assert(middle * middle <= 0x800_0000_0000 * 0x800_0000_0000) by (nonlinear_arith)
            requires
                middle <= 0x800_0000_0000,
        ;
        if middle * middle <= value {
            low = middle;
        } else {
            high = middle;
        }
    }
    low
}

/// The square root of a finite number above zero.
fn root_of_parts(significand: u32, exponent: u32) -> (result: F32)
    requires
        0 < significand < 0x100_0000,
        exponent <= 253,
    ensures
        result@ == (Float::Finite {
            negative: false,
            magnitude: significand as nat * pow2(exponent as nat),
        }).sqrt(),
{
    let odd: bool = exponent % 2 == 1;
    let value: u128 = if odd {
        significand as u128 * 0x1000_0000_0000_0000
    } else {
        significand as u128 * 0x2000_0000_0000_0000
    };
    let half: u32 = if odd { (exponent + 91) / 2 } else { (exponent + 90) / 2 };
    let root: u128 = integer_root(value);
    assert(root * root <= value);
    let exact: bool = root * root == value;
    let ghost magnitude = significand as nat * pow2(exponent as nat);
    let ghost square = 4 * (magnitude * pow2(149));
    let ghost twice = whole_root(square);
    proof {
        let shift: nat = if odd {
            60
        } else {
            61
        };
        lemma2_to64();
        lemma2_to64_rest();
        assert(root >= 0x200_0000) by (nonlinear_arith)
            requires
                value < (root + 1) * (root + 1),
                value >= 0x1000_0000_0000_0000,
        ;
        lemma_root_described(value as nat, root as nat, half as nat);
        assert(shift + 2 * half == exponent + 151);
        lemma_pow2_adds(shift, (2 * half) as nat);
        lemma_pow2_adds(exponent as nat, 149);
        lemma_pow2_adds(2, (exponent + 149) as nat);
        let pe = pow2(exponent as nat);
        let one = pow2(149);
        let ps = pow2(shift);
        let ph = pow2((2 * half) as nat);
        assert((significand * ps) * ph == significand * (ps * ph)) by (nonlinear_arith);
        assert(4 * ((significand * pe) * one) == significand * (4 * (pe * one)))
            by (nonlinear_arith);
        assert(value == significand * ps);
        lemma_zero_product(significand as nat, exponent as nat);
    }
    assemble(
        false,
        root,
        half as i32,
        exact,
        Ghost(twice),
        Ghost(twice * twice == square),
    )
}

/// A greater exponent makes a greater number.
proof fn lemma_greater_exponent(a: nat, exponent_a: nat, b: nat, exponent_b: nat)
    requires
        a < 0x100_0000,
        b >= 0x80_0000,
        exponent_a < exponent_b,
    ensures
        a * pow2(exponent_a) < b * pow2(exponent_b),
{
    let low = pow2(exponent_a);
    let high = pow2(exponent_b);
    lemma_pow2_unfold((exponent_a + 1) as nat);
    lemma_pow2_monotone((exponent_a + 1) as nat, exponent_b);
    lemma_pow2_pos(exponent_a);
    assert(a * low < b * high) by (nonlinear_arith)
        requires
            a < 0x100_0000,
            b >= 0x80_0000,
            high >= 2 * low,
            low > 0,
    ;
}

/// Whether the first of two finite numbers has the smaller size.
fn smaller(a: u32, exponent_a: u32, b: u32, exponent_b: u32) -> (result: bool)
    requires
        a < 0x100_0000,
        b < 0x100_0000,
        exponent_a == 0 || a >= 0x80_0000,
        exponent_b == 0 || b >= 0x80_0000,
    ensures
        result == (a as nat * pow2(exponent_a as nat) < b as nat * pow2(exponent_b as nat)),
{
    if exponent_a < exponent_b {
        proof {
            lemma_greater_exponent(a as nat, exponent_a as nat, b as nat, exponent_b as nat);
        }
        true
    } else if exponent_a > exponent_b {
        proof {
            lemma_greater_exponent(b as nat, exponent_b as nat, a as nat, exponent_a as nat);
        }
        false
    } else {
        proof {
            let place = pow2(exponent_a as nat);
            lemma_pow2_pos(exponent_a as nat);
            assert((a * place < b * place) == (a < b)) by (nonlinear_arith)
                requires
                    place > 0,
            ;
        }
        a < b
    }
}

impl F32 {
    /// The number with this bit pattern.
    pub fn from_bits(bits: u32) -> (result: F32)
        ensures
            result.bits == bits,
            result@ == decode(bits),
    {
        F32 { bits }
    }

    /// The bit pattern.
    pub fn to_bits(self) -> (bits: u32)
        ensures
            bits == self.bits,
            self@ == decode(bits),
    {
        self.bits
    }

    fn parts(self) -> (parts: Parts)
        ensures
            parts.in_range(),
            parts.value() == self@,
    {
        let negative: bool = self.bits >= SIGN;
        let exponent: u32 = (self.bits / FRACTION) % 0x100;
        let fraction: u32 = self.bits % FRACTION;
        if exponent == 0xff {
            if fraction == 0 {
                Parts::Infinite { negative }
            } else {
                Parts::Nan
            }
        } else if exponent == 0 {
            proof {
                lemma2_to64();
                assert(fraction * pow2(0) == fraction) by (nonlinear_arith)
                    requires
                        pow2(0) == 1,
                ;
            }
            Parts::Finite { negative, significand: fraction, exponent: 0 }
        } else {
            Parts::Finite { negative, significand: FRACTION + fraction, exponent: exponent - 1 }
        }
    }

    /// The number zero.
    pub fn zero() -> (result: F32)
        ensures
            result@ == Float::zero(),
    {
        signed_zero(false)
    }

    /// The number nearest to `numerator / denominator`.
    pub fn ratio(numerator: u32, denominator: u32) -> (result: F32)
        requires
            denominator > 0,
        ensures
            result@ == Float::ratio(numerator as nat, denominator as nat),
    {
        proof {
            lemma2_to64();
            assert(numerator * pow2(0) == numerator && denominator * pow2(0) == denominator)
                by (nonlinear_arith)
                requires
                    pow2(0) == 1,
            ;
        }
        quotient_of_parts(false, numerator, 0, denominator, 0)
    }

    /// The opposite number.
    pub fn negated(self) -> (result: F32)
        ensures
            result@ == self@.negated(),
    {
        if self.bits >= SIGN {
            F32 { bits: self.bits - SIGN }
        } else {
            F32 { bits: self.bits + SIGN }
        }
    }

    /// The sum.
    pub fn plus(self, other: F32) -> (result: F32)
        ensures
            result@ == self@.plus(other@),
    {
        match (self.parts(), other.parts()) {
            (Parts::Nan, _) => not_a_number(),
            (_, Parts::Nan) => not_a_number(),
            (Parts::Infinite { negative: a }, Parts::Infinite { negative: b }) => if a == b {
                self
            } else {
                not_a_number()
            },
            (Parts::Infinite { .. }, _) => self,
            (_, Parts::Infinite { .. }) => other,
            (
                Parts::Finite { negative: na, significand: sa, exponent: ea },
                Parts::Finite { negative: nb, significand: sb, exponent: eb },
            ) => if ea >= eb {
                sum_of_parts(na, sa, ea, nb, sb, eb)
            } else {
                sum_of_parts(nb, sb, eb, na, sa, ea)
            },
        }
    }

    /// The difference.
    pub fn minus(self, other: F32) -> (result: F32)
        ensures
            result@ == self@.minus(other@),
    {
        self.plus(other.negated())
    }

    /// The product.
    pub fn times(self, other: F32) -> (result: F32)
        ensures
            result@ == self@.times(other@),
    {
        match (self.parts(), other.parts()) {
            (Parts::Nan, _) => not_a_number(),
            (_, Parts::Nan) => not_a_number(),
            (
                Parts::Finite { negative: na, significand: sa, exponent: ea },
                Parts::Finite { negative: nb, significand: sb, exponent: eb },
            ) => product_of_parts(na != nb, sa, ea, sb, eb),
            (Parts::Infinite { negative: a }, Parts::Infinite { negative: b }) => signed_infinity(
                a != b,
            ),
            (
                Parts::Infinite { negative: a },
                Parts::Finite { negative: b, significand, exponent },
            ) => {
                proof {
                    lemma_zero_product(significand as nat, exponent as nat);
                }
                if significand == 0 {
                    not_a_number()
                } else {
                    signed_infinity(a != b)
                }
            },
            (
                Parts::Finite { negative: a, significand, exponent },
                Parts::Infinite { negative: b },
            ) => {
                proof {
                    lemma_zero_product(significand as nat, exponent as nat);
                }
                if significand == 0 {
                    not_a_number()
                } else {
                    signed_infinity(a != b)
                }
            },
        }
    }

    /// The quotient.
    pub fn over(self, other: F32) -> (result: F32)
        ensures
            result@ == self@.over(other@),
    {
        match (self.parts(), other.parts()) {
            (Parts::Nan, _) => not_a_number(),
            (_, Parts::Nan) => not_a_number(),
            (Parts::Infinite { .. }, Parts::Infinite { .. }) => not_a_number(),
            (Parts::Infinite { negative: a }, Parts::Finite { negative: b, .. }) => signed_infinity(
                a != b,
            ),
            (Parts::Finite { negative: a, .. }, Parts::Infinite { negative: b }) => signed_zero(
                a != b,
            ),
            (
                Parts::Finite { negative: na, significand: sa, exponent: ea },
                Parts::Finite { negative: nb, significand: sb, exponent: eb },
            ) => {
                proof {
                    lemma_zero_product(sa as nat, ea as nat);
                    lemma_zero_product(sb as nat, eb as nat);
                }
                if sb == 0 {
                    if sa == 0 {
                        not_a_number()
                    } else {
                        signed_infinity(na != nb)
                    }
                } else {
                    quotient_of_parts(na != nb, sa, ea, sb, eb)
                }
            },
        }
    }

    /// The square root.
    pub fn sqrt(self) -> (result: F32)
        ensures
            result@ == self@.sqrt(),
    {
        match self.parts() {
            Parts::Nan => not_a_number(),
            Parts::Infinite { negative } => if negative {
                not_a_number()
            } else {
                self
            },
            Parts::Finite { negative, significand, exponent } => {
                proof {
                    lemma_zero_product(significand as nat, exponent as nat);
                }
                if significand == 0 {
                    self
                } else if negative {
                    not_a_number()
                } else {
                    root_of_parts(significand, exponent)
                }
            },
        }
    }

    /// Whether this number is less.
    pub fn lt(self, other: F32) -> (result: bool)
        ensures
            result == self@.lt(other@),
    {
        match (self.parts(), other.parts()) {
            (Parts::Nan, _) => false,
            (_, Parts::Nan) => false,
            (Parts::Infinite { negative: a }, Parts::Infinite { negative: b }) => a && !b,
            (Parts::Infinite { negative }, Parts::Finite { .. }) => negative,
            (Parts::Finite { .. }, Parts::Infinite { negative }) => !negative,
            (
                Parts::Finite { negative: na, significand: sa, exponent: ea },
                Parts::Finite { negative: nb, significand: sb, exponent: eb },
            ) => {
                proof {
                    lemma_zero_product(sa as nat, ea as nat);
                    lemma_zero_product(sb as nat, eb as nat);
                }
                if na && nb {
                    smaller(sb, eb, sa, ea)
                } else if na {
                    sa != 0 || sb != 0
                } else if nb {
                    false
                } else {
                    smaller(sa, ea, sb, eb)
                }
            },
        }
    }

    /// Whether this is no number at all.
    pub fn is_nan(self) -> (result: bool)
        ensures
            result == (self@ is Nan),
    {
        match self.parts() {
            Parts::Nan => true,
            _ => false,
        }
    }

    /// Whether this number is less or equal.
    pub fn le(self, other: F32) -> (result: bool)
        ensures
            result == self@.le(other@),
    {
        !self.is_nan() && !other.is_nan() && !other.lt(self)
    }

    /// The greater of the two, as `Float::max` has it.
    pub fn max(self, other: F32) -> (result: F32)
        ensures
            result@ == self@.max(other@),
    {
        if self.is_nan() || self.lt(other) {
            other
        } else {
            self
        }
    }

    /// This number, brought into the range from `low` to `high`.
    pub fn clamp(self, low: F32, high: F32) -> (result: F32)
        ensures
            result@ == self@.clamp(low@, high@),
    {
        if self.lt(low) {
            low
        } else if high.lt(self) {
            high
        } else {
            self
        }
    }
}

} // verus!
