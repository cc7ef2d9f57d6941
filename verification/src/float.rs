//! The mathematical model of a single-precision (IEEE 754 binary32) number and of its
//! arithmetic.
//!
//! The least positive number of the format is two to the power -149, and every finite number is
//! a whole multiple of it. The model therefore measures in that unit, and the size of a finite
//! number is a natural number. An operation computes its exact result and then takes the nearest
//! number of the format, the even one of two that are equally near.

use vstd::arithmetic::power2::pow2;
use vstd::prelude::*;

verus! {

/// The value of a single-precision number.
pub enum Float {
    /// Not a number. The bit patterns that mean this are not told apart.
    Nan,
    /// An infinity.
    Infinite { negative: bool },
    /// A finite number: `magnitude` units of two to the power -149, with a sign that zero has too.
    Finite { negative: bool, magnitude: nat },
}

/// What a bit pattern means: a sign bit, eight bits of exponent and 23 of fraction.
pub open spec fn decode(bits: u32) -> Float {
    let negative = bits >= 0x8000_0000;
    let exponent = (bits as nat / 0x80_0000) % 0x100;
    let fraction = bits as nat % 0x80_0000;
    if exponent == 0xff {
        if fraction == 0 {
            Float::Infinite { negative }
        } else {
            Float::Nan
        }
    } else if exponent == 0 {
        Float::Finite { negative, magnitude: fraction }
    } else {
        Float::Finite {
            negative,
            magnitude: (0x80_0000 + fraction) * pow2((exponent - 1) as nat),
        }
    }
}

/// How many units make up the number one, as a power of two.
pub open spec fn one_exponent() -> nat {
    149
}

/// The least magnitude that is too large for the format, as a power of two.
pub open spec fn overflow_exponent() -> nat {
    277
}

/// Whether some finite number of the format has this magnitude: 24 significant bits at most, and
/// not too large.
pub open spec fn representable(magnitude: nat) -> bool {
    &&& magnitude < pow2(overflow_exponent())
    &&& exists|significand: nat, exponent: nat|
        significand < 0x100_0000 && magnitude == #[trigger] (significand * pow2(exponent))
}

/// The spacing of the format around half of `twice`, as a power of two: the least exponent for
/// which half of `twice` has at most 24 bits in front of the point.
pub open spec fn spacing(twice: nat) -> nat
    decreases twice,
{
    if twice < 0x200_0000 {
        0
    } else {
        1 + spacing(twice / 2)
    }
}

/// The magnitude nearest to a real number, the even one of two that are equally near.
///
/// The real number comes as the whole part `twice` of its double, and with `exact` false where
/// the double has a fraction too. That decides every comparison with a whole or a half number,
/// and so all that rounding asks.
pub open spec fn nearest(twice: nat, exact: bool) -> nat {
    let unit = pow2(spacing(twice));
    let below = twice / (2 * unit);
    let rest = twice % (2 * unit);
    if rest > unit || (rest == unit && (!exact || below % 2 == 1)) {
        (below + 1) * unit
    } else {
        below * unit
    }
}

/// The number of the format that stands for a real number given as in `nearest`.
pub open spec fn round(negative: bool, twice: nat, exact: bool) -> Float {
    let magnitude = nearest(twice, exact);
    if magnitude < pow2(overflow_exponent()) {
        Float::Finite { negative, magnitude }
    } else {
        Float::Infinite { negative }
    }
}

/// The number of the format that stands for the real number `numerator / denominator` units.
pub open spec fn round_fraction(negative: bool, numerator: nat, denominator: nat) -> Float {
    round(negative, 2 * numerator / denominator, 2 * numerator % denominator == 0)
}

/// The size of an integer.
pub open spec fn size(value: int) -> nat {
    if value < 0 {
        (-value) as nat
    } else {
        value as nat
    }
}

/// The largest natural number whose square is at most `n`.
pub open spec fn is_root(n: nat, root: nat) -> bool {
    root * root <= n && n < (root + 1) * (root + 1)
}

/// The whole part of the square root.
pub open spec fn whole_root(n: nat) -> nat {
    choose|root: nat| is_root(n, root)
}

impl Float {
    /// The number zero, with the positive sign.
    pub open spec fn zero() -> Float {
        Float::Finite { negative: false, magnitude: 0 }
    }

    /// The number nearest to `numerator / denominator`, which is what a decimal numeral means.
    pub open spec fn ratio(numerator: nat, denominator: nat) -> Float {
        round_fraction(false, numerator * pow2(one_exponent()), denominator)
    }

    /// Whether this is the value of some bit pattern.
    pub open spec fn valid(self) -> bool {
        match self {
            Float::Finite { magnitude, .. } => representable(magnitude),
            _ => true,
        }
    }

    /// Whether this is zero, of either sign.
    pub open spec fn is_zero(self) -> bool {
        self matches Float::Finite { magnitude, .. } && magnitude == 0
    }

    /// Whether the sign is negative. Of what is not a number nothing is meant by it.
    pub open spec fn is_negative(self) -> bool {
        match self {
            Float::Nan => false,
            Float::Infinite { negative } => negative,
            Float::Finite { negative, .. } => negative,
        }
    }

    /// The signed count of units of a finite number.
    pub open spec fn units(self) -> int {
        match self {
            Float::Finite { negative, magnitude } => if negative {
                -magnitude
            } else {
                magnitude as int
            },
            _ => 0,
        }
    }

    /// The opposite number.
    pub open spec fn negated(self) -> Float {
        match self {
            Float::Nan => Float::Nan,
            Float::Infinite { negative } => Float::Infinite { negative: !negative },
            Float::Finite { negative, magnitude } => Float::Finite {
                negative: !negative,
                magnitude,
            },
        }
    }

    /// The sum.
    pub open spec fn plus(self, other: Float) -> Float {
        match (self, other) {
            (Float::Nan, _) => Float::Nan,
            (_, Float::Nan) => Float::Nan,
            (Float::Infinite { negative: a }, Float::Infinite { negative: b }) => if a == b {
                self
            } else {
                Float::Nan
            },
            (Float::Infinite { .. }, _) => self,
            (_, Float::Infinite { .. }) => other,
            (Float::Finite { negative: a, .. }, Float::Finite { negative: b, .. }) => {
                let sum = self.units() + other.units();
                if sum == 0 {
                    Float::Finite { negative: a && b, magnitude: 0 }
                } else {
                    round(sum < 0, 2 * size(sum), true)
                }
            },
        }
    }

    /// The difference.
    pub open spec fn minus(self, other: Float) -> Float {
        self.plus(other.negated())
    }

    /// The product.
    pub open spec fn times(self, other: Float) -> Float {
        let negative = self.is_negative() != other.is_negative();
        match (self, other) {
            (Float::Nan, _) => Float::Nan,
            (_, Float::Nan) => Float::Nan,
            (Float::Finite { magnitude: a, .. }, Float::Finite { magnitude: b, .. }) =>
                round_fraction(negative, a * b, pow2(one_exponent())),
            _ => if self.is_zero() || other.is_zero() {
                Float::Nan
            } else {
                Float::Infinite { negative }
            },
        }
    }

    /// The quotient.
    pub open spec fn over(self, other: Float) -> Float {
        let negative = self.is_negative() != other.is_negative();
        match (self, other) {
            (Float::Nan, _) => Float::Nan,
            (_, Float::Nan) => Float::Nan,
            (Float::Infinite { .. }, Float::Infinite { .. }) => Float::Nan,
            (Float::Infinite { .. }, _) => Float::Infinite { negative },
            (_, Float::Infinite { .. }) => Float::Finite { negative, magnitude: 0 },
            (Float::Finite { magnitude: a, .. }, Float::Finite { magnitude: b, .. }) => if b == 0 {
                if a == 0 {
                    Float::Nan
                } else {
                    Float::Infinite { negative }
                }
            } else {
                round_fraction(negative, a * pow2(one_exponent()), b)
            },
        }
    }

    /// The square root.
    pub open spec fn sqrt(self) -> Float {
        match self {
            Float::Nan => Float::Nan,
            Float::Infinite { negative } => if negative {
                Float::Nan
            } else {
                self
            },
            Float::Finite { negative, magnitude } => if magnitude == 0 {
                self
            } else if negative {
                Float::Nan
            } else {
                let square = 4 * (magnitude * pow2(one_exponent()));
                let root = whole_root(square);
                round(false, root, root * root == square)
            },
        }
    }

    /// Whether this number is less. Nothing is less or greater than what is not a number.
    pub open spec fn lt(self, other: Float) -> bool {
        match (self, other) {
            (Float::Nan, _) => false,
            (_, Float::Nan) => false,
            (Float::Infinite { negative: a }, Float::Infinite { negative: b }) => a && !b,
            (Float::Infinite { negative }, _) => negative,
            (_, Float::Infinite { negative }) => !negative,
            _ => self.units() < other.units(),
        }
    }

    /// Whether this number is less or equal.
    pub open spec fn le(self, other: Float) -> bool {
        self !is Nan && other !is Nan && !other.lt(self)
    }

    /// The greater of the two, or this one where they are equal. Where one of them is not a number,
    /// it is the other one.
    pub open spec fn max(self, other: Float) -> Float {
        if self is Nan || self.lt(other) {
            other
        } else {
            self
        }
    }

    /// This number, brought into the range from `low` to `high`. What is not a number stays so.
    pub open spec fn clamp(self, low: Float, high: Float) -> Float {
        if self.lt(low) {
            low
        } else if high.lt(self) {
            high
        } else {
            self
        }
    }
}

} // verus!
