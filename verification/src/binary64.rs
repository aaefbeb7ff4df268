//! IEEE 754 binary64 values, held by their bit pattern.
//!
//! Probabilities and probability masses travel through this library as the
//! 64 bits of a double-precision number: one sign bit, then eleven exponent
//! bits and fifty-two fraction bits, which together form the magnitude.
//! What the test needs of such a number is exact: the total order and the
//! numeric order, negation, and rounding to a whole number. Each is defined
//! on the pattern with integer arithmetic alone and proved here. Arithmetic
//! that rounds, such as a sum or a product, is no part of this library.
use vstd::arithmetic::power2::{
    lemma2_to64, lemma2_to64_rest, lemma_pow2_pos, lemma_pow2_strictly_increases,
    lemma_pow2_unfold, pow2,
};
use vstd::prelude::*;

verus! {

/// The sign bit of a binary64 pattern.
pub const SIGN_BIT: u64 = 0x8000_0000_0000_0000;

/// The magnitude of an infinity; every larger magnitude is a NaN.
pub const INFINITY_MAGNITUDE: u64 = 0x7FF0_0000_0000_0000;

/// The bit pattern of the number one.
pub const ONE_BITS: u64 = 0x3FF0_0000_0000_0000;

/// Two to the power 52: the weight of the lowest exponent bit, and the
/// hidden leading bit of a normal significand.
pub const HIDDEN_BIT: u64 = 0x0010_0000_0000_0000;

/// The exponent field of a number whose significand counts units: the bias
/// of the format, 1023, and the 52 fraction bits.
pub const UNIT_EXPONENT: u64 = 1075;

/// A double-precision number, identified with its bit pattern.
#[derive(Debug, Clone, Copy, PartialEq, Eq, Structural)]
pub struct Binary64 {
    pub bits: u64,
}

impl View for Binary64 {
    type V = u64;

    /// The bit pattern.
    open spec fn view(&self) -> u64 {
        self.bits
    }
}

impl Binary64 {
    /// The pattern without its sign bit.
    pub open spec fn magnitude(self) -> int {
        if self@ >= SIGN_BIT {
            self@ - SIGN_BIT
        } else {
            self@ as int
        }
    }

    /// Whether the sign bit is set.
    pub open spec fn is_negative(self) -> bool {
        self@ >= SIGN_BIT
    }

    /// Whether the value is not a number.
    pub open spec fn nan(self) -> bool {
        self.magnitude() > INFINITY_MAGNITUDE
    }

    /// Whether the value is a zero, of either sign.
    pub open spec fn zero(self) -> bool {
        self.magnitude() == 0
    }

    /// The place of the value in the total order of IEEE 754: an integer that
    /// grows with the value. Negative NaNs come first, then negative
    /// infinity, the negative numbers, negative zero at `-1`, positive zero
    /// at `0`, the positive numbers, positive infinity and the positive NaNs.
    pub open spec fn order_key(self) -> int {
        if self.is_negative() {
            -1 - self.magnitude()
        } else {
            self.magnitude()
        }
    }

    /// The numeric comparison `self <= other`: false when either side is a
    /// NaN, and the two zeros are equal to each other.
    pub open spec fn at_most(self, other: Binary64) -> bool {
        &&& !self.nan()
        &&& !other.nan()
        &&& (self.order_key() <= other.order_key() || (self.zero() && other.zero()))
    }

    /// The numeric comparison `self < other`: false when either side is a
    /// NaN or when both are zeros.
    pub open spec fn below(self, other: Binary64) -> bool {
        &&& !self.nan()
        &&& !other.nan()
        &&& self.order_key() < other.order_key()
        &&& !(self.zero() && other.zero())
    }

    /// Whether the two values are numbers and equal as numbers; the two
    /// zeros are.
    pub open spec fn same_number(self, other: Binary64) -> bool {
        self.at_most(other) && other.at_most(self)
    }

    /// The value with its sign bit flipped.
    pub open spec fn negated(self) -> Binary64 {
        if self@ >= SIGN_BIT {
            Binary64 { bits: (self@ - SIGN_BIT) as u64 }
        } else {
            Binary64 { bits: (self@ + SIGN_BIT) as u64 }
        }
    }

    /// Whether the value lies in the closed interval from zero to one:
    /// zero is at most the value, and the value is at most one.
    pub open spec fn unit_interval(self) -> bool {
        (Binary64 { bits: 0 }).at_most(self) && self.at_most(Binary64 { bits: ONE_BITS })
    }

    /// The value with the given bit pattern.
    pub fn from_bits(bits: u64) -> (r: Binary64)
        ensures
            r@ == bits,
    {
        Binary64 { bits }
    }

    /// The bit pattern of the value.
    pub fn to_bits(self) -> (r: u64)
        ensures
            r == self@,
    {
        self.bits
    }

    /// Positive zero.
    pub fn zero_value() -> (r: Binary64)
        ensures
            r@ == 0,
    {
        Binary64 { bits: 0 }
    }

    /// The number one.
    pub fn one_value() -> (r: Binary64)
        ensures
            r@ == ONE_BITS,
    {
        Binary64 { bits: ONE_BITS }
    }

    /// Tells whether the value is a NaN.
    pub fn is_nan(self) -> (r: bool)
        ensures
            r == self.nan(),
    {
        let magnitude: u64 = if self.bits >= SIGN_BIT {
            self.bits - SIGN_BIT
        } else {
            self.bits
        };
        magnitude > INFINITY_MAGNITUDE
    }

    /// Tells whether the value is a zero of either sign.
    pub fn is_zero(self) -> (r: bool)
        ensures
            r == self.zero(),
    {
        self.bits == 0 || self.bits == SIGN_BIT
    }

    /// The negation: the same magnitude with the opposite sign, for every
    /// pattern, NaNs included.
    pub fn neg(self) -> (r: Binary64)
        ensures
            r == self.negated(),
    {
        if self.bits >= SIGN_BIT {
            Binary64 { bits: self.bits - SIGN_BIT }
        } else {
            Binary64 { bits: self.bits + SIGN_BIT }
        }
    }

    /// Strictly before `other` in the total order.
    pub fn total_lt(self, other: Binary64) -> (r: bool)
        ensures
            r == (self.order_key() < other.order_key()),
    {
        let self_negative = self.bits >= SIGN_BIT;
        let other_negative = other.bits >= SIGN_BIT;
        if self_negative && other_negative {
            self.bits > other.bits
        } else if self_negative {
            true
        } else if other_negative {
            false
        } else {
            self.bits < other.bits
        }
    }

    /// At the same place as `other` in the total order, which holds of
    /// identical bit patterns only.
    pub fn total_eq(self, other: Binary64) -> (r: bool)
        ensures
            r == (self.order_key() == other.order_key()),
            r == (self@ == other@),
    {
        self.bits == other.bits
    }

    /// The numeric `self <= other`.
    pub fn le(self, other: Binary64) -> (r: bool)
        ensures
            r == self.at_most(other),
    {
        if self.is_nan() || other.is_nan() {
            false
        } else if self.is_zero() && other.is_zero() {
            true
        } else {
            !other.total_lt(self)
        }
    }

    /// The numeric `self < other`.
    pub fn lt(self, other: Binary64) -> (r: bool)
        ensures
            r == self.below(other),
    {
        if self.is_nan() || other.is_nan() {
            false
        } else if self.is_zero() && other.is_zero() {
            false
        } else {
            self.total_lt(other)
        }
    }

    /// Tells whether the value is a probability: a number from zero to one,
    /// both included. A NaN is none, and negative zero is one.
    pub fn is_probability(self) -> (r: bool)
        ensures
            r == self.unit_interval(),
    {
        Binary64::zero_value().le(self) && self.le(Binary64::one_value())
    }
}

/// Two to the power `s`.
fn power_of_two(s: u64) -> (r: u64)
    requires
        s < 64,
    ensures
        r == pow2(s as nat),
{
    let mut r: u64 = 1;
    let mut i: u64 = 0;
    proof {
        lemma2_to64();
    }
    while i < s
        invariant
            i <= s < 64,
            r == pow2(i as nat),
        decreases s - i,
    {
        proof {
            lemma_pow2_unfold((i + 1) as nat);
            lemma_pow2_strictly_increases((i + 1) as nat, 64);
            lemma2_to64();
        }
        r = r * 2;
        i = i + 1;
    }
    r
}

impl Binary64 {
    /// The exponent field: the magnitude without its 52 fraction bits.
    pub open spec fn exponent_field(self) -> int {
        self.magnitude() / (HIDDEN_BIT as int)
    }

    /// The significand as a whole number: the fraction bits, and above them
    /// the hidden bit unless the exponent field is zero.
    pub open spec fn significand(self) -> int {
        if self.exponent_field() == 0 {
            self.magnitude() % (HIDDEN_BIT as int)
        } else {
            self.magnitude() % (HIDDEN_BIT as int) + HIDDEN_BIT
        }
    }

    /// The power of two that scales the significand: a finite value is, its
    /// sign aside, `significand() * 2^scale()`.
    pub open spec fn scale(self) -> int {
        if self.exponent_field() == 0 {
            1 - UNIT_EXPONENT
        } else {
            self.exponent_field() - UNIT_EXPONENT
        }
    }

    /// Whether the value is an infinity.
    pub open spec fn infinite(self) -> bool {
        self.magnitude() == INFINITY_MAGNITUDE
    }

    /// The largest whole number that the absolute value is not below.
    pub open spec fn whole_part(self) -> int {
        if self.scale() >= 0 {
            self.significand() * pow2(self.scale() as nat)
        } else {
            self.significand() / (pow2((-self.scale()) as nat) as int)
        }
    }

    /// Whether the absolute value is a whole number.
    pub open spec fn is_whole(self) -> bool {
        self.scale() >= 0 || self.significand() % (pow2((-self.scale()) as nat) as int) == 0
    }

    /// The value rounded down to a whole number and held in 64 bits as far
    /// as it fits: zero for a NaN and for every value with the sign bit set,
    /// the largest `u64` for infinity and for every number beyond it.
    pub open spec fn floor_count(self) -> u64 {
        if self.nan() || self.is_negative() {
            0
        } else if self.infinite() || self.whole_part() > u64::MAX {
            u64::MAX
        } else {
            self.whole_part() as u64
        }
    }

    /// The value rounded up to a whole number and held in 64 bits as far as
    /// it fits: zero for a NaN and for every value with the sign bit set,
    /// the largest `u64` for infinity and for every number beyond it.
    pub open spec fn ceil_count(self) -> u64 {
        if self.nan() || self.is_negative() {
            0
        } else if self.infinite() || self.whole_part() > u64::MAX {
            u64::MAX
        } else if self.is_whole() {
            self.whole_part() as u64
        } else {
            (self.whole_part() + 1) as u64
        }
    }

    /// The largest whole number not above the value, saturated to `u64`.
    pub fn floor_to_count(self) -> (r: u64)
        ensures
            r == self.floor_count(),
    {
        self.whole_counts().0
    }

    /// The smallest whole number not below the value, saturated to `u64`.
    pub fn ceil_to_count(self) -> (r: u64)
        ensures
            r == self.ceil_count(),
    {
        self.whole_counts().1
    }

    /// The value rounded down and rounded up, each saturated to `u64`.
    pub fn whole_counts(self) -> (r: (u64, u64))
        ensures
            r.0 == self.floor_count(),
            r.1 == self.ceil_count(),
            r.0 <= r.1 <= r.0 + 1,
    {
        proof {
            lemma_counts_adjacent(self);
        }
        if self.bits >= SIGN_BIT || self.is_nan() {
            return (0, 0);
        }
        if self.bits == INFINITY_MAGNITUDE {
            return (u64::MAX, u64::MAX);
        }
        let field: u64 = self.bits / HIDDEN_BIT;
        let fraction: u64 = self.bits % HIDDEN_BIT;
        let significand: u64 = if field == 0 {
            fraction
        } else {
            fraction + HIDDEN_BIT
        };
        let exponent: u64 = if field == 0 {
            1
        } else {
            field
        };
        proof {
            lemma2_to64();
            lemma2_to64_rest();
        }
        if exponent >= UNIT_EXPONENT {
            let shift: u64 = exponent - UNIT_EXPONENT;
            if shift >= 12 {
                proof {
                    if shift > 12 {
                        lemma_pow2_strictly_increases(12, shift as nat);
                    }
                    assert(significand * pow2(shift as nat) > u64::MAX) by (nonlinear_arith)
                        requires
                            significand >= 0x0010_0000_0000_0000,
                            pow2(shift as nat) >= 0x1000,
                    ;
                }
                (u64::MAX, u64::MAX)
            } else {
                let factor = power_of_two(shift);
                proof {
                    if shift < 11 {
                        lemma_pow2_strictly_increases(shift as nat, 11);
                    }
                    assert(significand * factor <= u64::MAX) by (nonlinear_arith)
                        requires
                            significand < 0x0020_0000_0000_0000,
                            factor <= 0x800,
                    ;
                }
                let whole: u64 = significand * factor;
                (whole, whole)
            }
        } else {
            let shift: u64 = UNIT_EXPONENT - exponent;
            if shift >= 53 {
                proof {
                    if shift > 53 {
                        lemma_pow2_strictly_increases(53, shift as nat);
                    }
                    let divisor = pow2(shift as nat) as int;
                    let dividend = significand as int;
                    assert(dividend / divisor == 0 && dividend % divisor == dividend)
                        by (nonlinear_arith)
                        requires
                            0 <= dividend < divisor,
                    ;
                }
                if significand == 0 {
                    (0, 0)
                } else {
                    (0, 1)
                }
            } else {
                let divisor = power_of_two(shift);
                proof {
                    lemma_pow2_pos(shift as nat);
                }
                let whole: u64 = significand / divisor;
                if significand % divisor == 0 {
                    (whole, whole)
                } else {
                    (whole, whole + 1)
                }
            }
        }
    }
}

/// Rounding up gives the same whole number as rounding down, or the next.
pub proof fn lemma_counts_adjacent(x: Binary64)
    ensures
        x.floor_count() <= x.ceil_count() <= x.floor_count() + 1,
{
    if x.scale() < 0 {
        let divisor = pow2((-x.scale()) as nat) as int;
        let dividend = x.significand();
        lemma_pow2_pos((-x.scale()) as nat);
        assert(0 <= dividend / divisor <= dividend) by (nonlinear_arith)
            requires
                0 <= dividend,
                1 <= divisor,
        ;
    }
}

/// Negation turns the numeric order round.
pub proof fn lemma_negation_reverses(a: Binary64, b: Binary64)
    ensures
        a.negated().negated() == a,
        a.negated().nan() == a.nan(),
        a.negated().order_key() == -1 - a.order_key(),
        a.negated().order_key() <= b.negated().order_key() <==> b.order_key() <= a.order_key(),
        a.negated().at_most(b.negated()) <==> b.at_most(a),
        a.negated().below(b.negated()) <==> b.below(a),
{
}

} // verus!
