//! IEEE 754 binary64 numbers, held by their bit patterns.
//!
//! A rate such as "0.1 tokens per second" reaches this crate as a binary64
//! number. The verified code never computes with rounded floating-point
//! operations: it takes a number apart into sign, exponent and fraction and
//! works with its exact value.
use vstd::arithmetic::power2::{lemma_pow2_adds, lemma_pow2_pos, lemma_pow2_strictly_increases, pow2};
use vstd::prelude::*;
use vstd::std_specs::cmp::PartialEqSpecImpl;

verus! {

/// Two to the power of 52: the number of values of the fraction field.
pub const FRACTION_SPAN: u64 = 0x10_0000_0000_0000;

/// Two to the power of 63: the weight of the sign bit.
pub const SIGN_WEIGHT: u64 = 0x8000_0000_0000_0000;

/// The exponent field of infinities and NaNs.
pub const SPECIAL_EXPONENT: u64 = 2047;

/// The value of a number is a multiple of two to the power of minus this.
pub const UNIT_EXPONENT: u64 = 1074;

/// A binary64 number.
///
/// Executable code compares values: with `==`, a NaN is equal to nothing and
/// the two zeros are equal, and [`Binary64::exceeds`] is the order. In
/// contracts, `==` is equality of the bit patterns.
#[derive(Clone, Copy, Debug)]
pub struct Binary64 {
    /// The bit pattern: sign, 11 bits of exponent, 52 bits of fraction.
    pub bits: u64,
}

impl Binary64 {
    /// The exponent field.
    pub open spec fn exponent(self) -> nat {
        ((self.bits as nat % SIGN_WEIGHT as nat) / FRACTION_SPAN as nat) as nat
    }

    /// The fraction field.
    pub open spec fn fraction(self) -> nat {
        self.bits as nat % FRACTION_SPAN as nat
    }

    /// Whether the sign bit is set.
    pub open spec fn negative(self) -> bool {
        self.bits >= SIGN_WEIGHT
    }

    /// Neither an infinity nor a NaN.
    pub open spec fn finite(self) -> bool {
        self.exponent() < SPECIAL_EXPONENT
    }

    /// Not a number.
    pub open spec fn nan(self) -> bool {
        self.exponent() == SPECIAL_EXPONENT && self.fraction() != 0
    }

    /// The integer that is scaled by a power of two to give the magnitude.
    pub open spec fn mantissa(self) -> nat {
        if self.exponent() == 0 {
            self.fraction()
        } else {
            (FRACTION_SPAN + self.fraction()) as nat
        }
    }

    /// The magnitude is `mantissa() * 2^(scale() - 1074)`.
    pub open spec fn scale(self) -> nat {
        if self.exponent() == 0 {
            0
        } else {
            (self.exponent() - 1) as nat
        }
    }

    /// The exact value, in units of two to the power of -1074. An infinity
    /// counts as plus or minus two to the power of 1024, which is beyond
    /// every finite value; what this is of a NaN has no meaning.
    pub open spec fn units(self) -> int {
        let magnitude = self.mantissa() * pow2(self.scale());
        if self.negative() {
            -magnitude
        } else {
            magnitude as int
        }
    }

    /// Whether two numbers have the same value. A NaN has none.
    pub open spec fn same_value(self, other: Binary64) -> bool {
        !self.nan() && !other.nan() && self.units() == other.units()
    }

    /// A finite number greater than zero.
    pub open spec fn positive(self) -> bool {
        self.finite() && self.units() > 0
    }

    /// The number with this bit pattern.
    pub fn from_bits(bits: u64) -> (x: Binary64)
        ensures
            x.bits == bits,
    {
        Binary64 { bits }
    }

    /// The bit pattern of the number.
    pub fn to_bits(&self) -> (bits: u64)
        ensures
            bits == self.bits,
    {
        self.bits
    }

    /// Whether the number is neither an infinity nor a NaN.
    pub fn is_finite(&self) -> (b: bool)
        ensures
            b == self.finite(),
    {
        (self.bits % SIGN_WEIGHT) / FRACTION_SPAN < SPECIAL_EXPONENT
    }

    /// Whether the number is not a number.
    pub fn is_nan(&self) -> (b: bool)
        ensures
            b == self.nan(),
    {
        (self.bits % SIGN_WEIGHT) / FRACTION_SPAN == SPECIAL_EXPONENT && self.bits % FRACTION_SPAN
            != 0
    }

    /// Whether the number is finite and greater than zero.
    pub fn is_positive(&self) -> (b: bool)
        ensures
            b == self.positive(),
    {
        proof {
            lemma_units_sign(*self);
        }
        self.is_finite() && self.bits < SIGN_WEIGHT && self.bits != 0
    }

    /// Whether `self` is greater than `other`, as numbers: a NaN is neither
    /// greater than anything nor less.
    pub fn exceeds(&self, other: &Binary64) -> (b: bool)
        ensures
            b == (!self.nan() && !other.nan() && self.units() > other.units()),
    {
        if self.is_nan() || other.is_nan() {
            return false;
        }
        let a: u64 = self.bits % SIGN_WEIGHT;
        let b: u64 = other.bits % SIGN_WEIGHT;
        proof {
            lemma_units_sign(*self);
            lemma_units_sign(*other);
            lemma_magnitude_order(*self, *other);
            lemma_magnitude_order(*other, *self);
        }
        if self.bits < SIGN_WEIGHT {
            if other.bits < SIGN_WEIGHT {
                a > b
            } else {
                a > 0 || b > 0
            }
        } else if other.bits < SIGN_WEIGHT {
            false
        } else {
            a < b
        }
    }
}

impl PartialEq for Binary64 {
    fn eq(&self, other: &Binary64) -> (b: bool) {
        if self.is_nan() || other.is_nan() {
            return false;
        }
        proof {
            lemma_units_sign(*self);
            lemma_units_sign(*other);
            lemma_magnitude_order(*self, *other);
            lemma_magnitude_order(*other, *self);
        }
        self.bits == other.bits || (self.bits % SIGN_WEIGHT == 0 && other.bits % SIGN_WEIGHT == 0)
    }
}

impl PartialEqSpecImpl for Binary64 {
    open spec fn obeys_eq_spec() -> bool {
        true
    }

    open spec fn eq_spec(&self, other: &Binary64) -> bool {
        self.same_value(*other)
    }
}

/// The value is zero exactly when all bits but the sign are clear, and
/// otherwise has the sign of the sign bit.
pub proof fn lemma_units_sign(x: Binary64)
    ensures
        x.bits as nat % SIGN_WEIGHT as nat == 0 ==> x.units() == 0,
        x.bits as nat % SIGN_WEIGHT as nat != 0 && x.negative() ==> x.units() < 0,
        x.bits as nat % SIGN_WEIGHT as nat != 0 && !x.negative() ==> x.units() > 0,
        x.mantissa() < 2 * FRACTION_SPAN,
        x.exponent() != 0 ==> x.mantissa() >= FRACTION_SPAN,
{
    let low = x.bits as nat % SIGN_WEIGHT as nat;
    assert(low % FRACTION_SPAN as nat == x.fraction());
    lemma_pow2_pos(x.scale());
    let p = pow2(x.scale());
    let m = x.mantissa();
    if low == 0 {
        assert(m == 0);
        assert(0 * p == 0);
    } else {
        assert(m > 0);
        assert(m * p > 0) by (nonlinear_arith)
            requires
                m > 0,
                p > 0,
        ;
    }
}

/// Magnitudes are ordered as the bit patterns without the sign are.
pub proof fn lemma_magnitude_order(x: Binary64, y: Binary64)
    ensures
        x.bits as nat % SIGN_WEIGHT as nat == y.bits as nat % SIGN_WEIGHT as nat
            ==> x.mantissa() * pow2(x.scale()) == y.mantissa() * pow2(y.scale()),
        (x.bits as nat % SIGN_WEIGHT as nat) < y.bits as nat % SIGN_WEIGHT as nat
            ==> x.mantissa() * pow2(x.scale()) < y.mantissa() * pow2(y.scale()),
{
    let a = x.bits as nat % SIGN_WEIGHT as nat;
    let b = y.bits as nat % SIGN_WEIGHT as nat;
    assert(a % FRACTION_SPAN as nat == x.fraction());
    assert(b % FRACTION_SPAN as nat == y.fraction());
    let m = x.mantissa();
    let n = y.mantissa();
    let p = pow2(x.scale());
    let q = pow2(y.scale());
    lemma_pow2_pos(x.scale());
    lemma_pow2_pos(y.scale());
    if a < b {
        if x.scale() == y.scale() {
            assert(m < n);
            assert(m * p < n * p) by (nonlinear_arith)
                requires
                    m < n,
                    p > 0,
            ;
        } else {
            assert(x.scale() < y.scale());
            lemma_units_sign(x);
            lemma_units_sign(y);
            let d = (y.scale() - x.scale()) as nat;
            lemma_pow2_adds(x.scale(), d);
            assert(pow2(0) == 1 && pow2(1) == 2) by {
                vstd::arithmetic::power2::lemma2_to64();
            }
            if d > 1 {
                lemma_pow2_strictly_increases(1, d);
            }
            let e = pow2(d);
            assert(e >= 2);
            assert(q == p * e);
            assert(m * p < n * (p * e)) by (nonlinear_arith)
                requires
                    m < 2 * FRACTION_SPAN,
                    n >= FRACTION_SPAN,
                    e >= 2,
                    p > 0,
            ;
        }
    }
}

/// What the bit patterns stand for. The smallest patterns count units, from
/// zero on. One more in the exponent field doubles the value. The sign bit turns
/// it round. Patterns from that of infinity on are not finite, and those beyond
/// it are no numbers.
pub proof fn patterns_are_ieee_754(x: Binary64)
    ensures
        x.bits < 0x20_0000_0000_0000 ==> x.units() == x.bits,
        0x20_0000_0000_0000 <= x.bits < 0x8000_0000_0000_0000 ==> x.units() == 2 * (Binary64 {
            bits: (x.bits - 0x10_0000_0000_0000) as u64,
        }).units(),
        x.bits >= 0x8000_0000_0000_0000 ==> x.units() == -(Binary64 {
            bits: (x.bits - 0x8000_0000_0000_0000) as u64,
        }).units(),
        x.finite() <==> x.bits % 0x8000_0000_0000_0000 < 0x7FF0_0000_0000_0000,
        x.nan() <==> x.bits % 0x8000_0000_0000_0000 > 0x7FF0_0000_0000_0000,
        x.positive() <==> 0 < x.bits < 0x7FF0_0000_0000_0000,
{
    vstd::arithmetic::power2::lemma2_to64();
    lemma_units_sign(x);
    if x.bits < 0x20_0000_0000_0000 {
        assert(x.scale() == 0);
        assert(x.mantissa() == x.bits);
        assert(x.mantissa() * 1 == x.mantissa());
    } else if x.bits < 0x8000_0000_0000_0000 {
        let half = Binary64 { bits: (x.bits - 0x10_0000_0000_0000) as u64 };
        assert(half.exponent() + 1 == x.exponent());
        assert(half.exponent() >= 1);
        assert(half.fraction() == x.fraction());
        vstd::arithmetic::power2::lemma_pow2_unfold(x.scale());
        let (m, p) = (x.mantissa(), pow2(half.scale()));
        assert(m * (2 * p) == 2 * (m * p)) by (nonlinear_arith);
    } else {
        let other = Binary64 { bits: (x.bits - 0x8000_0000_0000_0000) as u64 };
        assert(other.exponent() == x.exponent());
        assert(other.fraction() == x.fraction());
    }
}

} // verus!
