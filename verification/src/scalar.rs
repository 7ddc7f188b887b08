//! Floating-point numbers, carried by their bit patterns.
//!
//! Nothing here adds or multiplies: a [`Scalar`] is stored, handed on, and
//! compared. The order is that of the numbers the patterns stand for.
use vstd::arithmetic::power2::{lemma_pow2_strictly_increases, pow2};
use vstd::prelude::*;

verus! {

/// The bits of 0.5.
pub const HALF_BITS: u32 = 0x3f00_0000;

/// The bits of 1.0.
pub const ONE_BITS: u32 = 0x3f80_0000;

/// The bits of positive infinity; larger magnitudes are not numbers.
pub const INFINITY_BITS: u32 = 0x7f80_0000;

/// The sign bit.
pub const SIGN_BIT: u32 = 0x8000_0000;

/// A single-precision number, held as its IEEE 754 bit pattern.
#[derive(Clone, Copy, Debug, PartialEq, Eq, Structural, Hash)]
pub struct Scalar {
    pub bits: u32,
}

/// The number a pattern of magnitude bits stands for, times 2 to the 149th:
/// every finite single-precision number is a whole multiple of that step.
/// Infinity continues the scale, as the power of two after the last number.
pub open spec fn scaled_magnitude(magnitude: u32) -> nat {
    let exponent = magnitude / 0x80_0000;
    let fraction = magnitude % 0x80_0000;
    if exponent == 0 {
        fraction as nat
    } else {
        ((0x80_0000 + fraction) * pow2((exponent - 1) as nat)) as nat
    }
}

impl Scalar {
    /// The scalar with the given bit pattern.
    #[verifier::allow_in_spec]
    pub fn from_bits(bits: u32) -> Scalar
        returns
            (Scalar { bits: bits }),
    {
        Scalar { bits }
    }

    /// 0.0
    #[verifier::allow_in_spec]
    pub fn zero() -> Scalar
        returns
            (Scalar { bits: 0 }),
    {
        Scalar { bits: 0 }
    }

    /// 0.5
    #[verifier::allow_in_spec]
    pub fn half() -> Scalar
        returns
            (Scalar { bits: HALF_BITS }),
    {
        Scalar { bits: HALF_BITS }
    }

    /// 1.0
    #[verifier::allow_in_spec]
    pub fn one() -> Scalar
        returns
            (Scalar { bits: ONE_BITS }),
    {
        Scalar { bits: ONE_BITS }
    }

    /// The bits without the sign.
    pub open spec fn magnitude(self) -> u32 {
        self.bits % SIGN_BIT
    }

    /// True of the patterns that stand for no number.
    pub open spec fn is_nan_spec(self) -> bool {
        self.magnitude() > INFINITY_BITS
    }

    /// The number, times 2 to the 149th.
    pub open spec fn scaled(self) -> int {
        if self.bits < SIGN_BIT {
            scaled_magnitude(self.magnitude()) as int
        } else {
            -(scaled_magnitude(self.magnitude()) as int)
        }
    }

    /// `self <= other` as numbers. Nothing compares with what is no number.
    pub open spec fn le_spec(self, other: Scalar) -> bool {
        !self.is_nan_spec() && !other.is_nan_spec() && self.scaled() <= other.scaled()
    }

    /// `self < other` as numbers.
    pub open spec fn lt_spec(self, other: Scalar) -> bool {
        !self.is_nan_spec() && !other.is_nan_spec() && self.scaled() < other.scaled()
    }

    /// True of the patterns that stand for no number.
    #[verifier::when_used_as_spec(is_nan_spec)]
    pub fn is_nan(self) -> (r: bool)
        ensures
            r == self.is_nan_spec(),
    {
        self.bits % SIGN_BIT > INFINITY_BITS
    }

    /// True of the numbers that are not infinite.
    pub open spec fn is_finite_spec(self) -> bool {
        self.magnitude() < INFINITY_BITS
    }

    /// True of the numbers that are not infinite.
    pub fn is_finite(self) -> (r: bool)
        ensures
            r == self.is_finite_spec(),
    {
        self.bits % SIGN_BIT < INFINITY_BITS
    }

    /// The position of the pattern in the order of the numbers: patterns
    /// further from zero lie further out, and both zeros share a place.
    fn rank(self) -> (r: i64)
        ensures
            self.bits < SIGN_BIT ==> r == self.magnitude(),
            self.bits >= SIGN_BIT ==> r == -(self.magnitude() as int),
    {
        let magnitude: i64 = (self.bits % SIGN_BIT) as i64;
        if self.bits < SIGN_BIT { magnitude } else { -magnitude }
    }

    /// `self <= other` as numbers.
    pub fn le(self, other: Scalar) -> (r: bool)
        ensures
            r == self.le_spec(other),
    {
        proof {
            lemma_magnitudes_keep_order(self.magnitude(), other.magnitude());
        }
        !self.is_nan() && !other.is_nan() && self.rank() <= other.rank()
    }

    /// `self < other` as numbers.
    pub fn lt(self, other: Scalar) -> (r: bool)
        ensures
            r == self.lt_spec(other),
    {
        proof {
            lemma_magnitudes_keep_order(self.magnitude(), other.magnitude());
        }
        !self.is_nan() && !other.is_nan() && self.rank() < other.rank()
    }

    /// True where both are the same number. What is no number equals nothing,
    /// and the two zeros are one number.
    pub open spec fn same_spec(self, other: Scalar) -> bool {
        self.le_spec(other) && other.le_spec(self)
    }

    /// True where both are the same number.
    pub fn same(self, other: Scalar) -> (r: bool)
        ensures
            r == self.same_spec(other),
    {
        self.le(other) && other.le(self)
    }

    /// The number with its sign turned.
    pub open spec fn negated_spec(self) -> Scalar {
        if self.bits < SIGN_BIT {
            Scalar { bits: (self.bits + SIGN_BIT) as u32 }
        } else {
            Scalar { bits: (self.bits - SIGN_BIT) as u32 }
        }
    }

    /// The number with its sign turned.
    #[verifier::when_used_as_spec(negated_spec)]
    pub fn negated(self) -> (r: Scalar)
        ensures
            r == self.negated_spec(),
            r.scaled() == -self.scaled(),
            r.is_nan_spec() == self.is_nan_spec(),
    {
        if self.bits < SIGN_BIT {
            Scalar { bits: self.bits + SIGN_BIT }
        } else {
            Scalar { bits: self.bits - SIGN_BIT }
        }
    }

    /// The smaller of two; the other one where one is no number.
    pub fn min(self, other: Scalar) -> (r: Scalar)
        ensures
            r == self.min_spec(other),
    {
        if self.is_nan() || other.lt(self) { other } else { self }
    }

    /// The larger of two; the other one where one is no number.
    pub fn max(self, other: Scalar) -> (r: Scalar)
        ensures
            r == self.max_spec(other),
    {
        if self.is_nan() || self.lt(other) { other } else { self }
    }

    /// The smaller of two; the other one where one is no number.
    pub open spec fn min_spec(self, other: Scalar) -> Scalar {
        if self.is_nan_spec() || other.lt_spec(self) { other } else { self }
    }

    /// The larger of two; the other one where one is no number.
    pub open spec fn max_spec(self, other: Scalar) -> Scalar {
        if self.is_nan_spec() || self.lt_spec(other) { other } else { self }
    }

    /// `self` held between 0 and 1. What is no number stays as it is.
    pub fn clamp_unit(self) -> (r: Scalar)
        ensures
            r == self.clamp_unit_spec(),
    {
        if self.lt(Scalar::zero()) {
            Scalar::zero()
        } else if Scalar::one().lt(self) {
            Scalar::one()
        } else {
            self
        }
    }

    /// `self` held between 0 and 1. What is no number stays as it is.
    pub open spec fn clamp_unit_spec(self) -> Scalar {
        if self.lt_spec(Scalar::zero()) {
            Scalar::zero()
        } else if Scalar::one().lt_spec(self) {
            Scalar::one()
        } else {
            self
        }
    }
}

/// Patterns compare as the magnitudes they stand for.
pub proof fn lemma_magnitudes_keep_order(a: u32, b: u32)
    ensures
        a < b ==> scaled_magnitude(a) < scaled_magnitude(b),
        a == b ==> scaled_magnitude(a) == scaled_magnitude(b),
        b < a ==> scaled_magnitude(b) < scaled_magnitude(a),
        a == 0 <==> scaled_magnitude(a) == 0,
        b == 0 <==> scaled_magnitude(b) == 0,
{
    lemma_magnitude_step(a, b);
    lemma_magnitude_step(b, a);
    lemma_magnitude_step(0, a);
    lemma_magnitude_step(0, b);
}

/// A larger pattern stands for a larger magnitude.
proof fn lemma_magnitude_step(a: u32, b: u32)
    ensures
        a < b ==> scaled_magnitude(a) < scaled_magnitude(b),
{
    if a < b {
        let ea = (a / 0x80_0000) as nat;
        let eb = (b / 0x80_0000) as nat;
        let fa = (a % 0x80_0000) as nat;
        let fb = (b % 0x80_0000) as nat;
        assert(a == ea * 0x80_0000 + fa);
        assert(b == eb * 0x80_0000 + fb);
        assert(ea <= eb);
        if eb == 0 {
        } else if ea == 0 {
            assert(pow2(0) == 1) by {
                vstd::arithmetic::power2::lemma2_to64();
            }
            vstd::arithmetic::power2::lemma_pow2_pos((eb - 1) as nat);
            let p = pow2((eb - 1) as nat);
            assert((0x80_0000 + fb) * p >= 0x80_0000) by (nonlinear_arith)
                requires
                    p >= 1,
                    fb >= 0,
            ;
        } else if ea == eb {
            vstd::arithmetic::power2::lemma_pow2_pos((ea - 1) as nat);
            let p = pow2((ea - 1) as nat);
            assert((0x80_0000 + fa) * p < (0x80_0000 + fb) * p) by (nonlinear_arith)
                requires
                    p >= 1,
                    fa < fb,
            ;
        } else {
            let p = pow2((ea - 1) as nat);
            let q = pow2((eb - 1) as nat);
            vstd::arithmetic::power2::lemma_pow2_pos((ea - 1) as nat);
            assert(q >= 2 * p) by {
                vstd::arithmetic::power2::lemma_pow2_unfold(ea);
                assert(pow2(ea) == 2 * p);
                if ea < eb - 1 {
                    lemma_pow2_strictly_increases(ea, (eb - 1) as nat);
                }
            }
            assert((0x80_0000 + fa) * p < (0x80_0000 + fb) * q) by (nonlinear_arith)
                requires
                    p >= 1,
                    q >= 2 * p,
                    fa < 0x80_0000,
                    fb >= 0,
            ;
        }
    }
}

/// The named numbers are what they are called: one is a whole, a half is half of
/// it, and zero is nothing.
pub proof fn law_named_numbers()
    ensures
        Scalar::one().scaled() == pow2(149),
        2 * Scalar::half().scaled() == Scalar::one().scaled(),
        Scalar::zero().scaled() == 0,
        !Scalar::one().is_nan_spec() && !Scalar::half().is_nan_spec()
            && !Scalar::zero().is_nan_spec(),
{
    vstd::arithmetic::power2::lemma2_to64();
    vstd::arithmetic::power2::lemma_pow2_adds(23, 126);
    vstd::arithmetic::power2::lemma_pow2_unfold(126);
    assert(pow2(23) == 0x80_0000);
    assert(scaled_magnitude(0x3f80_0000) == 0x80_0000 * pow2(126));
    assert(scaled_magnitude(0x3f00_0000) == 0x80_0000 * pow2(125));
}

/// Numbers are ordered: of any two one is at most the other, and strictly so
/// unless they are the same; and what is no number has no place in the order.
pub proof fn law_numbers_are_ordered(a: Scalar, b: Scalar, c: Scalar)
    ensures
        !a.is_nan_spec() && !b.is_nan_spec() ==> a.le_spec(b) || b.le_spec(a),
        a.lt_spec(b) <==> a.le_spec(b) && !b.le_spec(a),
        a.le_spec(b) && b.le_spec(c) ==> a.le_spec(c),
        a.same_spec(b) ==> !a.is_nan_spec() && a.scaled() == b.scaled(),
        a.is_nan_spec() ==> !a.le_spec(b) && !b.le_spec(a) && !a.same_spec(a),
{
}

/// The smaller and the larger of two are the two, the one at most the other; and
/// where one of them is no number both are the other.
pub proof fn law_smaller_and_larger(a: Scalar, b: Scalar)
    ensures
        ({
            let (low, high) = (a.min_spec(b), a.max_spec(b));
            &&& a.is_nan_spec() ==> low == b && high == b
            &&& b.is_nan_spec() && !a.is_nan_spec() ==> low == a && high == a
            &&& !a.is_nan_spec() && !b.is_nan_spec() ==> {
                &&& low == a || low == b
                &&& high == a || high == b
                &&& low.le_spec(a) && low.le_spec(b)
                &&& a.le_spec(high) && b.le_spec(high)
            }
        }),
{
}

/// A number held between 0 and 1 lies there, is the number itself where that lies
/// there, and else the end that it lies beyond.
pub proof fn law_clamping_to_the_unit(a: Scalar)
    ensures
        ({
            let r = a.clamp_unit_spec();
            &&& a.is_nan_spec() ==> r == a
            &&& !a.is_nan_spec() ==> 0 <= r.scaled() <= pow2(149) && !r.is_nan_spec()
            &&& !a.is_nan_spec() && 0 <= a.scaled() <= pow2(149) ==> r == a
            &&& !a.is_nan_spec() && a.scaled() < 0 ==> r.scaled() == 0
            &&& !a.is_nan_spec() && a.scaled() > pow2(149) ==> r.scaled() == pow2(149)
        }),
{
    law_named_numbers();
    vstd::arithmetic::power2::lemma_pow2_pos(149);
}

/// Turning the sign twice gives the number back, and turns the order.
pub proof fn law_turning_the_sign(a: Scalar, b: Scalar)
    ensures
        a.negated_spec().negated_spec() == a,
        a.negated_spec() != a,
        a.negated_spec().scaled() == -a.scaled(),
        a.le_spec(b) <==> b.negated_spec().le_spec(a.negated_spec()),
{
}

} // verus!
