//! Single-precision numbers as bit patterns.
//!
//! Every quantity the tracer compares is an IEEE 754 binary32 number. This
//! module holds such a number as its 32-bit pattern and gives the pattern a
//! meaning in integers: a number that is not a NaN denotes `scaled() / 2^149`,
//! and the two infinities stand at `±2^128`, beyond every finite number. The
//! comparisons below work on the patterns alone and are proved to agree with
//! the order of the numbers denoted.

use vstd::prelude::*;
use vstd::arithmetic::power2::{pow2, lemma_pow2_pos, lemma_pow2_strictly_increases, lemma_pow2_unfold};
use vstd::arithmetic::mul::{lemma_mul_inequality, lemma_mul_strict_inequality, lemma_mul_is_commutative};

verus! {

/// The sign bit of a pattern.
pub const SIGN_BIT: u32 = 0x8000_0000;

/// The lowest exponent bit of a pattern; the fraction lies below it.
pub const EXPONENT_UNIT: u32 = 0x0080_0000;

/// The magnitude bits of an infinity. Larger magnitudes are NaNs.
pub const INFINITY_BITS: u32 = 0x7f80_0000;

/// The pattern of the number one.
pub const ONE_BITS: u32 = 0x3f80_0000;

/// `2^149` times the absolute value that the magnitude pattern `m` denotes:
/// the fraction alone under a zero exponent, and with the hidden bit added
/// and scaled by the exponent otherwise.
pub open spec fn magnitude_value(m: int) -> int {
    let e = m / 0x0080_0000;
    let f = m % 0x0080_0000;
    if e == 0 {
        f
    } else {
        (0x0080_0000 + f) * pow2((e - 1) as nat)
    }
}

/// A binary32 number, held as its bit pattern.
#[derive(Clone, Copy, Debug)]
pub struct Scalar {
    pub bits: u32,
}

impl Scalar {
    /// The pattern without its sign bit.
    pub open spec fn magnitude_bits(self) -> int {
        self.bits as int % 0x8000_0000
    }

    /// The biased exponent, between 0 and 255.
    pub open spec fn exponent_field(self) -> int {
        self.magnitude_bits() / 0x0080_0000
    }

    /// The 23 fraction bits.
    pub open spec fn fraction_field(self) -> int {
        self.magnitude_bits() % 0x0080_0000
    }

    pub open spec fn spec_is_sign_negative(self) -> bool {
        self.bits >= 0x8000_0000
    }

    pub open spec fn spec_is_nan(self) -> bool {
        self.magnitude_bits() > 0x7f80_0000
    }

    pub open spec fn spec_is_infinite(self) -> bool {
        self.magnitude_bits() == 0x7f80_0000
    }

    pub open spec fn spec_is_finite(self) -> bool {
        self.magnitude_bits() < 0x7f80_0000
    }

    /// The number is zero, of either sign.
    pub open spec fn spec_is_zero(self) -> bool {
        self.magnitude_bits() == 0
    }

    /// `2^149` times the absolute value of the number denoted. A subnormal
    /// number is its fraction; a normal number has the hidden bit added and is
    /// scaled by its exponent; an infinity continues the same formula and so
    /// comes out as `2^277`, above every finite number.
    pub open spec fn scaled_magnitude(self) -> int {
        magnitude_value(self.magnitude_bits())
    }

    /// `2^149` times the number denoted. Both zeros denote 0.
    pub open spec fn scaled(self) -> int {
        if self.spec_is_sign_negative() {
            -self.scaled_magnitude()
        } else {
            self.scaled_magnitude()
        }
    }

    /// The number is strictly below `other`. False when either is a NaN.
    pub open spec fn spec_lt(self, other: Scalar) -> bool {
        !self.spec_is_nan() && !other.spec_is_nan() && self.scaled() < other.scaled()
    }

    /// The number is below or equal to `other`. False when either is a NaN.
    pub open spec fn spec_le(self, other: Scalar) -> bool {
        !self.spec_is_nan() && !other.spec_is_nan() && self.scaled() <= other.scaled()
    }

    /// The number is strictly above `other`. False when either is a NaN.
    pub open spec fn spec_gt(self, other: Scalar) -> bool {
        other.spec_lt(self)
    }

    /// The number is above or equal to `other`. False when either is a NaN.
    pub open spec fn spec_ge(self, other: Scalar) -> bool {
        other.spec_le(self)
    }

    /// The two denote the same number. A NaN equals nothing, itself included,
    /// and the two zeros are equal.
    pub open spec fn spec_same(self, other: Scalar) -> bool {
        !self.spec_is_nan() && !other.spec_is_nan() && self.scaled() == other.scaled()
    }

    /// The integer by which patterns that are not NaNs are ordered: the
    /// magnitude bits, negated under a sign bit.
    pub open spec fn order_key(self) -> int {
        if self.spec_is_sign_negative() {
            -self.magnitude_bits()
        } else {
            self.magnitude_bits()
        }
    }

    /// Zero with a clear sign bit.
    pub open spec fn spec_zero() -> Scalar {
        Scalar { bits: 0 }
    }

    /// The number one.
    pub open spec fn spec_one() -> Scalar {
        Scalar { bits: 0x3f80_0000 }
    }

    /// The pattern with its sign bit flipped.
    pub open spec fn negated(self) -> Scalar {
        if self.bits >= 0x8000_0000 {
            Scalar { bits: (self.bits - 0x8000_0000) as u32 }
        } else {
            Scalar { bits: (self.bits + 0x8000_0000) as u32 }
        }
    }

    pub fn from_bits(bits: u32) -> (s: Scalar)
        ensures
            s.bits == bits,
    {
        Scalar { bits }
    }

    pub fn to_bits(self) -> (bits: u32)
        ensures
            bits == self.bits,
    {
        self.bits
    }

    /// Zero with a clear sign bit.
    #[verifier::when_used_as_spec(spec_zero)]
    pub fn zero() -> (s: Scalar)
        ensures
            s == Scalar::spec_zero(),
    {
        Scalar { bits: 0 }
    }

    /// The number one.
    #[verifier::when_used_as_spec(spec_one)]
    pub fn one() -> (s: Scalar)
        ensures
            s == Scalar::spec_one(),
    {
        Scalar { bits: ONE_BITS }
    }

    #[verifier::when_used_as_spec(spec_is_sign_negative)]
    pub fn is_sign_negative(self) -> (r: bool)
        ensures
            r == self.spec_is_sign_negative(),
    {
        self.bits >= SIGN_BIT
    }

    #[verifier::when_used_as_spec(spec_is_nan)]
    pub fn is_nan(self) -> (r: bool)
        ensures
            r == self.spec_is_nan(),
    {
        self.bits % SIGN_BIT > INFINITY_BITS
    }

    #[verifier::when_used_as_spec(spec_is_infinite)]
    pub fn is_infinite(self) -> (r: bool)
        ensures
            r == self.spec_is_infinite(),
    {
        self.bits % SIGN_BIT == INFINITY_BITS
    }

    #[verifier::when_used_as_spec(spec_is_finite)]
    pub fn is_finite(self) -> (r: bool)
        ensures
            r == self.spec_is_finite(),
    {
        self.bits % SIGN_BIT < INFINITY_BITS
    }

    #[verifier::when_used_as_spec(spec_is_zero)]
    pub fn is_zero(self) -> (r: bool)
        ensures
            r == self.spec_is_zero(),
    {
        self.bits % SIGN_BIT == 0
    }

    /// The pattern's place in the order of the numbers, as a machine integer.
    fn key(self) -> (k: i64)
        ensures
            k == self.order_key(),
    {
        let magnitude: u32 = self.bits % SIGN_BIT;
        if self.bits >= SIGN_BIT {
            0i64 - (magnitude as i64)
        } else {
            magnitude as i64
        }
    }

    #[verifier::when_used_as_spec(spec_lt)]
    pub fn lt(self, other: Scalar) -> (r: bool)
        ensures
            r == self.spec_lt(other),
    {
        if self.is_nan() || other.is_nan() {
            return false;
        }
        proof {
            lemma_order_key(self, other);
        }
        self.key() < other.key()
    }

    #[verifier::when_used_as_spec(spec_le)]
    pub fn le(self, other: Scalar) -> (r: bool)
        ensures
            r == self.spec_le(other),
    {
        if self.is_nan() || other.is_nan() {
            return false;
        }
        proof {
            lemma_order_key(self, other);
        }
        self.key() <= other.key()
    }

    #[verifier::when_used_as_spec(spec_gt)]
    pub fn gt(self, other: Scalar) -> (r: bool)
        ensures
            r == self.spec_gt(other),
    {
        other.lt(self)
    }

    #[verifier::when_used_as_spec(spec_ge)]
    pub fn ge(self, other: Scalar) -> (r: bool)
        ensures
            r == self.spec_ge(other),
    {
        other.le(self)
    }

    /// The number `numerator * 2^shift / 2^149`, negated where `negative` is
    /// set: an exact encoding of a dyadic fraction whose numerator fits the
    /// 24 bits of precision. Zero comes out with a clear sign bit.
    pub fn from_dyadic(negative: bool, numerator: u32, shift: u32) -> (r: Scalar)
        requires
            numerator < 0x0100_0000,
            23 <= shift <= 253,
        ensures
            r.spec_is_finite(),
            r.spec_is_sign_negative() == (negative && numerator > 0),
            r.scaled_magnitude() == numerator * pow2(shift as nat),
    {
        if numerator == 0 {
            assert(0 * pow2(shift as nat) == 0) by (nonlinear_arith);
            return Scalar { bits: 0 };
        }
        let mut m: u32 = numerator;
        let mut e: u32 = shift + 1;
        while m < EXPONENT_UNIT
            invariant
                0 < m < 0x0100_0000,
                1 <= e <= 254,
                numerator >= 1,
                23 <= shift <= 253,
                m * pow2((e - 1) as nat) == numerator * pow2(shift as nat),
            decreases 0x0100_0000 - m,
        {
            proof {
                let p = pow2((e - 1) as nat) as int;
                let q = pow2(shift as nat) as int;
                assert(e >= 2) by {
                    // at e == 1, m itself would be numerator * 2^shift, which
                    // is 2^23 at the least
                    vstd::arithmetic::power2::lemma2_to64();
                    if shift > 23 {
                        lemma_pow2_strictly_increases(23, shift as nat);
                    }
                    lemma_mul_inequality(1, numerator as int, q);
                    assert(p == 1 ==> m * p == m) by (nonlinear_arith);
                }
                lemma_pow2_unfold((e - 1) as nat);
                let h = pow2((e - 2) as nat) as int;
                assert((2 * m) * h == m * (2 * h)) by (nonlinear_arith);
            }
            m = m * 2;
            e = e - 1;
        }
        let magnitude: u32 = e * EXPONENT_UNIT + (m - EXPONENT_UNIT);
        let r = if negative {
            Scalar { bits: magnitude + SIGN_BIT }
        } else {
            Scalar { bits: magnitude }
        };
        assert(r.magnitude_bits() == magnitude);
        assert(r.exponent_field() == e);
        assert(r.fraction_field() == m - 0x0080_0000);
        r
    }

    /// The same number with the opposite sign: the sign bit is flipped and
    /// nothing else, for NaNs and zeros too.
    pub fn neg(self) -> (r: Scalar)
        ensures
            r == self.negated(),
    {
        if self.bits >= SIGN_BIT {
            Scalar { bits: self.bits - SIGN_BIT }
        } else {
            Scalar { bits: self.bits + SIGN_BIT }
        }
    }
}

impl core::ops::Neg for Scalar {
    type Output = Scalar;

    fn neg(self) -> (r: Scalar) {
        Scalar::neg(self)
    }
}

impl vstd::std_specs::ops::NegSpecImpl for Scalar {
    open spec fn obeys_neg_spec() -> bool {
        true
    }

    open spec fn neg_req(self) -> bool {
        true
    }

    open spec fn neg_spec(self) -> Scalar {
        self.negated()
    }
}

impl PartialEq for Scalar {
    fn eq(&self, other: &Scalar) -> (r: bool) {
        if self.is_nan() || other.is_nan() {
            return false;
        }
        proof {
            lemma_order_key(*self, *other);
        }
        self.key() == other.key()
    }
}

impl vstd::std_specs::cmp::PartialEqSpecImpl for Scalar {
    open spec fn obeys_eq_spec() -> bool {
        true
    }

    open spec fn eq_spec(&self, other: &Scalar) -> bool {
        self.spec_same(*other)
    }
}

/// Flipping the sign bit negates the number and touches nothing else.
pub proof fn lemma_negated(a: Scalar)
    ensures
        a.negated().magnitude_bits() == a.magnitude_bits(),
        a.negated().spec_is_sign_negative() == !a.spec_is_sign_negative(),
        a.negated().spec_is_nan() == a.spec_is_nan(),
        a.negated().scaled() == -a.scaled(),
        a.negated().negated() == a,
{
}

/// What lies strictly between two numbers is finite: an infinity is below
/// nothing, or above nothing, and a NaN compares with nothing.
pub proof fn lemma_between_is_finite(t: Scalar, low: Scalar, high: Scalar)
    requires
        low.spec_lt(t),
        t.spec_lt(high),
    ensures
        t.spec_is_finite(),
{
    lemma_order_key(low, t);
    lemma_order_key(t, high);
}

/// The patterns of zero and one denote zero and one.
pub proof fn lemma_zero_and_one()
    ensures
        Scalar::spec_zero().spec_is_finite(),
        !Scalar::spec_zero().spec_is_sign_negative(),
        Scalar::spec_zero().scaled() == 0,
        Scalar::spec_one().spec_is_finite(),
        !Scalar::spec_one().spec_is_sign_negative(),
        Scalar::spec_one().scaled() == pow2(149),
{
    let one = Scalar::spec_one();
    assert(one.exponent_field() == 127);
    assert(one.fraction_field() == 0);
    vstd::arithmetic::power2::lemma_pow2_adds(23, 126);
    vstd::arithmetic::power2::lemma2_to64();
}

/// Up to the pattern of infinity, a larger magnitude pattern denotes a larger
/// absolute value.
pub proof fn lemma_magnitude_monotone(m1: int, m2: int)
    requires
        0 <= m1 < m2 <= 0x7f80_0000,
    ensures
        magnitude_value(m1) < magnitude_value(m2),
{
    let ea = m1 / 0x0080_0000;
    let fa = m1 % 0x0080_0000;
    let eb = m2 / 0x0080_0000;
    let fb = m2 % 0x0080_0000;
    assert(ea <= eb);
    if ea == eb {
        assert(fa < fb);
        if ea > 0 {
            let p = pow2((ea - 1) as nat) as int;
            lemma_pow2_pos((ea - 1) as nat);
            lemma_mul_strict_inequality(0x0080_0000 + fa, 0x0080_0000 + fb, p);
        }
    } else {
        let q = pow2((eb - 1) as nat) as int;
        lemma_pow2_pos((eb - 1) as nat);
        // the smaller exponent's numbers all lie below 2^23 * 2^(eb - 1)
        assert(0x0080_0000 * q <= (0x0080_0000 + fb) * q) by {
            lemma_mul_inequality(0x0080_0000, 0x0080_0000 + fb, q);
        }
        if ea == 0 {
            assert(0x0080_0000 * 1 <= 0x0080_0000 * q) by {
                lemma_mul_inequality(1, q, 0x0080_0000);
                lemma_mul_is_commutative(q, 0x0080_0000);
            }
        } else {
            let p = pow2((ea - 1) as nat) as int;
            lemma_pow2_pos((ea - 1) as nat);
            lemma_pow2_unfold(ea as nat);
            assert((0x0080_0000 + fa) * p < 0x0100_0000 * p) by {
                lemma_mul_strict_inequality(0x0080_0000 + fa, 0x0100_0000, p);
            }
            assert(0x0100_0000 * p == 0x0080_0000 * (2 * p)) by (nonlinear_arith);
            assert(pow2(ea as nat) <= q) by {
                if ea < eb - 1 {
                    lemma_pow2_strictly_increases(ea as nat, (eb - 1) as nat);
                }
            }
            assert(0x0080_0000 * (2 * p) <= 0x0080_0000 * q) by {
                lemma_mul_inequality(2 * p, q, 0x0080_0000);
                lemma_mul_is_commutative(q, 0x0080_0000);
                lemma_mul_is_commutative(2 * p, 0x0080_0000);
            }
        }
    }
}

/// The patterns form one even grid per exponent: the pattern made of the
/// exponent step `t` and the significand `q` (which carries its hidden bit,
/// or stands alone at `t == 0`) denotes `q * 2^t`.
pub proof fn lemma_grid(q: int, t: int)
    requires
        0 <= t <= 254,
        0 <= q <= 0x0100_0000,
        q >= 0x0080_0000 || t == 0,
    ensures
        magnitude_value(t * 0x0080_0000 + q) == q * pow2(t as nat),
{
    let m = t * 0x0080_0000 + q;
    let p = pow2(t as nat) as int;
    if q >= 0x0080_0000 {
        if q < 0x0100_0000 {
            assert(m / 0x0080_0000 == t + 1);
            assert(m % 0x0080_0000 == q - 0x0080_0000);
            assert((0x0080_0000 + (q - 0x0080_0000)) * p == q * p);
        } else {
            assert(m / 0x0080_0000 == t + 2);
            assert(m % 0x0080_0000 == 0);
            lemma_pow2_unfold((t + 1) as nat);
            assert((0x0080_0000 + 0) * (2 * p) == 0x0100_0000 * p) by (nonlinear_arith);
        }
    } else {
        assert(m == q);
        assert(m / 0x0080_0000 == 0);
        assert(m % 0x0080_0000 == q);
        assert(p == 1) by {
            vstd::arithmetic::power2::lemma2_to64();
        }
        assert(q * p == q) by (nonlinear_arith)
            requires
                p == 1,
        ;
    }
}

/// The order of the keys is the order of the numbers: for two patterns that
/// are not NaNs, one key is below the other exactly when the number it denotes
/// is, and the keys are equal exactly when the numbers are.
pub proof fn lemma_order_key(a: Scalar, b: Scalar)
    requires
        !a.spec_is_nan(),
        !b.spec_is_nan(),
    ensures
        a.order_key() < b.order_key() <==> a.scaled() < b.scaled(),
        a.order_key() == b.order_key() <==> a.scaled() == b.scaled(),
        a.order_key() <= b.order_key() <==> a.scaled() <= b.scaled(),
{
    let ma = a.magnitude_bits();
    let mb = b.magnitude_bits();
    assert(magnitude_value(0) == 0);
    if ma > 0 {
        lemma_magnitude_monotone(0, ma);
    }
    if mb > 0 {
        lemma_magnitude_monotone(0, mb);
    }
    if ma < mb {
        lemma_magnitude_monotone(ma, mb);
    } else if mb < ma {
        lemma_magnitude_monotone(mb, ma);
    }
}

} // verus!
