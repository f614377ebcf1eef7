//! Arithmetic on binary32 numbers.
//!
//! Sum, difference, product, quotient and square root, each rounded once, to
//! the nearest number and to the even pattern on a tie, as IEEE 754 has it.
//! The operations work on the bit patterns in integers. What each returns is
//! stated over the numbers that the patterns denote: the exact result is
//! written down as a quotient of integers (or as the root of one) and the
//! pattern returned is proved to be the one nearest to it.
//!
//! A result that is not a number comes out as one fixed NaN pattern; the
//! standard leaves the choice among the NaN patterns open.
//!
//! `sum_of`, `product_of`, `quotient_of` and `root_of` say what the
//! operations return. They are opaque, so that the contracts built on them
//! stay light; a proof that needs to look inside one reveals it.

use vstd::prelude::*;
use core::ops::Add;
use vstd::arithmetic::power2::{pow2, lemma_pow2_pos, lemma_pow2_adds, lemma2_to64};
use crate::rounding::{
    is_nearest,
    is_nearest_root,
    up_factor,
    down_factor,
    round_to_pattern,
    lemma_nearest_unique,
    lemma_nearest_root_unique,
    lemma_cell_holds_quotient,
    lemma_cell_holds_root,
};
use crate::scalar::{
    Scalar,
    magnitude_value,
    lemma_grid,
    lemma_magnitude_monotone,
    EXPONENT_UNIT,
    INFINITY_BITS,
    SIGN_BIT,
};

verus! {

/// The NaN that the operations return.
pub const NAN_BITS: u32 = 0x7fc0_0000;

/// The pattern with the magnitude `m` under the given sign.
pub open spec fn signed(negative: bool, m: int) -> Scalar {
    if negative {
        Scalar { bits: (m + 0x8000_0000) as u32 }
    } else {
        Scalar { bits: m as u32 }
    }
}

/// The magnitude pattern nearest to `num / den`.
pub open spec fn nearest_to(num: int, den: int) -> int {
    choose|m: int| is_nearest(m, num, den)
}

/// The magnitude pattern nearest to the square root of `w`.
pub open spec fn nearest_to_root(w: int) -> int {
    choose|m: int| is_nearest_root(m, w)
}

/// The product of two numbers, rounded. It is no number where a factor is
/// none, or where zero meets infinity; else its sign is the product of the
/// signs.
#[verifier::opaque]
pub open spec fn product_of(a: Scalar, b: Scalar) -> Scalar {
    let negative = a.spec_is_sign_negative() != b.spec_is_sign_negative();
    if a.spec_is_nan() || b.spec_is_nan() {
        Scalar { bits: NAN_BITS }
    } else if a.spec_is_infinite() || b.spec_is_infinite() {
        if a.spec_is_zero() || b.spec_is_zero() {
            Scalar { bits: NAN_BITS }
        } else {
            signed(negative, 0x7f80_0000)
        }
    } else {
        signed(negative, nearest_to(a.scaled_magnitude() * b.scaled_magnitude(), pow2(149) as int))
    }
}

/// A pattern shown to be nearest is the nearest.
pub proof fn lemma_nearest_to(m: int, num: int, den: int)
    requires
        den > 0,
        is_nearest(m, num, den),
    ensures
        nearest_to(num, den) == m,
{
    lemma_nearest_unique(m, nearest_to(num, den), num, den);
}

/// A pattern shown to be nearest to a root is the nearest.
pub proof fn lemma_nearest_to_root(m: int, w: int)
    requires
        is_nearest_root(m, w),
    ensures
        nearest_to_root(w) == m,
{
    lemma_nearest_root_unique(m, nearest_to_root(w), w);
}

impl Scalar {
    /// The pattern with the magnitude `m` under the given sign.
    pub fn from_sign_and_magnitude(negative: bool, m: u32) -> (s: Scalar)
        requires
            m < 0x8000_0000,
        ensures
            s == signed(negative, m as int),
            s.magnitude_bits() == m,
            s.spec_is_sign_negative() == negative,
    {
        if negative {
            Scalar { bits: m + SIGN_BIT }
        } else {
            Scalar { bits: m }
        }
    }

    /// The NaN that the operations return.
    pub fn nan() -> (s: Scalar)
        ensures
            s.bits == NAN_BITS,
            s.spec_is_nan(),
    {
        Scalar { bits: NAN_BITS }
    }

    /// The significand `sig` and the exponent step `t` of a finite number,
    /// whose absolute value is `sig * 2^t` in units of `2^-149`. The
    /// significand carries its hidden bit; only at step zero can it be short.
    pub fn significand(self) -> (res: (u32, i32))
        requires
            self.spec_is_finite(),
        ensures
            res.0 < 0x0100_0000,
            0 <= res.1 <= 253,
            res.0 >= 0x0080_0000 || res.1 == 0,
            self.scaled_magnitude() == res.0 * pow2(res.1 as nat),
            self.magnitude_bits() == res.1 * 0x0080_0000 + res.0,
    {
        let magnitude: u32 = self.bits % SIGN_BIT;
        let e: u32 = magnitude / EXPONENT_UNIT;
        let f: u32 = magnitude % EXPONENT_UNIT;
        if e == 0 {
            proof {
                lemma_grid(f as int, 0);
            }
            (f, 0)
        } else {
            proof {
                lemma_grid(f as int + 0x0080_0000, e as int - 1);
            }
            (f + EXPONENT_UNIT, (e - 1) as i32)
        }
    }
}

/// The product of two significands on their steps is a cell of one number.
proof fn lemma_product_cell(ma: int, ta: int, mb: int, tb: int)
    requires
        0 <= ta,
        0 <= tb,
    ensures
        ((ma * pow2(ta as nat)) * (mb * pow2(tb as nat))) * down_factor(ta + tb - 149) == (ma * mb)
            * up_factor(ta + tb - 149) * pow2(149),
{
    let e = ta + tb - 149;
    let pa = pow2(ta as nat) as int;
    let pb = pow2(tb as nat) as int;
    let pab = pow2((ta + tb) as nat) as int;
    let c = pow2(149) as int;
    lemma_pow2_adds(ta as nat, tb as nat);
    assert((ma * pa) * (mb * pb) == (ma * mb) * pab) by (nonlinear_arith)
        requires
            pab == pa * pb,
    ;
    if e >= 0 {
        let pe = pow2(e as nat) as int;
        lemma_pow2_adds(e as nat, 149);
        assert(((ma * mb) * pab) * 1 == (ma * mb) * pe * c) by (nonlinear_arith)
            requires
                pab == pe * c,
        ;
    } else {
        let pe = pow2((-e) as nat) as int;
        lemma_pow2_adds((ta + tb) as nat, (-e) as nat);
        assert(((ma * mb) * pab) * pe == (ma * mb) * 1 * c) by (nonlinear_arith)
            requires
                c == pab * pe,
        ;
    }
}

impl core::ops::Mul for Scalar {
    type Output = Scalar;

    fn mul(self, rhs: Scalar) -> (r: Scalar) {
        proof {
            reveal(product_of);
        }
        let negative = self.is_sign_negative() != rhs.is_sign_negative();
        if self.is_nan() || rhs.is_nan() {
            return Scalar::nan();
        }
        if self.is_infinite() || rhs.is_infinite() {
            if self.is_zero() || rhs.is_zero() {
                return Scalar::nan();
            }
            return Scalar::from_sign_and_magnitude(negative, INFINITY_BITS);
        }
        let (ma, ta) = self.significand();
        let (mb, tb) = rhs.significand();
        proof {
            assert((ma as int) * (mb as int) < 0x0100_0000 * 0x0100_0000) by (nonlinear_arith)
                requires
                    0 <= ma < 0x0100_0000,
                    0 <= mb < 0x0100_0000,
            ;
        }
        let n: u128 = (ma as u128) * (mb as u128);
        let e: i32 = ta + tb - 149;
        let m = round_to_pattern(n, e, false);
        proof {
            let num = self.scaled_magnitude() * rhs.scaled_magnitude();
            lemma_product_cell(ma as int, ta as int, mb as int, tb as int);
            lemma_pow2_pos(149);
            lemma_cell_holds_quotient(m as int, n as int, 0, e as int, num, pow2(149) as int);
            lemma_nearest_to(m as int, num, pow2(149) as int);
        }
        Scalar::from_sign_and_magnitude(negative, m)
    }
}

impl vstd::std_specs::ops::MulSpecImpl for Scalar {
    open spec fn obeys_mul_spec() -> bool {
        true
    }

    open spec fn mul_req(self, rhs: Scalar) -> bool {
        true
    }

    open spec fn mul_spec(self, rhs: Scalar) -> Scalar {
        product_of(self, rhs)
    }
}

/// The quotient of two numbers, rounded. It is no number where an operand
/// is none, or where both are infinite or both are zero. A division by zero
/// gives an infinity, and a division by an infinity gives zero; the sign is
/// always the quotient of the signs.
#[verifier::opaque]
pub open spec fn quotient_of(a: Scalar, b: Scalar) -> Scalar {
    let negative = a.spec_is_sign_negative() != b.spec_is_sign_negative();
    if a.spec_is_nan() || b.spec_is_nan() {
        Scalar { bits: NAN_BITS }
    } else if a.spec_is_infinite() {
        if b.spec_is_infinite() {
            Scalar { bits: NAN_BITS }
        } else {
            signed(negative, 0x7f80_0000)
        }
    } else if b.spec_is_infinite() {
        signed(negative, 0)
    } else if b.spec_is_zero() {
        if a.spec_is_zero() {
            Scalar { bits: NAN_BITS }
        } else {
            signed(negative, 0x7f80_0000)
        }
    } else {
        signed(negative, nearest_to(a.scaled_magnitude() * pow2(149), b.scaled_magnitude()))
    }
}

/// The quotient of two significands on their steps lies in the cell that the
/// long division finds: on its one number where nothing remains, and
/// strictly inside it otherwise.
proof fn lemma_quotient_cell(ma: int, ta: int, mb: int, tb: int, n: int, rem: int)
    requires
        0 <= ta,
        0 <= tb,
        0 <= ma,
        0 < mb,
        ma * 0x4_0000_0000_0000 == mb * n + rem,
        0 <= rem < mb,
    ensures
        ({
            let e = ta - tb + 99;
            let num = (ma * pow2(ta as nat)) * pow2(149);
            let den = mb * pow2(tb as nat);
            &&& den > 0
            &&& rem == 0 ==> num * down_factor(e) == n * up_factor(e) * den
            &&& rem > 0 ==> n * up_factor(e) * den < num * down_factor(e) < (n + 1) * up_factor(e)
                * den
        }),
{
    let e = ta - tb + 99;
    let pa = pow2(ta as nat) as int;
    let pb = pow2(tb as nat) as int;
    let c = pow2(149) as int;
    let k = 0x4_0000_0000_0000int;
    let num = (ma * pa) * c;
    let den = mb * pb;
    let hi = up_factor(e);
    let lo = down_factor(e);
    lemma2_to64();
    vstd::arithmetic::power2::lemma2_to64_rest();
    lemma_pow2_pos(tb as nat);
    lemma_pow2_pos(ta as nat);
    assert(den > 0) by (nonlinear_arith)
        requires
            den == mb * pb,
            mb > 0,
            pb > 0,
    ;
    // a common factor f with num * lo == (ma * 2^50) * f and hi * den == mb * f
    let f: int = if e >= 0 {
        pow2((ta + 99) as nat) as int
    } else {
        pb
    };
    assert(f > 0) by {
        lemma_pow2_pos((ta + 99) as nat);
    }
    assert(num * lo == (ma * k) * f && hi * den == mb * f) by {
        if e >= 0 {
            let pe = pow2(e as nat) as int;
            lemma_pow2_adds(50, (ta + 99) as nat);
            lemma_pow2_adds(ta as nat, 149);
            lemma_pow2_adds(e as nat, tb as nat);
            assert(((ma * pa) * c) * 1 == (ma * k) * f) by (nonlinear_arith)
                requires
                    pa * c == k * f,
            ;
            assert(pe * (mb * pb) == mb * f) by (nonlinear_arith)
                requires
                    pe * pb == f,
            ;
        } else {
            let pe = pow2((-e) as nat) as int;
            // 2^ta * 2^149 * 2^(-e) == 2^50 * 2^tb
            lemma_pow2_adds(ta as nat, 149);
            lemma_pow2_adds((ta + 149) as nat, (-e) as nat);
            lemma_pow2_adds(50, tb as nat);
            assert(((ma * pa) * c) * pe == (ma * k) * pb) by (nonlinear_arith)
                requires
                    (pa * c) * pe == k * pb,
            ;
            assert(1 * (mb * pb) == mb * pb) by (nonlinear_arith);
        }
    }
    assert(n * hi * den == (mb * n) * f && (n + 1) * hi * den == (mb * n + mb) * f)
        by (nonlinear_arith)
        requires
            hi * den == mb * f,
    ;
    if rem > 0 {
        assert((mb * n) * f < (mb * n + rem) * f < (mb * n + mb) * f) by (nonlinear_arith)
            requires
                0 < rem < mb,
                f > 0,
        ;
    }
}

impl core::ops::Div for Scalar {
    type Output = Scalar;

    fn div(self, rhs: Scalar) -> (r: Scalar) {
        proof {
            reveal(quotient_of);
        }
        let negative = self.is_sign_negative() != rhs.is_sign_negative();
        if self.is_nan() || rhs.is_nan() {
            return Scalar::nan();
        }
        if self.is_infinite() {
            if rhs.is_infinite() {
                return Scalar::nan();
            }
            return Scalar::from_sign_and_magnitude(negative, INFINITY_BITS);
        }
        if rhs.is_infinite() {
            return Scalar::from_sign_and_magnitude(negative, 0);
        }
        if rhs.is_zero() {
            if self.is_zero() {
                return Scalar::nan();
            }
            return Scalar::from_sign_and_magnitude(negative, INFINITY_BITS);
        }
        let (ma, ta) = self.significand();
        let (mb, tb) = rhs.significand();
        let big: u128 = (ma as u128) * 0x4_0000_0000_0000;
        let n: u128 = big / (mb as u128);
        let rem: u128 = big % (mb as u128);
        let e: i32 = ta - tb + 99;
        proof {
            vstd::arithmetic::div_mod::lemma_fundamental_div_mod(big as int, mb as int);
            vstd::arithmetic::div_mod::lemma_mod_bound(big as int, mb as int);
            vstd::arithmetic::div_mod::lemma_div_pos_is_pos(big as int, mb as int);
            assert(n <= big) by (nonlinear_arith)
                requires
                    big == mb * n + rem,
                    rem >= 0,
                    mb >= 1,
                    n >= 0,
            ;
            if rem > 0 {
                assert(n >= 0x0200_0000) by (nonlinear_arith)
                    requires
                        big == mb * n + rem,
                        0 < rem < mb,
                        mb < 0x0100_0000,
                        big == ma * 0x4_0000_0000_0000,
                        ma >= 0,
                        n >= 0,
                ;
            }
        }
        let m = round_to_pattern(n, e, rem != 0);
        proof {
            let num = self.scaled_magnitude() * pow2(149);
            let den = rhs.scaled_magnitude();
            lemma_quotient_cell(ma as int, ta as int, mb as int, tb as int, n as int, rem as int);
            lemma_cell_holds_quotient(
                m as int,
                n as int,
                if rem != 0 { 1int } else { 0int },
                e as int,
                num,
                den,
            );
            lemma_nearest_to(m as int, num, den);
        }
        Scalar::from_sign_and_magnitude(negative, m)
    }
}

impl vstd::std_specs::ops::DivSpecImpl for Scalar {
    open spec fn obeys_div_spec() -> bool {
        true
    }

    open spec fn div_req(self, rhs: Scalar) -> bool {
        true
    }

    open spec fn div_spec(self, rhs: Scalar) -> Scalar {
        quotient_of(self, rhs)
    }
}

/// The sum of two numbers, rounded. It is no number where an operand is
/// none, or where the two are infinities of opposite sign; an infinity
/// otherwise swallows what is added to it. A sum that is exactly zero is the
/// positive zero, unless both operands are negative.
#[verifier::opaque]
pub open spec fn sum_of(a: Scalar, b: Scalar) -> Scalar {
    if a.spec_is_nan() || b.spec_is_nan() {
        Scalar { bits: NAN_BITS }
    } else if a.spec_is_infinite() {
        if b.spec_is_infinite() && a.spec_is_sign_negative() != b.spec_is_sign_negative() {
            Scalar { bits: NAN_BITS }
        } else {
            a
        }
    } else if b.spec_is_infinite() {
        b
    } else {
        let s = a.scaled() + b.scaled();
        if s == 0 {
            signed(a.spec_is_sign_negative() && b.spec_is_sign_negative(), 0)
        } else if s < 0 {
            signed(true, nearest_to(-s, 1))
        } else {
            signed(false, nearest_to(s, 1))
        }
    }
}

/// The difference of two numbers, rounded: the sum of the first and the
/// second negated.
pub open spec fn difference_of(a: Scalar, b: Scalar) -> Scalar {
    sum_of(a, b.negated())
}

/// A dyadic number whose numerator fits the precision has its pattern: for
/// a numerator below `2^24` and a shift of at most 253 there is a finite
/// magnitude pattern that denotes `n * 2^shift`, and the pattern is returned.
pub proof fn lemma_dyadic_has_pattern(n: int, shift: int) -> (m: int)
    requires
        0 <= n < 0x0100_0000,
        0 <= shift <= 253,
    ensures
        0 <= m < 0x7f80_0000,
        magnitude_value(m) == n * pow2(shift as nat),
    decreases shift,
{
    if n >= 0x0080_0000 || shift == 0 {
        lemma_grid(n, shift);
        shift * 0x0080_0000 + n
    } else {
        let m = lemma_dyadic_has_pattern(2 * n, shift - 1);
        vstd::arithmetic::power2::lemma_pow2_unfold(shift as nat);
        let h = pow2((shift - 1) as nat) as int;
        assert((2 * n) * h == n * (2 * h)) by (nonlinear_arith);
        m
    }
}

/// A quotient that a pattern denotes exactly has that pattern for its
/// nearest.
pub proof fn lemma_exact_quotient_is_nearest(m: int, num: int, den: int)
    requires
        0 <= m <= 0x7f80_0000,
        den > 0,
        num == magnitude_value(m) * den,
    ensures
        is_nearest(m, num, den),
        nearest_to(num, den) == m,
{
    let v = magnitude_value(m);
    if m > 0 {
        lemma_magnitude_monotone(m - 1, m);
        let below = magnitude_value(m - 1);
        assert((below + v) * den < 2 * (v * den)) by (nonlinear_arith)
            requires
                below < v,
                den > 0,
        ;
    }
    if m < 0x7f80_0000 {
        lemma_magnitude_monotone(m, m + 1);
        let above = magnitude_value(m + 1);
        assert(2 * (v * den) < (v + above) * den) by (nonlinear_arith)
            requires
                v < above,
                den > 0,
        ;
    }
    lemma_nearest_to(m, num, den);
}

/// A number is nearest to itself.
pub proof fn lemma_exact_is_nearest(m: int)
    requires
        0 <= m <= 0x7f80_0000,
    ensures
        is_nearest(m, magnitude_value(m), 1),
{
    if m > 0 {
        lemma_magnitude_monotone(m - 1, m);
    }
    if m < 0x7f80_0000 {
        lemma_magnitude_monotone(m, m + 1);
    }
}

/// The sum of two finite numbers that are not zero, the first on a step at
/// least as high as the second: its sign and its magnitude pattern.
fn add_ordered(neg1: bool, m1: u32, t1: i32, neg2: bool, m2: u32, t2: i32) -> (res: (bool, u32))
    requires
        0 < m1 < 0x0100_0000,
        0 < m2 < 0x0100_0000,
        0 <= t2 <= t1 <= 253,
        m1 >= 0x0080_0000 || t1 == 0,
    ensures
        ({
            let v1 = m1 * pow2(t1 as nat);
            let v2 = m2 * pow2(t2 as nat);
            let s = (if neg1 { -v1 } else { v1 }) + (if neg2 { -v2 } else { v2 });
            &&& res.1 <= 0x7f80_0000
            &&& s == 0 ==> res.1 == 0 && !res.0
            &&& s < 0 ==> res.0 && is_nearest(res.1 as int, -s, 1)
            &&& s > 0 ==> !res.0 && is_nearest(res.1 as int, s, 1)
        }),
{
    let ghost step1 = pow2(t1 as nat) as int;
    let ghost step2 = pow2(t2 as nat) as int;
    let ghost v1 = m1 * step1;
    let ghost v2 = m2 * step2;
    let d: i32 = t1 - t2;
    proof {
        lemma_pow2_pos(t1 as nat);
        lemma_pow2_pos(t2 as nat);
        lemma_pow2_adds(d as nat, t2 as nat);
        lemma_pow2_pos(d as nat);
        lemma2_to64();
    }
    if d <= 90 {
        let shift: u128 = crate::rounding::power_of_two(d as u32);
        proof {
            lemma_pow2_90(d as nat);
            assert((m1 as int) * (shift as int) <= 0x00ff_ffff * (shift as int))
                by (nonlinear_arith)
                requires
                    0 <= m1 <= 0x00ff_ffff,
                    0 < shift,
            ;
            assert((m1 as int) * (shift as int) < 0x0004_0000_0000_0000_0000_0000_0000_0000);
        }
        let wide: u128 = (m1 as u128) * shift;
        proof {
            // both values in units of 2^t2
            assert(v1 == wide * step2) by (nonlinear_arith)
                requires
                    v1 == m1 * step1,
                    step1 == shift * step2,
                    wide == m1 * shift,
            ;
        }
        let (negative, n): (bool, u128) = if neg1 == neg2 {
            (neg1, wide + m2 as u128)
        } else if wide >= m2 as u128 {
            (neg1, wide - m2 as u128)
        } else {
            (neg2, m2 as u128 - wide)
        };
        proof {
            assert((wide + m2) * step2 == wide * step2 + m2 * step2 && (wide - m2) * step2 == wide * step2 - m2
                * step2 && (m2 - wide) * step2 == m2 * step2 - wide * step2) by (nonlinear_arith);
            assert(n > 0 ==> n * step2 > 0) by (nonlinear_arith)
                requires
                    step2 > 0,
            ;
            assert(n == 0 ==> n * step2 == 0) by (nonlinear_arith);
        }
        if n == 0 {
            return (false, 0);
        }
        let m = round_to_pattern(n, t2, false);
        proof {
            assert((n * step2) * 1 == n * step2 * 1) by (nonlinear_arith);
            lemma_cell_holds_quotient(m as int, n as int, 0, t2 as int, n * step2, 1);
        }
        (negative, m)
    } else {
        // the second number is less than an eighth of a unit in the last
        // place of the first
        let n: u128 = if neg1 == neg2 {
            8 * (m1 as u128)
        } else {
            8 * (m1 as u128) - 1
        };
        let m = round_to_pattern(n, t1 - 3, true);
        proof {
            let hi = pow2((t1 - 3) as nat) as int;
            lemma_pow2_pos((t1 - 3) as nat);
            lemma_pow2_adds(3, (t1 - 3) as nat);
            // 0 < v2 < hi
            lemma_pow2_adds(24, t2 as nat);
            vstd::arithmetic::power2::lemma_pow2_strictly_increases((24 + t2) as nat, (t1 - 3) as nat);
            assert(0 < v2 < hi) by (nonlinear_arith)
                requires
                    v2 == m2 * step2,
                    0 < m2 < 0x0100_0000,
                    step2 > 0,
                    0x0100_0000 * step2 < hi,
            ;
            assert(v1 == (8 * m1) * hi) by (nonlinear_arith)
                requires
                    v1 == m1 * step1,
                    step1 == 8 * hi,
            ;
            let total = if neg1 == neg2 {
                v1 + v2
            } else {
                v1 - v2
            };
            assert(n * hi * 1 < total * 1 < (n + 1) * hi * 1) by (nonlinear_arith)
                requires
                    v1 == (8 * m1) * hi,
                    0 < v2 < hi,
                    total == if neg1 == neg2 {
                        v1 + v2
                    } else {
                        v1 - v2
                    },
                    n == if neg1 == neg2 {
                        8 * m1
                    } else {
                        8 * m1 - 1
                    },
            ;
            lemma_cell_holds_quotient(m as int, n as int, 1, t1 as int - 3, total, 1);
        }
        (neg1, m)
    }
}

/// `2^d` for a `d` of at most 90 stays below `2^90`.
proof fn lemma_pow2_90(d: nat)
    requires
        d <= 90,
    ensures
        0 < pow2(d) <= 0x0400_0000_0000_0000_0000_0000,
{
    lemma2_to64();
    vstd::arithmetic::power2::lemma2_to64_rest();
    lemma_pow2_adds(64, 26);
    lemma_pow2_pos(d);
    if d < 90 {
        vstd::arithmetic::power2::lemma_pow2_strictly_increases(d, 90);
    }
}

impl core::ops::Add for Scalar {
    type Output = Scalar;

    fn add(self, rhs: Scalar) -> (r: Scalar) {
        proof {
            reveal(sum_of);
        }
        if self.is_nan() || rhs.is_nan() {
            return Scalar::nan();
        }
        if self.is_infinite() {
            if rhs.is_infinite() && self.is_sign_negative() != rhs.is_sign_negative() {
                return Scalar::nan();
            }
            return self;
        }
        if rhs.is_infinite() {
            return rhs;
        }
        let neg_a = self.is_sign_negative();
        let neg_b = rhs.is_sign_negative();
        let (ma, ta) = self.significand();
        let (mb, tb) = rhs.significand();
        proof {
            assert(0 * pow2(ta as nat) == 0 && 0 * pow2(tb as nat) == 0) by (nonlinear_arith);
            lemma_pow2_pos(ta as nat);
            lemma_pow2_pos(tb as nat);
            assert(ma > 0 ==> ma * pow2(ta as nat) > 0) by (nonlinear_arith)
                requires
                    pow2(ta as nat) > 0,
            ;
            assert(mb > 0 ==> mb * pow2(tb as nat) > 0) by (nonlinear_arith)
                requires
                    pow2(tb as nat) > 0,
            ;
        }
        if ma == 0 && mb == 0 {
            return Scalar::from_sign_and_magnitude(neg_a && neg_b, 0);
        }
        if mb == 0 {
            proof {
                lemma_exact_is_nearest(self.magnitude_bits());
                lemma_nearest_to(self.magnitude_bits(), self.scaled_magnitude(), 1);
            }
            return self;
        }
        if ma == 0 {
            proof {
                lemma_exact_is_nearest(rhs.magnitude_bits());
                lemma_nearest_to(rhs.magnitude_bits(), rhs.scaled_magnitude(), 1);
            }
            return rhs;
        }
        let (negative, m) = if ta >= tb {
            add_ordered(neg_a, ma, ta, neg_b, mb, tb)
        } else {
            add_ordered(neg_b, mb, tb, neg_a, ma, ta)
        };
        proof {
            let s = self.scaled() + rhs.scaled();
            if s < 0 {
                lemma_nearest_to(m as int, -s, 1);
            } else if s > 0 {
                lemma_nearest_to(m as int, s, 1);
            }
        }
        Scalar::from_sign_and_magnitude(negative, m)
    }
}

impl vstd::std_specs::ops::AddSpecImpl for Scalar {
    open spec fn obeys_add_spec() -> bool {
        true
    }

    open spec fn add_req(self, rhs: Scalar) -> bool {
        true
    }

    open spec fn add_spec(self, rhs: Scalar) -> Scalar {
        sum_of(self, rhs)
    }
}

impl core::ops::Sub for Scalar {
    type Output = Scalar;

    fn sub(self, rhs: Scalar) -> (r: Scalar) {
        self.add(rhs.neg())
    }
}

impl vstd::std_specs::ops::SubSpecImpl for Scalar {
    open spec fn obeys_sub_spec() -> bool {
        true
    }

    open spec fn sub_req(self, rhs: Scalar) -> bool {
        true
    }

    open spec fn sub_spec(self, rhs: Scalar) -> Scalar {
        difference_of(self, rhs)
    }
}

/// The square root of a number, rounded. It is no number for what is none
/// and for what is below zero; the root of a zero is that zero, sign and
/// all, and the root of the positive infinity is itself.
#[verifier::opaque]
pub open spec fn root_of(a: Scalar) -> Scalar {
    if a.spec_is_nan() {
        Scalar { bits: NAN_BITS }
    } else if a.spec_is_zero() {
        a
    } else if a.spec_is_sign_negative() {
        Scalar { bits: NAN_BITS }
    } else if a.spec_is_infinite() {
        a
    } else {
        signed(false, nearest_to_root(a.scaled_magnitude() * pow2(149)))
    }
}

/// The whole part of the square root of `w`.
pub fn integer_root(w: u128) -> (root: u128)
    requires
        w < 0x1000_0000_0000_0000_0000,
    ensures
        root * root <= w < (root + 1) * (root + 1),
        root < 0x0040_0000_0000,
{
    let mut root: u128 = 0;
    let mut i: u32 = 38;
    proof {
        lemma2_to64();
        vstd::arithmetic::power2::lemma2_to64_rest();
        assert(0x0040_0000_0000 * 0x0040_0000_0000 == 0x1000_0000_0000_0000_0000int);
    }
    while i > 0
        invariant
            i <= 38,
            root * root <= w,
            w < (root + pow2(i as nat)) * (root + pow2(i as nat)),
            root + pow2(i as nat) <= 0x0040_0000_0000,
        decreases i,
    {
        i = i - 1;
        let bit: u128 = crate::rounding::power_of_two(i);
        proof {
            vstd::arithmetic::power2::lemma_pow2_unfold((i + 1) as nat);
            lemma_pow2_pos(i as nat);
        }
        let candidate: u128 = root + bit;
        proof {
            assert(candidate * candidate <= 0x0040_0000_0000 * 0x0040_0000_0000)
                by (nonlinear_arith)
                requires
                    0 <= candidate <= 0x0040_0000_0000,
            ;
        }
        if candidate * candidate <= w {
            root = candidate;
        }
    }
    proof {
        lemma2_to64();
        assert(root + 1 <= 0x0040_0000_0000);
        assert(root < 0x0040_0000_0000);
    }
    root
}

/// The cell that the integer root of a stretched significand finds holds the
/// square root of the number.
proof fn lemma_root_cell(m: int, t: int, k: int, h: int, big: int)
    requires
        0 <= t,
        k == 50 || k == 51,
        2 * h == t + 149 - k,
        big == m * pow2(k as nat),
    ensures
        (m * pow2(t as nat)) * pow2(149) == big * (pow2(h as nat) * pow2(h as nat)),
{
    let pt = pow2(t as nat) as int;
    let c = pow2(149) as int;
    let pk = pow2(k as nat) as int;
    let ph = pow2(h as nat) as int;
    lemma_pow2_adds(h as nat, h as nat);
    lemma_pow2_adds(k as nat, (2 * h) as nat);
    lemma_pow2_adds(t as nat, 149);
    assert((m * pt) * c == (m * pk) * (ph * ph)) by (nonlinear_arith)
        requires
            pt * c == pk * (ph * ph),
    ;
}

impl Scalar {
    /// The square root, rounded to the nearest number.
    pub fn sqrt(self) -> (r: Scalar)
        ensures
            r == root_of(self),
    {
        proof {
            reveal(root_of);
        }
        if self.is_nan() {
            return Scalar::nan();
        }
        if self.is_zero() {
            return self;
        }
        if self.is_sign_negative() {
            return Scalar::nan();
        }
        if self.is_infinite() {
            return self;
        }
        let (m, t) = self.significand();
        // the significand is stretched by 50 or 51 bits, so that what is left
        // of the exponent is even
        let k: u32 = if t % 2 == 1 {
            50
        } else {
            51
        };
        let h: i32 = (t + 149 - k as i32) / 2;
        let stretch: u128 = crate::rounding::power_of_two(k);
        proof {
            lemma2_to64();
            vstd::arithmetic::power2::lemma2_to64_rest();
            assert(0 < m);
            assert((m as int) * (stretch as int) <= 0x00ff_ffff * (stretch as int))
                by (nonlinear_arith)
                requires
                    0 <= m <= 0x00ff_ffff,
                    0 < stretch,
            ;
            assert((m as int) * (stretch as int) >= stretch) by (nonlinear_arith)
                requires
                    1 <= m,
                    0 < stretch,
            ;
        }
        let big: u128 = (m as u128) * stretch;
        let n: u128 = integer_root(big);
        let sticky: bool = n * n != big;
        proof {
            // the root has 26 bits or more
            if n < 0x0200_0000 {
                assert((n + 1) * (n + 1) <= 0x0200_0000 * 0x0200_0000) by (nonlinear_arith)
                    requires
                        0 <= n < 0x0200_0000,
                ;
            }
        }
        let pattern = round_to_pattern(n, h, sticky);
        proof {
            let w = self.scaled_magnitude() * pow2(149);
            lemma_root_cell(m as int, t as int, k as int, h as int, big as int);
            lemma_cell_holds_root(
                pattern as int,
                n as int,
                if sticky { 1int } else { 0int },
                h as int,
                big as int,
                w,
            );
            lemma_nearest_to_root(pattern as int, w);
        }
        Scalar::from_sign_and_magnitude(false, pattern)
    }
}

/// The quotient is not below the midpoint under `m`, and on it only where
/// `m` is even.
spec fn above_lower_midpoint(m: int, num: int, den: int) -> bool {
    let twice_mid = magnitude_value(m - 1) + magnitude_value(m);
    twice_mid * den < 2 * num || (twice_mid * den == 2 * num && m % 2 == 0)
}

/// From a pattern whose lower midpoint the quotient is not below, the search
/// upwards ends at a pattern nearest to the quotient.
proof fn lemma_nearest_from(m: int, num: int, den: int)
    requires
        0 <= m <= 0x7f80_0000,
        m > 0 ==> above_lower_midpoint(m, num, den),
    ensures
        exists|k: int| is_nearest(k, num, den),
    decreases 0x7f80_0000 - m,
{
    if is_nearest(m, num, den) {
    } else {
        // the quotient is at or above the upper midpoint, which is the
        // lower midpoint of the next pattern
        assert(above_lower_midpoint(m + 1, num, den));
        lemma_nearest_from(m + 1, num, den);
    }
}

/// Every quotient has its nearest pattern.
pub proof fn lemma_nearest_exists(num: int, den: int)
    ensures
        is_nearest(nearest_to(num, den), num, den),
{
    lemma_nearest_from(0, num, den);
}

/// The root is not below the midpoint under `m`, and on it only where `m`
/// is even.
spec fn root_above_lower_midpoint(m: int, w: int) -> bool {
    let twice_mid = magnitude_value(m - 1) + magnitude_value(m);
    twice_mid * twice_mid < 4 * w || (twice_mid * twice_mid == 4 * w && m % 2 == 0)
}

/// From a pattern whose lower midpoint the root is not below, the search
/// upwards ends at a pattern nearest to the root.
proof fn lemma_nearest_root_from(m: int, w: int)
    requires
        0 <= m <= 0x7f80_0000,
        m > 0 ==> root_above_lower_midpoint(m, w),
    ensures
        exists|k: int| is_nearest_root(k, w),
    decreases 0x7f80_0000 - m,
{
    if is_nearest_root(m, w) {
    } else {
        assert(root_above_lower_midpoint(m + 1, w));
        lemma_nearest_root_from(m + 1, w);
    }
}

/// Every square root has its nearest pattern.
pub proof fn lemma_nearest_root_exists(w: int)
    ensures
        is_nearest_root(nearest_to_root(w), w),
{
    lemma_nearest_root_from(0, w);
}

/// The root of a positive number is the number nearest to its square root:
/// the square of the root differs from the number by rounding alone, lying
/// between the squares of the midpoints to the root's two neighbours.
pub proof fn lemma_root_is_nearest(a: Scalar)
    requires
        a.spec_is_finite(),
        !a.spec_is_zero(),
        !a.spec_is_sign_negative(),
    ensures
        !root_of(a).spec_is_sign_negative(),
        is_nearest_root(root_of(a).magnitude_bits(), a.scaled() * pow2(149)),
{
    reveal(root_of);
    lemma_nearest_root_exists(a.scaled_magnitude() * pow2(149));
}

/// The root squares back to the number, within a hundred-thousandth of it:
/// for a finite number that is not negative, zero included, the root is a
/// finite number that is not negative, and its rounded product with itself,
/// unless it overflows, differs from the number by at most `10^-5` of the
/// number. Below `2^126` the product does not overflow.
pub proof fn lemma_root_squares_back(q: Scalar)
    requires
        q.spec_is_finite(),
        !q.spec_is_sign_negative(),
    ensures
        root_of(q).spec_is_finite(),
        !root_of(q).spec_is_sign_negative(),
        !product_of(root_of(q), root_of(q)).spec_is_nan(),
        !product_of(root_of(q), root_of(q)).spec_is_sign_negative(),
        q.scaled() < pow2(275) ==> product_of(root_of(q), root_of(q)).spec_is_finite(),
        product_of(root_of(q), root_of(q)).spec_is_finite() ==> 100000 * (product_of(
            root_of(q),
            root_of(q),
        ).scaled() - q.scaled()) <= q.scaled() && 100000 * (q.scaled() - product_of(
            root_of(q),
            root_of(q),
        ).scaled()) <= q.scaled(),
{
    reveal(root_of);
    reveal(product_of);
    let quantity = q.scaled();
    let c = pow2(149) as int;
    let w = quantity * c;
    lemma_pow2_pos(149);
    lemma2_to64();
    if q.spec_is_zero() {
        assert(magnitude_value(0) == 0);
        assert(0 * 0 == magnitude_value(0) * c) by (nonlinear_arith);
        lemma_exact_quotient_is_nearest(0, 0, c);
        assert(q.scaled_magnitude() * q.scaled_magnitude() == 0) by (nonlinear_arith)
            requires
                q.scaled_magnitude() == 0,
        ;
    } else {
        // a finite number that is not zero lies between one unit and 2^128
        lemma_magnitude_monotone(0, q.magnitude_bits());
        lemma_magnitude_monotone(q.magnitude_bits(), 0x7f80_0000);
        lemma_grid(0x0080_0000, 254);
        assert(254 * 0x0080_0000 + 0x0080_0000 == 0x7f80_0000);
        lemma_pow2_adds(23, 254);
        vstd::arithmetic::power2::lemma_pow2_unfold(276);
        let top = pow2(275) as int;
        assert(c <= w && w < pow2(277) * c && (quantity < top ==> 2 * w < pow2(276) * c))
            by (nonlinear_arith)
            requires
                1 <= quantity < pow2(277),
                w == quantity * c,
                c > 0,
                pow2(276) == 2 * top,
        ;
        // the root
        lemma_nearest_root_exists(w);
        let ml = nearest_to_root(w);
        crate::rounding::lemma_nearest_root_is_normal(ml, w);
        crate::rounding::lemma_nearest_root_is_close(ml, w);
        let l = root_of(q);
        assert(l == Scalar { bits: ml as u32 });
        assert(l.magnitude_bits() == ml);
        let length = magnitude_value(ml);
        let a = length * length;
        assert(a >= 0) by (nonlinear_arith)
            requires
                a == length * length,
        ;
        // the product of the root with itself
        lemma_nearest_exists(a, c);
        let mp = nearest_to(a, c);
        let p = product_of(l, l);
        assert(p == Scalar { bits: mp as u32 });
        assert(p.magnitude_bits() == mp);
        assert(a * 0x0040_0001 >= w * 0x0040_0000 && a * 0x003f_ffff <= w * 0x0040_0000);
        if quantity < top {
            crate::rounding::lemma_nearest_is_normal(mp, a, c);
        }
        if mp < 0x7f80_0000 {
            crate::rounding::lemma_nearest_is_near(mp, a, c);
            let product = magnitude_value(mp);
            let x = product * c;
            crate::rounding::lemma_magnitude_ordered(0, mp);
            if quantity >= 0x0010_0000 {
                assert(0x0010_0000 * c <= w) by (nonlinear_arith)
                    requires
                        quantity >= 0x0010_0000,
                        w == quantity * c,
                        c > 0,
                ;
                assert(100000 * (x - w) <= w && 100000 * (w - x) <= w);
                assert(100000 * (product - quantity) <= quantity && 100000 * (quantity - product)
                    <= quantity) by (nonlinear_arith)
                    requires
                        x == product * c,
                        w == quantity * c,
                        100000 * (x - w) <= w,
                        100000 * (w - x) <= w,
                        c > 0,
                ;
            } else {
                // so small a number comes back exactly
                assert(w < 0x0010_0000 * c) by (nonlinear_arith)
                    requires
                        quantity < 0x0010_0000,
                        w == quantity * c,
                        c > 0,
                ;
                assert(x - w < c && w - x < c);
                assert(product == quantity) by (nonlinear_arith)
                    requires
                        x == product * c,
                        w == quantity * c,
                        x - w < c,
                        w - x < c,
                        c > 0,
                ;
            }
        }
    }
}

/// One over the root of a finite number above zero is a finite number that
/// is not negative.
pub proof fn lemma_inverse_of_length(q: Scalar)
    requires
        q.spec_is_finite(),
        !q.spec_is_sign_negative(),
        !q.spec_is_zero(),
    ensures
        quotient_of(Scalar::spec_one(), root_of(q)).spec_is_finite(),
        !quotient_of(Scalar::spec_one(), root_of(q)).spec_is_sign_negative(),
{
    reveal(root_of);
    reveal(quotient_of);
    crate::scalar::lemma_zero_and_one();
    let c = pow2(149) as int;
    let w = q.scaled() * c;
    lemma_pow2_pos(149);
    lemma_nearest_root_exists(w);
    let ml = nearest_to_root(w);
    lemma_magnitude_monotone(0, q.magnitude_bits());
    lemma_magnitude_monotone(q.magnitude_bits(), 0x7f80_0000);
    lemma_grid(0x0080_0000, 254);
    assert(254 * 0x0080_0000 + 0x0080_0000 == 0x7f80_0000);
    lemma_pow2_adds(23, 254);
    lemma2_to64();
    assert(c <= w && w < pow2(277) * c) by (nonlinear_arith)
        requires
            1 <= q.scaled() < pow2(277),
            w == q.scaled() * c,
            c > 0,
    ;
    crate::rounding::lemma_nearest_root_is_normal(ml, w);
    crate::rounding::lemma_steps_are_small(ml);
    let l = root_of(q);
    assert(l == Scalar { bits: ml as u32 });
    assert(l.magnitude_bits() == ml);
    let length = magnitude_value(ml);
    // the length is 2^23 units or more, so its inverse is below 2^127
    crate::rounding::lemma_magnitude_ordered(0x0080_0000, ml);
    lemma_grid(0x0080_0000, 0);
    lemma2_to64();
    let num = c * c;
    lemma_nearest_exists(num, length);
    let mk = nearest_to(num, length);
    lemma_pow2_adds(149, 149);
    lemma_pow2_adds(276, 23);
    vstd::arithmetic::power2::lemma_pow2_unfold(299);
    lemma_pow2_pos(276);
    let big = pow2(276) as int;
    assert(num < big * length) by (nonlinear_arith)
        requires
            num > 0,
            2 * num == big * 0x0080_0000,
            length >= 0x0080_0000,
            big > 0,
    ;
    crate::rounding::lemma_nearest_is_normal(mk, num, length);
}

/// What lies at `2^128` or beyond has the infinity for its nearest.
pub proof fn lemma_huge_is_nearest_infinity(num: int, den: int)
    requires
        den > 0,
        num >= magnitude_value(0x7f80_0000) * den,
    ensures
        is_nearest(0x7f80_0000, num, den),
        nearest_to(num, den) == 0x7f80_0000,
{
    lemma_magnitude_monotone(0x7f80_0000 - 1, 0x7f80_0000);
    let top = magnitude_value(0x7f80_0000);
    let below = magnitude_value(0x7f80_0000 - 1);
    assert((below + top) * den < 2 * num) by (nonlinear_arith)
        requires
            below < top,
            num >= top * den,
            den > 0,
    ;
    lemma_nearest_to(0x7f80_0000, num, den);
}

/// The square of a number is the number nearest to the exact square, and
/// is not negative.
pub proof fn lemma_square_is_nearest(a: Scalar)
    requires
        !a.spec_is_nan(),
    ensures
        !product_of(a, a).spec_is_nan(),
        !product_of(a, a).spec_is_sign_negative(),
        is_nearest(
            product_of(a, a).magnitude_bits(),
            a.scaled_magnitude() * a.scaled_magnitude(),
            pow2(149) as int,
        ),
{
    reveal(product_of);
    let c = pow2(149) as int;
    lemma_pow2_pos(149);
    let v = a.scaled_magnitude();
    if a.spec_is_infinite() {
        lemma_grid(0x0080_0000, 254);
        assert(254 * 0x0080_0000 + 0x0080_0000 == 0x7f80_0000);
        lemma_pow2_adds(23, 254);
        lemma2_to64();
        vstd::arithmetic::power2::lemma_pow2_strictly_increases(149, 277);
        assert(v * v >= v * c) by (nonlinear_arith)
            requires
                v == pow2(277),
                c <= pow2(277),
                c > 0,
        ;
        lemma_huge_is_nearest_infinity(v * v, c);
        assert(a.magnitude_bits() != 0);
    } else {
        lemma_nearest_exists(v * v, c);
    }
}

/// The product of two finite numbers is the number nearest to the exact
/// product, with the product of the signs.
pub proof fn lemma_product_is_nearest(a: Scalar, b: Scalar)
    requires
        a.spec_is_finite(),
        b.spec_is_finite(),
    ensures
        !product_of(a, b).spec_is_nan(),
        product_of(a, b).spec_is_sign_negative() == (a.spec_is_sign_negative()
            != b.spec_is_sign_negative()),
        is_nearest(
            product_of(a, b).magnitude_bits(),
            a.scaled_magnitude() * b.scaled_magnitude(),
            pow2(149) as int,
        ),
{
    reveal(product_of);
    lemma_nearest_exists(a.scaled_magnitude() * b.scaled_magnitude(), pow2(149) as int);
}

/// The quotient of two finite numbers, the second not zero, is the number
/// nearest to the exact quotient, with the quotient of the signs.
pub proof fn lemma_quotient_is_nearest(a: Scalar, b: Scalar)
    requires
        a.spec_is_finite(),
        b.spec_is_finite(),
        !b.spec_is_zero(),
    ensures
        !quotient_of(a, b).spec_is_nan(),
        quotient_of(a, b).spec_is_sign_negative() == (a.spec_is_sign_negative()
            != b.spec_is_sign_negative()),
        is_nearest(
            quotient_of(a, b).magnitude_bits(),
            a.scaled_magnitude() * pow2(149),
            b.scaled_magnitude(),
        ),
{
    reveal(quotient_of);
    lemma_nearest_exists(a.scaled_magnitude() * pow2(149), b.scaled_magnitude());
}

/// The sum of two numbers that are not negative is the number nearest to
/// the exact sum, and is not negative; and it is finite only where both
/// terms are.
pub proof fn lemma_sum_is_nearest(a: Scalar, b: Scalar)
    requires
        !a.spec_is_nan(),
        !b.spec_is_nan(),
        !a.spec_is_sign_negative(),
        !b.spec_is_sign_negative(),
    ensures
        !sum_of(a, b).spec_is_nan(),
        !sum_of(a, b).spec_is_sign_negative(),
        is_nearest(sum_of(a, b).magnitude_bits(), a.scaled_magnitude() + b.scaled_magnitude(), 1),
        sum_of(a, b).spec_is_finite() ==> a.spec_is_finite() && b.spec_is_finite(),
{
    reveal(sum_of);
    crate::rounding::lemma_magnitude_ordered(0, a.magnitude_bits());
    crate::rounding::lemma_magnitude_ordered(0, b.magnitude_bits());
    let s = a.scaled_magnitude() + b.scaled_magnitude();
    if a.spec_is_infinite() || b.spec_is_infinite() {
        assert(s >= magnitude_value(0x7f80_0000) * 1) by (nonlinear_arith)
            requires
                s >= magnitude_value(0x7f80_0000),
        ;
        lemma_huge_is_nearest_infinity(s, 1);
    } else {
        lemma_nearest_exists(s, 1);
        if s == 0 {
            lemma_exact_quotient_is_nearest(0, 0, 1);
            assert(a.magnitude_bits() == 0 && b.magnitude_bits() == 0) by {
                if a.magnitude_bits() > 0 {
                    lemma_magnitude_monotone(0, a.magnitude_bits());
                }
                if b.magnitude_bits() > 0 {
                    lemma_magnitude_monotone(0, b.magnitude_bits());
                }
            }
        }
    }
}

/// A square is not negative, in its sign bit too, unless it is no number.
pub proof fn lemma_square_is_not_negative(a: Scalar)
    ensures
        product_of(a, a).spec_is_nan() || !product_of(a, a).spec_is_sign_negative(),
        product_of(a, a).spec_is_nan() <==> a.spec_is_nan(),
{
    reveal(product_of);
    lemma_nearest_exists(a.scaled_magnitude() * a.scaled_magnitude(), pow2(149) as int);
}

/// A sum of two numbers that are not negative is not negative, in its sign
/// bit too, unless it is no number; and it is no number only where a term is
/// none.
pub proof fn lemma_sum_of_positives(a: Scalar, b: Scalar)
    requires
        a.spec_is_nan() || !a.spec_is_sign_negative(),
        b.spec_is_nan() || !b.spec_is_sign_negative(),
    ensures
        sum_of(a, b).spec_is_nan() || !sum_of(a, b).spec_is_sign_negative(),
        sum_of(a, b).spec_is_nan() <==> a.spec_is_nan() || b.spec_is_nan(),
{
    reveal(sum_of);
    if a.spec_is_finite() && b.spec_is_finite() {
        let s = a.scaled() + b.scaled();
        crate::rounding::lemma_magnitude_ordered(0, a.magnitude_bits());
        crate::rounding::lemma_magnitude_ordered(0, b.magnitude_bits());
        lemma_nearest_exists(s, 1);
    }
}

/// A finite number times a finite number that is not negative is a number
/// with the sign of the first.
pub proof fn lemma_product_with_positive(a: Scalar, k: Scalar)
    requires
        a.spec_is_finite(),
        k.spec_is_finite(),
        !k.spec_is_sign_negative(),
    ensures
        !product_of(a, k).spec_is_nan(),
        product_of(a, k).spec_is_sign_negative() == a.spec_is_sign_negative(),
{
    reveal(product_of);
    lemma_nearest_exists(a.scaled_magnitude() * k.scaled_magnitude(), pow2(149) as int);
}

/// A sum does not depend on the order of its terms: the two sums are the
/// same pattern.
pub proof fn lemma_sum_commutes(a: Scalar, b: Scalar)
    ensures
        sum_of(a, b) == sum_of(b, a),
{
    reveal(sum_of);
}

/// A product does not depend on the order of its factors: the two products
/// are the same pattern.
pub proof fn lemma_product_commutes(a: Scalar, b: Scalar)
    ensures
        product_of(a, b) == product_of(b, a),
{
    reveal(product_of);
    vstd::arithmetic::mul::lemma_mul_is_commutative(a.scaled_magnitude(), b.scaled_magnitude());
}

/// A difference taken the other way round is the same number negated,
/// unless it is no number at all. (A difference of zero is the positive zero
/// both ways round, whose negation is the negative zero: the same number in
/// another pattern.)
pub proof fn lemma_difference_reverses(a: Scalar, b: Scalar)
    requires
        !difference_of(a, b).spec_is_nan(),
    ensures
        difference_of(a, b).spec_same(difference_of(b, a).negated()),
{
    reveal(sum_of);
    crate::scalar::lemma_negated(a);
    crate::scalar::lemma_negated(b);
    crate::scalar::lemma_negated(difference_of(b, a));
    if a.spec_is_finite() && b.spec_is_finite() {
        let s = a.scaled() - b.scaled();
        if s > 0 {
            lemma_nearest_exists(s, 1);
        } else if s < 0 {
            lemma_nearest_exists(-s, 1);
        }
    }
}

} // verus!
