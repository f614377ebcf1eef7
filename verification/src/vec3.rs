//! Three-component vectors of binary32 numbers.
//!
//! A vector is a plain value. Every operation works component by component
//! in the arithmetic of `arithmetic`, rounding each step once, and says so in
//! its contract: what comes back is stated over `sum_of`, `product_of` and
//! the like, in the order in which the steps are taken.

use vstd::prelude::*;
use core::ops::{Add, AddAssign, Div, DivAssign, Mul, MulAssign, Neg, Sub, SubAssign};
use crate::arithmetic::{
    difference_of,
    lemma_difference_reverses,
    lemma_inverse_of_length,
    lemma_product_commutes,
    lemma_product_is_nearest,
    lemma_quotient_is_nearest,
    lemma_root_is_nearest,
    lemma_square_is_nearest,
    lemma_sum_is_nearest,
    lemma_product_with_positive,
    lemma_root_squares_back,
    lemma_square_is_not_negative,
    lemma_sum_of_positives,
    lemma_sum_commutes,
    product_of,
    quotient_of,
    root_of,
    sum_of,
};
use crate::rounding::is_nearest_root;
use crate::tolerance::{
    are_length_steps,
    are_sum_steps,
    are_unit_steps,
    lemma_scaled_length_is_one,
    lemma_scaled_squared_length_is_close,
    UnitSteps,
};
use crate::scalar::Scalar;

verus! {

/// A point, a direction or a colour: three numbers.
#[derive(Clone, Copy, Debug)]
pub struct Vec3 {
    pub e0: Scalar,
    pub e1: Scalar,
    pub e2: Scalar,
}

/// The inner product: the three products summed from first to last.
pub open spec fn dot_of(u: Vec3, v: Vec3) -> Scalar {
    sum_of(sum_of(product_of(u.e0, v.e0), product_of(u.e1, v.e1)), product_of(u.e2, v.e2))
}

/// The cross product.
pub open spec fn cross_of(u: Vec3, v: Vec3) -> Vec3 {
    Vec3 {
        e0: difference_of(product_of(u.e1, v.e2), product_of(u.e2, v.e1)),
        e1: difference_of(product_of(u.e0, v.e2), product_of(u.e2, v.e0)).negated(),
        e2: difference_of(product_of(u.e0, v.e1), product_of(u.e1, v.e0)),
    }
}

/// The squared length: the three squares summed from first to last.
pub open spec fn squared_length_of(v: Vec3) -> Scalar {
    sum_of(sum_of(product_of(v.e0, v.e0), product_of(v.e1, v.e1)), product_of(v.e2, v.e2))
}

/// The length: the root of the squared length.
pub open spec fn length_of(v: Vec3) -> Scalar {
    root_of(squared_length_of(v))
}

/// The vector scaled to length one: each component times the inverse of the
/// length. For a vector of length zero the inverse is infinite, and what
/// comes out is no vector of numbers.
pub open spec fn unit_of(v: Vec3) -> Vec3 {
    v.scaled(quotient_of(Scalar::spec_one(), length_of(v)))
}

impl Vec3 {
    /// The component at `i`, counted from 0.
    pub open spec fn component(self, i: int) -> Scalar {
        if i == 0 {
            self.e0
        } else if i == 1 {
            self.e1
        } else {
            self.e2
        }
    }

    /// No component is a NaN or an infinity.
    pub open spec fn spec_is_finite(&self) -> bool {
        self.e0.spec_is_finite() && self.e1.spec_is_finite() && self.e2.spec_is_finite()
    }

    /// No component is a NaN.
    pub open spec fn is_numbers(self) -> bool {
        !self.e0.spec_is_nan() && !self.e1.spec_is_nan() && !self.e2.spec_is_nan()
    }

    /// Component by component, the two vectors denote the same numbers.
    pub open spec fn spec_same(self, other: Vec3) -> bool {
        self.e0.spec_same(other.e0) && self.e1.spec_same(other.e1) && self.e2.spec_same(
            other.e2,
        )
    }

    /// The vector of three zeros.
    pub open spec fn spec_zero() -> Vec3 {
        Vec3 { e0: Scalar::spec_zero(), e1: Scalar::spec_zero(), e2: Scalar::spec_zero() }
    }

    /// The vector of three ones.
    pub open spec fn spec_ones() -> Vec3 {
        Vec3 { e0: Scalar::spec_one(), e1: Scalar::spec_one(), e2: Scalar::spec_one() }
    }

    /// The vector with every component's sign flipped.
    pub open spec fn negated(self) -> Vec3 {
        Vec3 { e0: self.e0.negated(), e1: self.e1.negated(), e2: self.e2.negated() }
    }

    /// The sum, component by component.
    pub open spec fn plus(self, v: Vec3) -> Vec3 {
        Vec3 { e0: sum_of(self.e0, v.e0), e1: sum_of(self.e1, v.e1), e2: sum_of(self.e2, v.e2) }
    }

    /// The difference, component by component.
    pub open spec fn minus(self, v: Vec3) -> Vec3 {
        Vec3 {
            e0: difference_of(self.e0, v.e0),
            e1: difference_of(self.e1, v.e1),
            e2: difference_of(self.e2, v.e2),
        }
    }

    /// The product, component by component.
    pub open spec fn times(self, v: Vec3) -> Vec3 {
        Vec3 {
            e0: product_of(self.e0, v.e0),
            e1: product_of(self.e1, v.e1),
            e2: product_of(self.e2, v.e2),
        }
    }

    /// The quotient, component by component.
    pub open spec fn over(self, v: Vec3) -> Vec3 {
        Vec3 {
            e0: quotient_of(self.e0, v.e0),
            e1: quotient_of(self.e1, v.e1),
            e2: quotient_of(self.e2, v.e2),
        }
    }

    /// Every component times `k`, the component standing first.
    pub open spec fn scaled(self, k: Scalar) -> Vec3 {
        Vec3 { e0: product_of(self.e0, k), e1: product_of(self.e1, k), e2: product_of(self.e2, k) }
    }

    /// `k` times every component, `k` standing first.
    pub open spec fn scaled_from_left(self, k: Scalar) -> Vec3 {
        Vec3 { e0: product_of(k, self.e0), e1: product_of(k, self.e1), e2: product_of(k, self.e2) }
    }

    /// Every component over `k`.
    pub open spec fn shrunk(self, k: Scalar) -> Vec3 {
        Vec3 {
            e0: quotient_of(self.e0, k),
            e1: quotient_of(self.e1, k),
            e2: quotient_of(self.e2, k),
        }
    }

    pub fn new(e0: Scalar, e1: Scalar, e2: Scalar) -> (v: Vec3)
        ensures
            v == (Vec3 { e0, e1, e2 }),
    {
        Vec3 { e0, e1, e2 }
    }

    /// The vector of three zeros.
    #[verifier::when_used_as_spec(spec_zero)]
    pub fn zero() -> (v: Vec3)
        ensures
            v == Vec3::spec_zero(),
    {
        Vec3 { e0: Scalar::zero(), e1: Scalar::zero(), e2: Scalar::zero() }
    }

    /// The vector of three ones.
    #[verifier::when_used_as_spec(spec_ones)]
    pub fn ones() -> (v: Vec3)
        ensures
            v == Vec3::spec_ones(),
    {
        Vec3 { e0: Scalar::one(), e1: Scalar::one(), e2: Scalar::one() }
    }

    pub fn dot(&self, v: Vec3) -> (d: Scalar)
        ensures
            d == dot_of(*self, v),
    {
        dot(*self, v)
    }

    pub fn cross(&self, v: Vec3) -> (c: Vec3)
        ensures
            c == cross_of(*self, v),
    {
        cross(*self, v)
    }

    pub fn length(&self) -> (l: Scalar)
        ensures
            l == length_of(*self),
    {
        length(*self)
    }

    pub fn squared_length(&self) -> (l: Scalar)
        ensures
            l == squared_length_of(*self),
    {
        squared_length(*self)
    }

    /// Scales the vector to length one, in place.
    pub fn make_unit_vector(&mut self)
        ensures
            *final(self) == unit_of(*old(self)),
    {
        *self = make_unit_vector(*self)
    }

    pub fn x(&self) -> (s: Scalar)
        ensures
            s == self.e0,
    {
        self.e0
    }

    pub fn y(&self) -> (s: Scalar)
        ensures
            s == self.e1,
    {
        self.e1
    }

    pub fn z(&self) -> (s: Scalar)
        ensures
            s == self.e2,
    {
        self.e2
    }

    /// The first component, read as the red channel of a colour.
    pub fn r(&self) -> (s: Scalar)
        ensures
            s == self.e0,
    {
        self.e0
    }

    /// The second component, read as the green channel of a colour.
    pub fn g(&self) -> (s: Scalar)
        ensures
            s == self.e1,
    {
        self.e1
    }

    /// The third component, read as the blue channel of a colour.
    pub fn b(&self) -> (s: Scalar)
        ensures
            s == self.e2,
    {
        self.e2
    }

    /// The component at `i`. There are three.
    pub fn index(&self, i: usize) -> (s: Scalar)
        requires
            i < 3,
        ensures
            s == self.component(i as int),
    {
        if i == 0 {
            self.e0
        } else if i == 1 {
            self.e1
        } else {
            self.e2
        }
    }

    #[verifier::when_used_as_spec(spec_is_finite)]
    pub fn is_finite(&self) -> (r: bool)
        ensures
            r == self.spec_is_finite(),
    {
        self.e0.is_finite() && self.e1.is_finite() && self.e2.is_finite()
    }
}

pub fn dot(u: Vec3, v: Vec3) -> (d: Scalar)
    ensures
        d == dot_of(u, v),
{
    u.e0.mul(v.e0).add(u.e1.mul(v.e1)).add(u.e2.mul(v.e2))
}

pub fn cross(u: Vec3, v: Vec3) -> (c: Vec3)
    ensures
        c == cross_of(u, v),
{
    Vec3::new(
        u.e1.mul(v.e2).sub(u.e2.mul(v.e1)),
        u.e0.mul(v.e2).sub(u.e2.mul(v.e0)).neg(),
        u.e0.mul(v.e1).sub(u.e1.mul(v.e0)),
    )
}

pub fn length(v: Vec3) -> (l: Scalar)
    ensures
        l == length_of(v),
{
    squared_length(v).sqrt()
}

pub fn squared_length(v: Vec3) -> (l: Scalar)
    ensures
        l == squared_length_of(v),
{
    v.e0.mul(v.e0).add(v.e1.mul(v.e1)).add(v.e2.mul(v.e2))
}

/// The vector scaled to length one. The vector is not to be of length zero:
/// what comes back for such a one is no vector of numbers.
pub fn make_unit_vector(v: Vec3) -> (u: Vec3)
    ensures
        u == unit_of(v),
{
    let k = Scalar::one().div(v.length());
    v.mul(k)
}

impl Add for Vec3 {
    type Output = Vec3;

    fn add(self, rhs: Vec3) -> (r: Vec3) {
        Vec3 { e0: self.e0.add(rhs.e0), e1: self.e1.add(rhs.e1), e2: self.e2.add(rhs.e2) }
    }
}

impl vstd::std_specs::ops::AddSpecImpl for Vec3 {
    open spec fn obeys_add_spec() -> bool {
        true
    }

    open spec fn add_req(self, rhs: Vec3) -> bool {
        true
    }

    open spec fn add_spec(self, rhs: Vec3) -> Vec3 {
        self.plus(rhs)
    }
}

impl Sub for Vec3 {
    type Output = Vec3;

    fn sub(self, rhs: Vec3) -> (r: Vec3) {
        Vec3 { e0: self.e0.sub(rhs.e0), e1: self.e1.sub(rhs.e1), e2: self.e2.sub(rhs.e2) }
    }
}

impl vstd::std_specs::ops::SubSpecImpl for Vec3 {
    open spec fn obeys_sub_spec() -> bool {
        true
    }

    open spec fn sub_req(self, rhs: Vec3) -> bool {
        true
    }

    open spec fn sub_spec(self, rhs: Vec3) -> Vec3 {
        self.minus(rhs)
    }
}

impl Neg for Vec3 {
    type Output = Vec3;

    fn neg(self) -> (r: Vec3) {
        Vec3 { e0: self.e0.neg(), e1: self.e1.neg(), e2: self.e2.neg() }
    }
}

impl vstd::std_specs::ops::NegSpecImpl for Vec3 {
    open spec fn obeys_neg_spec() -> bool {
        true
    }

    open spec fn neg_req(self) -> bool {
        true
    }

    open spec fn neg_spec(self) -> Vec3 {
        self.negated()
    }
}

impl Mul for Vec3 {
    type Output = Vec3;

    fn mul(self, rhs: Vec3) -> (r: Vec3) {
        Vec3 { e0: self.e0.mul(rhs.e0), e1: self.e1.mul(rhs.e1), e2: self.e2.mul(rhs.e2) }
    }
}

impl vstd::std_specs::ops::MulSpecImpl for Vec3 {
    open spec fn obeys_mul_spec() -> bool {
        true
    }

    open spec fn mul_req(self, rhs: Vec3) -> bool {
        true
    }

    open spec fn mul_spec(self, rhs: Vec3) -> Vec3 {
        self.times(rhs)
    }
}

impl Mul<Scalar> for Vec3 {
    type Output = Vec3;

    fn mul(self, rhs: Scalar) -> (r: Vec3) {
        Vec3 { e0: self.e0.mul(rhs), e1: self.e1.mul(rhs), e2: self.e2.mul(rhs) }
    }
}

impl vstd::std_specs::ops::MulSpecImpl<Scalar> for Vec3 {
    open spec fn obeys_mul_spec() -> bool {
        true
    }

    open spec fn mul_req(self, rhs: Scalar) -> bool {
        true
    }

    open spec fn mul_spec(self, rhs: Scalar) -> Vec3 {
        self.scaled(rhs)
    }
}

impl Mul<Vec3> for Scalar {
    type Output = Vec3;

    fn mul(self, rhs: Vec3) -> (r: Vec3) {
        Vec3 { e0: self.mul(rhs.e0), e1: self.mul(rhs.e1), e2: self.mul(rhs.e2) }
    }
}

impl vstd::std_specs::ops::MulSpecImpl<Vec3> for Scalar {
    open spec fn obeys_mul_spec() -> bool {
        true
    }

    open spec fn mul_req(self, rhs: Vec3) -> bool {
        true
    }

    open spec fn mul_spec(self, rhs: Vec3) -> Vec3 {
        rhs.scaled_from_left(self)
    }
}

impl Div for Vec3 {
    type Output = Vec3;

    fn div(self, rhs: Vec3) -> (r: Vec3) {
        Vec3 { e0: self.e0.div(rhs.e0), e1: self.e1.div(rhs.e1), e2: self.e2.div(rhs.e2) }
    }
}

impl vstd::std_specs::ops::DivSpecImpl for Vec3 {
    open spec fn obeys_div_spec() -> bool {
        true
    }

    open spec fn div_req(self, rhs: Vec3) -> bool {
        true
    }

    open spec fn div_spec(self, rhs: Vec3) -> Vec3 {
        self.over(rhs)
    }
}

impl Div<Scalar> for Vec3 {
    type Output = Vec3;

    fn div(self, rhs: Scalar) -> (r: Vec3) {
        Vec3 { e0: self.e0.div(rhs), e1: self.e1.div(rhs), e2: self.e2.div(rhs) }
    }
}

impl vstd::std_specs::ops::DivSpecImpl<Scalar> for Vec3 {
    open spec fn obeys_div_spec() -> bool {
        true
    }

    open spec fn div_req(self, rhs: Scalar) -> bool {
        true
    }

    open spec fn div_spec(self, rhs: Scalar) -> Vec3 {
        self.shrunk(rhs)
    }
}

impl AddAssign for Vec3 {
    /// Adds `rhs` to the vector, in place.
    fn add_assign(&mut self, rhs: Vec3)
        ensures
            *final(self) == old(self).plus(rhs),
    {
        *self = self.add(rhs)
    }
}

impl SubAssign for Vec3 {
    /// Takes `rhs` from the vector, in place.
    fn sub_assign(&mut self, rhs: Vec3)
        ensures
            *final(self) == old(self).minus(rhs),
    {
        *self = self.sub(rhs)
    }
}

impl MulAssign for Vec3 {
    /// Multiplies the vector by `rhs`, component by component, in place.
    fn mul_assign(&mut self, rhs: Vec3)
        ensures
            *final(self) == rhs.times(*old(self)),
    {
        *self = rhs.mul(*self)
    }
}

impl MulAssign<Scalar> for Vec3 {
    /// Multiplies every component by `rhs`, in place.
    fn mul_assign(&mut self, rhs: Scalar)
        ensures
            *final(self) == old(self).scaled(rhs),
    {
        *self = self.mul(rhs)
    }
}

impl DivAssign for Vec3 {
    /// Divides the vector by `rhs`, component by component, in place.
    fn div_assign(&mut self, rhs: Vec3)
        ensures
            *final(self) == old(self).over(rhs),
    {
        *self = self.div(rhs)
    }
}

impl DivAssign<Scalar> for Vec3 {
    /// Divides every component by `rhs`, in place.
    fn div_assign(&mut self, rhs: Scalar)
        ensures
            *final(self) == old(self).shrunk(rhs),
    {
        *self = self.div(rhs)
    }
}

impl PartialEq for Vec3 {
    fn eq(&self, other: &Vec3) -> (r: bool) {
        self.e0 == other.e0 && self.e1 == other.e1 && self.e2 == other.e2
    }
}

impl vstd::std_specs::cmp::PartialEqSpecImpl for Vec3 {
    open spec fn obeys_eq_spec() -> bool {
        true
    }

    open spec fn eq_spec(&self, other: &Vec3) -> bool {
        self.spec_same(*other)
    }
}

/// The sum of two vectors does not depend on their order.
pub proof fn lemma_plus_commutes(a: Vec3, b: Vec3)
    ensures
        a.plus(b) == b.plus(a),
{
    lemma_sum_commutes(a.e0, b.e0);
    lemma_sum_commutes(a.e1, b.e1);
    lemma_sum_commutes(a.e2, b.e2);
}

/// A number times a vector is the vector times the number.
pub proof fn lemma_scaling_commutes(a: Vec3, s: Scalar)
    ensures
        a.scaled_from_left(s) == a.scaled(s),
{
    lemma_product_commutes(s, a.e0);
    lemma_product_commutes(s, a.e1);
    lemma_product_commutes(s, a.e2);
}

/// The inner product does not depend on the order of the vectors.
pub proof fn lemma_dot_commutes(a: Vec3, b: Vec3)
    ensures
        dot_of(a, b) == dot_of(b, a),
{
    lemma_product_commutes(a.e0, b.e0);
    lemma_product_commutes(a.e1, b.e1);
    lemma_product_commutes(a.e2, b.e2);
}

/// The length squared is the squared length, up to the rounding of the root:
/// for a squared length that is positive and finite, the length is the
/// number nearest to its square root.
pub proof fn lemma_length_squares_to_squared_length(a: Vec3)
    requires
        squared_length_of(a).spec_is_finite(),
        !squared_length_of(a).spec_is_zero(),
        !squared_length_of(a).spec_is_sign_negative(),
    ensures
        !length_of(a).spec_is_sign_negative(),
        is_nearest_root(
            length_of(a).magnitude_bits(),
            squared_length_of(a).scaled() * vstd::arithmetic::power2::pow2(149),
        ),
{
    lemma_root_is_nearest(squared_length_of(a));
}

/// A squared length that is a number is not negative, in its sign bit too.
pub proof fn lemma_squared_length_is_not_negative(a: Vec3)
    requires
        !squared_length_of(a).spec_is_nan(),
    ensures
        !squared_length_of(a).spec_is_sign_negative(),
{
    lemma_square_is_not_negative(a.e0);
    lemma_square_is_not_negative(a.e1);
    lemma_square_is_not_negative(a.e2);
    let s0 = product_of(a.e0, a.e0);
    let s1 = product_of(a.e1, a.e1);
    let s2 = product_of(a.e2, a.e2);
    lemma_sum_of_positives(s0, s1);
    lemma_sum_of_positives(sum_of(s0, s1), s2);
}

/// The length squared is the squared length within a hundred-thousandth:
/// for every vector whose squared length is finite, the zero vector
/// included, the length is a finite number that is not negative, and its
/// rounded product with itself, unless it overflows, differs from the
/// squared length by at most `10^-5` of the squared length. Below a squared
/// length of `2^126` the product does not overflow.
pub proof fn lemma_length_squared_within_tolerance(a: Vec3)
    requires
        squared_length_of(a).spec_is_finite(),
    ensures
        length_of(a).spec_is_finite(),
        !length_of(a).spec_is_sign_negative(),
        squared_length_of(a).scaled() >= 0,
        squared_length_of(a).scaled() < vstd::arithmetic::power2::pow2(275) ==> product_of(
            length_of(a),
            length_of(a),
        ).spec_is_finite(),
        product_of(length_of(a), length_of(a)).spec_is_finite() ==> 100000 * (product_of(
            length_of(a),
            length_of(a),
        ).scaled() - squared_length_of(a).scaled()) <= squared_length_of(a).scaled() && 100000
            * (squared_length_of(a).scaled() - product_of(length_of(a), length_of(a)).scaled())
            <= squared_length_of(a).scaled(),
{
    lemma_squared_length_is_not_negative(a);
    lemma_root_squares_back(squared_length_of(a));
    crate::rounding::lemma_magnitude_ordered(0, squared_length_of(a).magnitude_bits());
}

/// A vector scaled to length one keeps its direction: for a vector of finite
/// components whose squared length is finite and not zero, every component
/// of the unit vector is a number with the sign of the component it comes
/// from.
pub proof fn lemma_unit_vector_keeps_signs(a: Vec3)
    requires
        a.spec_is_finite(),
        squared_length_of(a).spec_is_finite(),
        !squared_length_of(a).spec_is_zero(),
    ensures
        unit_of(a).is_numbers(),
        unit_of(a).e0.spec_is_sign_negative() == a.e0.spec_is_sign_negative(),
        unit_of(a).e1.spec_is_sign_negative() == a.e1.spec_is_sign_negative(),
        unit_of(a).e2.spec_is_sign_negative() == a.e2.spec_is_sign_negative(),
{
    let k = quotient_of(Scalar::spec_one(), length_of(a));
    lemma_squared_length_is_not_negative(a);
    lemma_inverse_of_length(squared_length_of(a));
    lemma_product_with_positive(a.e0, k);
    lemma_product_with_positive(a.e1, k);
    lemma_product_with_positive(a.e2, k);
}

/// A vector scaled to length one has length one, within a millionth: for a
/// vector of finite components whose squared length is a normal number, so
/// that it neither overflows nor falls among the smallest numbers, the
/// length of the unit vector is a finite number that differs from one by at
/// most `10^-6`.
pub proof fn lemma_unit_vector_has_length_one(a: Vec3)
    requires
        a.spec_is_finite(),
        squared_length_of(a).spec_is_finite(),
        0x0080_0000 <= squared_length_of(a).scaled(),
    ensures
        length_of(unit_of(a)).spec_is_finite(),
        !length_of(unit_of(a)).spec_is_sign_negative(),
        1000000 * (length_of(unit_of(a)).scaled() - Scalar::spec_one().scaled())
            <= Scalar::spec_one().scaled(),
        1000000 * (Scalar::spec_one().scaled() - length_of(unit_of(a)).scaled())
            <= Scalar::spec_one().scaled(),
{
    let c = vstd::arithmetic::power2::pow2(149) as int;
    crate::scalar::lemma_zero_and_one();
    let one = Scalar::spec_one();
    // the squared length, step by step
    let square0 = product_of(a.e0, a.e0);
    let square1 = product_of(a.e1, a.e1);
    let square2 = product_of(a.e2, a.e2);
    lemma_square_is_nearest(a.e0);
    lemma_square_is_nearest(a.e1);
    lemma_square_is_nearest(a.e2);
    let t = sum_of(square0, square1);
    lemma_sum_is_nearest(square0, square1);
    let q = sum_of(t, square2);
    lemma_sum_is_nearest(t, square2);
    assert(q == squared_length_of(a));
    // the length and its inverse
    let l = root_of(q);
    lemma_root_is_nearest(q);
    lemma_inverse_of_length(q);
    let w = q.scaled() * c;
    vstd::arithmetic::power2::lemma_pow2_pos(149);
    crate::scalar::lemma_magnitude_monotone(q.magnitude_bits(), 0x7f80_0000);
    crate::scalar::lemma_grid(0x0080_0000, 254);
    assert(254 * 0x0080_0000 + 0x0080_0000 == 0x7f80_0000);
    vstd::arithmetic::power2::lemma_pow2_adds(23, 254);
    vstd::arithmetic::power2::lemma2_to64();
    assert(c <= w && w < vstd::arithmetic::power2::pow2(277) * c) by (nonlinear_arith)
        requires
            0x0080_0000 <= q.scaled() < vstd::arithmetic::power2::pow2(277),
            w == q.scaled() * c,
            c > 0,
    ;
    crate::rounding::lemma_nearest_root_is_normal(l.magnitude_bits(), w);
    let k = quotient_of(one, l);
    lemma_quotient_is_nearest(one, l);
    // the scaled vector
    let u = unit_of(a);
    lemma_product_is_nearest(a.e0, k);
    lemma_product_is_nearest(a.e1, k);
    lemma_product_is_nearest(a.e2, k);
    assert(u.e0 == product_of(a.e0, k) && u.e1 == product_of(a.e1, k) && u.e2 == product_of(
        a.e2,
        k,
    ));
    // and its length, step by step
    let r0 = product_of(u.e0, u.e0);
    let r1 = product_of(u.e1, u.e1);
    let r2 = product_of(u.e2, u.e2);
    lemma_square_is_nearest(u.e0);
    lemma_square_is_nearest(u.e1);
    lemma_square_is_nearest(u.e2);
    let t2 = sum_of(r0, r1);
    lemma_sum_is_nearest(r0, r1);
    let q2 = sum_of(t2, r2);
    lemma_sum_is_nearest(t2, r2);
    assert(q2 == squared_length_of(u));
    let l2 = root_of(q2);
    let steps = UnitSteps {
        squares: (square0.magnitude_bits(), square1.magnitude_bits(), square2.magnitude_bits()),
        partial: t.magnitude_bits(),
        squared_length: q.magnitude_bits(),
        length: l.magnitude_bits(),
        inverse: k.magnitude_bits(),
        scaled: (u.e0.magnitude_bits(), u.e1.magnitude_bits(), u.e2.magnitude_bits()),
        scaled_squares: (r0.magnitude_bits(), r1.magnitude_bits(), r2.magnitude_bits()),
        scaled_partial: t2.magnitude_bits(),
        scaled_squared_length: q2.magnitude_bits(),
        scaled_length: l2.magnitude_bits(),
    };
    let a0 = a.e0.scaled_magnitude();
    let a1 = a.e1.scaled_magnitude();
    let a2 = a.e2.scaled_magnitude();
    crate::rounding::lemma_magnitude_ordered(0, a.e0.magnitude_bits());
    crate::rounding::lemma_magnitude_ordered(0, a.e1.magnitude_bits());
    crate::rounding::lemma_magnitude_ordered(0, a.e2.magnitude_bits());
    assert(are_unit_steps(a0, a1, a2, steps));
    assert(are_sum_steps(steps));
    lemma_scaled_squared_length_is_close(a0, a1, a2, steps);
    lemma_root_is_nearest(q2);
    assert(are_length_steps(steps));
    lemma_scaled_length_is_one(a0, a1, a2, steps);
}

/// The cross product taken the other way round is the same vector negated,
/// unless a component of it is no number.
pub proof fn lemma_cross_anticommutes(a: Vec3, b: Vec3)
    requires
        cross_of(a, b).is_numbers(),
    ensures
        cross_of(a, b).spec_same(cross_of(b, a).negated()),
{
    lemma_product_commutes(a.e1, b.e2);
    lemma_product_commutes(a.e2, b.e1);
    lemma_product_commutes(a.e0, b.e2);
    lemma_product_commutes(a.e2, b.e0);
    lemma_product_commutes(a.e0, b.e1);
    lemma_product_commutes(a.e1, b.e0);
    lemma_difference_reverses(product_of(a.e1, b.e2), product_of(a.e2, b.e1));
    lemma_difference_reverses(product_of(a.e0, b.e1), product_of(a.e1, b.e0));
    // the middle component is negated on both sides
    let d = difference_of(product_of(a.e0, b.e2), product_of(a.e2, b.e0));
    let e = difference_of(product_of(b.e0, a.e2), product_of(b.e2, a.e0));
    crate::scalar::lemma_negated(d);
    crate::scalar::lemma_negated(e);
    crate::scalar::lemma_negated(e.negated());
    lemma_difference_reverses(product_of(a.e0, b.e2), product_of(a.e2, b.e0));
}

} // verus!
