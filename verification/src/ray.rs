//! Rays: a starting point and a direction.

use vstd::prelude::*;
use core::ops::{Add, Mul};
use crate::scalar::Scalar;
use crate::vec3::Vec3;

verus! {

/// The line that starts at `a` and runs along `b`. The direction need not
/// have length one.
#[derive(Clone, Copy, Debug)]
pub struct Ray {
    pub a: Vec3,
    pub b: Vec3,
}

impl Ray {
    /// Both the origins and the directions denote the same numbers.
    pub open spec fn spec_same(self, other: Ray) -> bool {
        self.a.spec_same(other.a) && self.b.spec_same(other.b)
    }

    /// The point at the parameter `t`: the origin plus `t` times the
    /// direction.
    pub open spec fn point_at(self, t: Scalar) -> Vec3 {
        self.a.plus(self.b.scaled(t))
    }

    pub fn new(a: Vec3, b: Vec3) -> (r: Ray)
        ensures
            r == (Ray { a, b }),
    {
        Ray { a, b }
    }

    pub fn origin(&self) -> (v: Vec3)
        ensures
            v == self.a,
    {
        self.a
    }

    pub fn direction(&self) -> (v: Vec3)
        ensures
            v == self.b,
    {
        self.b
    }

    pub fn point_at_parameter(&self, t: Scalar) -> (p: Vec3)
        ensures
            p == self.point_at(t),
    {
        self.a.add(self.b.mul(t))
    }
}

impl PartialEq for Ray {
    fn eq(&self, other: &Ray) -> (r: bool) {
        self.a == other.a && self.b == other.b
    }
}

impl vstd::std_specs::cmp::PartialEqSpecImpl for Ray {
    open spec fn obeys_eq_spec() -> bool {
        true
    }

    open spec fn eq_spec(&self, other: &Ray) -> bool {
        self.spec_same(*other)
    }
}

} // verus!
