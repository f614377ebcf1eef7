//! The pinhole camera.

use vstd::prelude::*;
use vstd::arithmetic::power2::pow2;
use core::ops::{Add, Mul, Sub};
use crate::ray::Ray;
use crate::scalar::Scalar;
use crate::vec3::Vec3;

verus! {

/// A camera without a lens: an eye and the rectangle it looks through, given
/// by its lower left corner and the two edges that meet there.
#[derive(Clone, Copy, Debug)]
pub struct Camera {
    pub lower_left_corner: Vec3,
    pub horizontal: Vec3,
    pub vertical: Vec3,
    pub origin: Vec3,
}

impl Camera {
    /// The camera at the origin that looks down the negative z axis through a
    /// rectangle four wide and two high, one unit away.
    pub open spec fn spec_new() -> Camera {
        Camera {
            lower_left_corner: Vec3 {
                e0: Scalar { bits: 0xc000_0000 },
                e1: Scalar { bits: 0xbf80_0000 },
                e2: Scalar { bits: 0xbf80_0000 },
            },
            horizontal: Vec3 {
                e0: Scalar { bits: 0x4080_0000 },
                e1: Scalar { bits: 0 },
                e2: Scalar { bits: 0 },
            },
            vertical: Vec3 {
                e0: Scalar { bits: 0 },
                e1: Scalar { bits: 0x4000_0000 },
                e2: Scalar { bits: 0 },
            },
            origin: Vec3::spec_zero(),
        }
    }

    /// The ray from the eye through the point of the rectangle at `u` of its
    /// width and `v` of its height.
    pub open spec fn ray_through(self, u: Scalar, v: Scalar) -> Ray {
        Ray {
            a: self.origin,
            b: self.lower_left_corner.plus(self.horizontal.scaled_from_left(u)).plus(
                self.vertical.scaled_from_left(v),
            ).minus(self.origin),
        }
    }

    /// The camera at the origin that looks down the negative z axis through a
    /// rectangle four wide and two high, one unit away: its corner at
    /// `(-2, -1, -1)`, its edges `(4, 0, 0)` and `(0, 2, 0)`.
    #[verifier::when_used_as_spec(spec_new)]
    pub fn new() -> (c: Camera)
        ensures
            c == Camera::spec_new(),
            c.lower_left_corner.e0.scaled() == -2 * pow2(149),
            c.lower_left_corner.e1.scaled() == -1 * pow2(149),
            c.lower_left_corner.e2.scaled() == -1 * pow2(149),
            c.horizontal.e0.scaled() == 4 * pow2(149),
            c.vertical.e1.scaled() == 2 * pow2(149),
    {
        proof {
            lemma_camera_numbers();
        }
        Camera {
            lower_left_corner: Vec3::new(
                Scalar::from_bits(0xc000_0000),
                Scalar::from_bits(0xbf80_0000),
                Scalar::from_bits(0xbf80_0000),
            ),
            horizontal: Vec3::new(Scalar::from_bits(0x4080_0000), Scalar::zero(), Scalar::zero()),
            vertical: Vec3::new(Scalar::zero(), Scalar::from_bits(0x4000_0000), Scalar::zero()),
            origin: Vec3::zero(),
        }
    }

    /// The ray through the rectangle at `u` and `v`. Neither is held to the
    /// unit interval: what lies outside the rectangle is extrapolated.
    pub fn get_ray(&self, u: Scalar, v: Scalar) -> (r: Ray)
        ensures
            r == self.ray_through(u, v),
    {
        Ray::new(
            self.origin,
            self.lower_left_corner.add(u.mul(self.horizontal)).add(v.mul(self.vertical)).sub(
                self.origin,
            ),
        )
    }
}

/// The patterns of the camera denote minus two, minus one, four and two.
proof fn lemma_camera_numbers()
    ensures
        (Scalar { bits: 0xc000_0000 }).scaled() == -2 * pow2(149),
        (Scalar { bits: 0xbf80_0000 }).scaled() == -1 * pow2(149),
        (Scalar { bits: 0x4080_0000 }).scaled() == 4 * pow2(149),
        (Scalar { bits: 0x4000_0000 }).scaled() == 2 * pow2(149),
{
    crate::scalar::lemma_grid(0x0080_0000, 126);
    crate::scalar::lemma_grid(0x0080_0000, 127);
    crate::scalar::lemma_grid(0x0080_0000, 128);
    vstd::arithmetic::power2::lemma_pow2_adds(23, 126);
    vstd::arithmetic::power2::lemma_pow2_adds(24, 126);
    vstd::arithmetic::power2::lemma_pow2_adds(25, 126);
    vstd::arithmetic::power2::lemma_pow2_adds(1, 126);
    vstd::arithmetic::power2::lemma_pow2_adds(2, 126);
    vstd::arithmetic::power2::lemma2_to64();
    assert((Scalar { bits: 0xc000_0000 }).magnitude_bits() == 127 * 0x0080_0000 + 0x0080_0000);
    assert((Scalar { bits: 0xbf80_0000 }).magnitude_bits() == 126 * 0x0080_0000 + 0x0080_0000);
    assert((Scalar { bits: 0x4080_0000 }).magnitude_bits() == 128 * 0x0080_0000 + 0x0080_0000);
    assert((Scalar { bits: 0x4000_0000 }).magnitude_bits() == 127 * 0x0080_0000 + 0x0080_0000);
}

} // verus!
