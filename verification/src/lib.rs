//! A path tracer whose arithmetic is its own.
//!
//! Rays are cast from a camera at a scene of spheres, scattered by what the
//! spheres are made of, and followed until they leave the scene. Every
//! number is an IEEE 754 binary32 number held as its bit pattern, and every
//! step of the arithmetic is done on the patterns in integers and rounded
//! once, to the nearest number. What each function returns is stated over
//! that arithmetic and proved.
//!
//! `scalar` holds the patterns and their order, `rounding` and `arithmetic`
//! the operations, `tolerance` how far their results can stray; `vec3`, `ray` and `camera` build the geometry on them;
//! `hitable` finds where a ray meets a sphere or a scene, `material` what
//! becomes of it there, `sampling` what chance gives, and `estimator` the
//! colour that arrives along a ray.

pub mod scalar;
pub mod rounding;
pub mod arithmetic;
pub mod tolerance;
pub mod vec3;
pub mod ray;
pub mod camera;
pub mod material;
pub mod hitable;
pub mod sampling;
pub mod estimator;
