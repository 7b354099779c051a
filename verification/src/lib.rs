//! A path tracer that is verified with Verus.
//!
//! Rays are sent from a camera into a scene of spheres and triangles and
//! followed from surface to surface; what they bring back is written out as
//! a plain-text image.
//!
//! Numbers are binary32 values, held by their bit patterns in [`scalar::Scalar`].
//! Their order, their whole parts, their sums, products, quotients and square
//! roots are computed on the bits and proved: each is the exact result,
//! rounded once to the nearest number. Sines and cosines are computed in
//! software by the crate `const_soft_float` and stand in the contracts under
//! names of their own. So every function says exactly which operations make
//! up its result, and in which order. Random numbers come from the crate
//! `rand`; a function that draws some says which results the numbers drawn
//! can lead to, and has a companion that takes them as arguments and says
//! which result they do lead to.
//!
//! The modules, from the numbers up:
//! - `power`, `pattern`, `rounding`, `nearest`, `convert`, `sum`, `product`,
//!   `quotient`, `root`: binary32 arithmetic on bit patterns;
//! - `scalar`, `vec`, `utility`, `ray`: numbers, vectors, rays;
//! - `aabb`, `hittable`, `sphere`, `triangle`, `material`: what rays hit;
//! - `camera`, `color`, `scene`, `render`: the picture.
pub mod aabb;
pub mod camera;
pub mod color;
pub mod convert;
pub mod hittable;
pub mod material;
pub mod nearest;
pub mod pattern;
pub mod power;
pub mod product;
pub mod quotient;
pub mod ray;
pub mod render;
pub mod root;
pub mod rounding;
pub mod scalar;
pub mod scene;
pub mod sphere;
pub mod sum;
pub mod triangle;
pub mod utility;
pub mod vec;
