//! A bounding volume hierarchy (BVH) over triangle meshes, with exact
//! integer-coordinate geometry.
//!
//! The library owns the spatial-index core of a small renderer: axis-aligned
//! bounding boxes, ray/triangle and ray/sphere intersection tests, and a
//! binary AABB tree built by median-style splitting and queried with
//! closest-hit semantics.  All coordinates are fixed-point integers, so every
//! geometric predicate is exact and every contract states the result in full.

pub mod aabb;
pub mod bvh;
pub mod math;
pub mod ray;
pub mod sphere;
pub mod structs;
pub mod texture;
