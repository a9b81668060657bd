//! A ray tracer on an integer lattice: axis-aligned bounding boxes, box
//! sprites with a translation, a median-split bounding volume hierarchy,
//! scattering materials and a recursive color integrator.
//!
//! Coordinates are `i64`, and a ray's points `origin + t * direction` are
//! taken at exact fractions `t`, so every intersection test is exact.
//!
//! What needs real arithmetic is not part of this library: spheres,
//! dielectrics (refraction and Schlick reflectance), constant-density media,
//! transforms other than translation, and image textures. The isotropic
//! material is offered for callers that model volumes themselves; nothing
//! here uses it.

pub mod arith;
pub mod vec3;
pub mod aabb;
pub mod material;
pub mod sprite;
pub mod bvh;
pub mod render;
pub mod scene;
