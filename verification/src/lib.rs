//! Verified core of a small ray tracer: scalars compared by their IEEE-754
//! bit patterns, bounding boxes, and a bounding-volume hierarchy with its
//! nearest-hit traversal.
pub mod scalar;
pub mod vec3;
pub mod aabb;
pub mod material;
pub mod objects;
pub mod stable;
pub mod order;
pub mod bvh;
pub mod builder;
pub mod nearest;
pub mod traverse;
pub mod shading;
