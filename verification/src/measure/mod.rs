//! Vectors in the plane and in space, and the neighbours of a grid position.

pub mod cross_product;
pub mod direction;
pub mod vec2d;
pub mod vec3d;
