//! A two-level bounding-volume hierarchy over an integer grid: axis-aligned
//! boxes with an exact slab test, a linear BVH over the triangles of one mesh,
//! and a binary tree over the instances of a scene.
pub mod vec3;
pub mod bounding_box;
pub mod random;
pub mod ray;
pub mod keys;
pub mod mesh;
pub mod morton;
pub mod blas;
pub mod scene;
pub mod tlas;
