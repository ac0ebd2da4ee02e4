//! An exact-arithmetic ray-tracing core: triangle meshes on a fixed-point
//! integer grid, bounded by axis-aligned boxes and organised in a k-d tree
//! built with a surface-area-heuristic cost model.  Ray parameters are exact
//! rationals, so the slab test, the triangle test and the front-to-back tree
//! traversal are free of rounding, and the traversal provably returns the
//! nearest hit.

pub mod aabb;
pub mod face;
pub mod hittable;
pub mod intersect;
pub mod json;
pub mod kdtree;
pub mod material;
pub mod object;
pub mod onb;
pub mod pdf;
pub mod ratio;
pub mod ray;
pub mod rectangle;
pub mod traverse;
pub mod utils;
pub mod vector;
