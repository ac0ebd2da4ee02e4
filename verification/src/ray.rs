//! Rays on the fixed-point grid.

use crate::vector::{sv_in_range, Vec3, COORD_MAX};
use vstd::prelude::*;

verus! {

/// A ray `origin + t * direction` for rational parameters `t >= 0`.
#[derive(Clone, Copy, Debug)]
pub struct Ray {
    pub origin: Vec3,
    pub direction: Vec3,
}

/// Origin and direction stay on the coordinate grid, so every product the
/// intersection tests form stays in range.
pub open spec fn ray_wf(r: Ray) -> bool {
    sv_in_range(r.origin@, COORD_MAX as int) && sv_in_range(r.direction@, COORD_MAX as int)
}

impl Ray {
    pub fn new(origin: Vec3, direction: Vec3) -> (r: Ray)
        ensures
            r.origin == origin,
            r.direction == direction,
    {
        Ray { origin, direction }
    }
}

} // verus!
