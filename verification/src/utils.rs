//! Small exact vector utilities shared by the shading layer.

use crate::ratio::lemma_abs_mul;
use crate::vector::{sv_dot, sv_in_range, sv_scale, sv_sub, Vec3, COORD_MAX};
use vstd::prelude::*;

verus! {

/// Mirror of `v` about the plane with normal `n`, in the scale-free form
/// `v - 2 (v . n) n` that the shading layer applies to unit-length
/// normals.
pub fn reflect(v: &Vec3, n: &Vec3) -> (r: Vec3)
    requires
        sv_in_range(v@, COORD_MAX as int),
        sv_in_range(n@, COORD_MAX as int),
    ensures
        r@ == sv_sub(v@, sv_scale(2 * sv_dot(v@, n@), n@)),
{
    let d = v.dot(n);
    proof {
        crate::vector::lemma_dot_bound(v@, n@, COORD_MAX as int, COORD_MAX as int);
    }
    let k = 2 * d;
    let sn = n.scale(k);
    proof {
        crate::vector::lemma_scale_bound(k as int, n@, 0x4000_0000, COORD_MAX as int);
    }
    v.sub(&sn)
}

/// Both directions point to the same side of the local tangent plane.
pub fn same_hemisphere(w: &Vec3, wp: &Vec3) -> (r: bool)
    requires
        sv_in_range(w@, COORD_MAX as int),
        sv_in_range(wp@, COORD_MAX as int),
    ensures
        r == (w.z as int * wp.z as int > 0),
{
    proof {
        lemma_abs_mul(w.z as int, wp.z as int, COORD_MAX as int, COORD_MAX as int);
    }
    w.z * wp.z > 0
}

} // verus!
