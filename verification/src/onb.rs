//! Orthogonal bases from a single direction.
//!
//! On the integer grid no direction can be normalised, so the basis is
//! orthogonal rather than orthonormal: its three axes are pairwise
//! perpendicular, which is exactly what the proofs state.

use crate::vector::{
    lemma_cross_bound, lemma_cross_orthogonal, sv_add, sv_dot, sv_in_range, sv_scale, Vec3,
    COORD_MAX,
};
use vstd::prelude::*;

verus! {

/// Largest component of a basis axis built by `build_from_w`.
pub const ONB_AXIS_MAX: i64 = 0x800_0000;

/// Three pairwise orthogonal axes.
#[derive(Clone, Copy, Debug)]
pub struct OrthonormalBasis {
    pub u_axis: Vec3,
    pub v_axis: Vec3,
    pub w_axis: Vec3,
}

/// The axes are pairwise perpendicular and bounded.
pub open spec fn onb_wf(b: OrthonormalBasis) -> bool {
    &&& sv_dot(b.u_axis@, b.v_axis@) == 0
    &&& sv_dot(b.u_axis@, b.w_axis@) == 0
    &&& sv_dot(b.v_axis@, b.w_axis@) == 0
    &&& sv_in_range(b.u_axis@, ONB_AXIS_MAX as int)
    &&& sv_in_range(b.v_axis@, ONB_AXIS_MAX as int)
    &&& sv_in_range(b.w_axis@, ONB_AXIS_MAX as int)
}

impl OrthonormalBasis {
    pub fn u(&self) -> (r: Vec3)
        ensures
            r == self.u_axis,
    {
        self.u_axis
    }

    pub fn v(&self) -> (r: Vec3)
        ensures
            r == self.v_axis,
    {
        self.v_axis
    }

    pub fn w(&self) -> (r: Vec3)
        ensures
            r == self.w_axis,
    {
        self.w_axis
    }

    /// The vector with coordinates `a` in this basis.
    pub fn local_vec(&self, a: &Vec3) -> (r: Vec3)
        requires
            onb_wf(*self),
            sv_in_range(a@, COORD_MAX as int),
        ensures
            r@ == sv_add(
                sv_add(
                    sv_scale(a.x as int, self.u_axis@),
                    sv_scale(a.y as int, self.v_axis@),
                ),
                sv_scale(a.z as int, self.w_axis@),
            ),
    {
        let su = self.u_axis.scale(a.x);
        let sv = self.v_axis.scale(a.y);
        let sw = self.w_axis.scale(a.z);
        proof {
            crate::vector::lemma_scale_bound(a.x as int, self.u_axis@, COORD_MAX as int, ONB_AXIS_MAX as int);
            crate::vector::lemma_scale_bound(a.y as int, self.v_axis@, COORD_MAX as int, ONB_AXIS_MAX as int);
            crate::vector::lemma_scale_bound(a.z as int, self.w_axis@, COORD_MAX as int, ONB_AXIS_MAX as int);
        }
        su.add(&sv).add(&sw)
    }

    /// An orthogonal basis whose third axis is `n` itself.  The helper
    /// axis is the x unit vector unless `n` is parallel to it.
    pub fn build_from_w(n: &Vec3) -> (r: OrthonormalBasis)
        requires
            sv_in_range(n@, COORD_MAX as int),
        ensures
            onb_wf(r),
            r.w_axis == *n,
    {
        let a = if n.y == 0 && n.z == 0 {
            Vec3::new(0, 1, 0)
        } else {
            Vec3::new(1, 0, 0)
        };
        let v = n.cross(&a);
        proof {
            assert(sv_in_range(v@, COORD_MAX as int));
        }
        let u = n.cross(&v);
        proof {
            lemma_cross_bound(n@, v@, COORD_MAX as int);
            lemma_cross_orthogonal(n@, a@);
            lemma_cross_orthogonal(n@, v@);
        }
        OrthonormalBasis { u_axis: u, v_axis: v, w_axis: *n }
    }
}

} // verus!
