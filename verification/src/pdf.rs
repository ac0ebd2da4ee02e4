//! Sampling bases for the shading collaborators.
//!
//! Cosine-weighted sampling itself draws random floating-point numbers
//! and belongs to the renderer around this library; what the library
//! provides is the exact basis the samples are expressed in.

use crate::onb::{onb_wf, OrthonormalBasis};
use crate::vector::{sv_in_range, Vec3, COORD_MAX};
use vstd::prelude::*;

verus! {

/// A cosine-weighted hemisphere distribution around a normal, given by
/// the orthogonal basis built from that normal.
#[derive(Clone, Copy, Debug)]
pub struct CosinePDF {
    pub uvw: OrthonormalBasis,
}

impl CosinePDF {
    pub fn new(w: &Vec3) -> (r: CosinePDF)
        requires
            sv_in_range(w@, COORD_MAX as int),
        ensures
            onb_wf(r.uvw),
            r.uvw.w_axis == *w,
    {
        CosinePDF { uvw: OrthonormalBasis::build_from_w(w) }
    }
}

} // verus!
