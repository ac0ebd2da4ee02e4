//! The mesh object: one tree, a material handle, an overall box.

use crate::aabb::{box_wf, AxisAlignedBoundingBox};
use crate::face::{face_ok, Face};
use crate::intersect::{record_wf, KDTreeHitRecord};
use crate::kdtree::{contains_face, overlaps, KDTree, FACES_MAX};
use crate::ratio::{rat_wf, Rat};
use crate::ray::{ray_wf, Ray};
use crate::traverse::{is_nearest_hit, no_hit_in};
use vstd::prelude::*;

verus! {

/// A renderable mesh: its spatial tree, a handle into the caller's
/// material table, the cached overall bounding box, and whether the
/// camera should see it (light-sampler geometry is kept invisible).
pub struct Object {
    pub tree: Option<KDTree>,
    pub material: usize,
    pub bounding_box: AxisAlignedBoundingBox,
    pub render: bool,
}

/// The stored tree, if any, is well-formed.
pub open spec fn object_wf(o: Object) -> bool {
    o.tree.is_some() ==> o.tree.unwrap().wf()
}

/// Every triangle the object holds.
pub open spec fn object_faces(o: Object) -> Seq<Face> {
    if o.tree.is_some() {
        o.tree.unwrap().faces_seq()
    } else {
        Seq::empty()
    }
}

impl Object {
    /// Builds the object's tree over the given faces.  An empty mesh is
    /// legal and simply never hits.
    pub fn new(faces: Vec<Face>, bounding_box: AxisAlignedBoundingBox, material: usize, render: bool) -> (o: Object)
        requires
            box_wf(bounding_box),
            faces@.len() <= FACES_MAX,
            forall|i: int| 0 <= i < faces@.len() ==> face_ok(#[trigger] faces@[i]),
            forall|i: int|
                0 <= i < faces@.len() ==> overlaps((#[trigger] faces@[i]).bounds, bounding_box),
        ensures
            object_wf(o),
            o.material == material,
            o.render == render,
            o.bounding_box == bounding_box,
            o.tree.is_none() <==> faces@.len() == 0,
            o.tree.is_some() ==> o.tree.unwrap().wf_bounded(bounding_box),
            o.tree.is_some() ==> o.tree.unwrap().leaves_ok(),
            forall|f: Face| contains_face(object_faces(o), f) ==> contains_face(faces@, f),
            forall|f: Face| contains_face(faces@, f) ==> contains_face(object_faces(o), f),
    {
        let tree = KDTree::build(faces, bounding_box);
        Object { tree, material, bounding_box, render }
    }

    /// The nearest triangle hit within `[t_min, t_max]`, if any.
    pub fn hit(&self, ray: &Ray, t_min: &Rat, t_max: &Rat) -> (res: Option<KDTreeHitRecord>)
        requires
            object_wf(*self),
            ray_wf(*ray),
            rat_wf(*t_min),
            rat_wf(*t_max),
        ensures
            res.is_none() ==> no_hit_in(object_faces(*self), *ray, *t_min, *t_max),
            res.is_some() ==> is_nearest_hit(
                object_faces(*self),
                *ray,
                *t_min,
                *t_max,
                res.unwrap(),
            ) && record_wf(res.unwrap()),
    {
        match &self.tree {
            None => None,
            Some(t) => t.traverse(ray, t_min, t_max),
        }
    }

    /// A mesh object always has a box.
    pub fn bounding_box(&self) -> (r: Option<AxisAlignedBoundingBox>)
        ensures
            r == Some(self.bounding_box),
    {
        Some(self.bounding_box)
    }

    pub fn should_render(&self) -> (r: bool)
        ensures
            r == self.render,
    {
        self.render
    }
}

} // verus!
