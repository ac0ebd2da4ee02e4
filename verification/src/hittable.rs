//! The scene container: a list of mesh objects hit as one.
//!
//! Its answer is characterised the same way as a single tree's: the
//! nearest hit over every triangle of every object, so stacking objects
//! never changes what a ray sees compared to one flat soup.

use crate::face::Face;
use crate::intersect::{hit_in_range, hit_tden, hit_tnum, record_matches, record_wf,
    KDTreeHitRecord};
use crate::object::{object_faces, object_wf, Object};
use crate::ratio::{frac_le, lemma_frac_lt_le_trans, rat_wf, Rat};
use crate::ray::{ray_wf, Ray};
use crate::traverse::{is_nearest_hit, no_hit_in};
use vstd::prelude::*;

verus! {

/// All objects a scene renders.
pub struct HittableList {
    pub hittables: Vec<Object>,
}

/// Every stored object carries a well-formed tree.
pub open spec fn list_wf(l: HittableList) -> bool {
    forall|i: int| 0 <= i < l.hittables@.len() ==> object_wf(#[trigger] l.hittables@[i])
}

/// The triangles of the first `upto` objects, in order.
pub open spec fn list_faces(l: HittableList, upto: int) -> Seq<Face>
    decreases upto,
{
    if upto <= 0 {
        Seq::empty()
    } else {
        list_faces(l, upto - 1) + object_faces(l.hittables@[upto - 1])
    }
}

impl HittableList {
    pub fn new() -> (l: HittableList)
        ensures
            l.hittables@.len() == 0,
            list_wf(l),
    {
        HittableList { hittables: Vec::new() }
    }

    /// The nearest hit across all objects within `[t_min, t_max]` — the
    /// same answer as a single tree over all their triangles.
    pub fn hit(&self, ray: &Ray, t_min: &Rat, t_max: &Rat) -> (res: Option<KDTreeHitRecord>)
        requires
            list_wf(*self),
            ray_wf(*ray),
            rat_wf(*t_min),
            rat_wf(*t_max),
        ensures
            res.is_none() ==> no_hit_in(
                list_faces(*self, self.hittables@.len() as int),
                *ray,
                *t_min,
                *t_max,
            ),
            res.is_some() ==> is_nearest_hit(
                list_faces(*self, self.hittables@.len() as int),
                *ray,
                *t_min,
                *t_max,
                res.unwrap(),
            ) && record_wf(res.unwrap()),
    {
        let n = self.hittables.len();
        let mut best: Option<KDTreeHitRecord> = None;
        let mut k: usize = 0;
        while k < n
            invariant
                list_wf(*self),
                ray_wf(*ray),
                rat_wf(*t_min),
                rat_wf(*t_max),
                n == self.hittables@.len(),
                k <= n,
                best.is_none() ==> no_hit_in(list_faces(*self, k as int), *ray, *t_min, *t_max),
                best.is_some() ==> is_nearest_hit(
                    list_faces(*self, k as int),
                    *ray,
                    *t_min,
                    *t_max,
                    best.unwrap(),
                ) && record_wf(best.unwrap()),
            decreases n - k,
        {
            let ghost prefix = list_faces(*self, k as int);
            let ghost of = object_faces(self.hittables@[k as int]);
            let ghost whole = list_faces(*self, k as int + 1);
            proof {
                assert(whole == prefix + of);
            }
            let cand = self.hittables[k].hit(ray, t_min, t_max);
            let next = match (best, cand) {
                (None, None) => None,
                (Some(hb), None) => Some(hb),
                (None, Some(hc)) => Some(hc),
                (Some(hb), Some(hc)) => {
                    if hc.t.lt(&hb.t) {
                        Some(hc)
                    } else {
                        Some(hb)
                    }
                },
            };
            proof {
                if next.is_none() {
                    assert forall|i: int| 0 <= i < whole.len() implies !hit_in_range(
                        #[trigger] whole[i],
                        *ray,
                        *t_min,
                        *t_max,
                    ) by {
                        if i < prefix.len() {
                            assert(whole[i] == prefix[i]);
                            assert(!hit_in_range(prefix[i], *ray, *t_min, *t_max));
                        } else {
                            assert(whole[i] == of[i - prefix.len()]);
                            assert(!hit_in_range(of[i - prefix.len()], *ray, *t_min, *t_max));
                        }
                    }
                } else {
                    let h = next.unwrap();
                    // The kept record is a hit of the longer prefix.
                    if best.is_some() && h == best.unwrap() {
                        let j = choose|j: int|
                            0 <= j < prefix.len() && hit_in_range(
                                #[trigger] prefix[j],
                                *ray,
                                *t_min,
                                *t_max,
                            ) && record_matches(h, prefix[j], *ray);
                        assert(whole[j] == prefix[j]);
                        assert(hit_in_range(whole[j], *ray, *t_min, *t_max) && record_matches(
                            h,
                            whole[j],
                            *ray,
                        ));
                    } else {
                        let j = choose|j: int|
                            0 <= j < of.len() && hit_in_range(#[trigger] of[j], *ray, *t_min, *t_max)
                                && record_matches(h, of[j], *ray);
                        assert(whole[prefix.len() + j] == of[j]);
                        assert(hit_in_range(whole[prefix.len() + j], *ray, *t_min, *t_max)
                            && record_matches(h, whole[prefix.len() + j], *ray));
                    }
                    // And it is least over the longer prefix.
                    assert forall|i: int|
                        0 <= i < whole.len() && hit_in_range(
                            #[trigger] whole[i],
                            *ray,
                            *t_min,
                            *t_max,
                        ) implies frac_le(
                        h.t.num as int,
                        h.t.den as int,
                        hit_tnum(whole[i], *ray),
                        hit_tden(whole[i], *ray),
                    ) by {
                        crate::traverse::lemma_tden_pos(whole[i], *ray);
                        if i < prefix.len() {
                            assert(whole[i] == prefix[i]);
                            assert(hit_in_range(prefix[i], *ray, *t_min, *t_max));
                            if best.is_some() && h != best.unwrap() {
                                let hb = best.unwrap();
                                lemma_frac_lt_le_trans(
                                    h.t.num as int,
                                    h.t.den as int,
                                    hb.t.num as int,
                                    hb.t.den as int,
                                    hit_tnum(whole[i], *ray),
                                    hit_tden(whole[i], *ray),
                                );
                            }
                        } else {
                            assert(whole[i] == of[i - prefix.len()]);
                            assert(hit_in_range(of[i - prefix.len()], *ray, *t_min, *t_max));
                            if cand.is_some() && (best.is_none() || h != cand.unwrap()) {
                                let hc = cand.unwrap();
                                if h != hc {
                                    // `h` was kept because it was not
                                    // farther than the candidate.
                                    assert(frac_le(
                                        h.t.num as int,
                                        h.t.den as int,
                                        hc.t.num as int,
                                        hc.t.den as int,
                                    ));
                                    crate::ratio::lemma_frac_le_trans(
                                        h.t.num as int,
                                        h.t.den as int,
                                        hc.t.num as int,
                                        hc.t.den as int,
                                        hit_tnum(whole[i], *ray),
                                        hit_tden(whole[i], *ray),
                                    );
                                }
                            }
                        }
                    }
                }
            }
            best = next;
            k = k + 1;
        }
        best
    }
}

} // verus!
