//! Front-to-back tree traversal, proven to return the nearest hit.
//!
//! The contract is the whole point of the tree: `traverse` returns a hit
//! exactly when some triangle stored in the subtree is struck within the
//! closed parameter interval, and the returned parameter is least among
//! all struck triangles — the same answer a linear scan of the leaves
//! would give.  Ordered descent and early return are therefore pure
//! optimisation, never a change of answer.

use crate::face::Face;
use crate::intersect::{
    face_hits, hit_in_range, hit_tden, hit_tnum, record_matches, record_wf,
    triangle_intersection, KDTreeHitRecord,
};
use crate::kdtree::{contains_face, flat_on, goes_left, goes_right, lemma_contains_concat,
    lemma_tree_faces_ok, KDTree};
use crate::ratio::{
    frac_eq, frac_le, frac_lt, lemma_frac_le_lt_trans, lemma_frac_le_trans, lemma_frac_lt_le_trans,
    rat_wf, Rat,
};
use crate::ray::{ray_wf, Ray};
use crate::vector::sv_axis;
use vstd::prelude::*;

verus! {

/// No face of the sequence is struck within `[ta, tb]`.
pub open spec fn no_hit_in(faces: Seq<Face>, r: Ray, ta: Rat, tb: Rat) -> bool {
    forall|i: int| 0 <= i < faces.len() ==> !hit_in_range(#[trigger] faces[i], r, ta, tb)
}

/// `t` is at most the parameter of every face struck within `[ta, tb]`.
pub open spec fn hit_le_all(faces: Seq<Face>, r: Ray, ta: Rat, tb: Rat, t: Rat) -> bool {
    forall|i: int|
        0 <= i < faces.len() && hit_in_range(#[trigger] faces[i], r, ta, tb) ==> frac_le(
            t.num as int,
            t.den as int,
            hit_tnum(faces[i], r),
            hit_tden(faces[i], r),
        )
}

/// The record reports a real hit of some face in the sequence within
/// `[ta, tb]`, and no face of the sequence is struck nearer.
pub open spec fn is_nearest_hit(
    faces: Seq<Face>,
    r: Ray,
    ta: Rat,
    tb: Rat,
    h: KDTreeHitRecord,
) -> bool {
    &&& exists|i: int|
        0 <= i < faces.len() && hit_in_range(#[trigger] faces[i], r, ta, tb) && record_matches(
            h,
            faces[i],
            r,
        )
    &&& hit_le_all(faces, r, ta, tb, h.t)
}

/// A struck face's parameter has a positive denominator.
pub proof fn lemma_tden_pos(f: Face, r: Ray)
    requires
        face_hits(f, r),
    ensures
        hit_tden(f, r) >= 1,
{
}

/// Where the hit parameter stands relative to the split parameter tells
/// which side of the plane the face's extent reaches: strictly earlier
/// means the near side, strictly later the far side, and exact equality
/// means the hit point lies on the plane itself.
proof fn lemma_hit_side(f: Face, r: Ray, axis: int, split: int, tsn: int, tsd: int)
    requires
        face_hits(f, r),
        0 <= axis < 3,
        tsd > 0,
        sv_axis(r.direction@, axis) != 0,
        sv_axis(r.direction@, axis) > 0 ==> tsn == split - sv_axis(r.origin@, axis) && tsd
            == sv_axis(r.direction@, axis),
        sv_axis(r.direction@, axis) < 0 ==> tsn == sv_axis(r.origin@, axis) - split && tsd
            == -sv_axis(r.direction@, axis),
    ensures
        sv_axis(r.direction@, axis) > 0 && frac_lt(hit_tnum(f, r), hit_tden(f, r), tsn, tsd)
            ==> sv_axis(f.bounds.minimum@, axis) < split,
        sv_axis(r.direction@, axis) > 0 && frac_lt(tsn, tsd, hit_tnum(f, r), hit_tden(f, r))
            ==> sv_axis(f.bounds.maximum@, axis) > split,
        sv_axis(r.direction@, axis) < 0 && frac_lt(hit_tnum(f, r), hit_tden(f, r), tsn, tsd)
            ==> sv_axis(f.bounds.maximum@, axis) > split,
        sv_axis(r.direction@, axis) < 0 && frac_lt(tsn, tsd, hit_tnum(f, r), hit_tden(f, r))
            ==> sv_axis(f.bounds.minimum@, axis) < split,
        frac_eq(hit_tnum(f, r), hit_tden(f, r), tsn, tsd) ==> sv_axis(f.bounds.minimum@, axis)
            <= split && split <= sv_axis(f.bounds.maximum@, axis),
{
    let tn = hit_tnum(f, r);
    let td = hit_tden(f, r);
    let o = sv_axis(r.origin@, axis);
    let d = sv_axis(r.direction@, axis);
    let mn = sv_axis(f.bounds.minimum@, axis);
    let mx = sv_axis(f.bounds.maximum@, axis);
    lemma_tden_pos(f, r);
    if axis == 0 {
        assert(mn * td <= o * td + tn * d <= mx * td);
    } else if axis == 1 {
        assert(mn * td <= o * td + tn * d <= mx * td);
    } else {
        assert(mn * td <= o * td + tn * d <= mx * td);
    }
    if d > 0 {
        if frac_lt(tn, td, tsn, tsd) {
            assert(mn < split) by (nonlinear_arith)
                requires
                    td > 0,
                    d > 0,
                    mn * td <= o * td + tn * d,
                    tn * d < (split - o) * td,
            ;
        }
        if frac_lt(tsn, tsd, tn, td) {
            assert(mx > split) by (nonlinear_arith)
                requires
                    td > 0,
                    d > 0,
                    o * td + tn * d <= mx * td,
                    (split - o) * td < tn * d,
            ;
        }
        if frac_eq(tn, td, tsn, tsd) {
            assert(mn <= split && split <= mx) by (nonlinear_arith)
                requires
                    td > 0,
                    d > 0,
                    mn * td <= o * td + tn * d,
                    o * td + tn * d <= mx * td,
                    tn * d == (split - o) * td,
            ;
        }
    } else {
        if frac_lt(tn, td, tsn, tsd) {
            assert(mx > split) by (nonlinear_arith)
                requires
                    td > 0,
                    d < 0,
                    o * td + tn * d <= mx * td,
                    tn * (-d) < (o - split) * td,
            ;
        }
        if frac_lt(tsn, tsd, tn, td) {
            assert(mn < split) by (nonlinear_arith)
                requires
                    td > 0,
                    d < 0,
                    mn * td <= o * td + tn * d,
                    (o - split) * td < tn * (-d),
            ;
        }
        if frac_eq(tn, td, tsn, tsd) {
            assert(mn <= split && split <= mx) by (nonlinear_arith)
                requires
                    td > 0,
                    d < 0,
                    mn * td <= o * td + tn * d,
                    o * td + tn * d <= mx * td,
                    tn * (-d) == (o - split) * td,
            ;
        }
    }
}

/// For a ray parallel to the split axis the hit point keeps the origin's
/// coordinate, so the face's extent brackets it.
proof fn lemma_hit_dir_zero(f: Face, r: Ray, axis: int)
    requires
        face_hits(f, r),
        0 <= axis < 3,
        sv_axis(r.direction@, axis) == 0,
    ensures
        sv_axis(f.bounds.minimum@, axis) <= sv_axis(r.origin@, axis),
        sv_axis(r.origin@, axis) <= sv_axis(f.bounds.maximum@, axis),
{
    let tn = hit_tnum(f, r);
    let td = hit_tden(f, r);
    let o = sv_axis(r.origin@, axis);
    let mn = sv_axis(f.bounds.minimum@, axis);
    let mx = sv_axis(f.bounds.maximum@, axis);
    lemma_tden_pos(f, r);
    if axis == 0 {
        assert(mn * td <= o * td + tn * 0 <= mx * td);
    } else if axis == 1 {
        assert(mn * td <= o * td + tn * 0 <= mx * td);
    } else {
        assert(mn * td <= o * td + tn * 0 <= mx * td);
    }
    assert(mn <= o && o <= mx) by (nonlinear_arith)
        requires
            td > 0,
            mn * td <= o * td + tn * 0,
            o * td + tn * 0 <= mx * td,
    ;
}

/// Lifts a child's answer over `[sa, sb]` to the node's faces over
/// `[ta, tb]`, given that the child's faces all belong to the node, the
/// searched interval sits inside the node's, and every node face struck
/// in `[ta, tb]` is present in the child and struck within `[sa, sb]`.
proof fn lemma_result_lift(
    side: Seq<Face>,
    node: Seq<Face>,
    r: Ray,
    ta: Rat,
    tb: Rat,
    sa: Rat,
    sb: Rat,
    res: Option<KDTreeHitRecord>,
)
    requires
        rat_wf(ta) && rat_wf(tb) && rat_wf(sa) && rat_wf(sb),
        res.is_none() ==> no_hit_in(side, r, sa, sb),
        res.is_some() ==> is_nearest_hit(side, r, sa, sb, res.unwrap()),
        frac_le(ta.num as int, ta.den as int, sa.num as int, sa.den as int),
        frac_le(sb.num as int, sb.den as int, tb.num as int, tb.den as int),
        forall|j: int| 0 <= j < side.len() ==> contains_face(node, #[trigger] side[j]),
        forall|i: int|
            0 <= i < node.len() && hit_in_range(#[trigger] node[i], r, ta, tb) ==> contains_face(
                side,
                node[i],
            ) && hit_in_range(node[i], r, sa, sb),
    ensures
        res.is_none() ==> no_hit_in(node, r, ta, tb),
        res.is_some() ==> is_nearest_hit(node, r, ta, tb, res.unwrap()),
{
    if res.is_none() {
        assert forall|i: int| 0 <= i < node.len() implies !hit_in_range(
            #[trigger] node[i],
            r,
            ta,
            tb,
        ) by {
            if hit_in_range(node[i], r, ta, tb) {
                let j = choose|j: int| 0 <= j < side.len() && side[j] == node[i];
                assert(!hit_in_range(side[j], r, sa, sb));
            }
        }
    } else {
        let h = res.unwrap();
        let j = choose|j: int|
            0 <= j < side.len() && hit_in_range(#[trigger] side[j], r, sa, sb) && record_matches(
                h,
                side[j],
                r,
            );
        let f = side[j];
        lemma_tden_pos(f, r);
        lemma_frac_le_trans(
            ta.num as int,
            ta.den as int,
            sa.num as int,
            sa.den as int,
            hit_tnum(f, r),
            hit_tden(f, r),
        );
        lemma_frac_le_trans(
            hit_tnum(f, r),
            hit_tden(f, r),
            sb.num as int,
            sb.den as int,
            tb.num as int,
            tb.den as int,
        );
        let i = choose|i: int| 0 <= i < node.len() && node[i] == f;
        assert(hit_in_range(node[i], r, ta, tb));
        assert(record_matches(h, node[i], r));
        assert forall|k: int|
            0 <= k < node.len() && hit_in_range(#[trigger] node[k], r, ta, tb) implies frac_le(
            h.t.num as int,
            h.t.den as int,
            hit_tnum(node[k], r),
            hit_tden(node[k], r),
        ) by {
            let jk = choose|jk: int| 0 <= jk < side.len() && side[jk] == node[k];
            assert(hit_in_range(side[jk], r, sa, sb));
        }
    }
}

/// Linear scan of a leaf's triangles, keeping the nearest hit in range.
fn hit_face_list(faces: &Vec<Face>, ray: &Ray, t_start: &Rat, t_end: &Rat) -> (res: Option<
    KDTreeHitRecord,
>)
    requires
        ray_wf(*ray),
        rat_wf(*t_start),
        rat_wf(*t_end),
        forall|i: int| 0 <= i < faces@.len() ==> crate::face::face_ok(#[trigger] faces@[i]),
    ensures
        res.is_none() ==> no_hit_in(faces@, *ray, *t_start, *t_end),
        res.is_some() ==> is_nearest_hit(faces@, *ray, *t_start, *t_end, res.unwrap())
            && record_wf(res.unwrap()),
{
    let n = faces.len();
    let mut best: Option<KDTreeHitRecord> = None;
    let mut idx: usize = 0;
    while idx < n
        invariant
            ray_wf(*ray),
            rat_wf(*t_start),
            rat_wf(*t_end),
            n == faces@.len(),
            idx <= n,
            forall|i: int| 0 <= i < faces@.len() ==> crate::face::face_ok(#[trigger] faces@[i]),
            best.is_none() ==> forall|i: int|
                0 <= i < idx as int ==> !hit_in_range(#[trigger] faces@[i], *ray, *t_start, *t_end),
            best.is_some() ==> record_wf(best.unwrap()),
            best.is_some() ==> exists|i: int|
                0 <= i < idx as int && hit_in_range(#[trigger] faces@[i], *ray, *t_start, *t_end)
                    && record_matches(best.unwrap(), faces@[i], *ray),
            best.is_some() ==> forall|i: int|
                0 <= i < idx as int && hit_in_range(#[trigger] faces@[i], *ray, *t_start, *t_end)
                    ==> frac_le(
                    best.unwrap().t.num as int,
                    best.unwrap().t.den as int,
                    hit_tnum(faces@[i], *ray),
                    hit_tden(faces@[i], *ray),
                ),
        decreases n - idx,
    {
        let cand = triangle_intersection(&faces[idx], ray, t_start, t_end);
        match cand {
            Some(h2) => {
                match &best {
                    None => {
                        best = Some(h2);
                    },
                    Some(hb) => {
                        if h2.t.lt(&hb.t) {
                            proof {
                                let ghost hbo = *hb;
                                assert forall|i: int|
                                    0 <= i < idx as int + 1 && hit_in_range(
                                        #[trigger] faces@[i],
                                        *ray,
                                        *t_start,
                                        *t_end,
                                    ) implies frac_le(
                                    h2.t.num as int,
                                    h2.t.den as int,
                                    hit_tnum(faces@[i], *ray),
                                    hit_tden(faces@[i], *ray),
                                ) by {
                                    lemma_tden_pos(faces@[i], *ray);
                                    if i < idx as int {
                                        lemma_frac_lt_le_trans(
                                            h2.t.num as int,
                                            h2.t.den as int,
                                            hbo.t.num as int,
                                            hbo.t.den as int,
                                            hit_tnum(faces@[i], *ray),
                                            hit_tden(faces@[i], *ray),
                                        );
                                    }
                                }
                            }
                            best = Some(h2);
                        } else {
                            proof {
                                assert(frac_le(
                                    hb.t.num as int,
                                    hb.t.den as int,
                                    h2.t.num as int,
                                    h2.t.den as int,
                                ));
                            }
                        }
                    },
                }
            },
            None => {},
        }
        idx = idx + 1;
    }
    best
}

impl KDTree {
    /// Finds the nearest triangle of the subtree struck by the ray within
    /// `[t_start, t_end]`: the answer of a linear scan over every stored
    /// triangle, reached by descending the children in the order the ray
    /// meets them and stopping as soon as the near side settles the
    /// answer.
    pub fn traverse(&self, ray: &Ray, t_start: &Rat, t_end: &Rat) -> (res: Option<
        KDTreeHitRecord,
    >)
        requires
            self.wf(),
            ray_wf(*ray),
            rat_wf(*t_start),
            rat_wf(*t_end),
        ensures
            res.is_none() ==> no_hit_in(self.faces_seq(), *ray, *t_start, *t_end),
            res.is_some() ==> is_nearest_hit(self.faces_seq(), *ray, *t_start, *t_end, res.unwrap())
                && record_wf(res.unwrap()),
        decreases *self,
    {
        match self {
            KDTree::Leaf { faces, .. } => hit_face_list(faces, ray, t_start, t_end),
            KDTree::Internal { split_axis, split_distance, left_child, right_child } => {
                let axis = *split_axis;
                let split = *split_distance;
                let o = ray.origin.get(axis);
                let d = ray.direction.get(axis);
                let ghost lf = left_child.faces_seq();
                let ghost rf = right_child.faces_seq();
                let ghost nf = self.faces_seq();
                proof {
                    assert(nf == lf + rf);
                    lemma_tree_faces_ok(**left_child);
                    lemma_tree_faces_ok(**right_child);
                    assert forall|j: int| 0 <= j < lf.len() implies contains_face(
                        nf,
                        #[trigger] lf[j],
                    ) by {
                        lemma_contains_concat(lf, rf, lf[j]);
                    }
                    assert forall|j: int| 0 <= j < rf.len() implies contains_face(
                        nf,
                        #[trigger] rf[j],
                    ) by {
                        lemma_contains_concat(lf, rf, rf[j]);
                    }
                }
                if d == 0 {
                    if o < split {
                        let res = left_child.traverse(ray, t_start, t_end);
                        proof {
                            assert forall|i: int|
                                0 <= i < nf.len() && hit_in_range(
                                    #[trigger] nf[i],
                                    *ray,
                                    *t_start,
                                    *t_end,
                                ) implies contains_face(lf, nf[i]) && hit_in_range(
                                nf[i],
                                *ray,
                                *t_start,
                                *t_end,
                            ) by {
                                let f = nf[i];
                                assert(contains_face(nf, f));
                                lemma_contains_concat(lf, rf, f);
                                lemma_hit_dir_zero(f, *ray, axis as int);
                                assert(goes_left(f, axis as int, split as int));
                            }
                            lemma_result_lift(lf, nf, *ray, *t_start, *t_end, *t_start, *t_end, res);
                        }
                        res
                    } else if o > split {
                        let res = right_child.traverse(ray, t_start, t_end);
                        proof {
                            assert forall|i: int|
                                0 <= i < nf.len() && hit_in_range(
                                    #[trigger] nf[i],
                                    *ray,
                                    *t_start,
                                    *t_end,
                                ) implies contains_face(rf, nf[i]) && hit_in_range(
                                nf[i],
                                *ray,
                                *t_start,
                                *t_end,
                            ) by {
                                let f = nf[i];
                                assert(contains_face(nf, f));
                                lemma_contains_concat(lf, rf, f);
                                lemma_hit_dir_zero(f, *ray, axis as int);
                                assert(goes_right(f, axis as int, split as int));
                            }
                            lemma_result_lift(rf, nf, *ray, *t_start, *t_end, *t_start, *t_end, res);
                        }
                        res
                    } else {
                        // The ray runs inside the split plane: search both
                        // children over the whole interval and keep the
                        // nearer answer.
                        let rl = left_child.traverse(ray, t_start, t_end);
                        let rr = right_child.traverse(ray, t_start, t_end);
                        let res = match (rl, rr) {
                            (None, None) => None,
                            (Some(hl), None) => Some(hl),
                            (None, Some(hr)) => Some(hr),
                            (Some(hl), Some(hr)) => {
                                if hl.t.le(&hr.t) {
                                    Some(hl)
                                } else {
                                    Some(hr)
                                }
                            },
                        };
                        proof {
                            if res.is_none() {
                                assert forall|i: int| 0 <= i < nf.len() implies !hit_in_range(
                                    #[trigger] nf[i],
                                    *ray,
                                    *t_start,
                                    *t_end,
                                ) by {
                                    if hit_in_range(nf[i], *ray, *t_start, *t_end) {
                                        if i < lf.len() {
                                            assert(!hit_in_range(lf[i], *ray, *t_start, *t_end));
                                        } else {
                                            assert(!hit_in_range(
                                                rf[i - lf.len()],
                                                *ray,
                                                *t_start,
                                                *t_end,
                                            ));
                                        }
                                    }
                                }
                            } else {
                                let h = res.unwrap();
                                // The chosen record is a node hit.
                                if rl.is_some() && (rr.is_none() || h == rl.unwrap()) {
                                    let j = choose|j: int|
                                        0 <= j < lf.len() && hit_in_range(
                                            #[trigger] lf[j],
                                            *ray,
                                            *t_start,
                                            *t_end,
                                        ) && record_matches(rl.unwrap(), lf[j], *ray);
                                    assert(nf[j] == lf[j]);
                                    assert(hit_in_range(nf[j], *ray, *t_start, *t_end)
                                        && record_matches(h, nf[j], *ray));
                                } else {
                                    let j = choose|j: int|
                                        0 <= j < rf.len() && hit_in_range(
                                            #[trigger] rf[j],
                                            *ray,
                                            *t_start,
                                            *t_end,
                                        ) && record_matches(rr.unwrap(), rf[j], *ray);
                                    assert(nf[lf.len() + j] == rf[j]);
                                    assert(hit_in_range(nf[lf.len() + j], *ray, *t_start, *t_end)
                                        && record_matches(h, nf[lf.len() + j], *ray));
                                }
                                // And it is least among node hits.
                                assert forall|i: int|
                                    0 <= i < nf.len() && hit_in_range(
                                        #[trigger] nf[i],
                                        *ray,
                                        *t_start,
                                        *t_end,
                                    ) implies frac_le(
                                    h.t.num as int,
                                    h.t.den as int,
                                    hit_tnum(nf[i], *ray),
                                    hit_tden(nf[i], *ray),
                                ) by {
                                    lemma_tden_pos(nf[i], *ray);
                                    if i < lf.len() {
                                        assert(hit_in_range(lf[i], *ray, *t_start, *t_end));
                                        let hl = rl.unwrap();
                                        if h != hl && rl.is_some() && rr.is_some() {
                                            lemma_frac_le_trans(
                                                h.t.num as int,
                                                h.t.den as int,
                                                hl.t.num as int,
                                                hl.t.den as int,
                                                hit_tnum(nf[i], *ray),
                                                hit_tden(nf[i], *ray),
                                            );
                                        }
                                    } else {
                                        assert(hit_in_range(
                                            rf[i - lf.len()],
                                            *ray,
                                            *t_start,
                                            *t_end,
                                        ));
                                        let hr = rr.unwrap();
                                        if h != hr && rl.is_some() && rr.is_some() {
                                            lemma_frac_le_trans(
                                                h.t.num as int,
                                                h.t.den as int,
                                                hr.t.num as int,
                                                hr.t.den as int,
                                                hit_tnum(nf[i], *ray),
                                                hit_tden(nf[i], *ray),
                                            );
                                        }
                                    }
                                }
                            }
                        }
                        res
                    }
                } else {
                    let ts = Rat::new(split - o, d);
                    let ghost positive = d > 0;
                    let ghost near_f = if positive { lf } else { rf };
                    let ghost far_f = if positive { rf } else { lf };
                    if ts.lt(t_start) {
                        // The whole interval lies beyond the split plane:
                        // only the far child matters.
                        let res = if d > 0 {
                            right_child.traverse(ray, t_start, t_end)
                        } else {
                            left_child.traverse(ray, t_start, t_end)
                        };
                        proof {
                            assert forall|i: int|
                                0 <= i < nf.len() && hit_in_range(
                                    #[trigger] nf[i],
                                    *ray,
                                    *t_start,
                                    *t_end,
                                ) implies contains_face(far_f, nf[i]) && hit_in_range(
                                nf[i],
                                *ray,
                                *t_start,
                                *t_end,
                            ) by {
                                let f = nf[i];
                                assert(contains_face(nf, f));
                                lemma_contains_concat(lf, rf, f);
                                lemma_tden_pos(f, *ray);
                                lemma_frac_lt_le_trans(
                                    ts.num as int,
                                    ts.den as int,
                                    t_start.num as int,
                                    t_start.den as int,
                                    hit_tnum(f, *ray),
                                    hit_tden(f, *ray),
                                );
                                lemma_hit_side(
                                    f,
                                    *ray,
                                    axis as int,
                                    split as int,
                                    ts.num as int,
                                    ts.den as int,
                                );
                                if positive {
                                    assert(goes_right(f, axis as int, split as int));
                                } else {
                                    assert(goes_left(f, axis as int, split as int));
                                }
                            }
                            lemma_result_lift(
                                far_f,
                                nf,
                                *ray,
                                *t_start,
                                *t_end,
                                *t_start,
                                *t_end,
                                res,
                            );
                        }
                        res
                    } else if t_end.lt(&ts) {
                        // The whole interval lies before the split plane:
                        // only the near child matters.
                        let res = if d > 0 {
                            left_child.traverse(ray, t_start, t_end)
                        } else {
                            right_child.traverse(ray, t_start, t_end)
                        };
                        proof {
                            assert forall|i: int|
                                0 <= i < nf.len() && hit_in_range(
                                    #[trigger] nf[i],
                                    *ray,
                                    *t_start,
                                    *t_end,
                                ) implies contains_face(near_f, nf[i]) && hit_in_range(
                                nf[i],
                                *ray,
                                *t_start,
                                *t_end,
                            ) by {
                                let f = nf[i];
                                assert(contains_face(nf, f));
                                lemma_contains_concat(lf, rf, f);
                                lemma_tden_pos(f, *ray);
                                lemma_frac_le_lt_trans(
                                    hit_tnum(f, *ray),
                                    hit_tden(f, *ray),
                                    t_end.num as int,
                                    t_end.den as int,
                                    ts.num as int,
                                    ts.den as int,
                                );
                                lemma_hit_side(
                                    f,
                                    *ray,
                                    axis as int,
                                    split as int,
                                    ts.num as int,
                                    ts.den as int,
                                );
                                if positive {
                                    assert(goes_left(f, axis as int, split as int));
                                } else {
                                    assert(goes_right(f, axis as int, split as int));
                                }
                            }
                            lemma_result_lift(
                                near_f,
                                nf,
                                *ray,
                                *t_start,
                                *t_end,
                                *t_start,
                                *t_end,
                                res,
                            );
                        }
                        res
                    } else {
                        // The split parameter falls inside the interval:
                        // search the near side first; a hit there is
                        // already the nearest, else sweep the far side.
                        let rn = if d > 0 {
                            left_child.traverse(ray, t_start, &ts)
                        } else {
                            right_child.traverse(ray, t_start, &ts)
                        };
                        match rn {
                            Some(h) => {
                                proof {
                                    let j = choose|j: int|
                                        0 <= j < near_f.len() && hit_in_range(
                                            #[trigger] near_f[j],
                                            *ray,
                                            *t_start,
                                            ts,
                                        ) && record_matches(h, near_f[j], *ray);
                                    let wf_face = near_f[j];
                                    lemma_tden_pos(wf_face, *ray);
                                    lemma_frac_le_trans(
                                        hit_tnum(wf_face, *ray),
                                        hit_tden(wf_face, *ray),
                                        ts.num as int,
                                        ts.den as int,
                                        t_end.num as int,
                                        t_end.den as int,
                                    );
                                    let i0 = choose|i0: int|
                                        0 <= i0 < nf.len() && nf[i0] == wf_face;
                                    assert(hit_in_range(nf[i0], *ray, *t_start, *t_end));
                                    assert(record_matches(h, nf[i0], *ray));
                                    // Nothing in the node is struck nearer:
                                    // anything strictly earlier than `h.t`
                                    // is strictly before the split, hence
                                    // stored in the near child, where `h`
                                    // is already least.
                                    assert forall|i: int|
                                        0 <= i < nf.len() && hit_in_range(
                                            #[trigger] nf[i],
                                            *ray,
                                            *t_start,
                                            *t_end,
                                        ) implies frac_le(
                                        h.t.num as int,
                                        h.t.den as int,
                                        hit_tnum(nf[i], *ray),
                                        hit_tden(nf[i], *ray),
                                    ) by {
                                        let f = nf[i];
                                        lemma_tden_pos(f, *ray);
                                        if frac_lt(
                                            hit_tnum(f, *ray),
                                            hit_tden(f, *ray),
                                            h.t.num as int,
                                            h.t.den as int,
                                        ) {
                                            // Strictly nearer than `h`,
                                            // hence strictly before the
                                            // split parameter.
                                            lemma_frac_lt_le_trans(
                                                hit_tnum(f, *ray),
                                                hit_tden(f, *ray),
                                                h.t.num as int,
                                                h.t.den as int,
                                                ts.num as int,
                                                ts.den as int,
                                            );
                                            lemma_hit_side(
                                                f,
                                                *ray,
                                                axis as int,
                                                split as int,
                                                ts.num as int,
                                                ts.den as int,
                                            );
                                            assert(contains_face(nf, f));
                                            lemma_contains_concat(lf, rf, f);
                                            if positive {
                                                assert(goes_left(f, axis as int, split as int));
                                            } else {
                                                assert(goes_right(f, axis as int, split as int));
                                            }
                                            assert(contains_face(near_f, f));
                                            let jj = choose|jj: int|
                                                0 <= jj < near_f.len() && near_f[jj] == f;
                                            assert(hit_in_range(near_f[jj], *ray, *t_start, ts));
                                            assert(false);
                                        }
                                    }
                                }
                                Some(h)
                            },
                            None => {
                                let rfres = if d > 0 {
                                    right_child.traverse(ray, &ts, t_end)
                                } else {
                                    left_child.traverse(ray, &ts, t_end)
                                };
                                proof {
                                    assert forall|i: int|
                                        0 <= i < nf.len() && hit_in_range(
                                            #[trigger] nf[i],
                                            *ray,
                                            *t_start,
                                            *t_end,
                                        ) implies contains_face(far_f, nf[i]) && hit_in_range(
                                        nf[i],
                                        *ray,
                                        ts,
                                        *t_end,
                                    ) by {
                                        let f = nf[i];
                                        let tn = hit_tnum(f, *ray);
                                        let td = hit_tden(f, *ray);
                                        lemma_tden_pos(f, *ray);
                                        assert(contains_face(nf, f));
                                        lemma_contains_concat(lf, rf, f);
                                        lemma_hit_side(
                                            f,
                                            *ray,
                                            axis as int,
                                            split as int,
                                            ts.num as int,
                                            ts.den as int,
                                        );
                                        if frac_lt(tn, td, ts.num as int, ts.den as int) {
                                            // Struck before the split:
                                            // would have been in the near
                                            // child, which found nothing.
                                            if positive {
                                                assert(goes_left(f, axis as int, split as int));
                                            } else {
                                                assert(goes_right(f, axis as int, split as int));
                                            }
                                            assert(contains_face(near_f, f));
                                            let jj = choose|jj: int|
                                                0 <= jj < near_f.len() && near_f[jj] == f;
                                            assert(hit_in_range(near_f[jj], *ray, *t_start, ts));
                                            assert(false);
                                        } else if frac_lt(ts.num as int, ts.den as int, tn, td) {
                                            if positive {
                                                assert(goes_right(f, axis as int, split as int));
                                            } else {
                                                assert(goes_left(f, axis as int, split as int));
                                            }
                                            assert(contains_face(far_f, f));
                                        } else {
                                            // Struck exactly at the split
                                            // parameter: on the plane.  If
                                            // its extent reached the near
                                            // side it would be in the near
                                            // child; it was not, so it
                                            // reaches the far side.
                                            assert(frac_eq(tn, td, ts.num as int, ts.den as int));
                                            if positive {
                                                if goes_left(f, axis as int, split as int) {
                                                    assert(contains_face(near_f, f));
                                                    let jj = choose|jj: int|
                                                        0 <= jj < near_f.len() && near_f[jj] == f;
                                                    assert(hit_in_range(
                                                        near_f[jj],
                                                        *ray,
                                                        *t_start,
                                                        ts,
                                                    ));
                                                    assert(false);
                                                }
                                                assert(sv_axis(f.bounds.minimum@, axis as int)
                                                    >= split);
                                                assert(!flat_on(f, axis as int, split as int));
                                                assert(goes_right(f, axis as int, split as int));
                                                assert(contains_face(far_f, f));
                                            } else {
                                                if goes_right(f, axis as int, split as int) {
                                                    assert(contains_face(near_f, f));
                                                    let jj = choose|jj: int|
                                                        0 <= jj < near_f.len() && near_f[jj] == f;
                                                    assert(hit_in_range(
                                                        near_f[jj],
                                                        *ray,
                                                        *t_start,
                                                        ts,
                                                    ));
                                                    assert(false);
                                                }
                                                assert(sv_axis(f.bounds.maximum@, axis as int)
                                                    <= split);
                                                assert(!flat_on(f, axis as int, split as int));
                                                assert(goes_left(f, axis as int, split as int));
                                                assert(contains_face(far_f, f));
                                            }
                                        }
                                    }
                                    lemma_result_lift(
                                        far_f,
                                        nf,
                                        *ray,
                                        *t_start,
                                        *t_end,
                                        ts,
                                        *t_end,
                                        rfres,
                                    );
                                }
                                rfres
                            },
                        }
                    }
                }
            },
        }
    }
}


/// Tests every triangle in turn and keeps the nearest hit in range: the
/// reference answer the tree traversal provably reproduces.
pub fn brute_force_nearest(faces: &Vec<Face>, ray: &Ray, t_start: &Rat, t_end: &Rat) -> (res:
    Option<KDTreeHitRecord>)
    requires
        ray_wf(*ray),
        rat_wf(*t_start),
        rat_wf(*t_end),
        forall|i: int| 0 <= i < faces@.len() ==> crate::face::face_ok(#[trigger] faces@[i]),
    ensures
        res.is_none() ==> no_hit_in(faces@, *ray, *t_start, *t_end),
        res.is_some() ==> is_nearest_hit(faces@, *ray, *t_start, *t_end, res.unwrap())
            && record_wf(res.unwrap()),
{
    hit_face_list(faces, ray, t_start, t_end)
}

/// Two nearest-hit answers over the same set of faces agree: they miss
/// together, and when they hit, their parameters are equal as rational
/// values.  In particular a tree traversal and a brute-force scan of the
/// same triangles — in any order, with any duplication — return the same
/// nearest parameter.
pub proof fn lemma_nearest_hit_unique(
    fa: Seq<Face>,
    fb: Seq<Face>,
    r: Ray,
    ta: Rat,
    tb: Rat,
    ra: Option<KDTreeHitRecord>,
    rb: Option<KDTreeHitRecord>,
)
    requires
        forall|j: int| 0 <= j < fa.len() ==> contains_face(fb, #[trigger] fa[j]),
        forall|j: int| 0 <= j < fb.len() ==> contains_face(fa, #[trigger] fb[j]),
        ra.is_none() ==> no_hit_in(fa, r, ta, tb),
        ra.is_some() ==> is_nearest_hit(fa, r, ta, tb, ra.unwrap()),
        rb.is_none() ==> no_hit_in(fb, r, ta, tb),
        rb.is_some() ==> is_nearest_hit(fb, r, ta, tb, rb.unwrap()),
    ensures
        ra.is_some() == rb.is_some(),
        ra.is_some() && rb.is_some() ==> frac_eq(
            ra.unwrap().t.num as int,
            ra.unwrap().t.den as int,
            rb.unwrap().t.num as int,
            rb.unwrap().t.den as int,
        ),
{
    if ra.is_some() && rb.is_none() {
        let i = choose|i: int|
            0 <= i < fa.len() && hit_in_range(#[trigger] fa[i], r, ta, tb) && record_matches(
                ra.unwrap(),
                fa[i],
                r,
            );
        let j = choose|j: int| 0 <= j < fb.len() && fb[j] == fa[i];
        assert(hit_in_range(fb[j], r, ta, tb));
        assert(false);
    }
    if rb.is_some() && ra.is_none() {
        let j = choose|j: int|
            0 <= j < fb.len() && hit_in_range(#[trigger] fb[j], r, ta, tb) && record_matches(
                rb.unwrap(),
                fb[j],
                r,
            );
        let i = choose|i: int| 0 <= i < fa.len() && fa[i] == fb[j];
        assert(hit_in_range(fa[i], r, ta, tb));
        assert(false);
    }
    if ra.is_some() && rb.is_some() {
        let ha = ra.unwrap();
        let hb = rb.unwrap();
        let i = choose|i: int|
            0 <= i < fa.len() && hit_in_range(#[trigger] fa[i], r, ta, tb) && record_matches(
                ha,
                fa[i],
                r,
            );
        let j = choose|j: int|
            0 <= j < fb.len() && hit_in_range(#[trigger] fb[j], r, ta, tb) && record_matches(
                hb,
                fb[j],
                r,
            );
        let i2 = choose|i2: int| 0 <= i2 < fa.len() && fa[i2] == fb[j];
        let j2 = choose|j2: int| 0 <= j2 < fb.len() && fb[j2] == fa[i];
        assert(hit_in_range(fa[i2], r, ta, tb));
        assert(hit_in_range(fb[j2], r, ta, tb));
        assert(frac_le(
            ha.t.num as int,
            ha.t.den as int,
            hit_tnum(fa[i2], r),
            hit_tden(fa[i2], r),
        ));
        assert(frac_le(
            hb.t.num as int,
            hb.t.den as int,
            hit_tnum(fb[j2], r),
            hit_tden(fb[j2], r),
        ));
    }
}

} // verus!
