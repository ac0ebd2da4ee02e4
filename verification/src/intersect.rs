//! The exact ray-triangle test.
//!
//! The ray parameter at the triangle's plane is the fraction
//! `num / den` with `den = n . direction` and `num = n . (p0 - origin)`,
//! where `n` is the plane normal from the cross product of two edges.
//! Instead of dividing, every inequality below is scaled by the positive
//! denominator, so the test is exact integer arithmetic throughout.

use crate::aabb::{box_contains_at, slab_ok_axis};
use crate::face::{face_ok, Face};
use crate::ratio::{frac_le, lemma_abs_mul, rat_wf, Rat};
use crate::ray::{ray_wf, Ray};
use crate::vector::{
    lemma_cross_bound, lemma_dot_bound, sv_axis, sv_cross, sv_dot, sv_in_range, sv_neg, sv_scale,
    sv_sub, Vec3, V3,
};
use vstd::prelude::*;

verus! {

/// Plane normal: cross product of the two edges leaving the first corner.
pub open spec fn tri_normal(f: Face) -> V3 {
    sv_cross(sv_sub(f.p1@, f.p0@), sv_sub(f.p2@, f.p0@))
}

/// Signed denominator of the plane parameter.
pub open spec fn hit_raw_den(f: Face, r: Ray) -> int {
    sv_dot(tri_normal(f), r.direction@)
}

/// Signed numerator of the plane parameter.
pub open spec fn hit_raw_num(f: Face, r: Ray) -> int {
    sv_dot(tri_normal(f), sv_sub(f.p0@, r.origin@))
}

/// Denominator normalised to be nonnegative.
pub open spec fn hit_tden(f: Face, r: Ray) -> int {
    if hit_raw_den(f, r) < 0 {
        -hit_raw_den(f, r)
    } else {
        hit_raw_den(f, r)
    }
}

/// Numerator matching the normalised denominator.
pub open spec fn hit_tnum(f: Face, r: Ray) -> int {
    if hit_raw_den(f, r) < 0 {
        -hit_raw_num(f, r)
    } else {
        hit_raw_num(f, r)
    }
}

/// Coordinate of the hit point on `axis`, scaled by `hit_tden`.
pub open spec fn hit_pnum(f: Face, r: Ray, axis: int) -> int {
    sv_axis(r.origin@, axis) * hit_tden(f, r) + hit_tnum(f, r) * sv_axis(r.direction@, axis)
}

/// The hit point, scaled by `hit_tden`.
pub open spec fn hit_point_scaled(f: Face, r: Ray) -> V3 {
    V3 { x: hit_pnum(f, r, 0), y: hit_pnum(f, r, 1), z: hit_pnum(f, r, 2) }
}

/// The hit point lies on the inner side of the edge from `a` to `b`
/// (everything scaled by the positive `hit_tden`).
pub open spec fn edge_ok(f: Face, r: Ray, a: V3, b: V3) -> bool {
    sv_dot(
        tri_normal(f),
        sv_cross(sv_sub(b, a), sv_sub(hit_point_scaled(f, r), sv_scale(hit_tden(f, r), a))),
    ) >= 0
}

/// The ray strikes the triangle at a parameter `t >= 0`: the ray is not
/// parallel to the plane, the plane point lies inside all three edges,
/// and it lies inside the cached bounding box.
pub open spec fn face_hits(f: Face, r: Ray) -> bool {
    &&& hit_raw_den(f, r) != 0
    &&& hit_tnum(f, r) >= 0
    &&& edge_ok(f, r, f.p0@, f.p1@)
    &&& edge_ok(f, r, f.p1@, f.p2@)
    &&& edge_ok(f, r, f.p2@, f.p0@)
    &&& box_contains_at(f.bounds, r, hit_tnum(f, r), hit_tden(f, r))
}

/// The ray strikes the triangle within the closed interval `[ta, tb]`.
pub open spec fn hit_in_range(f: Face, r: Ray, ta: Rat, tb: Rat) -> bool {
    &&& face_hits(f, r)
    &&& frac_le(ta.num as int, ta.den as int, hit_tnum(f, r), hit_tden(f, r))
    &&& frac_le(hit_tnum(f, r), hit_tden(f, r), tb.num as int, tb.den as int)
}

/// What a returned hit record holds for the struck face: the exact plane
/// parameter, the exact (scaled) hit point, the geometric normal flipped
/// toward the ray, the side flag, and the face itself.
pub open spec fn record_matches(h: KDTreeHitRecord, f: Face, r: Ray) -> bool {
    &&& h.t.num as int == hit_tnum(f, r)
    &&& h.t.den as int == hit_tden(f, r)
    &&& h.p.0.num as int == hit_pnum(f, r, 0) && h.p.0.den == h.t.den
    &&& h.p.1.num as int == hit_pnum(f, r, 1) && h.p.1.den == h.t.den
    &&& h.p.2.num as int == hit_pnum(f, r, 2) && h.p.2.den == h.t.den
    &&& h.front_face == (hit_raw_den(f, r) < 0)
    &&& h.normal@ == if hit_raw_den(f, r) < 0 {
        tri_normal(f)
    } else {
        sv_neg(tri_normal(f))
    }
    &&& h.face == f
}

/// The nearest intersection found by a traversal: exact parameter, exact
/// hit point as one rational per axis, the geometric normal facing the
/// ray, whether the front side was struck, and the struck face.
#[derive(Clone, Copy, Debug)]
pub struct KDTreeHitRecord {
    pub t: Rat,
    pub p: (Rat, Rat, Rat),
    pub normal: Vec3,
    pub front_face: bool,
    pub face: Face,
}

/// A well-formed record carries well-formed rationals.
pub open spec fn record_wf(h: KDTreeHitRecord) -> bool {
    rat_wf(h.t) && rat_wf(h.p.0) && rat_wf(h.p.1) && rat_wf(h.p.2)
}

/// Tests one triangle against the ray over `[t_start, t_end]`.  Returns a
/// record exactly when the triangle is struck in range; degenerate
/// triangles and parallel rays are a miss, never an error.
pub fn triangle_intersection(f: &Face, r: &Ray, t_start: &Rat, t_end: &Rat) -> (res: Option<
    KDTreeHitRecord,
>)
    requires
        face_ok(*f),
        ray_wf(*r),
        rat_wf(*t_start),
        rat_wf(*t_end),
    ensures
        res.is_some() <==> hit_in_range(*f, *r, *t_start, *t_end),
        res.is_some() ==> record_matches(res.unwrap(), *f, *r) && record_wf(res.unwrap()),
{
    let e01 = f.p1.sub(&f.p0);
    let e12 = f.p2.sub(&f.p1);
    let e20 = f.p0.sub(&f.p2);
    let e02 = f.p2.sub(&f.p0);
    let n = e01.cross(&e02);
    proof {
        assert(n@ == tri_normal(*f));
        lemma_cross_bound(e01@, e02@, 0x4000);
    }
    let raw_den = n.dot(&r.direction);
    proof {
        lemma_dot_bound(n@, r.direction@, 0x2000_0000, 0x2000);
        assert(raw_den as int == hit_raw_den(*f, *r));
    }
    if raw_den == 0 {
        return None;
    }
    let po = f.p0.sub(&r.origin);
    let raw_num = n.dot(&po);
    proof {
        lemma_dot_bound(n@, po@, 0x2000_0000, 0x4000);
        assert(raw_num as int == hit_raw_num(*f, *r));
    }
    let t = Rat::new(raw_num, raw_den);
    proof {
        assert(t.num as int == hit_tnum(*f, *r));
        assert(t.den as int == hit_tden(*f, *r));
    }
    if t.num < 0 {
        return None;
    }
    if !t_start.le(&t) {
        return None;
    }
    if !t.le(t_end) {
        return None;
    }
    let tn = t.num;
    let td = t.den;
    // Scaled coordinates of the plane point.
    proof {
        lemma_abs_mul(r.origin.x as int, td as int, 0x2000, 0x2000_0000_0000);
        lemma_abs_mul(r.origin.y as int, td as int, 0x2000, 0x2000_0000_0000);
        lemma_abs_mul(r.origin.z as int, td as int, 0x2000, 0x2000_0000_0000);
        lemma_abs_mul(tn as int, r.direction.x as int, 0x2000_0000_0000, 0x2000);
        lemma_abs_mul(tn as int, r.direction.y as int, 0x2000_0000_0000, 0x2000);
        lemma_abs_mul(tn as int, r.direction.z as int, 0x2000_0000_0000, 0x2000);
    }
    let pn_x: i128 = (r.origin.x as i128) * (td as i128) + (tn as i128) * (r.direction.x as i128);
    let pn_y: i128 = (r.origin.y as i128) * (td as i128) + (tn as i128) * (r.direction.y as i128);
    let pn_z: i128 = (r.origin.z as i128) * (td as i128) + (tn as i128) * (r.direction.z as i128);
    proof {
        assert(pn_x as int == hit_pnum(*f, *r, 0));
        assert(pn_y as int == hit_pnum(*f, *r, 1));
        assert(pn_z as int == hit_pnum(*f, *r, 2));
    }
    // Edge from p0 to p1.
    if !edge_side(&n, &e01, &f.p0, pn_x, pn_y, pn_z, td) {
        proof {
            assert(!edge_ok(*f, *r, f.p0@, f.p1@));
        }
        return None;
    }
    // Edge from p1 to p2.
    if !edge_side(&n, &e12, &f.p1, pn_x, pn_y, pn_z, td) {
        proof {
            assert(!edge_ok(*f, *r, f.p1@, f.p2@));
        }
        return None;
    }
    // Edge from p2 to p0.
    if !edge_side(&n, &e20, &f.p2, pn_x, pn_y, pn_z, td) {
        proof {
            assert(!edge_ok(*f, *r, f.p2@, f.p0@));
        }
        return None;
    }
    // The plane point must lie within the cached box.
    proof {
        lemma_abs_mul(f.bounds.minimum.x as int, td as int, 0x4000, 0x2000_0000_0000);
        lemma_abs_mul(f.bounds.minimum.y as int, td as int, 0x4000, 0x2000_0000_0000);
        lemma_abs_mul(f.bounds.minimum.z as int, td as int, 0x4000, 0x2000_0000_0000);
        lemma_abs_mul(f.bounds.maximum.x as int, td as int, 0x4000, 0x2000_0000_0000);
        lemma_abs_mul(f.bounds.maximum.y as int, td as int, 0x4000, 0x2000_0000_0000);
        lemma_abs_mul(f.bounds.maximum.z as int, td as int, 0x4000, 0x2000_0000_0000);
    }
    let in_box = (f.bounds.minimum.x as i128) * (td as i128) <= pn_x && pn_x
        <= (f.bounds.maximum.x as i128) * (td as i128) && (f.bounds.minimum.y as i128) * (td
        as i128) <= pn_y && pn_y <= (f.bounds.maximum.y as i128) * (td as i128)
        && (f.bounds.minimum.z as i128) * (td as i128) <= pn_z && pn_z <= (f.bounds.maximum.z
        as i128) * (td as i128);
    proof {
        assert(in_box == box_contains_at(f.bounds, *r, hit_tnum(*f, *r), hit_tden(*f, *r)));
    }
    if !in_box {
        return None;
    }
    let normal = if raw_den < 0 {
        n
    } else {
        n.neg()
    };
    let px = Rat { num: pn_x as i64, den: td };
    let py = Rat { num: pn_y as i64, den: td };
    let pz = Rat { num: pn_z as i64, den: td };
    Some(
        KDTreeHitRecord {
            t,
            p: (px, py, pz),
            normal,
            front_face: raw_den < 0,
            face: *f,
        },
    )
}

/// Scaled half-plane test for one edge: the sign of
/// `n . (edge x (p - tden * a))`, where `p` is the scaled plane point and
/// `a` the edge's origin.
fn edge_side(n: &Vec3, edge: &Vec3, a: &Vec3, pn_x: i128, pn_y: i128, pn_z: i128, td: i64) -> (ok:
    bool)
    requires
        sv_in_range(n@, 0x2000_0000),
        sv_in_range(edge@, 0x4000),
        sv_in_range(a@, 0x2000),
        1 <= td <= 0x2000_0000_0000,
        -0x800_0000_0000_0000 <= pn_x as int <= 0x800_0000_0000_0000,
        -0x800_0000_0000_0000 <= pn_y as int <= 0x800_0000_0000_0000,
        -0x800_0000_0000_0000 <= pn_z as int <= 0x800_0000_0000_0000,
    ensures
        ok == (sv_dot(
            n@,
            sv_cross(
                edge@,
                sv_sub(
                    V3 { x: pn_x as int, y: pn_y as int, z: pn_z as int },
                    sv_scale(td as int, a@),
                ),
            ),
        ) >= 0),
{
    proof {
        lemma_abs_mul(td as int, a.x as int, 0x2000_0000_0000, 0x2000);
        lemma_abs_mul(td as int, a.y as int, 0x2000_0000_0000, 0x2000);
        lemma_abs_mul(td as int, a.z as int, 0x2000_0000_0000, 0x2000);
    }
    let qx: i128 = pn_x - (td as i128) * (a.x as i128);
    let qy: i128 = pn_y - (td as i128) * (a.y as i128);
    let qz: i128 = pn_z - (td as i128) * (a.z as i128);
    proof {
        lemma_abs_mul(edge.y as int, qz as int, 0x4000, 0x1000_0000_0000_0000);
        lemma_abs_mul(edge.z as int, qy as int, 0x4000, 0x1000_0000_0000_0000);
        lemma_abs_mul(edge.z as int, qx as int, 0x4000, 0x1000_0000_0000_0000);
        lemma_abs_mul(edge.x as int, qz as int, 0x4000, 0x1000_0000_0000_0000);
        lemma_abs_mul(edge.x as int, qy as int, 0x4000, 0x1000_0000_0000_0000);
        lemma_abs_mul(edge.y as int, qx as int, 0x4000, 0x1000_0000_0000_0000);
    }
    let cx: i128 = (edge.y as i128) * qz - (edge.z as i128) * qy;
    let cy: i128 = (edge.z as i128) * qx - (edge.x as i128) * qz;
    let cz: i128 = (edge.x as i128) * qy - (edge.y as i128) * qx;
    proof {
        lemma_abs_mul(n.x as int, cx as int, 0x2000_0000, 0x8000_0000_0000_0000_0000);
        lemma_abs_mul(n.y as int, cy as int, 0x2000_0000, 0x8000_0000_0000_0000_0000);
        lemma_abs_mul(n.z as int, cz as int, 0x2000_0000, 0x8000_0000_0000_0000_0000);
    }
    let s: i128 = (n.x as i128) * cx + (n.y as i128) * cy + (n.z as i128) * cz;
    s >= 0
}

} // verus!
