//! Axis-aligned bounding boxes and the exact slab test.

use crate::ratio::{frac_le, lemma_frac_le_trans, rat_le, rat_wf, Rat};
use crate::ray::{ray_wf, Ray};
use crate::vector::{sv_axis, sv_in_range, Vec3, BOX_MAX};
use vstd::prelude::*;

verus! {

/// A box given by its two corners, componentwise `minimum <= maximum`.
#[derive(Clone, Copy, Debug)]
pub struct AxisAlignedBoundingBox {
    pub minimum: Vec3,
    pub maximum: Vec3,
}

/// Corners ordered and on the (padded) grid.
pub open spec fn box_wf(b: AxisAlignedBoundingBox) -> bool {
    &&& sv_in_range(b.minimum@, BOX_MAX as int)
    &&& sv_in_range(b.maximum@, BOX_MAX as int)
    &&& b.minimum.x <= b.maximum.x
    &&& b.minimum.y <= b.maximum.y
    &&& b.minimum.z <= b.maximum.z
}

/// The point `origin + (tn/td) * direction` lies within the box's slab on
/// `axis`; all terms are scaled by the positive denominator `td`.
pub open spec fn slab_ok_axis(b: AxisAlignedBoundingBox, r: Ray, tn: int, td: int, axis: int) -> bool {
    &&& sv_axis(b.minimum@, axis) * td <= sv_axis(r.origin@, axis) * td + tn * sv_axis(
        r.direction@,
        axis,
    )
    &&& sv_axis(r.origin@, axis) * td + tn * sv_axis(r.direction@, axis) <= sv_axis(
        b.maximum@,
        axis,
    ) * td
}

/// The point at parameter `tn/td` lies inside the box.
pub open spec fn box_contains_at(b: AxisAlignedBoundingBox, r: Ray, tn: int, td: int) -> bool {
    slab_ok_axis(b, r, tn, td, 0) && slab_ok_axis(b, r, tn, td, 1) && slab_ok_axis(b, r, tn, td, 2)
}

/// The parameter `tn/td` lies in the closed interval `[lo, hi]`.
pub open spec fn in_ival(lo: Rat, hi: Rat, tn: int, td: int) -> bool {
    frac_le(lo.num as int, lo.den as int, tn, td) && frac_le(tn, td, hi.num as int, hi.den as int)
}

/// Relates the slab's parameter interval to the contained coordinates, for
/// either sign of the direction component.
proof fn lemma_slab_axis(o: int, d: int, mn: int, mx: int, tn: int, td: int)
    by (nonlinear_arith)
    requires
        td > 0,
    ensures
        d > 0 ==> (frac_le(mn - o, d, tn, td) <==> mn * td <= o * td + tn * d),
        d > 0 ==> (frac_le(tn, td, mx - o, d) <==> o * td + tn * d <= mx * td),
        d < 0 ==> (frac_le(o - mx, -d, tn, td) <==> o * td + tn * d <= mx * td),
        d < 0 ==> (frac_le(tn, td, o - mn, -d) <==> mn * td <= o * td + tn * d),
        d == 0 ==> (mn * td <= o * td + tn * d <==> mn <= o),
        d == 0 ==> (o * td + tn * d <= mx * td <==> o <= mx),
{
}

impl AxisAlignedBoundingBox {
    /// No validity check: degenerate boxes are legal zero-volume bounds.
    pub fn new(point_a: Vec3, point_b: Vec3) -> (b: AxisAlignedBoundingBox)
        ensures
            b.minimum == point_a,
            b.maximum == point_b,
    {
        AxisAlignedBoundingBox { minimum: point_a, maximum: point_b }
    }

    /// Fractional position of `p` between the two corners, one exact ratio
    /// per axis; on an axis without extent the raw offset is returned over
    /// denominator one.
    pub fn offset(&self, p: Vec3) -> (r: (Rat, Rat, Rat))
        requires
            box_wf(*self),
            sv_in_range(p@, BOX_MAX as int),
        ensures
            r.0 == self.offset_axis(p, 0),
            r.1 == self.offset_axis(p, 1),
            r.2 == self.offset_axis(p, 2),
            rat_wf(r.0) && rat_wf(r.1) && rat_wf(r.2),
    {
        let ox = if self.maximum.x > self.minimum.x {
            Rat::new(p.x - self.minimum.x, self.maximum.x - self.minimum.x)
        } else {
            Rat::new(p.x - self.minimum.x, 1)
        };
        let oy = if self.maximum.y > self.minimum.y {
            Rat::new(p.y - self.minimum.y, self.maximum.y - self.minimum.y)
        } else {
            Rat::new(p.y - self.minimum.y, 1)
        };
        let oz = if self.maximum.z > self.minimum.z {
            Rat::new(p.z - self.minimum.z, self.maximum.z - self.minimum.z)
        } else {
            Rat::new(p.z - self.minimum.z, 1)
        };
        (ox, oy, oz)
    }

    /// The value `offset` returns on one axis.
    pub open spec fn offset_axis(&self, p: Vec3, axis: int) -> Rat {
        let mn = sv_axis(self.minimum@, axis);
        let mx = sv_axis(self.maximum@, axis);
        let pc = sv_axis(p@, axis);
        if mx > mn {
            Rat { num: (pc - mn) as i64, den: (mx - mn) as i64 }
        } else {
            Rat { num: (pc - mn) as i64, den: 1 }
        }
    }

    /// Twice the sum of the face areas: `2 (dx dy + dx dz + dy dz)`.
    pub fn surface_area(&self) -> (r: i64)
        requires
            box_wf(*self),
        ensures
            r as int == spec_surface_area(*self),
    {
        let dx = self.maximum.x - self.minimum.x;
        let dy = self.maximum.y - self.minimum.y;
        let dz = self.maximum.z - self.minimum.z;
        proof {
            crate::ratio::lemma_abs_mul(dx as int, dy as int, 2 * BOX_MAX as int, 2 * BOX_MAX as int);
            crate::ratio::lemma_abs_mul(dx as int, dz as int, 2 * BOX_MAX as int, 2 * BOX_MAX as int);
            crate::ratio::lemma_abs_mul(dy as int, dz as int, 2 * BOX_MAX as int, 2 * BOX_MAX as int);
        }
        2 * (dx * dy + dx * dz + dy * dz)
    }

    /// Axis with the largest extent; ties fall to the earlier axis in the
    /// order x, y, z.
    pub fn maximum_extent(&self) -> (r: u32)
        requires
            box_wf(*self),
        ensures
            r as int == spec_maximum_extent(*self),
    {
        let dx = self.maximum.x - self.minimum.x;
        let dy = self.maximum.y - self.minimum.y;
        let dz = self.maximum.z - self.minimum.z;
        if dx > dy && dx > dz {
            0
        } else if dy > dz {
            1
        } else {
            2
        }
    }

    /// Narrows `[lo, hi]` by the slab of one axis.  On success the new
    /// interval holds exactly the parameters of the old one whose point
    /// respects that slab; on failure no parameter of the old interval does.
    fn clamp_axis(&self, ray: &Ray, axis: usize, lo: &mut Rat, hi: &mut Rat) -> (ok: bool)
        requires
            box_wf(*self),
            ray_wf(*ray),
            axis < 3,
            rat_wf(*old(lo)),
            rat_wf(*old(hi)),
        ensures
            rat_wf(*final(lo)),
            rat_wf(*final(hi)),
            ok ==> forall|tn: int, td: int|
                #![trigger in_ival(*final(lo), *final(hi), tn, td)]
                td >= 1 ==> (in_ival(*final(lo), *final(hi), tn, td) <==> (in_ival(
                    *old(lo),
                    *old(hi),
                    tn,
                    td,
                ) && slab_ok_axis(*self, *ray, tn, td, axis as int))),
            !ok ==> forall|tn: int, td: int|
                #![trigger in_ival(*old(lo), *old(hi), tn, td)]
                td >= 1 ==> !(in_ival(*old(lo), *old(hi), tn, td) && slab_ok_axis(
                    *self,
                    *ray,
                    tn,
                    td,
                    axis as int,
                )),
    {
        let o = ray.origin.get(axis);
        let d = ray.direction.get(axis);
        let mn = self.minimum.get(axis);
        let mx = self.maximum.get(axis);
        if d == 0 {
            if o < mn || o > mx {
                proof {
                    assert forall|tn: int, td: int| td >= 1 implies !(in_ival(
                        *old(lo),
                        *old(hi),
                        tn,
                        td,
                    ) && slab_ok_axis(*self, *ray, tn, td, axis as int)) by {
                        lemma_slab_axis(o as int, d as int, mn as int, mx as int, tn, td);
                    }
                }
                return false;
            }
            proof {
                assert forall|tn: int, td: int|
                    #![trigger in_ival(*lo, *hi, tn, td)]
                    td >= 1 implies (in_ival(*lo, *hi, tn, td) <==> (
                in_ival(*old(lo), *old(hi), tn, td) && slab_ok_axis(
                    *self,
                    *ray,
                    tn,
                    td,
                    axis as int,
                ))) by {
                    lemma_slab_axis(o as int, d as int, mn as int, mx as int, tn, td);
                }
            }
            true
        } else {
            let (t0, t1) = if d > 0 {
                (Rat::new(mn - o, d), Rat::new(mx - o, d))
            } else {
                (Rat::new(mx - o, d), Rat::new(mn - o, d))
            };
            if lo.lt(&t0) {
                *lo = t0;
            }
            if t1.lt(hi) {
                *hi = t1;
            }
            proof {
                assert forall|tn: int, td: int|
                    #![trigger in_ival(*lo, *hi, tn, td)]
                    td >= 1 implies (in_ival(*lo, *hi, tn, td) <==> (
                in_ival(*old(lo), *old(hi), tn, td) && slab_ok_axis(
                    *self,
                    *ray,
                    tn,
                    td,
                    axis as int,
                ))) by {
                    lemma_slab_axis(o as int, d as int, mn as int, mx as int, tn, td);
                    // `lo` is the larger of the old bound and `t0`, `hi` the
                    // smaller of the old bound and `t1`.
                    if frac_le(lo.num as int, lo.den as int, tn, td) {
                        lemma_frac_le_trans(
                            old(lo).num as int,
                            old(lo).den as int,
                            lo.num as int,
                            lo.den as int,
                            tn,
                            td,
                        );
                        lemma_frac_le_trans(
                            t0.num as int,
                            t0.den as int,
                            lo.num as int,
                            lo.den as int,
                            tn,
                            td,
                        );
                    }
                    if frac_le(tn, td, hi.num as int, hi.den as int) {
                        lemma_frac_le_trans(
                            tn,
                            td,
                            hi.num as int,
                            hi.den as int,
                            old(hi).num as int,
                            old(hi).den as int,
                        );
                        lemma_frac_le_trans(
                            tn,
                            td,
                            hi.num as int,
                            hi.den as int,
                            t1.num as int,
                            t1.den as int,
                        );
                    }
                }
            }
            true
        }
    }

    /// Exact slab test.  On success the returned pair brackets exactly the
    /// parameters within `[t_min, t_max]` whose point lies inside the box;
    /// on failure no such parameter exists.
    pub fn hit(&self, ray: &Ray, t_min: &Rat, t_max: &Rat) -> (res: (bool, Rat, Rat))
        requires
            box_wf(*self),
            ray_wf(*ray),
            rat_wf(*t_min),
            rat_wf(*t_max),
        ensures
            res.0 ==> rat_wf(res.1) && rat_wf(res.2) && rat_le(res.1, res.2),
            res.0 ==> forall|tn: int, td: int|
                #![trigger in_ival(res.1, res.2, tn, td)]
                td >= 1 ==> (in_ival(res.1, res.2, tn, td) <==> (in_ival(*t_min, *t_max, tn, td)
                    && box_contains_at(*self, *ray, tn, td))),
            !res.0 ==> forall|tn: int, td: int|
                #![trigger in_ival(*t_min, *t_max, tn, td)]
                td >= 1 ==> !(in_ival(*t_min, *t_max, tn, td) && box_contains_at(
                    *self,
                    *ray,
                    tn,
                    td,
                )),
    {
        let mut lo = *t_min;
        let mut hi = *t_max;
        let ok0 = self.clamp_axis(ray, 0, &mut lo, &mut hi);
        let ghost lo0 = lo;
        let ghost hi0 = hi;
        if !ok0 {
            return (false, *t_min, *t_max);
        }
        let ok1 = self.clamp_axis(ray, 1, &mut lo, &mut hi);
        let ghost lo1 = lo;
        let ghost hi1 = hi;
        if !ok1 {
            proof {
                assert forall|tn: int, td: int| td >= 1 implies !(in_ival(*t_min, *t_max, tn, td)
                    && box_contains_at(*self, *ray, tn, td)) by {
                    if in_ival(*t_min, *t_max, tn, td) && box_contains_at(*self, *ray, tn, td) {
                        assert(in_ival(lo0, hi0, tn, td));
                        assert(false);
                    }
                }
            }
            return (false, *t_min, *t_max);
        }
        let ok2 = self.clamp_axis(ray, 2, &mut lo, &mut hi);
        let ghost lo2 = lo;
        let ghost hi2 = hi;
        if !ok2 {
            proof {
                assert forall|tn: int, td: int| td >= 1 implies !(in_ival(*t_min, *t_max, tn, td)
                    && box_contains_at(*self, *ray, tn, td)) by {
                    if in_ival(*t_min, *t_max, tn, td) && box_contains_at(*self, *ray, tn, td) {
                        assert(in_ival(lo0, hi0, tn, td));
                        assert(in_ival(lo1, hi1, tn, td));
                        assert(false);
                    }
                }
            }
            return (false, *t_min, *t_max);
        }
        if hi.lt(&lo) {
            proof {
                assert forall|tn: int, td: int| td >= 1 implies !(in_ival(*t_min, *t_max, tn, td)
                    && box_contains_at(*self, *ray, tn, td)) by {
                    if in_ival(*t_min, *t_max, tn, td) && box_contains_at(*self, *ray, tn, td) {
                        assert(in_ival(lo0, hi0, tn, td));
                        assert(in_ival(lo1, hi1, tn, td));
                        assert(in_ival(lo2, hi2, tn, td));
                        lemma_frac_le_trans(
                            lo2.num as int,
                            lo2.den as int,
                            tn,
                            td,
                            hi2.num as int,
                            hi2.den as int,
                        );
                        assert(false);
                    }
                }
            }
            return (false, *t_min, *t_max);
        }
        proof {
            assert forall|tn: int, td: int| td >= 1 implies (in_ival(lo, hi, tn, td) <==> (
            in_ival(*t_min, *t_max, tn, td) && box_contains_at(*self, *ray, tn, td))) by {
                assert(td >= 1 ==> (in_ival(lo0, hi0, tn, td) <==> (in_ival(*t_min, *t_max, tn, td)
                    && slab_ok_axis(*self, *ray, tn, td, 0))));
                assert(td >= 1 ==> (in_ival(lo1, hi1, tn, td) <==> (in_ival(lo0, hi0, tn, td)
                    && slab_ok_axis(*self, *ray, tn, td, 1))));
                assert(td >= 1 ==> (in_ival(lo2, hi2, tn, td) <==> (in_ival(lo1, hi1, tn, td)
                    && slab_ok_axis(*self, *ray, tn, td, 2))));
            }
            assert(in_ival(lo, hi, lo.num as int, lo.den as int));
        }
        (true, lo, hi)
    }
}

/// What `surface_area` computes.
pub open spec fn spec_surface_area(b: AxisAlignedBoundingBox) -> int {
    let dx = b.maximum.x - b.minimum.x;
    let dy = b.maximum.y - b.minimum.y;
    let dz = b.maximum.z - b.minimum.z;
    2 * (dx * dy + dx * dz + dy * dz)
}

/// What `maximum_extent` computes.
pub open spec fn spec_maximum_extent(b: AxisAlignedBoundingBox) -> int {
    let dx = b.maximum.x - b.minimum.x;
    let dy = b.maximum.y - b.minimum.y;
    let dz = b.maximum.z - b.minimum.z;
    if dx > dy && dx > dz {
        0
    } else if dy > dz {
        1
    } else {
        2
    }
}

/// Componentwise union; `None` stands for "no geometry" and wins.
pub fn surrounding_box(
    box_a: &Option<AxisAlignedBoundingBox>,
    box_b: &Option<AxisAlignedBoundingBox>,
) -> (r: Option<AxisAlignedBoundingBox>)
    ensures
        r.is_some() <==> box_a.is_some() && box_b.is_some(),
        r.is_some() ==> {
            let a = box_a.unwrap();
            let b = box_b.unwrap();
            let s = r.unwrap();
            &&& s.minimum.x == if a.minimum.x <= b.minimum.x { a.minimum.x } else { b.minimum.x }
            &&& s.minimum.y == if a.minimum.y <= b.minimum.y { a.minimum.y } else { b.minimum.y }
            &&& s.minimum.z == if a.minimum.z <= b.minimum.z { a.minimum.z } else { b.minimum.z }
            &&& s.maximum.x == if a.maximum.x >= b.maximum.x { a.maximum.x } else { b.maximum.x }
            &&& s.maximum.y == if a.maximum.y >= b.maximum.y { a.maximum.y } else { b.maximum.y }
            &&& s.maximum.z == if a.maximum.z >= b.maximum.z { a.maximum.z } else { b.maximum.z }
        },
{
    match (box_a, box_b) {
        (Some(a), Some(b)) => {
            let small = Vec3::new(
                if a.minimum.x <= b.minimum.x { a.minimum.x } else { b.minimum.x },
                if a.minimum.y <= b.minimum.y { a.minimum.y } else { b.minimum.y },
                if a.minimum.z <= b.minimum.z { a.minimum.z } else { b.minimum.z },
            );
            let big = Vec3::new(
                if a.maximum.x >= b.maximum.x { a.maximum.x } else { b.maximum.x },
                if a.maximum.y >= b.maximum.y { a.maximum.y } else { b.maximum.y },
                if a.maximum.z >= b.maximum.z { a.maximum.z } else { b.maximum.z },
            );
            Some(AxisAlignedBoundingBox::new(small, big))
        },
        _ => None,
    }
}

} // verus!
