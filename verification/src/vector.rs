//! Fixed-point 3-vectors.
//!
//! Geometry lives on an integer grid: a world coordinate is quantised to a
//! signed step count within `COORD_MAX`.  All vector algebra is then exact,
//! and every product the library forms fits its machine type by the bounds
//! proved here.

use vstd::prelude::*;

verus! {

/// Largest magnitude of a mesh or ray coordinate (2^13 grid steps).
pub const COORD_MAX: i64 = 8192;

/// Largest magnitude of a bounding-box corner coordinate (2^14); boxes may
/// be padded a little beyond the mesh itself.
pub const BOX_MAX: i64 = 16384;

/// Bound under which the multiplicative vector operations below are
/// overflow-free.
pub const VEC_OP_MAX: i64 = 0x4000_0000;

/// Looser bound under which componentwise sums are overflow-free.
pub const VEC_ADD_MAX: i64 = 0x2000_0000_0000_0000;

/// Mathematical-integer view of a vector.
pub ghost struct V3 {
    pub x: int,
    pub y: int,
    pub z: int,
}

/// A point or direction on the fixed-point grid.
#[derive(Clone, Copy, Debug)]
pub struct Vec3 {
    pub x: i64,
    pub y: i64,
    pub z: i64,
}

impl View for Vec3 {
    type V = V3;

    open spec fn view(&self) -> V3 {
        V3 { x: self.x as int, y: self.y as int, z: self.z as int }
    }
}

pub open spec fn sv_add(a: V3, b: V3) -> V3 {
    V3 { x: a.x + b.x, y: a.y + b.y, z: a.z + b.z }
}

pub open spec fn sv_sub(a: V3, b: V3) -> V3 {
    V3 { x: a.x - b.x, y: a.y - b.y, z: a.z - b.z }
}

pub open spec fn sv_neg(a: V3) -> V3 {
    V3 { x: -a.x, y: -a.y, z: -a.z }
}

pub open spec fn sv_scale(k: int, a: V3) -> V3 {
    V3 { x: k * a.x, y: k * a.y, z: k * a.z }
}

pub open spec fn sv_dot(a: V3, b: V3) -> int {
    a.x * b.x + a.y * b.y + a.z * b.z
}

pub open spec fn sv_cross(a: V3, b: V3) -> V3 {
    V3 {
        x: a.y * b.z - a.z * b.y,
        y: a.z * b.x - a.x * b.z,
        z: a.x * b.y - a.y * b.x,
    }
}

/// Component on a given axis (0 is x, 1 is y, 2 is z).
pub open spec fn sv_axis(a: V3, ax: int) -> int {
    if ax == 0 {
        a.x
    } else if ax == 1 {
        a.y
    } else {
        a.z
    }
}

/// Every component within `[-bound, bound]`.
pub open spec fn sv_in_range(a: V3, bound: int) -> bool {
    &&& -bound <= a.x <= bound
    &&& -bound <= a.y <= bound
    &&& -bound <= a.z <= bound
}

/// Componentwise bound on a scaled vector from bounds on its parts.
pub proof fn lemma_scale_bound(k: int, a: V3, kk: int, m: int)
    by (nonlinear_arith)
    requires
        kk >= 0,
        m >= 0,
        -kk <= k <= kk,
        sv_in_range(a, m),
    ensures
        sv_in_range(sv_scale(k, a), kk * m),
{
}

/// Componentwise bound on a cross product from bounds on its factors.
pub proof fn lemma_cross_bound(a: V3, b: V3, m: int)
    requires
        m >= 0,
        sv_in_range(a, m),
        sv_in_range(b, m),
    ensures
        sv_in_range(sv_cross(a, b), 2 * m * m),
{
    crate::ratio::lemma_abs_mul(a.y, b.z, m, m);
    crate::ratio::lemma_abs_mul(a.z, b.y, m, m);
    crate::ratio::lemma_abs_mul(a.z, b.x, m, m);
    crate::ratio::lemma_abs_mul(a.x, b.z, m, m);
    crate::ratio::lemma_abs_mul(a.x, b.y, m, m);
    crate::ratio::lemma_abs_mul(a.y, b.x, m, m);
    assert(2 * m * m == m * m + m * m) by (nonlinear_arith);
}

/// Bound on a dot product from bounds on its factors.
pub proof fn lemma_dot_bound(a: V3, b: V3, ma: int, mb: int)
    by (nonlinear_arith)
    requires
        ma >= 0,
        mb >= 0,
        sv_in_range(a, ma),
        sv_in_range(b, mb),
    ensures
        -(3 * ma * mb) <= sv_dot(a, b) <= 3 * ma * mb,
{
}

/// A cross product is orthogonal to both of its factors.
pub proof fn lemma_cross_orthogonal(a: V3, b: V3)
    ensures
        sv_dot(sv_cross(a, b), a) == 0,
        sv_dot(sv_cross(a, b), b) == 0,
{
    let c = sv_cross(a, b);
    assert(c.x * a.x + c.y * a.y + c.z * a.z == 0) by (nonlinear_arith)
        requires
            c.x == a.y * b.z - a.z * b.y,
            c.y == a.z * b.x - a.x * b.z,
            c.z == a.x * b.y - a.y * b.x,
    ;
    assert(c.x * b.x + c.y * b.y + c.z * b.z == 0) by (nonlinear_arith)
        requires
            c.x == a.y * b.z - a.z * b.y,
            c.y == a.z * b.x - a.x * b.z,
            c.z == a.x * b.y - a.y * b.x,
    ;
}

impl Vec3 {
    pub fn new(x: i64, y: i64, z: i64) -> (v: Vec3)
        ensures
            v@ == (V3 { x: x as int, y: y as int, z: z as int }),
    {
        Vec3 { x, y, z }
    }

    /// Component on the given axis.
    pub fn get(&self, axis: usize) -> (r: i64)
        requires
            axis < 3,
        ensures
            r as int == sv_axis(self@, axis as int),
    {
        if axis == 0 {
            self.x
        } else if axis == 1 {
            self.y
        } else {
            self.z
        }
    }

    /// Replaces the component on the given axis.
    pub fn set(&mut self, axis: usize, value: i64)
        requires
            axis < 3,
        ensures
            sv_axis(final(self)@, axis as int) == value as int,
            forall|ax: int|
                0 <= ax < 3 && ax != axis as int ==> sv_axis(final(self)@, ax) == sv_axis(
                    old(self)@,
                    ax,
                ),
    {
        if axis == 0 {
            self.x = value;
        } else if axis == 1 {
            self.y = value;
        } else {
            self.z = value;
        }
    }

    pub fn add(&self, other: &Vec3) -> (r: Vec3)
        requires
            sv_in_range(self@, VEC_ADD_MAX as int),
            sv_in_range(other@, VEC_ADD_MAX as int),
        ensures
            r@ == sv_add(self@, other@),
    {
        Vec3 { x: self.x + other.x, y: self.y + other.y, z: self.z + other.z }
    }

    pub fn sub(&self, other: &Vec3) -> (r: Vec3)
        requires
            sv_in_range(self@, VEC_ADD_MAX as int),
            sv_in_range(other@, VEC_ADD_MAX as int),
        ensures
            r@ == sv_sub(self@, other@),
    {
        Vec3 { x: self.x - other.x, y: self.y - other.y, z: self.z - other.z }
    }

    pub fn neg(&self) -> (r: Vec3)
        requires
            sv_in_range(self@, VEC_ADD_MAX as int),
        ensures
            r@ == sv_neg(self@),
    {
        Vec3 { x: -self.x, y: -self.y, z: -self.z }
    }

    pub fn scale(&self, k: i64) -> (r: Vec3)
        requires
            sv_in_range(self@, VEC_OP_MAX as int),
            -VEC_OP_MAX <= k <= VEC_OP_MAX,
        ensures
            r@ == sv_scale(k as int, self@),
    {
        proof {
            crate::ratio::lemma_abs_mul(k as int, self.x as int, VEC_OP_MAX as int, VEC_OP_MAX as int);
            crate::ratio::lemma_abs_mul(k as int, self.y as int, VEC_OP_MAX as int, VEC_OP_MAX as int);
            crate::ratio::lemma_abs_mul(k as int, self.z as int, VEC_OP_MAX as int, VEC_OP_MAX as int);
        }
        Vec3 { x: k * self.x, y: k * self.y, z: k * self.z }
    }

    pub fn dot(&self, other: &Vec3) -> (r: i64)
        requires
            sv_in_range(self@, VEC_OP_MAX as int),
            sv_in_range(other@, VEC_OP_MAX as int),
        ensures
            r as int == sv_dot(self@, other@),
    {
        proof {
            crate::ratio::lemma_abs_mul(self.x as int, other.x as int, VEC_OP_MAX as int, VEC_OP_MAX as int);
            crate::ratio::lemma_abs_mul(self.y as int, other.y as int, VEC_OP_MAX as int, VEC_OP_MAX as int);
            crate::ratio::lemma_abs_mul(self.z as int, other.z as int, VEC_OP_MAX as int, VEC_OP_MAX as int);
        }
        self.x * other.x + self.y * other.y + self.z * other.z
    }

    pub fn cross(&self, other: &Vec3) -> (r: Vec3)
        requires
            sv_in_range(self@, VEC_OP_MAX as int),
            sv_in_range(other@, VEC_OP_MAX as int),
        ensures
            r@ == sv_cross(self@, other@),
    {
        proof {
            crate::ratio::lemma_abs_mul(self.y as int, other.z as int, VEC_OP_MAX as int, VEC_OP_MAX as int);
            crate::ratio::lemma_abs_mul(self.z as int, other.y as int, VEC_OP_MAX as int, VEC_OP_MAX as int);
            crate::ratio::lemma_abs_mul(self.z as int, other.x as int, VEC_OP_MAX as int, VEC_OP_MAX as int);
            crate::ratio::lemma_abs_mul(self.x as int, other.z as int, VEC_OP_MAX as int, VEC_OP_MAX as int);
            crate::ratio::lemma_abs_mul(self.x as int, other.y as int, VEC_OP_MAX as int, VEC_OP_MAX as int);
            crate::ratio::lemma_abs_mul(self.y as int, other.x as int, VEC_OP_MAX as int, VEC_OP_MAX as int);
        }
        Vec3 {
            x: self.y * other.z - self.z * other.y,
            y: self.z * other.x - self.x * other.z,
            z: self.x * other.y - self.y * other.x,
        }
    }
}

} // verus!
