//! Triangles with cached attributes.

use crate::aabb::AxisAlignedBoundingBox;
use crate::vector::{sv_in_range, Vec3, COORD_MAX};
use vstd::prelude::*;

verus! {

/// A texture coordinate on the fixed-point grid.
#[derive(Clone, Copy, Debug)]
pub struct UVCoord {
    pub u: i64,
    pub v: i64,
}

/// An immutable triangle: three corners, their texture coordinates and
/// vertex normals, and a cached bounding box.
#[derive(Clone, Copy, Debug)]
pub struct Face {
    pub p0: Vec3,
    pub p1: Vec3,
    pub p2: Vec3,
    pub uv0: UVCoord,
    pub uv1: UVCoord,
    pub uv2: UVCoord,
    pub n0: Vec3,
    pub n1: Vec3,
    pub n2: Vec3,
    pub bounds: AxisAlignedBoundingBox,
}

pub open spec fn min3(a: int, b: int, c: int) -> int {
    if a <= b && a <= c {
        a
    } else if b <= c {
        b
    } else {
        c
    }
}

pub open spec fn max3(a: int, b: int, c: int) -> int {
    if a >= b && a >= c {
        a
    } else if b >= c {
        b
    } else {
        c
    }
}

/// Corners on the grid and the cached box exactly the componentwise
/// extent of the corners.
pub open spec fn face_ok(f: Face) -> bool {
    &&& sv_in_range(f.p0@, COORD_MAX as int)
    &&& sv_in_range(f.p1@, COORD_MAX as int)
    &&& sv_in_range(f.p2@, COORD_MAX as int)
    &&& f.bounds.minimum.x as int == min3(f.p0.x as int, f.p1.x as int, f.p2.x as int)
    &&& f.bounds.minimum.y as int == min3(f.p0.y as int, f.p1.y as int, f.p2.y as int)
    &&& f.bounds.minimum.z as int == min3(f.p0.z as int, f.p1.z as int, f.p2.z as int)
    &&& f.bounds.maximum.x as int == max3(f.p0.x as int, f.p1.x as int, f.p2.x as int)
    &&& f.bounds.maximum.y as int == max3(f.p0.y as int, f.p1.y as int, f.p2.y as int)
    &&& f.bounds.maximum.z as int == max3(f.p0.z as int, f.p1.z as int, f.p2.z as int)
}

fn min3_exec(a: i64, b: i64, c: i64) -> (r: i64)
    ensures
        r as int == min3(a as int, b as int, c as int),
{
    if a <= b && a <= c {
        a
    } else if b <= c {
        b
    } else {
        c
    }
}

fn max3_exec(a: i64, b: i64, c: i64) -> (r: i64)
    ensures
        r as int == max3(a as int, b as int, c as int),
{
    if a >= b && a >= c {
        a
    } else if b >= c {
        b
    } else {
        c
    }
}

impl Face {
    /// Builds a triangle and caches its exact bounding box.
    pub fn new(
        p0: Vec3,
        p1: Vec3,
        p2: Vec3,
        uv0: UVCoord,
        uv1: UVCoord,
        uv2: UVCoord,
        n0: Vec3,
        n1: Vec3,
        n2: Vec3,
    ) -> (f: Face)
        requires
            sv_in_range(p0@, COORD_MAX as int),
            sv_in_range(p1@, COORD_MAX as int),
            sv_in_range(p2@, COORD_MAX as int),
        ensures
            face_ok(f),
            f.p0 == p0 && f.p1 == p1 && f.p2 == p2,
            f.uv0 == uv0 && f.uv1 == uv1 && f.uv2 == uv2,
            f.n0 == n0 && f.n1 == n1 && f.n2 == n2,
    {
        let minimum = Vec3::new(
            min3_exec(p0.x, p1.x, p2.x),
            min3_exec(p0.y, p1.y, p2.y),
            min3_exec(p0.z, p1.z, p2.z),
        );
        let maximum = Vec3::new(
            max3_exec(p0.x, p1.x, p2.x),
            max3_exec(p0.y, p1.y, p2.y),
            max3_exec(p0.z, p1.z, p2.z),
        );
        let bounds = AxisAlignedBoundingBox::new(minimum, maximum);
        Face { p0, p1, p2, uv0, uv1, uv2, n0, n1, n2, bounds }
    }
}

} // verus!
