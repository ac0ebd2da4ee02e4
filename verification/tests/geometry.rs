use tracer::aabb::{surrounding_box, AxisAlignedBoundingBox};
use tracer::onb::OrthonormalBasis;
use tracer::ratio::Rat;
use tracer::ray::Ray;
use tracer::utils::{reflect, same_hemisphere};
use tracer::vector::Vec3;

fn v(x: i64, y: i64, z: i64) -> Vec3 {
    Vec3::new(x, y, z)
}

#[test]
fn rat_ordering_is_exact() {
    let a = Rat::new(1, 3);
    let b = Rat::new(2, 6);
    let c = Rat::new(1, 2);
    assert!(a.eq_value(&b));
    assert!(a.le(&b) && b.le(&a));
    assert!(a.lt(&c));
    assert!(!c.lt(&a));
    // Sign normalisation: -1 / -2 is one half.
    let d = Rat::new(-1, -2);
    assert!(d.eq_value(&c));
}

#[test]
fn surface_area_exact_value() {
    let b = AxisAlignedBoundingBox::new(v(0, 0, 0), v(2, 3, 4));
    // 2 * (2*3 + 2*4 + 3*4) = 52
    assert_eq!(b.surface_area(), 52);
}

#[test]
fn maximum_extent_tie_breaks_toward_x_then_y() {
    let b = AxisAlignedBoundingBox::new(v(0, 0, 0), v(5, 5, 5));
    assert_eq!(b.maximum_extent(), 2); // x not strictly larger, y not strictly larger than z
    let bx = AxisAlignedBoundingBox::new(v(0, 0, 0), v(6, 5, 5));
    assert_eq!(bx.maximum_extent(), 0);
    let by = AxisAlignedBoundingBox::new(v(0, 0, 0), v(5, 6, 5));
    assert_eq!(by.maximum_extent(), 1);
    let byz = AxisAlignedBoundingBox::new(v(0, 0, 0), v(5, 6, 6));
    assert_eq!(byz.maximum_extent(), 2);
}

#[test]
fn offset_is_the_fractional_position() {
    let b = AxisAlignedBoundingBox::new(v(0, 0, 0), v(4, 2, 0));
    let (ox, oy, oz) = b.offset(v(1, 1, 0));
    assert!(ox.eq_value(&Rat::new(1, 4)));
    assert!(oy.eq_value(&Rat::new(1, 2)));
    // Degenerate z axis: the raw offset over denominator one.
    assert!(oz.eq_value(&Rat::new(0, 1)));
}

#[test]
fn surrounding_box_unions_corners() {
    let a = AxisAlignedBoundingBox::new(v(0, 0, 0), v(2, 2, 2));
    let b = AxisAlignedBoundingBox::new(v(-1, 1, 0), v(1, 3, 5));
    let s = surrounding_box(&Some(a), &Some(b)).unwrap();
    assert_eq!((s.minimum.x, s.minimum.y, s.minimum.z), (-1, 0, 0));
    assert_eq!((s.maximum.x, s.maximum.y, s.maximum.z), (2, 3, 5));
    assert!(surrounding_box(&None, &Some(b)).is_none());
    assert!(surrounding_box(&Some(a), &None).is_none());
}

#[test]
fn slab_test_finds_the_interval() {
    let b = AxisAlignedBoundingBox::new(v(0, 0, 0), v(10, 10, 10));
    let ray = Ray::new(v(-5, 5, 5), v(1, 0, 0));
    let (hit, lo, hi) = b.hit(&ray, &Rat::new(0, 1), &Rat::new(1000, 1));
    assert!(hit);
    assert!(lo.eq_value(&Rat::new(5, 1)));
    assert!(hi.eq_value(&Rat::new(15, 1)));
}

#[test]
fn slab_test_zero_direction_component_misses_outside_box() {
    // A ray whose x direction is exactly zero, against a box whose
    // x extent does not contain the origin's x: a clean miss.
    let b = AxisAlignedBoundingBox::new(v(10, 0, 0), v(20, 10, 10));
    let ray = Ray::new(v(0, 5, 5), v(0, 0, 1));
    let (hit, _, _) = b.hit(&ray, &Rat::new(0, 1), &Rat::new(1000, 1));
    assert!(!hit);
}

#[test]
fn slab_test_zero_direction_component_inside_box_is_unlimited() {
    let b = AxisAlignedBoundingBox::new(v(0, 0, 0), v(10, 10, 10));
    let ray = Ray::new(v(5, 5, -7), v(0, 0, 1));
    let (hit, lo, hi) = b.hit(&ray, &Rat::new(0, 1), &Rat::new(1000, 1));
    assert!(hit);
    assert!(lo.eq_value(&Rat::new(7, 1)));
    assert!(hi.eq_value(&Rat::new(17, 1)));
}

#[test]
fn reflect_mirrors_across_an_axis_plane() {
    // Against the unit z normal the z component flips.
    let r = reflect(&v(3, -2, 5), &v(0, 0, 1));
    assert_eq!((r.x, r.y, r.z), (3, -2, -5));
}

#[test]
fn same_hemisphere_by_sign_of_z() {
    assert!(same_hemisphere(&v(1, 2, 3), &v(-4, 5, 6)));
    assert!(!same_hemisphere(&v(1, 2, 3), &v(1, 2, -3)));
    assert!(!same_hemisphere(&v(1, 2, 0), &v(1, 2, 3)));
}

#[test]
fn basis_axes_are_orthogonal() {
    for n in [v(1, 2, 3), v(7, 0, 0), v(0, -4, 1), v(-3, 5, -8)] {
        let b = OrthonormalBasis::build_from_w(&n);
        let u = b.u();
        let vv = b.v();
        let w = b.w();
        assert_eq!(u.dot(&vv), 0);
        assert_eq!(u.dot(&w), 0);
        assert_eq!(vv.dot(&w), 0);
        assert_eq!((w.x, w.y, w.z), (n.x, n.y, n.z));
    }
}

#[test]
fn local_vec_combines_the_axes() {
    let b = OrthonormalBasis::build_from_w(&v(0, 0, 2));
    let r = b.local_vec(&v(1, 1, 1));
    let expect = (
        b.u().x + b.v().x + b.w().x,
        b.u().y + b.v().y + b.w().y,
        b.u().z + b.v().z + b.w().z,
    );
    assert_eq!((r.x, r.y, r.z), expect);
}
