use lbvh::bounding_box::BoundingBox;
use lbvh::ray::Ray;
use lbvh::vec3::{Transform, Vec3};

fn v(x: i32, y: i32, z: i32) -> Vec3 {
    Vec3::new(x, y, z)
}

#[test]
fn test_abs() {
    let bb = BoundingBox::new(v(-10, -10, -10), v(10, 10, 10));
    let relative = bb.relative_position(&v(5, 5, 5));
    assert_eq!(relative[0], 768);
    let relative = bb.relative_position(&v(-5, -5, -5));
    assert_eq!(relative[0], 256);
}

#[test]
fn new_orders_corners_and_pads_flat_axes() {
    let bb = BoundingBox::new(v(3, 5, 7), v(1, 5, 9));
    assert_eq!(bb.min, v(1, 5, 7));
    assert_eq!(bb.max, v(3, 6, 9));
    let top = BoundingBox::new(v(0, i32::MAX, 0), v(1, i32::MAX, 1));
    assert_eq!(top.min, v(0, i32::MAX - 1, 0));
    assert_eq!(top.max, v(1, i32::MAX, 1));
}

#[test]
fn dimensions_and_center() {
    let bb = BoundingBox::new(v(-3, 0, 2), v(4, 9, 3));
    assert_eq!(bb.dimensions(), [7, 9, 1]);
    assert_eq!(bb.center(), v(0, 4, 2));
    let wide = BoundingBox::new(v(i32::MIN, 0, 0), v(i32::MAX, 1, 1));
    assert_eq!(wide.dimensions()[0], u32::MAX);
}

#[test]
fn to_origin_and_offset() {
    let bb = BoundingBox::new(v(2, 3, 4), v(5, 7, 9));
    let o = bb.to_origin();
    assert_eq!(o.min, v(0, 0, 0));
    assert_eq!(o.max, v(3, 4, 5));
    let moved = bb.with_offset(&v(-2, 1, 0));
    assert_eq!(moved.min, v(0, 4, 4));
    assert_eq!(moved.max, v(3, 8, 9));
    assert_eq!(*moved.min(), v(0, 4, 4));
    assert_eq!(*moved.max(), v(3, 8, 9));
}

#[test]
fn relative_position_clamps_to_grid() {
    let bb = BoundingBox::new(v(0, 0, 0), v(4, 4, 4));
    assert_eq!(bb.relative_position(&v(-1, 1, 4)), [0, 256, 1023]);
    assert_eq!(bb.relative_position(&v(2, 3, 100)), [512, 768, 1023]);
}

#[test]
fn transformed_scales_and_offsets() {
    let bb = BoundingBox::new(v(1, 2, 3), v(2, 4, 6));
    let t = Transform { scale: v(2, -1, 1), offset: v(10, 0, -3) };
    let w = bb.transformed(&t);
    assert_eq!(w.min, v(12, -4, 0));
    assert_eq!(w.max, v(14, -2, 3));
    let same = bb.transformed(&Transform::new());
    assert_eq!(same, bb);
}

#[test]
fn surrounding_box_is_union() {
    let a = BoundingBox::new(v(0, 0, 0), v(1, 1, 1));
    let b = BoundingBox::new(v(-2, 3, 0), v(0, 4, 5));
    let u = BoundingBox::surrounding_box(&a, &b);
    assert_eq!(u.min, v(-2, 0, 0));
    assert_eq!(u.max, v(1, 4, 5));
}

#[test]
fn slab_test_hits_and_misses() {
    let bb = BoundingBox::new(v(0, 0, 0), v(2, 2, 2));
    let along_x = Ray::new(&v(-5, 1, 1), &v(1, 0, 0));
    assert!(bb.hit(&along_x, 0, 100));
    // The box is entered at t = 5 and left at t = 7.
    assert!(!bb.hit(&along_x, 0, 5));
    assert!(bb.hit(&along_x, 0, 6));
    assert!(!bb.hit(&along_x, 7, 100));
    // Parallel to x but outside the y slab.
    let outside = Ray::new(&v(-5, 3, 1), &v(1, 0, 0));
    assert!(!bb.hit(&outside, 0, 100));
    // Parallel on the boundary of the slab counts as inside.
    let boundary = Ray::new(&v(-5, 2, 1), &v(1, 0, 0));
    assert!(bb.hit(&boundary, 0, 100));
    // Pointing away.
    let away = Ray::new(&v(-5, 1, 1), &v(-1, 0, 0));
    assert!(!bb.hit(&away, 0, 100));
    // Negative direction from the far side.
    let back = Ray::new(&v(9, 1, 1), &v(-1, 0, 0));
    assert!(bb.hit(&back, 0, 100));
    // Diagonal through a corner region: entered on x at t = 1/2, left on y at t = 1/3.
    let diag = Ray::new(&v(-1, 1, 1), &v(2, 3, 0));
    assert!(!bb.hit(&diag, 0, 100));
    let diag2 = Ray::new(&v(-1, 0, 1), &v(2, 1, 0));
    assert!(bb.hit(&diag2, 0, 100));
}

#[test]
fn ray_accessors() {
    let r = Ray::new(&v(1, 2, 3), &v(0, -1, 0));
    assert_eq!(*r.origin(), v(1, 2, 3));
    assert_eq!(*r.direction(), v(0, -1, 0));
}
