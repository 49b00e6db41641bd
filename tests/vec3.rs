use lbvh::vec3::{cross, max, min, reflect, same_hemisphere, Vec3};

fn v(x: i32, y: i32, z: i32) -> Vec3 {
    Vec3::new(x, y, z)
}

#[test]
fn cross_of_axes_and_general_vectors() {
    assert_eq!(cross(&v(1, 0, 0), &v(0, 1, 0)), v(0, 0, 1));
    assert_eq!(cross(&v(0, 1, 0), &v(1, 0, 0)), v(0, 0, -1));
    assert_eq!(cross(&v(2, 3, 4), &v(5, 6, 7)), v(-3, 6, -3));
}

#[test]
fn reflect_about_axis_normal() {
    assert_eq!(reflect(&v(1, -1, 0), &v(0, 1, 0)), v(1, 1, 0));
    assert_eq!(reflect(&v(3, 4, 5), &v(0, 0, 1)), v(3, 4, -5));
    // Not a unit normal: i - 2 (i . n) n = (1, 1, 0) - 2 * 2 * (1, 1, 0).
    assert_eq!(reflect(&v(1, 1, 0), &v(1, 1, 0)), v(-3, -3, 0));
}

#[test]
fn same_hemisphere_by_sign_of_dots() {
    let n = v(0, 0, 1);
    assert!(same_hemisphere(&v(1, 0, 2), &v(-3, 5, 1), &n));
    assert!(same_hemisphere(&v(1, 0, -2), &v(0, 0, -1), &n));
    assert!(!same_hemisphere(&v(1, 0, 2), &v(0, 0, -1), &n));
    assert!(!same_hemisphere(&v(1, 0, 0), &v(0, 0, 1), &n));
    let big = v(i32::MAX, i32::MAX, i32::MAX);
    assert!(same_hemisphere(&big, &big, &big));
}

#[test]
fn componentwise_min_max() {
    assert_eq!(min(&v(1, 5, -2), &v(3, 0, -2)), v(1, 0, -2));
    assert_eq!(max(&v(1, 5, -2), &v(3, 0, -2)), v(3, 5, -2));
}
