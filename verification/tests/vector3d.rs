use std::ops::IndexMut;
use toyrender::vector3d::{Vec3i, Vector3D};

#[test]
fn components_are_read_back() {
    let v = Vec3i::new(1, -2, 3);
    assert_eq!(v.x(), 1);
    assert_eq!(v.y(), -2);
    assert_eq!(v.z(), 3);
    assert_eq!(v, Vector3D { x: 1, y: -2, z: 3 });
    assert_eq!(Vec3i::zero(), Vec3i::new(0, 0, 0));
    assert_eq!(Vec3i::default(), Vec3i::zero());
}

#[test]
fn sum_and_difference_are_componentwise() {
    let a = Vec3i::new(1, 2, 3);
    let b = Vec3i::new(10, -20, 30);
    assert_eq!(a + b, Vec3i::new(11, -18, 33));
    assert_eq!(a - b, Vec3i::new(-9, 22, -27));
}

#[test]
fn dot_cross_and_scale() {
    let a = Vec3i::new(1, 2, 3);
    let b = Vec3i::new(4, 5, 6);
    assert_eq!(a * b, 32);
    assert_eq!(a ^ b, Vec3i::new(-3, 6, -3));
    assert_eq!(Vec3i::new(1, 0, 0) ^ Vec3i::new(0, 1, 0), Vec3i::new(0, 0, 1));
    assert_eq!(a * 3, Vec3i::new(3, 6, 9));
}

#[test]
fn components_by_index() {
    let mut v = Vec3i::new(7, 8, 9);
    assert_eq!(v[0], 7);
    assert_eq!(v[1], 8);
    assert_eq!(v[2], 9);
    v[1] = -1;
    *v.index_mut(2) = 5;
    assert_eq!(v, Vec3i::new(7, -1, 5));
}

#[test]
fn vectors_over_other_numbers() {
    let a: Vector3D<i64> = Vector3D::new(1 << 40, 2, 3);
    let b: Vector3D<i64> = Vector3D::new(1, 1, 1);
    assert_eq!((a + b).x(), (1 << 40) + 1);
    let c: Vector3D<u8> = Vector3D::new(200, 2, 3);
    assert_eq!(c * 1u8, c);
}

#[test]
fn a_vector_of_fractions_scaled_to_length_one() {
    let v: Vector3D<f32> = Vector3D::new(2.0, 2.0, 0.0);
    let length = (v * v).sqrt();
    let unit = v * (1.0 / length);
    assert!(((unit * unit).sqrt() - 1.0).abs() < 1e-3);
    assert!((unit.x - unit.y).abs() < 1e-6);
    assert!(unit.x > 0.0);
    assert_eq!(unit.z, 0.0);
    assert_eq!(unit ^ v, Vector3D::new(0.0, 0.0, 0.0));
}
