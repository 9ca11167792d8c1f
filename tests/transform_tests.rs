use scenegraph_core::transform::{Quat, SpatialTransform, Vec3};

fn sample() -> SpatialTransform {
    SpatialTransform {
        scale: Vec3::new(2, 3, 4),
        position: Vec3::new(-7, 11, 5),
        rotation: Quat::new(0, 0, 0, 1),
    }
}

#[test]
fn identity_is_left_unit_of_combine() {
    let t = sample();
    assert_eq!(SpatialTransform::identity().combine(&t), t);
}

#[test]
fn identity_is_right_unit_of_combine() {
    let t = sample();
    assert_eq!(t.combine(&SpatialTransform::identity()), t);
}

#[test]
fn identity_has_unit_rotation() {
    let id = SpatialTransform::identity();
    assert_eq!(id.scale, Vec3::new(1, 1, 1));
    assert_eq!(id.position, Vec3::new(0, 0, 0));
    assert_eq!(id.rotation, Quat::new(1, 0, 0, 0));
}

#[test]
fn combine_scales_then_translates() {
    let parent = SpatialTransform {
        scale: Vec3::new(2, 2, 2),
        position: Vec3::new(1, 0, 0),
        rotation: Quat::new(1, 0, 0, 0),
    };
    let child = SpatialTransform {
        scale: Vec3::new(3, 1, 1),
        position: Vec3::new(1, 1, 1),
        rotation: Quat::new(1, 0, 0, 0),
    };
    let r = parent.combine(&child);
    assert_eq!(r.position, Vec3::new(3, 2, 2));
    assert_eq!(r.scale, Vec3::new(6, 2, 2));
    assert_eq!(r.rotation, Quat::new(1, 0, 0, 0));
}

#[test]
fn combine_rotates_child_position() {
    // a half turn about z
    let parent = SpatialTransform {
        scale: Vec3::new(1, 1, 1),
        position: Vec3::new(0, 0, 0),
        rotation: Quat::new(0, 0, 0, 1),
    };
    let child = SpatialTransform {
        scale: Vec3::new(1, 1, 1),
        position: Vec3::new(1, 2, 3),
        rotation: Quat::new(0, 0, 0, 1),
    };
    let r = parent.combine(&child);
    assert_eq!(r.position, Vec3::new(-1, -2, 3));
    // two half turns: the product is -1, the same rotation
    assert_eq!(r.rotation, Quat::new(-1, 0, 0, 0));
}

#[test]
fn quaternion_product_is_hamilton() {
    let i = Quat::new(0, 1, 0, 0);
    let j = Quat::new(0, 0, 1, 0);
    assert_eq!(i.mul(&j), Quat::new(0, 0, 0, 1));
    assert_eq!(j.mul(&i), Quat::new(0, 0, 0, -1));
}

#[test]
fn forward_and_up_of_identity() {
    let id = SpatialTransform::identity();
    assert_eq!(id.forward(), Vec3::new(0, 0, 1));
    assert_eq!(id.up(), Vec3::new(0, 1, 0));
}

#[test]
fn forward_of_half_turn_about_x() {
    let t = SpatialTransform {
        scale: Vec3::new(1, 1, 1),
        position: Vec3::new(0, 0, 0),
        rotation: Quat::new(0, 1, 0, 0),
    };
    assert_eq!(t.forward(), Vec3::new(0, 0, -1));
    assert_eq!(t.up(), Vec3::new(0, -1, 0));
}

#[test]
fn vector_operations() {
    let a = Vec3::new(1, 2, 3);
    let b = Vec3::new(4, 5, 6);
    assert_eq!(a.add(&b), Vec3::new(5, 7, 9));
    assert_eq!(a.mul_element_wise(&b), Vec3::new(4, 10, 18));
    assert_eq!(a.scaled(-2), Vec3::new(-2, -4, -6));
    assert_eq!(a.cross(&b), Vec3::new(-3, 6, -3));
}

#[test]
fn arithmetic_wraps_instead_of_panicking() {
    let a = Vec3::new(i64::MAX, 0, 0);
    assert_eq!(a.add(&Vec3::new(1, 0, 0)), Vec3::new(i64::MIN, 0, 0));
}
