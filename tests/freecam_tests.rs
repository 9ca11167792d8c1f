use scenegraph_core::freecam::{FreecamController, MovementKeys};
use scenegraph_core::transform::{Quat, SpatialTransform, Vec3};
use scenegraph_core::world::{World, WorldError};

fn keys() -> MovementKeys {
    MovementKeys { forward: false, back: false, left: false, right: false, up: false, down: false }
}

#[test]
fn new_controller_is_enabled() {
    let world = World::new();
    let c = FreecamController::new(world.root());
    assert!(c.enabled());
    assert_eq!(c.entity(), world.root());
}

#[test]
fn movement_follows_held_keys() {
    let mut k = keys();
    k.forward = true;
    k.left = true;
    k.down = true;
    assert_eq!(FreecamController::movement(k, 5), Vec3::new(5, -5, 5));
    k.back = true;
    assert_eq!(FreecamController::movement(k, 5), Vec3::new(5, -5, 0));
}

#[test]
fn update_moves_along_the_entity_axes() {
    let mut world = World::new();
    let local = SpatialTransform {
        scale: Vec3::new(1, 1, 1),
        position: Vec3::new(1, 1, 1),
        rotation: Quat::new(0, 0, 1, 0),
    };
    let e = world.add_entity(None, vec![], local).unwrap();
    world.propagate();
    let c = FreecamController::new(e);
    let mut k = keys();
    k.forward = true;
    c.update(&mut world, k, 2).unwrap();
    // a half turn about y sends forward (+z) to -z
    assert_eq!(world.entity(e).unwrap().local_transform().position, Vec3::new(1, 1, -1));
    assert!(!world.entity(e).unwrap().already_propagated());
}

#[test]
fn disabled_controller_does_nothing() {
    let mut world = World::new();
    let e = world.add_entity(None, vec![], SpatialTransform::identity()).unwrap();
    let mut c = FreecamController::new(e);
    c.set_enabled(false);
    let mut k = keys();
    k.up = true;
    c.update(&mut world, k, 3).unwrap();
    assert_eq!(world.entity(e).unwrap().local_transform(), SpatialTransform::identity());
}

#[test]
fn missing_entity_is_an_error() {
    let mut other = World::new();
    let mut last = other.root();
    for _ in 0..3 {
        last = other.add_entity(None, vec![], SpatialTransform::identity()).unwrap();
    }
    let mut world = World::new();
    let c = FreecamController::new(last);
    assert_eq!(c.update(&mut world, keys(), 1), Err(WorldError::EntityNotFound(last)));
}
