use scenegraph_core::transform::{Quat, SpatialTransform, Vec3};
use scenegraph_core::world::{World, WorldEntityId, WorldError};

fn at(x: i64, y: i64, z: i64) -> SpatialTransform {
    SpatialTransform {
        scale: Vec3::new(1, 1, 1),
        position: Vec3::new(x, y, z),
        rotation: Quat::new(1, 0, 0, 0),
    }
}

fn position(world: &World, id: WorldEntityId) -> Vec3 {
    world.entity(id).unwrap().transform().position
}

#[test]
fn child_of_root_takes_its_local_position() {
    let mut world = World::new();
    let c = world.add_entity(None, vec![], at(1, 0, 0)).unwrap();
    world.propagate();
    assert_eq!(position(&world, c), Vec3::new(1, 0, 0));
}

#[test]
fn grandchild_accumulates_positions() {
    let mut world = World::new();
    let r = world.add_entity(None, vec![], at(0, 5, 0)).unwrap();
    let c = world.add_entity(Some(r), vec![], at(1, 0, 0)).unwrap();
    let g = world.add_entity(Some(c), vec![], SpatialTransform::identity()).unwrap();
    world.propagate();
    assert_eq!(position(&world, g), Vec3::new(1, 5, 0));
    assert_eq!(position(&world, c), Vec3::new(1, 5, 0));
    assert_eq!(position(&world, r), Vec3::new(0, 5, 0));
}

fn sample_world() -> (World, Vec<WorldEntityId>) {
    let mut world = World::new();
    let scaled = SpatialTransform {
        scale: Vec3::new(2, 2, 2),
        position: Vec3::new(3, 0, 0),
        rotation: Quat::new(0, 0, 1, 0),
    };
    let a = world.add_entity(None, vec![], scaled).unwrap();
    let b = world.add_entity(Some(a), vec![], at(1, 2, 3)).unwrap();
    let c = world.add_entity(Some(b), vec![], at(0, 0, 1)).unwrap();
    let d = world.add_entity(Some(a), vec![], at(-4, 0, 0)).unwrap();
    let e = world.add_entity(None, vec![], at(9, 9, 9)).unwrap();
    (world, vec![a, b, c, d, e])
}

#[test]
fn propagation_resolves_every_entity_from_its_parent() {
    let (mut world, ids) = sample_world();
    world.update_local_transform(ids[0], at(5, 5, 5)).unwrap();
    world.propagate();
    for id in ids {
        let e = world.entity(id).unwrap();
        let p = world.entity(e.parent().unwrap()).unwrap();
        assert_eq!(e.transform(), p.transform().combine(&e.local_transform()));
        assert!(e.already_propagated());
    }
}

#[test]
fn second_propagation_changes_nothing() {
    let (mut world, ids) = sample_world();
    world.propagate();
    let first: Vec<SpatialTransform> = ids.iter().map(|id| world.entity(*id).unwrap().transform()).collect();
    world.propagate();
    for (k, id) in ids.iter().enumerate() {
        let e = world.entity(*id).unwrap();
        assert_eq!(e.transform(), first[k]);
        assert!(e.already_propagated());
    }
}

#[test]
fn local_edit_marks_dirty_and_is_propagated() {
    let mut world = World::new();
    let a = world.add_entity(None, vec![], at(1, 0, 0)).unwrap();
    let b = world.add_entity(Some(a), vec![], at(0, 1, 0)).unwrap();
    world.propagate();
    world.update_local_transform(a, at(10, 0, 0)).unwrap();
    assert!(!world.entity(a).unwrap().already_propagated());
    world.propagate();
    assert_eq!(position(&world, b), Vec3::new(10, 1, 0));
}

#[test]
fn root_parent_transform_moves_everything() {
    let mut world = World::new();
    let a = world.add_entity(None, vec![], at(1, 0, 0)).unwrap();
    let root = world.root();
    world.update_parent_transform(root, at(0, 0, 7)).unwrap();
    world.propagate();
    assert_eq!(position(&world, a), Vec3::new(1, 0, 7));
}

#[test]
fn parent_transform_edit_is_overwritten_by_propagation() {
    let mut world = World::new();
    let a = world.add_entity(None, vec![], at(1, 0, 0)).unwrap();
    let b = world.add_entity(Some(a), vec![], at(0, 1, 0)).unwrap();
    world.propagate();
    world.update_parent_transform(b, at(100, 100, 100)).unwrap();
    assert!(!world.entity(a).unwrap().already_propagated());
    world.propagate();
    assert_eq!(position(&world, b), Vec3::new(1, 1, 0));
}

#[test]
fn new_entity_is_dirty_and_linked_to_its_parent() {
    let mut world = World::new();
    let a = world.add_entity(None, vec![], at(1, 0, 0)).unwrap();
    let root = world.root();
    let e = world.entity(a).unwrap();
    assert!(!e.already_propagated());
    assert_eq!(*e.parent(), Some(root));
    assert!(e.children().is_empty());
    assert_eq!(world.entity(root).unwrap().children(), &vec![a]);
    assert_eq!(*world.entity(root).unwrap().parent(), None);
}

#[test]
fn unknown_parent_is_refused() {
    let mut other = World::new();
    let mut last = other.root();
    for _ in 0..3 {
        last = other.add_entity(None, vec![], at(0, 0, 0)).unwrap();
    }
    let mut world = World::new();
    assert_eq!(world.add_entity(Some(last), vec![], at(0, 0, 0)), Err(WorldError::ParentNotFound(last)));
    assert!(world.entity(last).is_none());
}

#[test]
fn children_move_below_the_new_entity() {
    let mut world = World::new();
    let a = world.add_entity(None, vec![], at(1, 0, 0)).unwrap();
    let b = world.add_entity(Some(a), vec![], at(0, 1, 0)).unwrap();
    let other = world.add_entity(None, vec![], at(0, 0, 1)).unwrap();
    let n = world.add_entity(Some(other), vec![a], at(10, 0, 0)).unwrap();
    let root = world.root();
    assert_eq!(*world.entity(a).unwrap().parent(), Some(n));
    assert_eq!(world.entity(n).unwrap().children(), &vec![a]);
    assert!(!world.entity(root).unwrap().children().contains(&a));
    assert_eq!(*world.entity(b).unwrap().parent(), Some(a));
    world.propagate();
    // other (0,0,1) + n (10,0,0) + a (1,0,0) + b (0,1,0)
    assert_eq!(position(&world, b), Vec3::new(11, 1, 1));
    assert_eq!(position(&world, a), Vec3::new(11, 0, 1));
}

#[test]
fn moving_an_ancestor_below_its_descendant_is_refused() {
    let mut world = World::new();
    let a = world.add_entity(None, vec![], at(0, 0, 0)).unwrap();
    let b = world.add_entity(Some(a), vec![], at(0, 0, 0)).unwrap();
    assert_eq!(world.add_entity(Some(a), vec![a], at(0, 0, 0)), Err(WorldError::WouldCreateCycle(a)));
    assert_eq!(world.add_entity(Some(b), vec![a], at(0, 0, 0)), Err(WorldError::WouldCreateCycle(a)));
    let root = world.root();
    assert_eq!(world.add_entity(None, vec![root], at(0, 0, 0)), Err(WorldError::WouldCreateCycle(root)));
    assert_eq!(world.entity(root).unwrap().children(), &vec![a]);
}

#[test]
fn unknown_child_is_refused() {
    let mut other = World::new();
    let mut last = other.root();
    for _ in 0..3 {
        last = other.add_entity(None, vec![], at(0, 0, 0)).unwrap();
    }
    let mut world = World::new();
    let a = world.add_entity(None, vec![], at(0, 0, 0)).unwrap();
    assert_eq!(world.add_entity(None, vec![a, last], at(0, 0, 0)), Err(WorldError::ChildNotFound(last)));
    assert_eq!(*world.entity(a).unwrap().parent(), Some(world.root()));
}

#[test]
fn editing_an_unknown_entity_is_refused() {
    let mut other = World::new();
    let mut last = other.root();
    for _ in 0..2 {
        last = other.add_entity(None, vec![], at(0, 0, 0)).unwrap();
    }
    let mut world = World::new();
    assert_eq!(world.update_local_transform(last, at(1, 1, 1)), Err(WorldError::EntityNotFound(last)));
    assert_eq!(world.update_parent_transform(last, at(1, 1, 1)), Err(WorldError::EntityNotFound(last)));
}

#[test]
fn clean_subtree_is_untouched_by_propagation() {
    let (mut world, ids) = sample_world();
    world.propagate();
    let before = world.entity(ids[4]).unwrap().transform();
    world.update_local_transform(ids[1], at(7, 7, 7)).unwrap();
    world.propagate();
    let e = world.entity(ids[4]).unwrap();
    assert_eq!(e.transform(), before);
    assert!(e.already_propagated());
    assert_eq!(position(&world, ids[2]), world.entity(ids[1]).unwrap().transform().combine(&at(0, 0, 1)).position);
}
