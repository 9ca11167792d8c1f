//! A free-flying controller that moves an entity with the movement keys.
use vstd::prelude::*;
use crate::transform::{SpatialTransform, Vec3, spec_rotate, spec_vec_add};
use crate::world::{World, WorldEntityId, WorldError};

verus! {

/// Which movement keys are held in this frame.
#[derive(Clone, Copy, Debug, PartialEq, Eq, Structural)]
pub struct MovementKeys {
    pub forward: bool,
    pub back: bool,
    pub left: bool,
    pub right: bool,
    pub up: bool,
    pub down: bool,
}

/// Moves one entity, relative to its own rotation.
pub struct FreecamController {
    entity: WorldEntityId,
    enabled: bool,
}

/// `step` if `held`, else zero.
pub open spec fn held_step(held: bool, step: i64) -> i64 {
    if held {
        step
    } else {
        0
    }
}

/// The movement, before rotation, for the keys held: forward is +z, left is
/// +x, up is +y, each by `step`; opposite keys cancel.
pub open spec fn spec_movement(keys: MovementKeys, step: i64) -> Vec3 {
    Vec3 {
        x: held_step(keys.left, step).wrapping_sub(held_step(keys.right, step)),
        y: held_step(keys.up, step).wrapping_sub(held_step(keys.down, step)),
        z: held_step(keys.forward, step).wrapping_sub(held_step(keys.back, step)),
    }
}

/// `local` moved by `movement` turned by its own rotation.
pub open spec fn spec_moved(local: SpatialTransform, movement: Vec3) -> SpatialTransform {
    SpatialTransform {
        position: spec_vec_add(local.position, spec_rotate(local.rotation, movement)),
        ..local
    }
}

impl FreecamController {
    pub closed spec fn spec_entity(&self) -> WorldEntityId {
        self.entity
    }

    pub closed spec fn spec_enabled(&self) -> bool {
        self.enabled
    }

    /// An enabled controller for `entity`.
    pub fn new(entity: WorldEntityId) -> (r: FreecamController)
        ensures
            r.spec_entity() == entity,
            r.spec_enabled(),
    {
        FreecamController { entity, enabled: true }
    }

    /// The controlled entity.
    pub fn entity(&self) -> (r: WorldEntityId)
        ensures
            r == self.spec_entity(),
    {
        self.entity
    }

    /// Whether the controller moves its entity.
    pub fn enabled(&self) -> (r: bool)
        ensures
            r == self.spec_enabled(),
    {
        self.enabled
    }

    /// Turns the controller on or off.
    pub fn set_enabled(&mut self, enabled: bool)
        ensures
            final(self).spec_enabled() == enabled,
            final(self).spec_entity() == old(self).spec_entity(),
    {
        self.enabled = enabled;
    }

    /// The movement, before rotation, for the keys held.
    pub fn movement(keys: MovementKeys, step: i64) -> (r: Vec3)
        ensures
            r == spec_movement(keys, step),
    {
        let forward: i64 = if keys.forward { step } else { 0 };
        let back: i64 = if keys.back { step } else { 0 };
        let left: i64 = if keys.left { step } else { 0 };
        let right: i64 = if keys.right { step } else { 0 };
        let up: i64 = if keys.up { step } else { 0 };
        let down: i64 = if keys.down { step } else { 0 };
        Vec3 { x: left.wrapping_sub(right), y: up.wrapping_sub(down), z: forward.wrapping_sub(back) }
    }

    /// Moves the entity by the keys held, `step` units per key along its own
    /// axes. A disabled controller does nothing; an entity that is not in
    /// `world` is an error.
    pub fn update(&self, world: &mut World, keys: MovementKeys, step: i64) -> (r: Result<(), WorldError>)
        requires
            old(world).wf(),
        ensures
            final(world).wf(),
            !self.spec_enabled() ==> r is Ok && *final(world) == *old(world),
            self.spec_enabled() && !old(world).contains(self.spec_entity()) ==> r == Err::<(), WorldError>(
                WorldError::EntityNotFound(self.spec_entity()),
            ) && *final(world) == *old(world),
            self.spec_enabled() && old(world).contains(self.spec_entity()) ==> {
                &&& r is Ok
                &&& final(world).view_of(self.spec_entity()).spec_local_transform() == spec_moved(
                    old(world).view_of(self.spec_entity()).spec_local_transform(),
                    spec_movement(keys, step),
                )
                &&& !final(world).view_of(self.spec_entity()).spec_clean()
                &&& final(world).same_shape_except_local(old(world), self.spec_entity())
                &&& forall|o: WorldEntityId| #[trigger]
                    final(world).contains(o) && o != self.spec_entity() ==> final(world).view_of(o)
                        == old(world).view_of(o)
            },
    {
        if !self.enabled {
            return Ok(());
        }
        let local = match world.entity(self.entity) {
            Some(e) => e.local_transform(),
            None => {
                return Err(WorldError::EntityNotFound(self.entity));
            },
        };
        let movement = FreecamController::movement(keys, step);
        let moved = SpatialTransform {
            position: local.position.add(&local.rotation.rotate(&movement)),
            ..local
        };
        world.update_local_transform(self.entity, moved)
    }
}

} // verus!
