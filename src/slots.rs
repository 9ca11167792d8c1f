//! Generational slot storage, kept in `slotmap`'s `SlotMap` and `SecondaryMap`.
//!
//! Each store is a small struct around one map; what it holds is named by an
//! abstract spec function (the keys whose lookup succeeds, with their values),
//! and each method states its effect on that map as `slotmap` implements it.
//! No `SlotMap` here ever has a value removed, so its number of slots is
//! always one more than the number of values (one slot is a sentinel).
use vstd::prelude::*;
use slotmap::{DefaultKey, SecondaryMap, SlotMap};
use crate::assets::{Material, Mesh};
use crate::instance_buffer::InstanceBufferRange;
use crate::scene::{MeshInstance, MeshInstanceId};
use crate::world::WorldEntity;

verus! {

/// `slotmap`'s default key: a slot index and a version, opaque here.
#[verifier::external_type_specification]
#[verifier::external_body]
pub struct ExDefaultKey(slotmap::DefaultKey);

/// The value that `KeyData::as_ffi` gives for `k`: the key's version in the
/// high 32 bits and its slot index in the low 32 bits.
pub uninterp spec fn key_bits(k: DefaultKey) -> u64;

/// The slot index of `k`.
pub open spec fn slot_of(k: DefaultKey) -> u64 {
    key_bits(k) % 0x1_0000_0000
}

/// Whether `k` is the null key, whose slot index is `u32::MAX`.
pub open spec fn is_null_key(k: DefaultKey) -> bool {
    slot_of(k) == 0xffff_ffff
}

/// Relies on `DefaultKey`'s `PartialEq`, derived over its slot index and
/// version: two keys compare equal exactly when they are the same key.
#[verifier::external_body]
pub(crate) fn same_key(a: DefaultKey, b: DefaultKey) -> (r: bool)
    ensures
        r == (a == b),
{
    a == b
}

/// The entities of a world, by key.
#[verifier::external_body]
pub struct EntitySlots {
    map: SlotMap<DefaultKey, WorldEntity>,
}

/// The keys of an `EntitySlots` whose lookup succeeds, with their entities.
pub uninterp spec fn entity_slots(s: EntitySlots) -> Map<DefaultKey, WorldEntity>;

impl EntitySlots {
    /// Relies on `SlotMap::new`: a new map holds nothing.
    #[verifier::external_body]
    pub(crate) fn new() -> (r: EntitySlots)
        ensures
            entity_slots(r).dom() == Set::<DefaultKey>::empty(),
    {
        EntitySlots { map: SlotMap::new() }
    }

    /// Relies on `SlotMap::insert`: the key handed back was not in use and now
    /// maps to `value`; no other key changes. It panics once `u32::MAX` slots exist.
    #[verifier::external_body]
    pub(crate) fn insert(&mut self, value: WorldEntity) -> (k: DefaultKey)
        requires
            entity_slots(*old(self)).dom().finite(),
            entity_slots(*old(self)).len() + 1 < u32::MAX,
        ensures
            !entity_slots(*old(self)).contains_key(k),
            entity_slots(*final(self)) == entity_slots(*old(self)).insert(k, value),
    {
        self.map.insert(value)
    }

    /// Relies on `SlotMap::get`: the value under `k`, if `k` is in use.
    #[verifier::external_body]
    pub(crate) fn get(&self, k: DefaultKey) -> (r: Option<&WorldEntity>)
        ensures
            match r {
                Some(e) => entity_slots(*self).contains_key(k) && *e == entity_slots(*self)[k],
                None => !entity_slots(*self).contains_key(k),
            },
    {
        self.map.get(k)
    }

    /// Relies on `SlotMap`'s `Index`: the value under `k`, which must be in use.
    #[verifier::external_body]
    pub(crate) fn at(&self, k: DefaultKey) -> (r: &WorldEntity)
        requires
            entity_slots(*self).contains_key(k),
        ensures
            *r == entity_slots(*self)[k],
    {
        &self.map[k]
    }

    /// Relies on `SlotMap`'s `IndexMut`: replaces the value under `k`, which must be in use.
    #[verifier::external_body]
    pub(crate) fn set(&mut self, k: DefaultKey, value: WorldEntity)
        requires
            entity_slots(*old(self)).contains_key(k),
        ensures
            entity_slots(*final(self)) == entity_slots(*old(self)).insert(k, value),
    {
        self.map[k] = value;
    }
}

/// The mesh instances of a scene, by key.
#[verifier::external_body]
pub struct InstanceSlots {
    map: SlotMap<DefaultKey, MeshInstance>,
}

/// The keys of a `InstanceSlots` whose lookup succeeds, with their values.
pub uninterp spec fn instance_slots(s: InstanceSlots) -> Map<DefaultKey, MeshInstance>;

impl InstanceSlots {
    /// Relies on `SlotMap::new`: a new map holds nothing.
    #[verifier::external_body]
    pub(crate) fn new() -> (r: InstanceSlots)
        ensures
            instance_slots(r).dom() == Set::<DefaultKey>::empty(),
    {
        InstanceSlots { map: SlotMap::new() }
    }

    /// Relies on `SlotMap::insert`: the key handed back was not in use and now
    /// maps to `value`; no other key changes. It panics once `u32::MAX` slots exist.
    #[verifier::external_body]
    pub(crate) fn insert(&mut self, value: MeshInstance) -> (k: DefaultKey)
        requires
            instance_slots(*old(self)).dom().finite(),
            instance_slots(*old(self)).len() + 1 < u32::MAX,
        ensures
            !instance_slots(*old(self)).contains_key(k),
            instance_slots(*final(self)) == instance_slots(*old(self)).insert(k, value),
    {
        self.map.insert(value)
    }

    /// Relies on `SlotMap::get`: the value under `k`, if `k` is in use.
    #[verifier::external_body]
    pub(crate) fn get(&self, k: DefaultKey) -> (r: Option<&MeshInstance>)
        ensures
            match r {
                Some(v) => instance_slots(*self).contains_key(k) && *v == instance_slots(*self)[k],
                None => !instance_slots(*self).contains_key(k),
            },
    {
        self.map.get(k)
    }
}

/// The meshes of an asset store, by key.
#[verifier::external_body]
pub struct MeshSlots {
    map: SlotMap<DefaultKey, Mesh>,
}

/// The keys of a `MeshSlots` whose lookup succeeds, with their values.
pub uninterp spec fn mesh_slots(s: MeshSlots) -> Map<DefaultKey, Mesh>;

impl MeshSlots {
    /// Relies on `SlotMap::new`: a new map holds nothing.
    #[verifier::external_body]
    pub(crate) fn new() -> (r: MeshSlots)
        ensures
            mesh_slots(r).dom() == Set::<DefaultKey>::empty(),
    {
        MeshSlots { map: SlotMap::new() }
    }

    /// Relies on `SlotMap::insert`: the key handed back was not in use and now
    /// maps to `value`; no other key changes. It panics once `u32::MAX` slots exist.
    /// The new key takes a slot that holds no value, below `u32::MAX`.
    #[verifier::external_body]
    pub(crate) fn insert(&mut self, value: Mesh) -> (k: DefaultKey)
        requires
            mesh_slots(*old(self)).dom().finite(),
            mesh_slots(*old(self)).len() + 1 < u32::MAX,
        ensures
            !mesh_slots(*old(self)).contains_key(k),
            !(key_bits(k) % 0x1_0000_0000 == 0xffff_ffff),
            forall|j: DefaultKey| #[trigger] mesh_slots(*old(self)).contains_key(j) ==> key_bits(j) % 0x1_0000_0000 != key_bits(k) % 0x1_0000_0000,
            mesh_slots(*final(self)) == mesh_slots(*old(self)).insert(k, value),
    {
        self.map.insert(value)
    }

    /// Relies on `SlotMap::get`: the value under `k`, if `k` is in use.
    #[verifier::external_body]
    pub(crate) fn get(&self, k: DefaultKey) -> (r: Option<&Mesh>)
        ensures
            match r {
                Some(v) => mesh_slots(*self).contains_key(k) && *v == mesh_slots(*self)[k],
                None => !mesh_slots(*self).contains_key(k),
            },
    {
        self.map.get(k)
    }
}

/// The materials of an asset store, by key.
#[verifier::external_body]
pub struct MaterialSlots {
    map: SlotMap<DefaultKey, Material>,
}

/// The keys of a `MaterialSlots` whose lookup succeeds, with their values.
pub uninterp spec fn material_slots(s: MaterialSlots) -> Map<DefaultKey, Material>;

impl MaterialSlots {
    /// Relies on `SlotMap::new`: a new map holds nothing.
    #[verifier::external_body]
    pub(crate) fn new() -> (r: MaterialSlots)
        ensures
            material_slots(r).dom() == Set::<DefaultKey>::empty(),
    {
        MaterialSlots { map: SlotMap::new() }
    }

    /// Relies on `SlotMap::insert`: the key handed back was not in use and now
    /// maps to `value`; no other key changes. It panics once `u32::MAX` slots exist.
    #[verifier::external_body]
    pub(crate) fn insert(&mut self, value: Material) -> (k: DefaultKey)
        requires
            material_slots(*old(self)).dom().finite(),
            material_slots(*old(self)).len() + 1 < u32::MAX,
        ensures
            !material_slots(*old(self)).contains_key(k),
            material_slots(*final(self)) == material_slots(*old(self)).insert(k, value),
    {
        self.map.insert(value)
    }

    /// Relies on `SlotMap::get`: the value under `k`, if `k` is in use.
    #[verifier::external_body]
    pub(crate) fn get(&self, k: DefaultKey) -> (r: Option<&Material>)
        ensures
            match r {
                Some(v) => material_slots(*self).contains_key(k) && *v == material_slots(*self)[k],
                None => !material_slots(*self).contains_key(k),
            },
    {
        self.map.get(k)
    }
}

/// A registry of handles: which keys have been issued.
#[verifier::external_body]
pub struct HandleSlots {
    map: SlotMap<DefaultKey, ()>,
}

/// The keys issued by a `HandleSlots`.
pub uninterp spec fn handle_slots(s: HandleSlots) -> Set<DefaultKey>;

impl HandleSlots {
    /// Relies on `SlotMap::new`: a new map holds nothing.
    #[verifier::external_body]
    pub(crate) fn new() -> (r: HandleSlots)
        ensures
            handle_slots(r) == Set::<DefaultKey>::empty(),
    {
        HandleSlots { map: SlotMap::new() }
    }

    /// Relies on `SlotMap::insert`: the key handed back was not in use and now
    /// is. It panics once `u32::MAX` slots exist.
    #[verifier::external_body]
    pub(crate) fn insert(&mut self) -> (k: DefaultKey)
        requires
            handle_slots(*old(self)).finite(),
            handle_slots(*old(self)).len() + 1 < u32::MAX,
        ensures
            !handle_slots(*old(self)).contains(k),
            handle_slots(*final(self)) == handle_slots(*old(self)).insert(k),
    {
        self.map.insert(())
    }

    /// Relies on `SlotMap::contains_key`: whether `k` is in use.
    #[verifier::external_body]
    pub(crate) fn contains_key(&self, k: DefaultKey) -> (r: bool)
        ensures
            r == handle_slots(*self).contains(k),
    {
        self.map.contains_key(k)
    }
}

/// For each mesh key, the instances of a scene that show that mesh.
#[verifier::external_body]
pub struct InstanceLists {
    map: SecondaryMap<DefaultKey, Vec<MeshInstanceId>>,
}

/// The keys of an `InstanceLists` whose lookup succeeds, with their lists.
pub uninterp spec fn instance_lists(s: InstanceLists) -> Map<DefaultKey, Vec<MeshInstanceId>>;

impl InstanceLists {
    /// Relies on `SecondaryMap::new`: a new map holds nothing.
    #[verifier::external_body]
    pub(crate) fn new() -> (r: InstanceLists)
        ensures
            instance_lists(r).dom() == Set::<DefaultKey>::empty(),
    {
        InstanceLists { map: SecondaryMap::new() }
    }

    /// Relies on `SecondaryMap::get`: the value under `k`, if there is one.
    #[verifier::external_body]
    pub(crate) fn get(&self, k: DefaultKey) -> (r: Option<&Vec<MeshInstanceId>>)
        ensures
            match r {
                Some(v) => instance_lists(*self).contains_key(k) && *v == instance_lists(*self)[k],
                None => !instance_lists(*self).contains_key(k),
            },
    {
        self.map.get(k)
    }

    /// Relies on `SecondaryMap::insert`: a value already under `k` is replaced.
    /// Otherwise the value is stored unless `k` is null or the slot of `k`
    /// holds a newer key; a value under an older key of the same slot is then
    /// dropped. Values in other slots never change. (Every key that can be
    /// made has an odd version, so a stored value is found again under `k`.)
    #[verifier::external_body]
    pub(crate) fn insert(&mut self, k: DefaultKey, value: Vec<MeshInstanceId>)
        ensures
            instance_lists(*old(self)).contains_key(k) ==> instance_lists(*final(self))
                == instance_lists(*old(self)).insert(k, value),
            forall|j: DefaultKey| #[trigger]
                instance_lists(*final(self)).contains_key(j) ==> (j == k && instance_lists(
                    *final(self),
                )[j] == value) || (j != k && instance_lists(*old(self)).contains_key(j)
                    && instance_lists(*final(self))[j] == instance_lists(*old(self))[j]),
            !(key_bits(k) % 0x1_0000_0000 == 0xffff_ffff) && (forall|j: DefaultKey| #[trigger]
                instance_lists(*old(self)).contains_key(j) && j != k ==> key_bits(j) % 0x1_0000_0000 != key_bits(k) % 0x1_0000_0000)
                ==> instance_lists(*final(self)) == instance_lists(*old(self)).insert(k, value),
            forall|j: DefaultKey| #[trigger]
                instance_lists(*old(self)).contains_key(j) && key_bits(j) % 0x1_0000_0000 != key_bits(k) % 0x1_0000_0000 ==> instance_lists(
                    *final(self),
                ).contains_key(j),
            !instance_lists(*final(self)).contains_key(k) ==> instance_lists(*final(self)) == instance_lists(*old(self)),
    {
        self.map.insert(k, value);
    }

    /// Relies on `SecondaryMap::keys`: each key with a value, once; one value
    /// per slot, and never under the null key.
    #[verifier::external_body]
    pub(crate) fn keys(&self) -> (r: Vec<DefaultKey>)
        ensures
            r@.no_duplicates(),
            forall|j: DefaultKey| #[trigger] r@.contains(j) <==> instance_lists(*self).contains_key(j),
            forall|a: int, b: int| 0 <= a < b < r@.len() ==> key_bits(r@[a]) % 0x1_0000_0000 != key_bits(r@[b]) % 0x1_0000_0000,
            forall|a: int| 0 <= a < r@.len() ==> !(key_bits(#[trigger] r@[a]) % 0x1_0000_0000 == 0xffff_ffff),
    {
        self.map.keys().collect()
    }
}

/// For each mesh key, its range in an instance buffer.
#[verifier::external_body]
pub struct RangeSlots {
    map: SecondaryMap<DefaultKey, InstanceBufferRange>,
}

/// The keys of a `RangeSlots` whose lookup succeeds, with their ranges.
pub uninterp spec fn range_slots(s: RangeSlots) -> Map<DefaultKey, InstanceBufferRange>;

impl RangeSlots {
    /// Relies on `SecondaryMap::new`: a new map holds nothing.
    #[verifier::external_body]
    pub(crate) fn new() -> (r: RangeSlots)
        ensures
            range_slots(r).dom() == Set::<DefaultKey>::empty(),
    {
        RangeSlots { map: SecondaryMap::new() }
    }

    /// Relies on `SecondaryMap::get`: the value under `k`, if there is one.
    #[verifier::external_body]
    pub(crate) fn get(&self, k: DefaultKey) -> (r: Option<&InstanceBufferRange>)
        ensures
            match r {
                Some(v) => range_slots(*self).contains_key(k) && *v == range_slots(*self)[k],
                None => !range_slots(*self).contains_key(k),
            },
    {
        self.map.get(k)
    }

    /// Relies on `SecondaryMap::insert`: a value already under `k` is replaced.
    /// Otherwise the value is stored unless `k` is null or the slot of `k`
    /// holds a newer key; a value under an older key of the same slot is then
    /// dropped. Values in other slots never change. (Every key that can be
    /// made has an odd version, so a stored value is found again under `k`.)
    #[verifier::external_body]
    pub(crate) fn insert(&mut self, k: DefaultKey, value: InstanceBufferRange)
        ensures
            range_slots(*old(self)).contains_key(k) ==> range_slots(*final(self)) == range_slots(
                *old(self),
            ).insert(k, value),
            forall|j: DefaultKey| #[trigger]
                range_slots(*final(self)).contains_key(j) ==> (j == k && range_slots(
                    *final(self),
                )[j] == value) || (j != k && range_slots(*old(self)).contains_key(j)
                    && range_slots(*final(self))[j] == range_slots(*old(self))[j]),
            !(key_bits(k) % 0x1_0000_0000 == 0xffff_ffff) && (forall|j: DefaultKey| #[trigger]
                range_slots(*old(self)).contains_key(j) && j != k ==> key_bits(j) % 0x1_0000_0000 != key_bits(k) % 0x1_0000_0000)
                ==> range_slots(*final(self)) == range_slots(*old(self)).insert(k, value),
            forall|j: DefaultKey| #[trigger]
                range_slots(*old(self)).contains_key(j) && key_bits(j) % 0x1_0000_0000 != key_bits(k) % 0x1_0000_0000 ==> range_slots(
                    *final(self),
                ).contains_key(j),
            !range_slots(*final(self)).contains_key(k) ==> range_slots(*final(self)) == range_slots(*old(self)),
    {
        self.map.insert(k, value);
    }

    /// Relies on `SecondaryMap::new`: replacing the map by a new one leaves
    /// nothing held.
    #[verifier::external_body]
    pub(crate) fn clear(&mut self)
        ensures
            range_slots(*final(self)).dom() == Set::<DefaultKey>::empty(),
    {
        self.map = SecondaryMap::new();
    }
}

} // verus!
