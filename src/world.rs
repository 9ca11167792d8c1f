//! The entity graph: a generational arena of entities forming a tree under one
//! root, with lazy propagation of transforms from parents to children.
use vstd::prelude::*;
use std::collections::VecDeque;
use slotmap::DefaultKey;
use crate::slots::{EntitySlots, entity_slots, same_key};
use crate::transform::{SpatialTransform, spec_combine, spec_identity};

verus! {

/// Refers to an entity of a `World`. It stops resolving if its slot is reused.
#[derive(Clone, Copy, Debug, PartialEq, Eq, Hash)]
pub struct WorldEntityId {
    pub key: DefaultKey,
}

/// A node of the entity graph.
///
/// `already_propagated` is the clean flag: when it is set, every child's parent
/// transform equals this entity's overall transform.
pub struct WorldEntity {
    parent: Option<WorldEntityId>,
    children: Vec<WorldEntityId>,
    parent_transform: SpatialTransform,
    local_transform: SpatialTransform,
    already_propagated: bool,
}

/// Why a world operation was refused.
#[derive(Clone, Copy, Debug, PartialEq, Eq)]
pub enum WorldError {
    /// The given parent is not an entity of this world.
    ParentNotFound(WorldEntityId),
    /// The given entity is not an entity of this world.
    EntityNotFound(WorldEntityId),
    /// A given child is not an entity of this world.
    ChildNotFound(WorldEntityId),
    /// A given child is the new entity's parent or lies above it, so moving
    /// it below the new entity would close a cycle.
    WouldCreateCycle(WorldEntityId),
}

impl WorldEntity {
    pub closed spec fn spec_parent(&self) -> Option<WorldEntityId> {
        self.parent
    }

    pub closed spec fn spec_children(&self) -> Seq<WorldEntityId> {
        self.children@
    }

    pub closed spec fn spec_parent_transform(&self) -> SpatialTransform {
        self.parent_transform
    }

    pub closed spec fn spec_local_transform(&self) -> SpatialTransform {
        self.local_transform
    }

    pub closed spec fn spec_clean(&self) -> bool {
        self.already_propagated
    }

    /// The overall transform: the local transform placed by the parent transform.
    pub open spec fn spec_transform(&self) -> SpatialTransform {
        spec_combine(self.spec_parent_transform(), self.spec_local_transform())
    }

    /// The same entity, with every field equal.
    pub fn copy(&self) -> (r: WorldEntity)
        ensures
            r.spec_parent() == self.spec_parent(),
            r.spec_children() == self.spec_children(),
            r.spec_parent_transform() == self.spec_parent_transform(),
            r.spec_local_transform() == self.spec_local_transform(),
            r.spec_clean() == self.spec_clean(),
    {
        WorldEntity {
            parent: self.parent,
            children: copy_ids(&self.children),
            parent_transform: self.parent_transform,
            local_transform: self.local_transform,
            already_propagated: self.already_propagated,
        }
    }

    /// The overall transform of this entity.
    pub fn transform(&self) -> (r: SpatialTransform)
        ensures
            r == self.spec_transform(),
    {
        self.parent_transform.combine(&self.local_transform)
    }

    /// The parent, `None` for the root.
    pub fn parent(&self) -> (r: &Option<WorldEntityId>)
        ensures
            *r == self.spec_parent(),
    {
        &self.parent
    }

    /// The children.
    pub fn children(&self) -> (r: &Vec<WorldEntityId>)
        ensures
            r@ == self.spec_children(),
    {
        &self.children
    }

    /// The transform relative to the parent.
    pub fn local_transform(&self) -> (r: SpatialTransform)
        ensures
            r == self.spec_local_transform(),
    {
        self.local_transform
    }

    /// The transform inherited from the ancestors.
    pub fn parent_transform(&self) -> (r: SpatialTransform)
        ensures
            r == self.spec_parent_transform(),
    {
        self.parent_transform
    }

    /// Whether the children's parent transforms are up to date.
    pub fn already_propagated(&self) -> (r: bool)
        ensures
            r == self.spec_clean(),
    {
        self.already_propagated
    }

    /// Replaces the local transform and clears the clean flag.
    pub fn update_local_transform(&mut self, local: SpatialTransform)
        ensures
            final(self).spec_local_transform() == local,
            !final(self).spec_clean(),
            final(self).spec_parent() == old(self).spec_parent(),
            final(self).spec_children() == old(self).spec_children(),
            final(self).spec_parent_transform() == old(self).spec_parent_transform(),
    {
        self.local_transform = local;
        self.already_propagated = false;
    }

    /// Replaces the parent transform and clears the clean flag.
    pub fn update_parent_transform(&mut self, parent_transform: SpatialTransform)
        ensures
            final(self).spec_parent_transform() == parent_transform,
            !final(self).spec_clean(),
            final(self).spec_parent() == old(self).spec_parent(),
            final(self).spec_children() == old(self).spec_children(),
            final(self).spec_local_transform() == old(self).spec_local_transform(),
    {
        self.parent_transform = parent_transform;
        self.already_propagated = false;
    }

    /// Sets the clean flag.
    fn set_already_propagated(&mut self, val: bool)
        ensures
            final(self).spec_clean() == val,
            final(self).spec_parent() == old(self).spec_parent(),
            final(self).spec_children() == old(self).spec_children(),
            final(self).spec_parent_transform() == old(self).spec_parent_transform(),
            final(self).spec_local_transform() == old(self).spec_local_transform(),
    {
        self.already_propagated = val;
    }
}

/// A copy of a list of ids.
fn copy_ids(v: &Vec<WorldEntityId>) -> (r: Vec<WorldEntityId>)
    ensures
        r@ == v@,
{
    let mut r: Vec<WorldEntityId> = Vec::new();
    let mut i: usize = 0;
    while i < v.len()
        invariant
            i <= v.len(),
            r@ == v@.subrange(0, i as int),
        decreases v.len() - i,
    {
        r.push(v[i]);
        i = i + 1;
    }
    assert(r@ =~= v@);
    r
}

/// Pushes every id of `children` onto the front of `queue`, in order.
fn enqueue_children(queue: &mut VecDeque<WorldEntityId>, children: &Vec<WorldEntityId>)
    requires
        old(queue)@.no_duplicates(),
        children@.no_duplicates(),
        forall|x: WorldEntityId| #[trigger] children@.contains(x) ==> !old(queue)@.contains(x),
    ensures
        final(queue)@.no_duplicates(),
        forall|x: WorldEntityId|
            #[trigger] final(queue)@.contains(x) <==> children@.contains(x) || old(queue)@.contains(x),
{
    let ghost queue_rest = queue@;
    let mut j: usize = 0;
    while j < children.len()
        invariant
            0 <= j <= children.len(),
            children@.no_duplicates(),
            forall|x: WorldEntityId| #[trigger] children@.contains(x) ==> !queue_rest.contains(x),
            queue@.no_duplicates(),
            forall|x: WorldEntityId|
                #[trigger] queue@.contains(x) <==> children@.subrange(0, j as int).contains(x)
                    || queue_rest.contains(x),
        decreases children.len() - j,
    {
        let c = children[j];
        proof {
            assert(children@.contains(c));
            assert(!children@.subrange(0, j as int).contains(c)) by {
                if children@.subrange(0, j as int).contains(c) {
                    let k = choose|k: int| 0 <= k < j && children@.subrange(0, j as int)[k] == c;
                    assert(children@[k] == c);
                }
            }
        }
        let ghost q0 = queue@;
        queue.push_front(c);
        proof {
            assert(queue@ == seq![c] + q0);
            assert forall|a: int, b: int| 0 <= a < b < queue@.len() implies queue@[a] != queue@[b] by {
                if a == 0 {
                    assert(q0[b - 1] == queue@[b]);
                    assert(q0.contains(queue@[b]));
                } else {
                    assert(queue@[a] == q0[a - 1]);
                    assert(queue@[b] == q0[b - 1]);
                }
            }
            assert forall|x: WorldEntityId|
                #[trigger] queue@.contains(x) <==> children@.subrange(0, j + 1).contains(x)
                    || queue_rest.contains(x) by {
                assert(children@.subrange(0, j + 1) =~= children@.subrange(0, j as int).push(c));
                if queue@.contains(x) {
                    if x == c {
                        assert(children@.subrange(0, j + 1)[j as int] == c);
                    } else {
                        let k = choose|k: int| 0 <= k < queue@.len() && queue@[k] == x;
                        assert(q0[k - 1] == x);
                        assert(q0.contains(x));
                        if children@.subrange(0, j as int).contains(x) {
                            let m = choose|m: int| 0 <= m < j && #[trigger] children@.subrange(0, j as int)[m] == x;
                            assert(children@.subrange(0, j + 1)[m] == x);
                        }
                    }
                }
                if children@.subrange(0, j + 1).contains(x) || queue_rest.contains(x) {
                    if x == c {
                        assert(queue@[0] == c);
                    } else {
                        if children@.subrange(0, j + 1).contains(x) {
                            let k = choose|k: int| 0 <= k < j + 1 && #[trigger] children@.subrange(0, j + 1)[k] == x;
                            assert(k < j);
                            assert(children@.subrange(0, j as int)[k] == x);
                        }
                        assert(q0.contains(x));
                        let k = choose|k: int| 0 <= k < q0.len() && q0[k] == x;
                        assert(queue@[k + 1] == x);
                    }
                }
            }
        }
        j = j + 1;
    }
    proof {
        assert(children@.subrange(0, children@.len() as int) =~= children@);
    }
}

/// The position of `x` in `v`.
fn position_of(v: &Vec<WorldEntityId>, x: WorldEntityId) -> (r: usize)
    requires
        v@.contains(x),
    ensures
        r < v@.len(),
        v@[r as int] == x,
{
    let mut j: usize = 0;
    while j < v.len()
        invariant
            j <= v.len(),
            v@.contains(x),
            forall|k: int| 0 <= k < j ==> v@[k] != x,
        decreases v.len() - j,
    {
        if same_key(v[j].key, x.key) {
            return j;
        }
        j = j + 1;
    }
    proof {
        let k = choose|k: int| 0 <= k < v@.len() && v@[k] == x;
        assert(v@[k] != x);
    }
    0
}

/// Removing position `i` of a list without duplicates removes exactly its element.
proof fn lemma_remove_no_dup(s: Seq<WorldEntityId>, i: int)
    requires
        s.no_duplicates(),
        0 <= i < s.len(),
    ensures
        s.remove(i).no_duplicates(),
        forall|x: WorldEntityId| #[trigger] s.remove(i).contains(x) <==> s.contains(x) && x != s[i],
{
    let r = s.remove(i);
    assert forall|a: int, b: int| 0 <= a < b < r.len() implies r[a] != r[b] by {
        let sa = if a < i { a } else { a + 1 };
        let sb = if b < i { b } else { b + 1 };
        assert(r[a] == s[sa]);
        assert(r[b] == s[sb]);
    }
    assert forall|x: WorldEntityId| #[trigger] r.contains(x) <==> s.contains(x) && x != s[i] by {
        if r.contains(x) {
            let a = choose|a: int| 0 <= a < r.len() && r[a] == x;
            let sa = if a < i { a } else { a + 1 };
            assert(s[sa] == x);
        }
        if s.contains(x) && x != s[i] {
            let a = choose|a: int| 0 <= a < s.len() && s[a] == x;
            if a < i {
                assert(r[a] == x);
            } else {
                assert(r[a - 1] == x);
            }
        }
    }
}

/// Pushing an element that is not there keeps a list free of duplicates.
proof fn lemma_push_no_dup(s: Seq<WorldEntityId>, x: WorldEntityId)
    requires
        s.no_duplicates(),
        !s.contains(x),
    ensures
        s.push(x).no_duplicates(),
        forall|y: WorldEntityId| #[trigger] s.push(x).contains(y) <==> s.contains(y) || y == x,
{
    let r = s.push(x);
    assert forall|a: int, b: int| 0 <= a < b < r.len() implies r[a] != r[b] by {
        if b == s.len() {
            assert(s.contains(r[a]));
        }
    }
    assert forall|y: WorldEntityId| #[trigger] r.contains(y) <==> s.contains(y) || y == x by {
        if r.contains(y) && y != x {
            let a = choose|a: int| 0 <= a < r.len() && r[a] == y;
            assert(s[a] == y);
        }
        if s.contains(y) {
            let a = choose|a: int| 0 <= a < s.len() && s[a] == y;
            assert(r[a] == y);
        }
        if y == x {
            assert(r[s.len() as int] == x);
        }
    }
}

/// Holds the entities of the world, rooted in one distinguished root entity.
pub struct World {
    entities: EntitySlots,
    root_entity: WorldEntityId,
    depth: Ghost<Map<WorldEntityId, nat>>,
}

impl World {
    /// Whether `id` resolves to an entity of this world.
    pub closed spec fn contains(&self, id: WorldEntityId) -> bool {
        entity_slots(self.entities).contains_key(id.key)
    }

    /// The entity that `id` resolves to.
    pub closed spec fn view_of(&self, id: WorldEntityId) -> WorldEntity {
        entity_slots(self.entities)[id.key]
    }

    /// The root entity.
    pub closed spec fn spec_root(&self) -> WorldEntityId {
        self.root_entity
    }

    /// The number of entities.
    pub closed spec fn entity_count(&self) -> nat {
        entity_slots(self.entities).len()
    }

    /// The parent of `id`, which must be a non-root entity.
    pub open spec fn parent_of(&self, id: WorldEntityId) -> WorldEntityId {
        self.view_of(id).spec_parent().unwrap()
    }

    /// The entities form a tree under the root, parent and child links agree,
    /// and every clean entity has handed its transform to all its children.
    #[verifier::opaque]
    pub closed spec fn wf(&self) -> bool {
        let d = self.depth@;
        &&& entity_slots(self.entities).dom().finite()
        &&& self.contains(self.root_entity)
        &&& self.view_of(self.root_entity).spec_parent() is None
        &&& forall|id: WorldEntityId| #[trigger]
            self.contains(id) ==> d.contains_key(id)
        &&& forall|id: WorldEntityId| #[trigger]
            self.contains(id) && id != self.root_entity ==> {
                &&& self.view_of(id).spec_parent() is Some
                &&& self.contains(self.parent_of(id))
                &&& self.view_of(self.parent_of(id)).spec_children().contains(id)
                &&& d[id] == d[self.parent_of(id)] + 1
            }
        &&& forall|p: WorldEntityId, i: int| #![trigger self.view_of(p).spec_children()[i]]
            self.contains(p) && 0 <= i < self.view_of(p).spec_children().len() ==> {
                &&& self.contains(self.view_of(p).spec_children()[i])
                &&& self.view_of(self.view_of(p).spec_children()[i]).spec_parent() == Some(p)
            }
        &&& forall|p: WorldEntityId| #[trigger]
            self.contains(p) ==> self.view_of(p).spec_children().no_duplicates()
        &&& forall|p: WorldEntityId, i: int| #![trigger self.view_of(p).spec_children()[i]]
            self.contains(p) && self.view_of(p).spec_clean() && 0 <= i
                < self.view_of(p).spec_children().len() ==> self.view_of(
                self.view_of(p).spec_children()[i],
            ).spec_parent_transform() == self.view_of(p).spec_transform()
    }

    /// `e` and every entity above it are clean.
    pub open spec fn clean_above(&self, e: WorldEntityId) -> bool {
        forall|x: WorldEntityId| #[trigger] self.lies_within(x, e) ==> self.view_of(x).spec_clean()
    }

    /// Every entity of the world has its clean flag set.
    pub open spec fn all_clean(&self) -> bool {
        forall|id: WorldEntityId| #[trigger] self.contains(id) ==> self.view_of(id).spec_clean()
    }

    /// Every non-root entity's overall transform is its parent's overall
    /// transform combined with its own local transform.
    pub open spec fn transforms_resolved(&self) -> bool {
        forall|id: WorldEntityId| #[trigger]
            self.contains(id) && id != self.spec_root() ==> self.view_of(id).spec_transform()
                == spec_combine(
                self.view_of(self.parent_of(id)).spec_transform(),
                self.view_of(id).spec_local_transform(),
            )
    }

    /// `self` and `other` hold the same entities with the same links and local transforms.
    pub open spec fn same_shape(&self, other: &World) -> bool {
        &&& self.spec_root() == other.spec_root()
        &&& forall|id: WorldEntityId| self.contains(id) == #[trigger] other.contains(id)
        &&& forall|id: WorldEntityId| #[trigger]
            self.contains(id) ==> {
                &&& other.view_of(id).spec_parent() == self.view_of(id).spec_parent()
                &&& other.view_of(id).spec_children() == self.view_of(id).spec_children()
                &&& other.view_of(id).spec_local_transform() == self.view_of(
                    id,
                ).spec_local_transform()
            }
    }

    /// `self` and `other` hold the same entities with the same links, and the
    /// same local transforms except possibly that of `id`.
    pub open spec fn same_shape_except_local(&self, other: &World, id: WorldEntityId) -> bool {
        &&& self.spec_root() == other.spec_root()
        &&& forall|o: WorldEntityId| self.contains(o) == #[trigger] other.contains(o)
        &&& forall|o: WorldEntityId| #[trigger]
            self.contains(o) ==> {
                &&& other.view_of(o).spec_parent() == self.view_of(o).spec_parent()
                &&& other.view_of(o).spec_children() == self.view_of(o).spec_children()
                &&& (o != id ==> other.view_of(o).spec_local_transform() == self.view_of(
                    o,
                ).spec_local_transform())
            }
    }

    /// `self` is what `propagate` makes of `before`: the same tree, every
    /// entity clean, every transform resolved from its parent's, the root's
    /// parent transform kept, and nothing changed if `before` was all clean.
    pub open spec fn propagated_from(&self, before: &World) -> bool {
        &&& self.wf()
        &&& self.contains(self.spec_root())
        &&& self.view_of(self.spec_root()).spec_parent() is None
        &&& self.same_shape(before)
        &&& self.entity_count() == before.entity_count()
        &&& self.all_clean()
        &&& self.transforms_resolved()
        &&& self.view_of(self.spec_root()).spec_parent_transform() == before.view_of(
            before.spec_root(),
        ).spec_parent_transform()
        &&& (before.all_clean() ==> self.same_entities(before))
    }

    /// `self` and `other` hold the same entities with equal fields.
    pub open spec fn same_entities(&self, other: &World) -> bool {
        &&& self.same_shape(other)
        &&& forall|id: WorldEntityId| #[trigger]
            self.contains(id) ==> {
                &&& other.view_of(id).spec_parent_transform() == self.view_of(
                    id,
                ).spec_parent_transform()
                &&& other.view_of(id).spec_clean() == self.view_of(id).spec_clean()
            }
    }

    /// A world holding only the root entity, with the identity transform.
    pub fn new() -> (r: World)
        ensures
            r.wf(),
            r.entity_count() == 1,
            r.contains(r.spec_root()),
            r.view_of(r.spec_root()).spec_parent() is None,
            r.view_of(r.spec_root()).spec_local_transform() == spec_identity(),
            r.view_of(r.spec_root()).spec_parent_transform() == spec_identity(),
            r.view_of(r.spec_root()).spec_children().len() == 0,
    {
        let mut entities = EntitySlots::new();
        let root = WorldEntity {
            parent: None,
            children: Vec::new(),
            parent_transform: SpatialTransform::identity(),
            local_transform: SpatialTransform::identity(),
            already_propagated: false,
        };
        let key = entities.insert(root);
        let root_entity = WorldEntityId { key };
        let ghost d = Map::empty().insert(root_entity, 0nat);
        let r = World { entities, root_entity, depth: Ghost(d) };
        assert(entity_slots(r.entities).dom() =~= set![key]);
        reveal(World::wf);
        assert forall|id: WorldEntityId| #[trigger] r.contains(id) implies id == root_entity by {
            assert(entity_slots(r.entities).dom().contains(id.key));
        }
        r
    }


    /// Adds a new leaf entity under `p`. Its parent transform starts as the
    /// parent's overall transform and its clean flag starts unset.
    fn insert_leaf(&mut self, p: WorldEntityId, local_transform: SpatialTransform) -> (id: WorldEntityId)
        requires
            old(self).wf(),
            old(self).contains(p),
            old(self).entity_count() + 2 < u32::MAX,
        ensures
            final(self).wf(),
            !old(self).contains(id),
            final(self).contains(id),
            final(self).entity_count() == old(self).entity_count() + 1,
            final(self).view_of(id).spec_parent() == Some(p),
            final(self).view_of(id).spec_children().len() == 0,
            final(self).view_of(id).spec_local_transform() == local_transform,
            final(self).view_of(id).spec_parent_transform() == old(self).view_of(p).spec_transform(),
            !final(self).view_of(id).spec_clean(),
            final(self).view_of(p).spec_children() == old(self).view_of(p).spec_children().push(id),
            final(self).view_of(p).spec_parent() == old(self).view_of(p).spec_parent(),
            final(self).view_of(p).spec_parent_transform() == old(self).view_of(p).spec_parent_transform(),
            final(self).view_of(p).spec_local_transform() == old(self).view_of(p).spec_local_transform(),
            final(self).view_of(p).spec_clean() == old(self).view_of(p).spec_clean(),
            final(self).root_entity == old(self).root_entity,
            forall|o: WorldEntityId| #[trigger]
                final(self).contains(o) && o != id ==> old(self).contains(o),
            forall|o: WorldEntityId| #[trigger]
                old(self).contains(o) ==> final(self).contains(o) && final(self).depth@[o] == old(self).depth@[o],
            forall|o: WorldEntityId| #[trigger]
                old(self).contains(o) && o != p ==> final(self).view_of(o) == old(self).view_of(o),
    {
        proof {
            reveal(World::wf);
        }
        let parent_entity = self.entities.at(p.key);
        let mut updated_parent = parent_entity.copy();
        let entity = WorldEntity {
            parent: Some(p),
            children: Vec::new(),
            parent_transform: parent_entity.transform(),
            local_transform,
            already_propagated: false,
        };
        let ghost old_world = *self;
        let ghost old_map = entity_slots(self.entities);
        let key = self.entities.insert(entity);
        let id = WorldEntityId { key };
        updated_parent.children.push(id);
        self.entities.set(p.key, updated_parent);
        let ghost d = self.depth@;
        self.depth = Ghost(d.insert(id, (d[p] + 1) as nat));
        proof {
            let new_map = entity_slots(self.entities);
            assert(new_map == old_map.insert(key, entity).insert(p.key, updated_parent));
            assert(!old_world.view_of(p).spec_children().contains(id));
            assert forall|o: WorldEntityId| #[trigger]
                self.contains(o) && o != id implies old_world.contains(o) by {
                assert(o.key != key);
            }
            assert forall|o: WorldEntityId| #[trigger]
                old_world.contains(o) && o != p implies self.contains(o) && self.view_of(o)
                == old_world.view_of(o) by {
                assert(o.key != key);
                assert(o.key != p.key);
            }
            assert(self.view_of(p).spec_children() == old_world.view_of(p).spec_children().push(id));
            assert forall|c: WorldEntityId, i: int|
                #![trigger self.view_of(c).spec_children()[i]]
                self.contains(c) && 0 <= i < self.view_of(c).spec_children().len()
                implies self.contains(self.view_of(c).spec_children()[i]) && self.view_of(
                self.view_of(c).spec_children()[i],
            ).spec_parent() == Some(c) && (self.view_of(c).spec_clean() ==> self.view_of(
                self.view_of(c).spec_children()[i],
            ).spec_parent_transform() == self.view_of(c).spec_transform()) by {
                if c == p {
                    if i < old_world.view_of(p).spec_children().len() {
                        assert(self.view_of(c).spec_children()[i] == old_world.view_of(
                            p,
                        ).spec_children()[i]);
                    }
                } else {
                    assert(c.key != key);
                    assert(c.key != p.key);
                }
            }
            assert forall|c: WorldEntityId| #[trigger]
                self.contains(c) implies self.view_of(c).spec_children().no_duplicates() by {
                if c != p && c != id {
                    assert(c.key != key);
                    assert(c.key != p.key);
                }
            }
            assert forall|o: WorldEntityId| #[trigger]
                self.contains(o) && o != self.root_entity implies {
                &&& self.view_of(o).spec_parent() is Some
                &&& self.contains(self.parent_of(o))
                &&& self.view_of(self.parent_of(o)).spec_children().contains(o)
                &&& self.depth@[o] == self.depth@[self.parent_of(o)] + 1
            } by {
                if o == id {
                    assert(self.view_of(p).spec_children().last() == id);
                } else if o == p {
                    assert(old_world.contains(old_world.parent_of(p)));
                    let q = old_world.parent_of(p);
                    assert(old_world.view_of(q).spec_children().contains(p));
                    if q != p {
                        assert(q.key != key);
                    }
                } else {
                    assert(o.key != key);
                    assert(o.key != p.key);
                    let q = old_world.parent_of(o);
                    assert(old_world.contains(q));
                    if q == p {
                        let j = choose|j: int|
                            0 <= j < old_world.view_of(p).spec_children().len()
                                && old_world.view_of(p).spec_children()[j] == o;
                        assert(self.view_of(p).spec_children()[j] == o);
                    } else {
                        assert(q.key != key);
                    }
                }
            }
        }
        id
    }

    /// Whether `e` is `top` or lies below it.
    pub closed spec fn lies_within(&self, top: WorldEntityId, e: WorldEntityId) -> bool {
        self.in_subtree(top, e)
    }

    /// `lies_within` follows parent links: `e` lies within `top` exactly when
    /// it is `top`, or is not the root and its parent lies within `top`; and
    /// every entity lies within the root.
    pub proof fn lemma_lies_within_step(&self, top: WorldEntityId, e: WorldEntityId)
        requires
            self.wf(),
            self.contains(e),
        ensures
            self.lies_within(top, e) == (e == top || (e != self.spec_root() && self.lies_within(
                top,
                self.parent_of(e),
            ))),
            self.lies_within(self.spec_root(), e),
    {
        self.lemma_root();
        if e != self.root_entity {
            self.lemma_parent_of(e);
        }
        self.lemma_within_root(e);
    }

    /// `c` can become a child of a new entity under `p`: it is an entity, and
    /// `p` does not lie within it.
    pub open spec fn child_ok(&self, p: WorldEntityId, c: WorldEntityId) -> bool {
        self.contains(c) && !self.lies_within(c, p)
    }

    /// The error for a child that cannot move below a new entity under `p`.
    pub open spec fn child_error_of(&self, p: WorldEntityId, c: WorldEntityId) -> WorldError {
        if !self.contains(c) {
            WorldError::ChildNotFound(c)
        } else {
            WorldError::WouldCreateCycle(c)
        }
    }

    /// `e` is the error of the first of `children` that cannot move below a
    /// new entity under `p`.
    pub open spec fn first_child_error(&self, p: WorldEntityId, children: Seq<WorldEntityId>, e: WorldError) -> bool {
        exists|i: int|
            0 <= i < children.len() && !self.child_ok(p, #[trigger] children[i]) && e
                == self.child_error_of(p, children[i]) && forall|j: int|
                0 <= j < i ==> self.child_ok(p, #[trigger] children[j])
    }

    /// Whether `e` lies within `x`'s subtree is the same in `w0` and `w1` when
    /// `e` and all above it keep their parent and depth.
    proof fn lemma_in_subtree_same(w0: &World, w1: &World, keep: spec_fn(WorldEntityId) -> bool, x: WorldEntityId, e: WorldEntityId)
        requires
            w0.wf(),
            w0.contains(e),
            keep(e),
            w1.root_entity == w0.root_entity,
            forall|o: WorldEntityId| #[trigger]
                w0.contains(o) && o != w0.root_entity && keep(o) ==> keep(w0.parent_of(o)),
            forall|o: WorldEntityId| #[trigger]
                w0.contains(o) && keep(o) ==> w1.contains(o) && w1.view_of(o).spec_parent()
                    == w0.view_of(o).spec_parent() && w1.depth@[o] == w0.depth@[o],
        ensures
            w1.in_subtree(x, e) == w0.in_subtree(x, e),
        decreases w0.depth@[e],
    {
        if e != x && e != w0.root_entity {
            w0.lemma_parent_of(e);
            let q = w0.parent_of(e);
            assert(keep(q));
            World::lemma_in_subtree_same(w0, w1, keep, x, q);
        }
    }

    /// Every entity lies within the root's subtree.
    proof fn lemma_within_root(&self, e: WorldEntityId)
        requires
            self.wf(),
            self.contains(e),
        ensures
            self.in_subtree(self.root_entity, e),
        decreases self.depth@[e],
    {
        if e != self.root_entity {
            self.lemma_parent_of(e);
            self.lemma_within_root(self.parent_of(e));
        }
    }

    /// Checks, in order, that each of `children` can move below a new entity
    /// under `p`.
    fn check_children(&self, p: WorldEntityId, children: &Vec<WorldEntityId>) -> (r: Result<(), WorldError>)
        requires
            self.wf(),
            self.contains(p),
        ensures
            r is Ok <==> forall|i: int| 0 <= i < children@.len() ==> self.child_ok(p, #[trigger] children@[i]),
            match r {
                Ok(()) => true,
                Err(e) => self.first_child_error(p, children@, e),
            },
    {
        let mut i: usize = 0;
        while i < children.len()
            invariant
                i <= children.len(),
                self.wf(),
                self.contains(p),
                forall|k: int| 0 <= k < i ==> self.child_ok(p, #[trigger] children@[k]),
            decreases children.len() - i,
        {
            let c = children[i];
            match self.entities.get(c.key) {
                Some(_) => {},
                None => {
                    proof {
                        assert(!self.child_ok(p, children@[i as int]));
                    }
                    return Err(WorldError::ChildNotFound(c));
                },
            }
            if self.is_in_subtree(c, p) {
                proof {
                    assert(!self.child_ok(p, children@[i as int]));
                }
                return Err(WorldError::WouldCreateCycle(c));
            }
            i = i + 1;
        }
        Ok(())
    }

    /// Entities outside the subtree of `c` have parents outside it too.
    proof fn lemma_outside_closed(&self, c: WorldEntityId)
        requires
            self.wf(),
        ensures
            forall|o: WorldEntityId| #[trigger]
                self.contains(o) && o != self.root_entity && !self.in_subtree(c, o) ==> !self.in_subtree(
                    c,
                    self.parent_of(o),
                ),
    {
        assert forall|o: WorldEntityId| #[trigger]
            self.contains(o) && o != self.root_entity && !self.in_subtree(c, o) implies !self.in_subtree(
            c,
            self.parent_of(o),
        ) by {
            self.lemma_parent_of(o);
        }
    }

    /// Moves each of `children`, with everything below it, under `id`, a new
    /// unclean leaf below `p` that none of them is, or lies above.
    #[verifier::spinoff_prover]
    #[verifier::rlimit(60)]
    fn move_children(&mut self, id: WorldEntityId, p: WorldEntityId, children: &Vec<WorldEntityId>)
        requires
            old(self).wf(),
            old(self).contains(id),
            old(self).contains(p),
            id != p,
            id != old(self).root_entity,
            !old(self).view_of(id).spec_clean(),
            old(self).view_of(id).spec_parent() == Some(p),
            old(self).view_of(id).spec_children().len() == 0,
            old(self).view_of(p).spec_children().contains(id),
            forall|k: int| 0 <= k < children@.len() ==> old(self).contains(#[trigger] children@[k])
                && !old(self).in_subtree(children@[k], p) && children@[k] != id
                && children@[k] != old(self).root_entity,
        ensures
            final(self).wf(),
            entity_slots(final(self).entities).dom() == entity_slots(old(self).entities).dom(),
            final(self).root_entity == old(self).root_entity,
            forall|o: WorldEntityId| #[trigger] final(self).contains(o) <==> old(self).contains(o),
            !final(self).view_of(id).spec_clean(),
            final(self).view_of(id).spec_parent() == Some(p),
            final(self).view_of(p).spec_children().contains(id),
            forall|x: WorldEntityId| #[trigger]
                final(self).view_of(id).spec_children().contains(x) <==> children@.contains(x),
            children@.no_duplicates() ==> final(self).view_of(id).spec_children() == children@,
            forall|k: int| 0 <= k < children@.len() ==> final(self).view_of(#[trigger] children@[k]).spec_parent() == Some(id),
            forall|o: WorldEntityId| #[trigger]
                old(self).contains(o) ==> {
                    &&& final(self).view_of(o).spec_local_transform() == old(self).view_of(o).spec_local_transform()
                    &&& final(self).view_of(o).spec_parent_transform() == old(self).view_of(o).spec_parent_transform()
                    &&& final(self).view_of(o).spec_clean() == old(self).view_of(o).spec_clean()
                    &&& (!children@.contains(o) ==> final(self).view_of(o).spec_parent() == old(self).view_of(o).spec_parent())
                },
    {
        let ghost w1 = *self;
        let mut j: usize = 0;
        while j < children.len()
            invariant
                j <= children.len(),
                self.wf(),
                self.contains(id),
                self.contains(p),
                id != p,
                id != self.root_entity,
                self.root_entity == w1.root_entity,
                forall|o: WorldEntityId| #[trigger] self.contains(o) <==> w1.contains(o),
                entity_slots(self.entities).dom() == entity_slots(w1.entities).dom(),
                !self.view_of(id).spec_clean(),
                self.view_of(id).spec_parent() == Some(p),
                self.view_of(p).spec_children().contains(id),
                forall|x: WorldEntityId| #[trigger]
                    self.view_of(id).spec_children().contains(x) <==> children@.subrange(0, j as int).contains(x),
                children@.no_duplicates() ==> self.view_of(id).spec_children() == children@.subrange(0, j as int),
                w1.view_of(id).spec_children().len() == 0,
                w1.wf(),
                forall|k: int| j <= k < children@.len() ==> self.contains(#[trigger] children@[k])
                    && !self.in_subtree(children@[k], p) && children@[k] != id
                    && children@[k] != self.root_entity,
                forall|k: int| 0 <= k < j ==> self.view_of(#[trigger] children@[k]).spec_parent() == Some(id),
                forall|k: int| 0 <= k < children@.len() ==> w1.contains(#[trigger] children@[k]),
                forall|o: WorldEntityId| #[trigger]
                    w1.contains(o) ==> {
                        &&& self.view_of(o).spec_local_transform() == w1.view_of(o).spec_local_transform()
                        &&& self.view_of(o).spec_parent_transform() == w1.view_of(o).spec_parent_transform()
                        &&& self.view_of(o).spec_clean() == w1.view_of(o).spec_clean()
                        &&& (!children@.subrange(0, j as int).contains(o) ==> self.view_of(o).spec_parent() == w1.view_of(o).spec_parent())
                    },
            decreases children.len() - j,
        {
            let c = children[j];
            let ghost before = *self;
            proof {
                self.lemma_parent_of(id);
                assert(children@[j as int] == c);
                assert(!self.in_subtree(c, id));
                self.lemma_outside_closed(c);
                if children@.no_duplicates() {
                    assert(!children@.subrange(0, j as int).contains(c)) by {
                        if children@.subrange(0, j as int).contains(c) {
                            let k = choose|k: int| 0 <= k < j && children@.subrange(0, j as int)[k] == c;
                            assert(children@[k] == c);
                        }
                    }
                    assert(w1.contains(c));
                    w1.lemma_parent_of(c);
                    if w1.view_of(c).spec_parent() == Some(id) {
                        assert(w1.view_of(id).spec_children().contains(c));
                    }
                    assert(self.view_of(c).spec_parent() == w1.view_of(c).spec_parent());
                }
            }
            self.reparent(c, id);
            proof {
                let after = *self;
                assert(children@.subrange(0, j + 1) =~= children@.subrange(0, j as int).push(c));
                assert(children@.subrange(0, j + 1)[j as int] == c);
                assert forall|k: int| j + 1 <= k < children@.len() implies after.contains(#[trigger] children@[k])
                    && !after.in_subtree(children@[k], p) && children@[k] != id
                    && children@[k] != after.root_entity by {
                    assert(before.contains(children@[k]));
                    World::lemma_in_subtree_same(&before, &after, |o: WorldEntityId| !before.in_subtree(c, o), children@[k], p);
                }
                assert forall|k: int| 0 <= k < j + 1 implies after.view_of(#[trigger] children@[k]).spec_parent() == Some(id) by {
                    if k < j && children@[k] != c {
                        assert(w1.contains(children@[k]));
                        assert(before.contains(children@[k]));
                        assert(before.view_of(children@[k]).spec_parent() == Some(id));
                    }
                }
                assert(after.view_of(p).spec_children().contains(id)) by {
                    assert(before.view_of(p).spec_children().contains(id));
                }
                assert forall|x: WorldEntityId| #[trigger]
                    after.view_of(id).spec_children().contains(x) <==> children@.subrange(0, j + 1).contains(x) by {
                    if x == c {
                        assert(children@.subrange(0, j + 1)[j as int] == c);
                    }
                }
                assert forall|o: WorldEntityId| #[trigger] w1.contains(o) implies {
                    &&& after.view_of(o).spec_local_transform() == w1.view_of(o).spec_local_transform()
                    &&& after.view_of(o).spec_parent_transform() == w1.view_of(o).spec_parent_transform()
                    &&& after.view_of(o).spec_clean() == w1.view_of(o).spec_clean()
                    &&& (!children@.subrange(0, j + 1).contains(o) ==> after.view_of(o).spec_parent() == w1.view_of(o).spec_parent())
                } by {
                    assert(before.contains(o));
                    if !children@.subrange(0, j + 1).contains(o) {
                        assert(o != c);
                    }
                }
            }
            j = j + 1;
        }
        proof {
            assert(children@.subrange(0, children@.len() as int) =~= children@);
        }
    }

    /// Children that could move below a new entity under `p` still can once
    /// the new leaf `id` is in place.
    proof fn lemma_children_after_insert(w0: &World, w1: &World, p: WorldEntityId, id: WorldEntityId, children: Seq<WorldEntityId>)
        requires
            w0.wf(),
            w0.contains(p),
            !w0.contains(id),
            w1.root_entity == w0.root_entity,
            forall|o: WorldEntityId| #[trigger]
                w0.contains(o) ==> w1.contains(o) && w1.depth@[o] == w0.depth@[o],
            forall|o: WorldEntityId| #[trigger]
                w0.contains(o) && o != p ==> w1.view_of(o) == w0.view_of(o),
            w1.view_of(p).spec_parent() == w0.view_of(p).spec_parent(),
            forall|k: int| 0 <= k < children.len() ==> w0.child_ok(p, #[trigger] children[k]),
        ensures
            forall|k: int| 0 <= k < children.len() ==> w1.contains(#[trigger] children[k])
                && !w1.in_subtree(children[k], p) && children[k] != id && children[k] != w1.root_entity,
    {
        w0.lemma_root();
        assert forall|o: WorldEntityId| #[trigger] w0.contains(o) implies w1.view_of(o).spec_parent()
            == w0.view_of(o).spec_parent() by {
            if o != p {
                assert(w1.view_of(o) == w0.view_of(o));
            }
        }
        assert forall|k: int| 0 <= k < children.len() implies w1.contains(#[trigger] children[k])
            && !w1.in_subtree(children[k], p) && children[k] != id && children[k] != w1.root_entity by {
            let c = children[k];
            assert(w0.child_ok(p, c));
            World::lemma_in_subtree_same(w0, w1, |o: WorldEntityId| true, c, p);
            if c == w0.root_entity {
                w0.lemma_within_root(p);
            }
        }
    }

    /// Adds a new entity under `parent`, or under the root when `parent` is
    /// `None`, and moves each of `children`, with everything below it, under
    /// the new entity. The new entity's parent transform starts as the
    /// parent's overall transform and its clean flag starts unset. Nothing
    /// changes when the parent or a child is not an entity, or when a child is
    /// the parent or lies above it.
    #[verifier::spinoff_prover]
    #[verifier::rlimit(80)]
    pub fn add_entity(
        &mut self,
        parent: Option<WorldEntityId>,
        children: Vec<WorldEntityId>,
        local_transform: SpatialTransform,
    ) -> (r: Result<WorldEntityId, WorldError>)
        requires
            old(self).wf(),
            old(self).entity_count() + 2 < u32::MAX,
        ensures
            final(self).wf(),
            ({
                let p = match parent {
                    Some(q) => q,
                    None => old(self).spec_root(),
                };
                match r {
                    Ok(id) => {
                        &&& old(self).contains(p)
                        &&& forall|i: int| 0 <= i < children@.len() ==> old(self).child_ok(p, #[trigger] children@[i])
                        &&& !old(self).contains(id)
                        &&& forall|o: WorldEntityId| #[trigger] final(self).contains(o) <==> old(self).contains(o) || o == id
                        &&& final(self).entity_count() == old(self).entity_count() + 1
                        &&& final(self).spec_root() == old(self).spec_root()
                        &&& final(self).view_of(id).spec_parent() == Some(p)
                        &&& final(self).view_of(id).spec_local_transform() == local_transform
                        &&& final(self).view_of(id).spec_parent_transform() == old(self).view_of(p).spec_transform()
                        &&& !final(self).view_of(id).spec_clean()
                        &&& forall|x: WorldEntityId| #[trigger]
                            final(self).view_of(id).spec_children().contains(x) <==> children@.contains(x)
                        &&& children@.no_duplicates() ==> final(self).view_of(id).spec_children() == children@
                        &&& children@.len() == 0 ==> final(self).view_of(p).spec_children() == old(self).view_of(
                            p).spec_children().push(id)
                        &&& forall|i: int| 0 <= i < children@.len() ==> final(self).view_of(#[trigger] children@[i]).spec_parent() == Some(id)
                        &&& final(self).view_of(p).spec_children().contains(id)
                        &&& forall|o: WorldEntityId| #[trigger]
                            old(self).contains(o) ==> {
                                &&& final(self).view_of(o).spec_local_transform() == old(self).view_of(o).spec_local_transform()
                                &&& final(self).view_of(o).spec_parent_transform() == old(self).view_of(o).spec_parent_transform()
                                &&& final(self).view_of(o).spec_clean() == old(self).view_of(o).spec_clean()
                                &&& (!children@.contains(o) ==> final(self).view_of(o).spec_parent() == old(self).view_of(o).spec_parent())
                            }
                    },
                    Err(e) => {
                        &&& if !old(self).contains(p) {
                            e == WorldError::ParentNotFound(p)
                        } else {
                            old(self).first_child_error(p, children@, e)
                        }
                        &&& *final(self) == *old(self)
                    },
                }
            }),
    {
        let p = match parent {
            Some(q) => q,
            None => self.root_entity,
        };
        proof {
            self.lemma_root();
        }
        match self.entities.get(p.key) {
            Some(_) => {},
            None => {
                return Err(WorldError::ParentNotFound(p));
            },
        }
        match self.check_children(p, &children) {
            Ok(()) => {},
            Err(e) => {
                return Err(e);
            },
        }
        let ghost w0 = *self;
        let id = self.insert_leaf(p, local_transform);
        let ghost w1 = *self;
        proof {
            World::lemma_children_after_insert(&w0, &w1, p, id, children@);
            let pl = w1.view_of(p).spec_children();
            assert(pl[pl.len() - 1] == id);
        }
        if children.len() > 0 {
            self.move_children(id, p, &children);
        }
        proof {
            assert forall|o: WorldEntityId| #[trigger] self.contains(o) <==> w0.contains(o) || o == id by {
                assert(self.contains(o) == w1.contains(o));
            }
            assert forall|o: WorldEntityId| #[trigger] w0.contains(o) implies {
                &&& self.view_of(o).spec_local_transform() == w0.view_of(o).spec_local_transform()
                &&& self.view_of(o).spec_parent_transform() == w0.view_of(o).spec_parent_transform()
                &&& self.view_of(o).spec_clean() == w0.view_of(o).spec_clean()
                &&& (!children@.contains(o) ==> self.view_of(o).spec_parent() == w0.view_of(o).spec_parent())
            } by {
                assert(w1.contains(o));
            }
        }
        Ok(id)
    }

    /// Having the same shape is transitive.
    pub proof fn lemma_same_shape_trans(a: &World, b: &World, c: &World)
        requires
            a.same_shape(b),
            b.same_shape(c),
        ensures
            a.same_shape(c),
    {
        assert forall|id: WorldEntityId| a.contains(id) == #[trigger] c.contains(id) by {
            assert(a.contains(id) == b.contains(id));
        }
        assert forall|id: WorldEntityId| #[trigger] a.contains(id) implies {
            &&& c.view_of(id).spec_parent() == a.view_of(id).spec_parent()
            &&& c.view_of(id).spec_children() == a.view_of(id).spec_children()
            &&& c.view_of(id).spec_local_transform() == a.view_of(id).spec_local_transform()
        } by {
            assert(b.contains(id));
        }
    }

    /// Hands `t` down to `c` as its parent transform; `c`'s parent must not be clean.
    fn hand_down(&mut self, c: WorldEntityId, t: SpatialTransform)
        requires
            old(self).wf(),
            old(self).contains(c),
            c != old(self).spec_root() ==> !old(self).view_of(old(self).parent_of(c)).spec_clean(),
        ensures
            final(self).wf(),
            final(self).same_shape(old(self)),
            entity_slots(final(self).entities).dom() == entity_slots(old(self).entities).dom(),
            final(self).depth == old(self).depth,
            final(self).view_of(c).spec_parent_transform() == t,
            !final(self).view_of(c).spec_clean(),
            forall|o: WorldEntityId| #[trigger]
                final(self).contains(o) && o != c ==> final(self).view_of(o) == old(self).view_of(o),
    {
        let ghost w0 = *self;
        reveal(World::wf);
        let mut e = self.entities.at(c.key).copy();
        e.update_parent_transform(t);
        self.entities.set(c.key, e);
        proof {
            assert(entity_slots(self.entities) == entity_slots(w0.entities).insert(c.key, e));
            assert(entity_slots(self.entities).dom() =~= entity_slots(w0.entities).dom());
            assert forall|o: WorldEntityId| #[trigger]
                self.contains(o) && o != c implies self.view_of(o) == w0.view_of(o) by {
                assert(o.key != c.key);
            }
            assert forall|o: WorldEntityId| #[trigger]
                self.contains(o) && o != self.root_entity implies {
                &&& self.view_of(o).spec_parent() is Some
                &&& self.contains(self.parent_of(o))
                &&& self.view_of(self.parent_of(o)).spec_children().contains(o)
                &&& self.depth@[o] == self.depth@[self.parent_of(o)] + 1
            } by {
                assert(w0.contains(o));
                let p = w0.parent_of(o);
                assert(w0.contains(p));
                if o != c {
                    assert(self.view_of(o) == w0.view_of(o));
                }
                if p != c {
                    assert(self.view_of(p) == w0.view_of(p));
                }
            }
            assert forall|p: WorldEntityId, i: int|
                #![trigger self.view_of(p).spec_children()[i]]
                self.contains(p) && 0 <= i < self.view_of(p).spec_children().len()
                implies self.contains(self.view_of(p).spec_children()[i]) && self.view_of(
                self.view_of(p).spec_children()[i],
            ).spec_parent() == Some(p) && (self.view_of(p).spec_clean() ==> self.view_of(
                self.view_of(p).spec_children()[i],
            ).spec_parent_transform() == self.view_of(p).spec_transform()) by {
                assert(w0.view_of(p).spec_children()[i] == self.view_of(p).spec_children()[i]);
            }
            assert forall|p: WorldEntityId| #[trigger]
                self.contains(p) implies self.view_of(p).spec_children().no_duplicates() by {
                assert(w0.contains(p));
            }
        }
    }

    /// Sets the clean flag of `id` to `val`; to set it, its children must all
    /// hold its transform.
    fn set_clean(&mut self, id: WorldEntityId, val: bool)
        requires
            old(self).wf(),
            old(self).contains(id),
            val ==> forall|i: int|
                0 <= i < old(self).view_of(id).spec_children().len() ==> old(self).view_of(
                    #[trigger] old(self).view_of(id).spec_children()[i],
                ).spec_parent_transform() == old(self).view_of(id).spec_transform(),
        ensures
            final(self).wf(),
            final(self).same_shape(old(self)),
            entity_slots(final(self).entities).dom() == entity_slots(old(self).entities).dom(),
            final(self).depth == old(self).depth,
            final(self).view_of(id).spec_parent_transform() == old(self).view_of(
                id,
            ).spec_parent_transform(),
            final(self).view_of(id).spec_local_transform() == old(self).view_of(
                id,
            ).spec_local_transform(),
            final(self).view_of(id).spec_clean() == val,
            forall|o: WorldEntityId| #[trigger]
                final(self).contains(o) && o != id ==> final(self).view_of(o) == old(self).view_of(o),
    {
        let ghost w0 = *self;
        reveal(World::wf);
        let mut e = self.entities.at(id.key).copy();
        e.set_already_propagated(val);
        self.entities.set(id.key, e);
        proof {
            assert(entity_slots(self.entities) == entity_slots(w0.entities).insert(id.key, e));
            assert(entity_slots(self.entities).dom() =~= entity_slots(w0.entities).dom());
            assert forall|o: WorldEntityId| #[trigger]
                self.contains(o) && o != id implies self.view_of(o) == w0.view_of(o) by {
                assert(o.key != id.key);
            }
            assert forall|o: WorldEntityId| #[trigger]
                self.contains(o) && o != self.root_entity implies {
                &&& self.view_of(o).spec_parent() is Some
                &&& self.contains(self.parent_of(o))
                &&& self.view_of(self.parent_of(o)).spec_children().contains(o)
                &&& self.depth@[o] == self.depth@[self.parent_of(o)] + 1
            } by {
                assert(w0.contains(o));
                let p = w0.parent_of(o);
                assert(w0.contains(p));
                if o != id {
                    assert(self.view_of(o) == w0.view_of(o));
                }
                if p != id {
                    assert(self.view_of(p) == w0.view_of(p));
                }
            }
            assert forall|p: WorldEntityId, i: int|
                #![trigger self.view_of(p).spec_children()[i]]
                self.contains(p) && 0 <= i < self.view_of(p).spec_children().len()
                implies self.contains(self.view_of(p).spec_children()[i]) && self.view_of(
                self.view_of(p).spec_children()[i],
            ).spec_parent() == Some(p) && (self.view_of(p).spec_clean() ==> self.view_of(
                self.view_of(p).spec_children()[i],
            ).spec_parent_transform() == self.view_of(p).spec_transform()) by {
                assert(w0.view_of(p).spec_children()[i] == self.view_of(p).spec_children()[i]);
            }
            assert forall|p: WorldEntityId| #[trigger]
                self.contains(p) implies self.view_of(p).spec_children().no_duplicates() by {
                assert(w0.contains(p));
            }
        }
    }

    /// What the tree invariant says of the children of `p`.
    proof fn lemma_children_of(&self, p: WorldEntityId)
        requires
            self.wf(),
            self.contains(p),
        ensures
            self.view_of(p).spec_children().no_duplicates(),
            forall|k: int|
                0 <= k < self.view_of(p).spec_children().len() ==> {
                    &&& self.contains(#[trigger] self.view_of(p).spec_children()[k])
                    &&& self.view_of(self.view_of(p).spec_children()[k]).spec_parent() == Some(p)
                    &&& self.view_of(p).spec_children()[k] != self.root_entity
                    &&& (self.view_of(p).spec_clean() ==> self.view_of(
                        self.view_of(p).spec_children()[k],
                    ).spec_parent_transform() == self.view_of(p).spec_transform())
                },
    {
        reveal(World::wf);
        assert forall|k: int| 0 <= k < self.view_of(p).spec_children().len() implies
            self.view_of(p).spec_children()[k] != self.root_entity by {
            let c = self.view_of(p).spec_children()[k];
            assert(self.view_of(c).spec_parent() == Some(p));
        }
    }

    /// What the tree invariant says of the parent of `o`.
    proof fn lemma_parent_of(&self, o: WorldEntityId)
        requires
            self.wf(),
            self.contains(o),
            o != self.root_entity,
        ensures
            self.view_of(o).spec_parent() is Some,
            self.contains(self.parent_of(o)),
            self.view_of(self.parent_of(o)).spec_children().contains(o),
            self.parent_of(o) != o,
            self.depth@[self.parent_of(o)] < self.depth@[o],
    {
        reveal(World::wf);
    }

    /// Whether `e` is `top` or lies below it, following parent links up.
    spec fn in_subtree(&self, top: WorldEntityId, e: WorldEntityId) -> bool
        decreases self.depth@[e],
    {
        if e == top {
            true
        } else if e == self.root_entity || !self.contains(e) || self.view_of(e).spec_parent() is None {
            false
        } else if self.depth@[self.parent_of(e)] < self.depth@[e] {
            self.in_subtree(top, self.parent_of(e))
        } else {
            false
        }
    }

    /// Every member of the subtree of `top` is at least as deep as `top`,
    /// which is an entity.
    proof fn lemma_subtree_depth(&self, top: WorldEntityId, e: WorldEntityId)
        requires
            self.wf(),
            self.contains(e),
            self.in_subtree(top, e),
        ensures
            self.depth@[top] <= self.depth@[e],
            self.contains(top),
        decreases self.depth@[e],
    {
        if e != top {
            self.lemma_parent_of(e);
            self.lemma_subtree_depth(top, self.parent_of(e));
        }
    }

    /// Moves `c`, with everything below it, under `n`; `n` must not lie below
    /// `c` and must not be clean.
    #[verifier::spinoff_prover]
    #[verifier::rlimit(60)]
    fn reparent(&mut self, c: WorldEntityId, n: WorldEntityId)
        requires
            old(self).wf(),
            old(self).contains(c),
            old(self).contains(n),
            c != old(self).spec_root(),
            !old(self).in_subtree(c, n),
            !old(self).view_of(n).spec_clean(),
        ensures
            final(self).wf(),
            entity_slots(final(self).entities).dom() == entity_slots(old(self).entities).dom(),
            final(self).root_entity == old(self).root_entity,
            final(self).view_of(c).spec_parent() == Some(n),
            old(self).view_of(c).spec_parent() != Some(n) ==> final(self).view_of(n).spec_children()
                == old(self).view_of(n).spec_children().push(c),
            !final(self).view_of(n).spec_clean(),
            forall|o: WorldEntityId| #[trigger]
                old(self).contains(o) && !old(self).in_subtree(c, o) ==> final(self).depth@[o] == old(
                    self).depth@[o],
            forall|x: WorldEntityId| #[trigger]
                final(self).view_of(n).spec_children().contains(x) <==> old(self).view_of(
                    n,
                ).spec_children().contains(x) || x == c,
            forall|o: WorldEntityId| #[trigger]
                old(self).contains(o) ==> {
                    &&& final(self).view_of(o).spec_local_transform() == old(self).view_of(
                        o,
                    ).spec_local_transform()
                    &&& final(self).view_of(o).spec_parent_transform() == old(self).view_of(
                        o,
                    ).spec_parent_transform()
                    &&& final(self).view_of(o).spec_clean() == old(self).view_of(o).spec_clean()
                    &&& (o != c ==> final(self).view_of(o).spec_parent() == old(self).view_of(
                        o,
                    ).spec_parent())
                    &&& (o != n ==> forall|x: WorldEntityId| #[trigger]
                        final(self).view_of(o).spec_children().contains(x) <==> old(self).view_of(
                            o,
                        ).spec_children().contains(x) && x != c)
                },
    {
        let ghost w0 = *self;
        proof {
            reveal(World::wf);
            w0.lemma_parent_of(c);
            assert(w0.in_subtree(c, c));
        }
        let q0 = match self.entities.at(c.key).parent {
            Some(q) => q,
            None => {
                return;
            },
        };
        let mut qe = self.entities.at(q0.key).copy();
        let idx = position_of(&qe.children, c);
        qe.children.remove(idx);
        self.entities.set(q0.key, qe);
        let mut ce = self.entities.at(c.key).copy();
        ce.parent = Some(n);
        self.entities.set(c.key, ce);
        let mut ne = self.entities.at(n.key).copy();
        let ghost n_list_before = ne.children@;
        ne.children.push(c);
        self.entities.set(n.key, ne);
        let ghost d0 = w0.depth@;
        let ghost nd = Map::new(
            |e: WorldEntityId| d0.contains_key(e),
            |e: WorldEntityId|
                if w0.in_subtree(c, e) {
                    (d0[e] - d0[c] + d0[n] + 1) as nat
                } else {
                    d0[e]
                },
        );
        self.depth = Ghost(nd);
        proof {
            let m0 = entity_slots(w0.entities);
            let m1 = entity_slots(self.entities);
            let old_q_list = w0.view_of(q0).spec_children();
            lemma_remove_no_dup(old_q_list, idx as int);
            assert(c != n);
            assert(c != q0);
            assert(m1.dom() =~= m0.dom());
            // what each entity now is
            assert(self.view_of(c).spec_parent() == Some(n));
            assert(self.view_of(c).spec_children() == w0.view_of(c).spec_children());
            if q0 != n {
                assert(self.view_of(q0).spec_children() == old_q_list.remove(idx as int));
                assert(n_list_before == w0.view_of(n).spec_children());
                assert(!n_list_before.contains(c)) by {
                    if n_list_before.contains(c) {
                        let k = choose|k: int| 0 <= k < n_list_before.len() && n_list_before[k] == c;
                        assert(w0.view_of(w0.view_of(n).spec_children()[k]).spec_parent() == Some(n));
                    }
                }
            } else {
                assert(n_list_before == old_q_list.remove(idx as int));
            }
            lemma_push_no_dup(n_list_before, c);
            assert(self.view_of(n).spec_children() == n_list_before.push(c));
            assert forall|o: WorldEntityId| #[trigger]
                self.contains(o) && o != c && o != q0 && o != n implies self.view_of(o) == w0.view_of(o) by {
                assert(o.key != c.key);
                assert(o.key != q0.key);
                assert(o.key != n.key);
            }
            assert forall|e: WorldEntityId| #[trigger]
                w0.contains(e) && w0.in_subtree(c, e) implies d0[c] <= d0[e] by {
                w0.lemma_subtree_depth(c, e);
            }
            // the tree links and depths
            assert forall|o: WorldEntityId| #[trigger]
                self.contains(o) && o != self.root_entity implies {
                &&& self.view_of(o).spec_parent() is Some
                &&& self.contains(self.parent_of(o))
                &&& self.view_of(self.parent_of(o)).spec_children().contains(o)
                &&& self.depth@[o] == self.depth@[self.parent_of(o)] + 1
            } by {
                assert(w0.contains(o));
                w0.lemma_parent_of(o);
                if o == c {
                    assert(self.view_of(n).spec_children().contains(c));
                } else {
                    let q = w0.parent_of(o);
                    assert(self.view_of(o).spec_parent() == w0.view_of(o).spec_parent());
                    assert(w0.in_subtree(c, o) == w0.in_subtree(c, q));
                    if w0.in_subtree(c, o) {
                        w0.lemma_subtree_depth(c, q);
                    }
                    if q == n {
                        if q0 == n {
                            assert(old_q_list.remove(idx as int).contains(o));
                        }
                        assert(n_list_before.push(c).contains(o));
                    } else if q == q0 {
                        assert(old_q_list.remove(idx as int).contains(o));
                    } else if q != c {
                        assert(self.view_of(q) == w0.view_of(q));
                    }
                }
            }
            assert forall|p: WorldEntityId, i: int|
                #![trigger self.view_of(p).spec_children()[i]]
                self.contains(p) && 0 <= i < self.view_of(p).spec_children().len()
                implies self.contains(self.view_of(p).spec_children()[i]) && self.view_of(
                self.view_of(p).spec_children()[i],
            ).spec_parent() == Some(p) && (self.view_of(p).spec_clean() ==> self.view_of(
                self.view_of(p).spec_children()[i],
            ).spec_parent_transform() == self.view_of(p).spec_transform()) by {
                let x = self.view_of(p).spec_children()[i];
                assert(self.view_of(p).spec_children().contains(x));
                assert(w0.contains(p));
                if x == c {
                    if p != n {
                        if p == q0 {
                            assert(!old_q_list.remove(idx as int).contains(c));
                        } else {
                            assert(self.view_of(p) == w0.view_of(p));
                            assert(w0.view_of(p).spec_children().contains(c));
                            let k = choose|k: int| 0 <= k < w0.view_of(p).spec_children().len() && w0.view_of(p).spec_children()[k] == c;
                            assert(w0.view_of(w0.view_of(p).spec_children()[k]).spec_parent() == Some(p));
                        }
                    }
                } else {
                    let lp = w0.view_of(p).spec_children();
                    assert(lp.contains(x)) by {
                        if p == n {
                            assert(n_list_before.push(c).contains(x));
                            if q0 == n {
                                assert(old_q_list.remove(idx as int).contains(x));
                            }
                        } else if p == q0 {
                            assert(old_q_list.remove(idx as int).contains(x));
                        } else if p != c {
                            assert(self.view_of(p) == w0.view_of(p));
                        }
                    }
                    let k = choose|k: int| 0 <= k < lp.len() && lp[k] == x;
                    assert(w0.contains(lp[k]) && w0.view_of(lp[k]).spec_parent() == Some(p));
                    assert(w0.view_of(p).spec_clean() ==> w0.view_of(lp[k]).spec_parent_transform()
                        == w0.view_of(p).spec_transform());
                    if x != n && x != q0 {
                        assert(self.view_of(x) == w0.view_of(x));
                    }
                }
            }
            assert forall|p: WorldEntityId| #[trigger]
                self.contains(p) implies self.view_of(p).spec_children().no_duplicates() by {
                assert(w0.contains(p));
                if p != n && p != q0 && p != c {
                    assert(self.view_of(p) == w0.view_of(p));
                }
            }
            assert forall|o: WorldEntityId| #[trigger] old(self).contains(o) implies {
                &&& self.view_of(o).spec_local_transform() == w0.view_of(o).spec_local_transform()
                &&& self.view_of(o).spec_parent_transform() == w0.view_of(o).spec_parent_transform()
                &&& self.view_of(o).spec_clean() == w0.view_of(o).spec_clean()
                &&& (o != c ==> self.view_of(o).spec_parent() == w0.view_of(o).spec_parent())
                &&& (o != n ==> forall|x: WorldEntityId| #[trigger]
                    self.view_of(o).spec_children().contains(x) <==> w0.view_of(o).spec_children().contains(x)
                        && x != c)
            } by {
                if o != n && o != q0 {
                    if o != c {
                        assert(self.view_of(o) == w0.view_of(o));
                    }
                    assert forall|x: WorldEntityId| #[trigger]
                        self.view_of(o).spec_children().contains(x) implies x != c by {
                        if self.view_of(o).spec_children().contains(x) && x == c {
                            let lo = w0.view_of(o).spec_children();
                            let k = choose|k: int| 0 <= k < lo.len() && lo[k] == c;
                            assert(w0.view_of(lo[k]).spec_parent() == Some(o));
                        }
                    }
                }
            }
        }
    }

    /// Whether `e` is `top` or lies below it.
    fn is_in_subtree(&self, top: WorldEntityId, e: WorldEntityId) -> (r: bool)
        requires
            self.wf(),
            self.contains(e),
        ensures
            r == self.in_subtree(top, e),
    {
        let mut cur = e;
        loop
            invariant
                self.wf(),
                self.contains(cur),
                self.in_subtree(top, e) == self.in_subtree(top, cur),
            decreases self.depth@[cur],
        {
            if same_key(cur.key, top.key) {
                return true;
            }
            if same_key(cur.key, self.root_entity.key) {
                return false;
            }
            proof {
                self.lemma_parent_of(cur);
            }
            let next = match self.entities.at(cur.key).parent {
                Some(q) => q,
                None => {
                    return false;
                },
            };
            cur = next;
        }
    }

    /// The root is an entity and has no parent.
    proof fn lemma_root(&self)
        requires
            self.wf(),
        ensures
            self.contains(self.root_entity),
            self.view_of(self.root_entity).spec_parent() is None,
            entity_slots(self.entities).dom().finite(),
    {
        reveal(World::wf);
    }

    /// Hands `t` down to every child of `cur`, whose clean flag must be unset.
    fn hand_down_all(&mut self, cur: WorldEntityId, children: &Vec<WorldEntityId>, t: SpatialTransform)
        requires
            old(self).wf(),
            old(self).contains(cur),
            children@ == old(self).view_of(cur).spec_children(),
            !old(self).view_of(cur).spec_clean(),
        ensures
            final(self).wf(),
            final(self).same_shape(old(self)),
            entity_slots(final(self).entities).dom() == entity_slots(old(self).entities).dom(),
            final(self).depth == old(self).depth,
            final(self).root_entity == old(self).root_entity,
            final(self).view_of(cur) == old(self).view_of(cur),
            forall|k: int|
                0 <= k < children@.len() ==> final(self).view_of(
                    #[trigger] children@[k],
                ).spec_parent_transform() == t,
            forall|o: WorldEntityId| #[trigger]
                final(self).contains(o) && !children@.contains(o) ==> final(self).view_of(o)
                    == old(self).view_of(o),
    {
        let ghost w1 = *self;
        proof {
            w1.lemma_children_of(cur);
        }
        let mut i: usize = 0;
        while i < children.len()
            invariant
                0 <= i <= children.len(),
                children@ == w1.view_of(cur).spec_children(),
                children@.no_duplicates(),
                forall|k: int| 0 <= k < children@.len() ==> w1.contains(
                    #[trigger] children@[k],
                ) && w1.view_of(children@[k]).spec_parent() == Some(cur) && children@[k] != w1.root_entity,
                w1.contains(cur),
                !w1.view_of(cur).spec_clean(),
                self.wf(),
                self.same_shape(&w1),
                entity_slots(self.entities).dom() == entity_slots(w1.entities).dom(),
                self.depth == w1.depth,
                self.root_entity == w1.root_entity,
                self.view_of(cur) == w1.view_of(cur),
                forall|k: int|
                    0 <= k < i ==> self.view_of(#[trigger] children@[k]).spec_parent_transform() == t,
                forall|o: WorldEntityId| #[trigger]
                    self.contains(o) && !children@.subrange(0, i as int).contains(o)
                        ==> self.view_of(o) == w1.view_of(o),
            decreases children.len() - i,
        {
            let c = children[i];
            proof {
                assert(children@[i as int] == c);
                assert(w1.view_of(c).spec_parent() == Some(cur));
                assert(self.view_of(c).spec_parent() == Some(cur));
            }
            let ghost pre = *self;
            self.hand_down(c, t);
            proof {
                assert forall|o: WorldEntityId| #[trigger]
                    self.contains(o) && !children@.subrange(0, i + 1).contains(o)
                    implies self.view_of(o) == w1.view_of(o) by {
                    assert(children@.subrange(0, i + 1)[i as int] == c);
                    assert(o != c);
                    assert(pre.contains(o));
                    assert(self.view_of(o) == pre.view_of(o));
                    if children@.subrange(0, i as int).contains(o) {
                        let k = choose|k: int| 0 <= k < i && #[trigger] children@.subrange(0, i as int)[k] == o;
                        assert(children@.subrange(0, i + 1)[k] == o);
                    }
                }
                assert forall|k: int|
                    0 <= k < i + 1 implies self.view_of(#[trigger] children@[k]).spec_parent_transform()
                        == t by {
                    if k < i {
                        assert(children@[k] != c);
                    }
                }
                if cur == c {
                    assert(w1.view_of(cur).spec_parent() == Some(cur));
                    assert(w1.contains(cur) && cur != w1.root_entity);
                    reveal(World::wf);
                    assert(w1.depth@[cur] == w1.depth@[cur] + 1);
                }
            }
            i = i + 1;
        }
        proof {
            assert(children@.subrange(0, children@.len() as int) =~= children@);
        }
    }

    /// Every entity reached by the walk has been visited: the root, and any
    /// entity whose parent was visited.
    proof fn lemma_all_visited(&self, visited: Set<DefaultKey>, id: WorldEntityId)
        requires
            self.wf(),
            self.contains(id),
            visited.contains(self.root_entity.key),
            forall|o: WorldEntityId| #[trigger]
                self.contains(o) && o != self.root_entity && visited.contains(self.parent_of(o).key)
                    ==> visited.contains(o.key),
        ensures
            visited.contains(id.key),
        decreases self.depth@[id],
    {
        reveal(World::wf);
        if id != self.root_entity {
            let p = self.parent_of(id);
            assert(self.contains(p));
            self.lemma_all_visited(visited, p);
        }
    }

    /// The state of the breadth-first walk of `propagate`, started on `w0`:
    /// `visited` holds the entities already handled (all clean, closed under
    /// parents), `queue` those whose parent was handled and which wait.
    #[verifier::opaque]
    spec fn walk_inv(&self, w0: World, queue: Seq<WorldEntityId>, visited: Set<DefaultKey>) -> bool {
        let root = w0.root_entity;
        &&& self.wf()
        &&& self.same_shape(&w0)
        &&& entity_slots(self.entities).dom() == entity_slots(w0.entities).dom()
        &&& self.depth == w0.depth
        &&& self.root_entity == root
        &&& self.view_of(root).spec_parent_transform() == w0.view_of(root).spec_parent_transform()
        &&& (w0.all_clean() ==> entity_slots(self.entities) == entity_slots(w0.entities))
        &&& (w0.wf() && forall|e: WorldEntityId| #[trigger]
            w0.contains(e) && w0.clean_above(e) ==> self.view_of(e) == w0.view_of(e))
        &&& visited.subset_of(entity_slots(self.entities).dom())
        &&& (forall|o: WorldEntityId| #[trigger]
            visited.contains(o.key) ==> self.contains(o) && self.view_of(o).spec_clean())
        &&& (forall|o: WorldEntityId| #[trigger]
            visited.contains(o.key) && o != root ==> visited.contains(self.parent_of(o).key))
        &&& queue.no_duplicates()
        &&& (forall|i: int|
            0 <= i < queue.len() ==> self.contains(#[trigger] queue[i]) && !visited.contains(
                queue[i].key,
            ) && (queue[i] != root ==> visited.contains(self.parent_of(queue[i]).key)))
        &&& (visited.contains(root.key) || queue.contains(root))
        &&& (forall|o: WorldEntityId| #[trigger]
            self.contains(o) && o != root && visited.contains(self.parent_of(o).key)
                ==> visited.contains(o.key) || queue.contains(o))
    }

    /// What the walk state says of the entity at the back of the queue.
    proof fn lemma_walk_pop(&self, w0: World, queue_full: Seq<WorldEntityId>, visited: Set<DefaultKey>)
        requires
            self.walk_inv(w0, queue_full, visited),
            queue_full.len() > 0,
        ensures
            self.wf(),
            self.contains(queue_full.last()),
            queue_full.drop_last().no_duplicates(),
            self.view_of(queue_full.last()).spec_children().no_duplicates(),
            forall|x: WorldEntityId| #[trigger]
                self.view_of(queue_full.last()).spec_children().contains(x) ==> !queue_full.drop_last().contains(x),
    {
        reveal(World::walk_inv);
        let cur = queue_full.last();
        let rest = queue_full.drop_last();
        assert(queue_full[queue_full.len() - 1] == cur);
        self.lemma_children_of(cur);
        assert forall|a: int, b: int| 0 <= a < b < rest.len() implies rest[a] != rest[b] by {
            assert(queue_full[a] == rest[a]);
            assert(queue_full[b] == rest[b]);
        }
        assert forall|x: WorldEntityId| #[trigger]
            self.view_of(cur).spec_children().contains(x) implies !rest.contains(x) by {
            let k = choose|k: int| 0 <= k < self.view_of(cur).spec_children().len() && self.view_of(cur).spec_children()[k] == x;
            if rest.contains(x) {
                let m = choose|m: int| 0 <= m < rest.len() && rest[m] == x;
                assert(queue_full[m] == x);
                assert(x != w0.root_entity);
                assert(visited.contains(self.parent_of(x).key));
            }
        }
    }

    /// A step of the walk changes no entity that was clean, with everything
    /// above it, when the walk began.
    proof fn lemma_clean_kept(w_start: World, w_end: World, w0: World, cur: WorldEntityId)
        requires
            w0.wf(),
            w_start.wf(),
            w_start.same_shape(&w0),
            w_start.contains(cur),
            forall|e: WorldEntityId| #[trigger]
                w0.contains(e) && w0.clean_above(e) ==> w_start.view_of(e) == w0.view_of(e),
            forall|o: WorldEntityId| #[trigger]
                w_end.contains(o) && !w_start.view_of(cur).spec_children().contains(o) && o != cur
                    ==> w_end.view_of(o) == w_start.view_of(o),
            w_start.view_of(cur).spec_clean() ==> entity_slots(w_end.entities) == entity_slots(
                w_start.entities,
            ),
            forall|o: WorldEntityId| #[trigger] w_end.contains(o) == w_start.contains(o),
        ensures
            forall|e: WorldEntityId| #[trigger]
                w0.contains(e) && w0.clean_above(e) ==> w_end.view_of(e) == w0.view_of(e),
    {
        assert forall|e: WorldEntityId| #[trigger]
            w0.contains(e) && w0.clean_above(e) implies w_end.view_of(e) == w0.view_of(e) by {
            if !w_start.view_of(cur).spec_clean() {
                if e == cur {
                    w0.lemma_lies_within_step(cur, cur);
                    assert(w0.lies_within(cur, cur));
                    assert(w0.view_of(cur).spec_clean());
                    assert(w_start.view_of(cur) == w0.view_of(cur));
                } else if w_start.view_of(cur).spec_children().contains(e) {
                    w_start.lemma_children_of(cur);
                    let k = choose|k: int| 0 <= k < w_start.view_of(cur).spec_children().len()
                        && w_start.view_of(cur).spec_children()[k] == e;
                    assert(w_start.view_of(e).spec_parent() == Some(cur));
                    assert(w0.view_of(e).spec_parent() == Some(cur));
                    assert(e != w0.root_entity) by {
                        w0.lemma_root();
                    }
                    assert(w0.contains(cur));
                    assert forall|x: WorldEntityId| #[trigger] w0.lies_within(x, cur) implies w0.view_of(
                        x,
                    ).spec_clean() by {
                        w0.lemma_lies_within_step(x, e);
                    }
                    w0.lemma_lies_within_step(cur, cur);
                    assert(w0.lies_within(cur, cur));
                    assert(w0.clean_above(cur));
                    assert(w_start.view_of(cur) == w0.view_of(cur));
                } else {
                    assert(w_start.contains(e));
                    assert(w_end.contains(e));
                    assert(w_end.view_of(e) == w_start.view_of(e));
                }
            } else {
                assert(w_start.contains(e));
                assert(w_end.view_of(e) == w_start.view_of(e));
            }
        }
    }

    /// The walk state after one step: the entity at the back of the queue is
    /// handled and its children are queued.
    #[verifier::spinoff_prover]
    #[verifier::rlimit(60)]
    proof fn lemma_walk_step(
        w_start: World,
        w_end: World,
        w0: World,
        queue_full: Seq<WorldEntityId>,
        new_queue: Seq<WorldEntityId>,
        visited: Set<DefaultKey>,
    )
        requires
            w_start.walk_inv(w0, queue_full, visited),
            queue_full.len() > 0,
            w_end.wf(),
            w_end.same_shape(&w_start),
            entity_slots(w_end.entities).dom() == entity_slots(w_start.entities).dom(),
            w_end.depth == w_start.depth,
            w_end.root_entity == w_start.root_entity,
            w_end.view_of(queue_full.last()).spec_clean(),
            w_end.view_of(queue_full.last()).spec_parent_transform() == w_start.view_of(
                queue_full.last(),
            ).spec_parent_transform(),
            forall|o: WorldEntityId| #[trigger]
                w_end.contains(o) && !w_start.view_of(queue_full.last()).spec_children().contains(o)
                    && o != queue_full.last() ==> w_end.view_of(o) == w_start.view_of(o),
            w_start.view_of(queue_full.last()).spec_clean() ==> entity_slots(w_end.entities)
                == entity_slots(w_start.entities),
            new_queue.no_duplicates(),
            forall|x: WorldEntityId| #[trigger]
                new_queue.contains(x) <==> w_start.view_of(queue_full.last()).spec_children().contains(x)
                    || queue_full.drop_last().contains(x),
        ensures
            w_end.walk_inv(w0, new_queue, visited.insert(queue_full.last().key)),
            visited.insert(queue_full.last().key).len() == visited.len() + 1,
    {
        reveal(World::walk_inv);
        World::lemma_clean_kept(w_start, w_end, w0, queue_full.last());
        let root = w0.root_entity;
        let cur = queue_full.last();
        let rest = queue_full.drop_last();
        let children = w_start.view_of(cur).spec_children();
        let new_visited = visited.insert(cur.key);
        assert(queue_full[queue_full.len() - 1] == cur);
        assert(!visited.contains(cur.key));
        w_start.lemma_children_of(cur);
        w_end.lemma_root();
        assert forall|k: int| 0 <= k < children.len() implies !visited.contains(
            (#[trigger] children[k]).key,
        ) && w_start.parent_of(children[k]) == cur by {
            let c = children[k];
            if visited.contains(c.key) {
                assert(visited.contains(w_start.parent_of(c).key));
            }
        }
        assert forall|o: WorldEntityId| #[trigger] new_visited.contains(o.key)
            implies w_end.contains(o) && w_end.view_of(o).spec_clean() by {
            if o != cur {
                if children.contains(o) {
                    let k = choose|k: int| 0 <= k < children.len() && children[k] == o;
                }
                assert(w_end.view_of(o) == w_start.view_of(o));
            }
        }
        assert forall|o: WorldEntityId| #[trigger]
            new_visited.contains(o.key) && o != root implies new_visited.contains(w_end.parent_of(o).key) by {
            if o == cur {
                assert(queue_full[queue_full.len() - 1] == o);
            }
        }
        assert forall|i: int|
            0 <= i < new_queue.len() implies w_end.contains(#[trigger] new_queue[i]) && !new_visited.contains(
                new_queue[i].key,
            ) && (new_queue[i] != root ==> new_visited.contains(w_end.parent_of(new_queue[i]).key)) by {
            let x = new_queue[i];
            assert(new_queue.contains(x));
            if children.contains(x) {
                let k = choose|k: int| 0 <= k < children.len() && children[k] == x;
            } else {
                let k = choose|k: int| 0 <= k < rest.len() && rest[k] == x;
                assert(queue_full[k] == x);
            }
        }
        assert forall|o: WorldEntityId| #[trigger]
            w_end.contains(o) && o != root && new_visited.contains(w_end.parent_of(o).key)
                implies new_visited.contains(o.key) || new_queue.contains(o) by {
            assert(w_start.contains(o));
            assert(w_start.parent_of(o) == w_end.parent_of(o));
            w_start.lemma_parent_of(o);
            if w_start.parent_of(o) == cur {
                assert(children.contains(o));
                assert(new_queue.contains(o));
            } else {
                assert(visited.contains(w_start.parent_of(o).key));
                assert(visited.contains(o.key) || queue_full.contains(o));
                if queue_full.contains(o) && o != cur {
                    let k = choose|k: int| 0 <= k < queue_full.len() && queue_full[k] == o;
                    assert(k < rest.len());
                    assert(rest[k] == o);
                    assert(rest.contains(o));
                }
            }
        }
        if !new_visited.contains(root.key) {
            let k = choose|k: int| 0 <= k < queue_full.len() && queue_full[k] == root;
            assert(k < rest.len());
            assert(rest[k] == root);
        }
        if children.contains(root) {
            let k = choose|k: int| 0 <= k < children.len() && children[k] == root;
        }
        if w0.all_clean() {
            assert(w0.contains(cur));
            assert(w_start.view_of(cur) == w0.view_of(cur));
        }
        World::lemma_same_shape_trans(&w_end, &w_start, &w0);
        if cur != root {
            assert(w_start.contains(root));
            assert(w_end.view_of(root) == w_start.view_of(root));
        }
    }

    /// Handles `cur`: if it is not clean, hands its transform down to its
    /// children and marks it clean. Returns its children.
    #[verifier::spinoff_prover]
    fn visit(&mut self, cur: WorldEntityId) -> (children: Vec<WorldEntityId>)
        requires
            old(self).wf(),
            old(self).contains(cur),
        ensures
            children@ == old(self).view_of(cur).spec_children(),
            final(self).wf(),
            final(self).same_shape(old(self)),
            entity_slots(final(self).entities).dom() == entity_slots(old(self).entities).dom(),
            final(self).depth == old(self).depth,
            final(self).root_entity == old(self).root_entity,
            final(self).view_of(cur).spec_clean(),
            final(self).view_of(cur).spec_parent_transform() == old(self).view_of(
                cur,
            ).spec_parent_transform(),
            forall|o: WorldEntityId| #[trigger]
                final(self).contains(o) && !children@.contains(o) && o != cur ==> final(self).view_of(o)
                    == old(self).view_of(o),
            old(self).view_of(cur).spec_clean() ==> entity_slots(final(self).entities)
                == entity_slots(old(self).entities),
    {
        let ghost w_start = *self;
        let entity = self.entities.at(cur.key);
        let clean = entity.already_propagated;
        let children = copy_ids(&entity.children);
        if !clean {
            let cur_transform = entity.transform();
            self.hand_down_all(cur, &children, cur_transform);
            proof {
                assert forall|k: int|
                    0 <= k < self.view_of(cur).spec_children().len() implies self.view_of(
                    #[trigger] self.view_of(cur).spec_children()[k],
                ).spec_parent_transform() == self.view_of(cur).spec_transform() by {
                    assert(self.view_of(cur).spec_children()[k] == children@[k]);
                }
            }
            let ghost w_mid = *self;
            self.set_clean(cur, true);
            proof {
                assert forall|o: WorldEntityId| #[trigger]
                    self.contains(o) && !children@.contains(o) && o != cur implies self.view_of(o)
                        == w_start.view_of(o) by {
                    assert(w_mid.contains(o));
                    assert(self.view_of(o) == w_mid.view_of(o));
                }
                World::lemma_same_shape_trans(self, &w_mid, &w_start);
            }
        }
        children
    }

    /// One step of the walk: takes the oldest waiting entity, hands its
    /// transform down if it is not clean, and queues its children.
    fn visit_next(
        &mut self,
        queue: &mut VecDeque<WorldEntityId>,
        Ghost(w0): Ghost<World>,
        Ghost(visited): Ghost<Set<DefaultKey>>,
    ) -> (r: Ghost<Set<DefaultKey>>)
        requires
            old(self).walk_inv(w0, old(queue)@, visited),
            old(queue)@.len() > 0,
        ensures
            final(self).walk_inv(w0, final(queue)@, r@),
            r@.len() == visited.len() + 1,
    {
        let ghost queue_full = queue@;
        let ghost w_start = *self;
        proof {
            self.lemma_walk_pop(w0, queue_full, visited);
        }
        let cur = queue.pop_back().unwrap();
        let children = self.visit(cur);
        proof {
            assert(queue@ == queue_full.drop_last());
        }
        enqueue_children(queue, &children);
        proof {
            World::lemma_walk_step(w_start, *self, w0, queue_full, queue@, visited);
        }
        Ghost(visited.insert(cur.key))
    }

    /// Walks the tree breadth-first from the root. Each entity whose clean flag
    /// is unset hands its overall transform down to its children, which become
    /// unclean, and is then marked clean. Every entity is visited once.
    pub fn propagate(&mut self)
        requires
            old(self).wf(),
        ensures
            final(self).wf(),
            final(self).same_shape(old(self)),
            final(self).entity_count() == old(self).entity_count(),
            final(self).all_clean(),
            final(self).transforms_resolved(),
            final(self).view_of(final(self).spec_root()).spec_parent_transform() == old(self).view_of(old(self).spec_root()).spec_parent_transform(),
            old(self).all_clean() ==> final(self).same_entities(old(self)),
            forall|e: WorldEntityId| #[trigger]
                old(self).contains(e) && old(self).clean_above(e) ==> final(self).view_of(e) == old(
                    self).view_of(e),
            final(self).propagated_from(old(self)),
    {
        let ghost w0 = *self;
        let root = self.root_entity;
        let mut queue: VecDeque<WorldEntityId> = VecDeque::new();
        queue.push_front(root);
        let ghost mut visited: Set<DefaultKey> = Set::empty();
        proof {
            reveal(World::walk_inv);
            assert(queue@[0] == root);
            w0.lemma_root();
        }
        while queue.len() > 0
            invariant
                self.walk_inv(w0, queue@, visited),
                visited.finite(),
                w0.root_entity == root,
            decreases entity_slots(self.entities).dom().len() - visited.len(),
        {
            let v = self.visit_next(&mut queue, Ghost(w0), Ghost(visited));
            proof {
                visited = v@;
                reveal(World::walk_inv);
                self.lemma_root();
                vstd::set_lib::lemma_len_subset(visited, entity_slots(self.entities).dom());
            }
        }
        proof {
            reveal(World::walk_inv);
            assert(visited.contains(root.key));
            assert forall|o: WorldEntityId| #[trigger] self.contains(o) implies self.view_of(o).spec_clean() by {
                self.lemma_all_visited(visited, o);
            }
            assert forall|o: WorldEntityId| #[trigger]
                self.contains(o) && o != self.spec_root() implies self.view_of(o).spec_transform()
                    == spec_combine(
                    self.view_of(self.parent_of(o)).spec_transform(),
                    self.view_of(o).spec_local_transform(),
                ) by {
                self.lemma_parent_of(o);
                let p = self.parent_of(o);
                self.lemma_children_of(p);
                let k = choose|k: int| 0 <= k < self.view_of(p).spec_children().len() && self.view_of(p).spec_children()[k] == o;
            }
        }
    }

    /// Replaces the local transform of `id` and clears its clean flag.
    pub fn update_local_transform(&mut self, id: WorldEntityId, local: SpatialTransform) -> (r: Result<
        (),
        WorldError,
    >)
        requires
            old(self).wf(),
        ensures
            final(self).wf(),
            final(self).same_shape_except_local(old(self), id),
            final(self).entity_count() == old(self).entity_count(),
            match r {
                Ok(()) => {
                    &&& old(self).contains(id)
                    &&& final(self).view_of(id).spec_local_transform() == local
                    &&& !final(self).view_of(id).spec_clean()
                    &&& final(self).view_of(id).spec_parent_transform() == old(self).view_of(
                        id,
                    ).spec_parent_transform()
                    &&& forall|o: WorldEntityId| #[trigger]
                        final(self).contains(o) && o != id ==> final(self).view_of(o) == old(self).view_of(o)
                },
                Err(e) => {
                    &&& !old(self).contains(id)
                    &&& e == WorldError::EntityNotFound(id)
                    &&& *final(self) == *old(self)
                },
            },
    {
        let entity = match self.entities.get(id.key) {
            Some(e) => e,
            None => {
                return Err(WorldError::EntityNotFound(id));
            },
        };
        let ghost w0 = *self;
        let mut e = entity.copy();
        e.update_local_transform(local);
        self.entities.set(id.key, e);
        proof {
            reveal(World::wf);
            assert(entity_slots(self.entities) == entity_slots(w0.entities).insert(id.key, e));
            assert(entity_slots(self.entities).dom() =~= entity_slots(w0.entities).dom());
            assert forall|o: WorldEntityId| #[trigger]
                self.contains(o) && o != id implies self.view_of(o) == w0.view_of(o) by {
                assert(o.key != id.key);
            }
            assert forall|o: WorldEntityId| #[trigger]
                self.contains(o) && o != self.root_entity implies {
                &&& self.view_of(o).spec_parent() is Some
                &&& self.contains(self.parent_of(o))
                &&& self.view_of(self.parent_of(o)).spec_children().contains(o)
                &&& self.depth@[o] == self.depth@[self.parent_of(o)] + 1
            } by {
                assert(w0.contains(o));
                let p = w0.parent_of(o);
                assert(w0.contains(p));
                if o != id {
                    assert(self.view_of(o) == w0.view_of(o));
                }
                if p != id {
                    assert(self.view_of(p) == w0.view_of(p));
                }
            }
            assert forall|p: WorldEntityId, i: int|
                #![trigger self.view_of(p).spec_children()[i]]
                self.contains(p) && 0 <= i < self.view_of(p).spec_children().len()
                implies self.contains(self.view_of(p).spec_children()[i]) && self.view_of(
                self.view_of(p).spec_children()[i],
            ).spec_parent() == Some(p) && (self.view_of(p).spec_clean() ==> self.view_of(
                self.view_of(p).spec_children()[i],
            ).spec_parent_transform() == self.view_of(p).spec_transform()) by {
                assert(w0.view_of(p).spec_children()[i] == self.view_of(p).spec_children()[i]);
            }
            assert forall|p: WorldEntityId| #[trigger]
                self.contains(p) implies self.view_of(p).spec_children().no_duplicates() by {
                assert(w0.contains(p));
            }
        }
        Ok(())
    }

    /// Replaces the parent transform of `id` and clears its clean flag. The
    /// parent's clean flag is cleared too, so the next propagation hands the
    /// parent's transform down again; only the root keeps a parent transform
    /// of its own.
    pub fn update_parent_transform(&mut self, id: WorldEntityId, parent_transform: SpatialTransform) -> (r: Result<
        (),
        WorldError,
    >)
        requires
            old(self).wf(),
        ensures
            final(self).wf(),
            final(self).same_shape(old(self)),
            final(self).entity_count() == old(self).entity_count(),
            match r {
                Ok(()) => {
                    &&& old(self).contains(id)
                    &&& final(self).view_of(id).spec_parent_transform() == parent_transform
                    &&& !final(self).view_of(id).spec_clean()
                    &&& (id != old(self).spec_root() ==> !final(self).view_of(
                        old(self).parent_of(id),
                    ).spec_clean())
                    &&& forall|o: WorldEntityId| #[trigger]
                        final(self).contains(o) && o != id && (id == old(self).spec_root() || o
                            != old(self).parent_of(id)) ==> final(self).view_of(o) == old(self).view_of(o)
                },
                Err(e) => {
                    &&& !old(self).contains(id)
                    &&& e == WorldError::EntityNotFound(id)
                    &&& *final(self) == *old(self)
                },
            },
    {
        let entity = match self.entities.get(id.key) {
            Some(e) => e,
            None => {
                return Err(WorldError::EntityNotFound(id));
            },
        };
        let ghost w0 = *self;
        proof {
            w0.lemma_root();
        }
        match entity.parent {
            Some(q) => {
                proof {
                    if id == w0.root_entity {
                        assert(w0.view_of(id).spec_parent() is None);
                    }
                    w0.lemma_parent_of(id);
                    assert(w0.parent_of(id) == q);
                }
                self.set_clean(q, false);
                let ghost w1 = *self;
                self.hand_down(id, parent_transform);
                proof {
                    assert(self.view_of(q) == w1.view_of(q));
                    World::lemma_same_shape_trans(self, &w1, &w0);
                    assert forall|o: WorldEntityId| #[trigger]
                        self.contains(o) && o != id && o != q implies self.view_of(o) == w0.view_of(o) by {
                        assert(w1.contains(o));
                    }
                }
            },
            None => {
                proof {
                    if id != w0.root_entity {
                        w0.lemma_parent_of(id);
                    }
                }
                self.hand_down(id, parent_transform);
            },
        }
        Ok(())
    }

    /// The root entity.
    pub fn root(&self) -> (r: WorldEntityId)
        ensures
            r == self.spec_root(),
    {
        self.root_entity
    }

    /// The entity that `id` resolves to, or `None` for an unknown or stale id.
    pub fn entity(&self, id: WorldEntityId) -> (r: Option<&WorldEntity>)
        ensures
            match r {
                Some(e) => self.contains(id) && *e == self.view_of(id),
                None => !self.contains(id),
            },
    {
        self.entities.get(id.key)
    }
}

/// Propagating twice in a row does no more than propagating once: the second
/// propagation leaves every entity, its transforms and its clean flag, as the
/// first one left it, and no entity is dirty afterwards.
pub proof fn lemma_propagate_idempotent(w0: &World, w1: &World, w2: &World)
    requires
        w0.wf(),
        w1.propagated_from(w0),
        w2.propagated_from(w1),
    ensures
        w2.same_entities(w1),
        w2.all_clean(),
        forall|id: WorldEntityId| #[trigger]
            w2.contains(id) ==> w2.view_of(id).spec_transform() == w1.view_of(id).spec_transform(),
{
}

/// After a propagation, each non-root entity's overall transform is its
/// parent's overall transform combined with its own local transform.
pub proof fn lemma_propagation_resolves(before: &World, after: &World, id: WorldEntityId)
    requires
        before.wf(),
        after.propagated_from(before),
        after.contains(id),
        id != after.spec_root(),
    ensures
        after.view_of(id).spec_transform() == spec_combine(
            after.view_of(after.parent_of(id)).spec_transform(),
            after.view_of(id).spec_local_transform(),
        ),
{
}

} // verus!
