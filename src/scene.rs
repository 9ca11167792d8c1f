//! The scene: mesh instances grouped by mesh, and their assembly into render commands.
use vstd::prelude::*;
use slotmap::DefaultKey;
use crate::assets::{AssetStore, MaterialId, MeshId, SpriteTextureId, is_render_command};
use crate::commands::MeshRenderCommand;
use crate::instance_buffer::InstanceBuffer;
use crate::renderer::{BindGroupId, PipelineId};
use crate::slots::{InstanceLists, InstanceSlots, instance_lists, instance_slots, is_null_key, slot_of};
use crate::transform::SpatialTransform;
use crate::world::{World, WorldEntityId};

verus! {

/// Refers to a mesh instance of a `Scene`.
#[derive(Clone, Copy, Debug, PartialEq, Eq, Hash)]
pub struct MeshInstanceId {
    pub key: DefaultKey,
}

/// Binds a mesh to the entity that places it.
#[derive(Clone, Copy, Debug, PartialEq, Eq)]
pub struct MeshInstance {
    pub mesh: MeshId,
    pub entity: WorldEntityId,
}

/// A sprite drawn at the place of an entity.
#[derive(Clone, Copy, Debug, PartialEq, Eq)]
pub struct SpriteInstance {
    pub entity: WorldEntityId,
    pub texture: SpriteTextureId,
}

/// Why the scene could not be turned into commands.
#[derive(Clone, Copy, Debug, PartialEq, Eq)]
pub enum SceneError {
    MeshNotFound(MeshId),
    MaterialNotFound(MaterialId),
    MeshInstanceNotFound(MeshInstanceId),
    EntityNotFound(WorldEntityId),
}

/// The mesh instances to draw, grouped by mesh, with the pipeline and the
/// camera and lighting bind groups they are drawn with.
pub struct Scene {
    mesh_instances: InstanceSlots,
    instances_by_mesh: InstanceLists,
    pipeline: PipelineId,
    global_bind_group: BindGroupId,
    lighting_bind_group: BindGroupId,
}

/// A copy of a list of instance ids.
fn copy_instance_ids(v: &Vec<MeshInstanceId>) -> (r: Vec<MeshInstanceId>)
    ensures
        r@ == v@,
{
    let mut r: Vec<MeshInstanceId> = Vec::new();
    let mut i: usize = 0;
    while i < v.len()
        invariant
            i <= v.len(),
            r@ == v@.subrange(0, i as int),
        decreases v.len() - i,
    {
        r.push(v[i]);
        i = i + 1;
    }
    assert(r@ =~= v@);
    r
}

impl Scene {
    /// Whether `id` resolves to a mesh instance.
    pub closed spec fn has_instance(&self, id: MeshInstanceId) -> bool {
        instance_slots(self.mesh_instances).contains_key(id.key)
    }

    /// The mesh instance that `id` resolves to.
    pub closed spec fn instance_of(&self, id: MeshInstanceId) -> MeshInstance {
        instance_slots(self.mesh_instances)[id.key]
    }

    /// The number of mesh instances.
    pub closed spec fn instance_count(&self) -> nat {
        instance_slots(self.mesh_instances).len()
    }

    /// Whether the scene holds a group of instances for `mesh`.
    pub closed spec fn has_group(&self, mesh: MeshId) -> bool {
        instance_lists(self.instances_by_mesh).contains_key(mesh.key)
    }

    /// The instances grouped under `mesh`.
    pub closed spec fn group(&self, mesh: MeshId) -> Seq<MeshInstanceId> {
        instance_lists(self.instances_by_mesh)[mesh.key]@
    }

    pub closed spec fn spec_pipeline(&self) -> PipelineId {
        self.pipeline
    }

    pub closed spec fn spec_camera_bind_group(&self) -> BindGroupId {
        self.global_bind_group
    }

    pub closed spec fn spec_lighting_bind_group(&self) -> BindGroupId {
        self.lighting_bind_group
    }

    /// The scene's collections are finite.
    pub closed spec fn wf(&self) -> bool {
        instance_slots(self.mesh_instances).dom().finite()
    }

    /// Instance `id` resolves, and so does the entity that places it.
    pub open spec fn instance_resolves(&self, world: &World, id: MeshInstanceId) -> bool {
        self.has_instance(id) && world.contains(self.instance_of(id).entity)
    }

    /// The error for an instance id that does not resolve.
    pub open spec fn instance_error(&self, id: MeshInstanceId) -> SceneError {
        if !self.has_instance(id) {
            SceneError::MeshInstanceNotFound(id)
        } else {
            SceneError::EntityNotFound(self.instance_of(id).entity)
        }
    }

    /// `e` is the error of the first id of `ids` that does not resolve.
    pub open spec fn first_instance_error(&self, world: &World, ids: Seq<MeshInstanceId>, e: SceneError) -> bool {
        exists|i: int|
            0 <= i < ids.len() && !self.instance_resolves(world, #[trigger] ids[i]) && e
                == self.instance_error(ids[i]) && forall|j: int|
                0 <= j < i ==> self.instance_resolves(world, #[trigger] ids[j])
    }

    /// The overall transforms of the entities that place `ids`.
    pub open spec fn transforms_of(&self, world: &World, ids: Seq<MeshInstanceId>) -> Seq<SpatialTransform> {
        ids.map_values(|id: MeshInstanceId| world.view_of(self.instance_of(id).entity).spec_transform())
    }

    /// The group of `mesh` can be drawn: the mesh, its material, its instances
    /// and their entities all resolve.
    pub open spec fn group_resolves(&self, world: &World, assets: &AssetStore, mesh: MeshId) -> bool {
        &&& assets.has_mesh(mesh)
        &&& assets.has_material(assets.mesh_of(mesh).material)
        &&& forall|i: int|
            0 <= i < self.group(mesh).len() ==> self.instance_resolves(world, #[trigger] self.group(mesh)[i])
    }

    /// Every group of the scene can be drawn.
    pub open spec fn all_groups_resolve(&self, world: &World, assets: AssetStore) -> bool {
        forall|m: MeshId| #[trigger] self.has_group(m) ==> self.group_resolves(world, &assets, m)
    }

    /// `e` is the first failure met when resolving the group of `mesh`.
    pub open spec fn group_error(&self, world: &World, assets: AssetStore, mesh: MeshId, e: SceneError) -> bool {
        if !assets.has_mesh(mesh) {
            e == SceneError::MeshNotFound(mesh)
        } else if !assets.has_material(assets.mesh_of(mesh).material) {
            e == SceneError::MaterialNotFound(assets.mesh_of(mesh).material)
        } else {
            self.first_instance_error(world, self.group(mesh), e)
        }
    }

    /// `cmd` draws the group of its mesh: the range at position `index` of the
    /// buffer's issued ranges holds the transforms of the group's entities, and
    /// the command carries the mesh, its material, the scene's pipeline and
    /// bind groups, and that range.
    pub open spec fn command_assembled(
        &self,
        world: &World,
        assets: &AssetStore,
        cmd: MeshRenderCommand,
        buffer: InstanceBuffer,
        index: int,
    ) -> bool {
        let m = cmd.mesh;
        let range = cmd.instance_buffer_range;
        &&& self.has_group(m)
        &&& 0 <= index < buffer.issued_ranges().len()
        &&& buffer.issued_ranges()[index] == range
        &&& range.start <= range.end <= buffer.records().len()
        &&& buffer.records().subrange(range.start as int, range.end as int) == self.transforms_of(
            world,
            self.group(m),
        )
        &&& is_render_command(
            cmd,
            assets.mesh_of(m),
            m,
            assets.material_of(assets.mesh_of(m).material),
            self.spec_pipeline(),
            range,
            self.spec_camera_bind_group(),
            self.spec_lighting_bind_group(),
        )
    }

    /// No key of `ranges` shares its slot with the mesh of a group, unless
    /// it is that mesh's own key; a cleared instance arena has this.
    pub open spec fn slots_free_in(&self, ranges: Map<DefaultKey, crate::instance_buffer::InstanceBufferRange>) -> bool {
        forall|j: DefaultKey, m: MeshId|
            #[trigger] ranges.contains_key(j) && #[trigger] self.has_group(m) && slot_of(j) == slot_of(m.key) ==> j == m.key
    }

    /// A scene with no instances.
    pub fn new(
        pipeline: PipelineId,
        global_bind_group: BindGroupId,
        lighting_bind_group: BindGroupId,
    ) -> (r: Scene)
        ensures
            r.wf(),
            r.instance_count() == 0,
            forall|id: MeshInstanceId| !r.has_instance(id),
            forall|m: MeshId| !r.has_group(m),
            r.spec_pipeline() == pipeline,
            r.spec_camera_bind_group() == global_bind_group,
            r.spec_lighting_bind_group() == lighting_bind_group,
    {
        let r = Scene {
            mesh_instances: InstanceSlots::new(),
            instances_by_mesh: InstanceLists::new(),
            pipeline,
            global_bind_group,
            lighting_bind_group,
        };
        proof {
            assert(instance_slots(r.mesh_instances).dom() =~= Set::<DefaultKey>::empty());
        }
        r
    }

    /// Adds the instances under `mesh` and returns their ids, in order. They
    /// are appended to the group of `mesh`, which is created if needed.
    pub fn add_mesh_instances(&mut self, mesh: MeshId, instances: Vec<MeshInstance>) -> (ids: Vec<
        MeshInstanceId,
    >)
        requires
            old(self).wf(),
            old(self).instance_count() + instances@.len() + 1 < u32::MAX,
        ensures
            final(self).wf(),
            ids@.len() == instances@.len(),
            final(self).instance_count() == old(self).instance_count() + instances@.len(),
            forall|i: int|
                0 <= i < ids@.len() ==> !old(self).has_instance(#[trigger] ids@[i])
                    && final(self).has_instance(ids@[i]) && final(self).instance_of(ids@[i])
                    == instances@[i],
            forall|a: int, b: int| 0 <= a < b < ids@.len() ==> ids@[a] != ids@[b],
            forall|id: MeshInstanceId| #[trigger]
                old(self).has_instance(id) ==> final(self).has_instance(id) && final(self).instance_of(id)
                    == old(self).instance_of(id),
            old(self).has_group(mesh) ==> final(self).has_group(mesh) && final(self).group(mesh)
                == old(self).group(mesh) + ids@,
            !old(self).has_group(mesh) && !is_null_key(mesh.key) && (forall|m: MeshId| #[trigger]
                old(self).has_group(m) ==> slot_of(m.key) != slot_of(mesh.key)) ==> final(self).has_group(mesh)
                && final(self).group(mesh) == ids@,
            forall|m: MeshId| #[trigger]
                old(self).has_group(m) && slot_of(m.key) != slot_of(mesh.key) ==> final(self).has_group(m),
            final(self).has_group(mesh) ==> final(self).group(mesh) == (if old(self).has_group(mesh) {
                old(self).group(mesh)
            } else {
                Seq::empty()
            }) + ids@,
            forall|m: MeshId| #[trigger]
                final(self).has_group(m) && m.key != mesh.key ==> old(self).has_group(m) && final(
                    self).group(m) == old(self).group(m),
            final(self).spec_pipeline() == old(self).spec_pipeline(),
            final(self).spec_camera_bind_group() == old(self).spec_camera_bind_group(),
            final(self).spec_lighting_bind_group() == old(self).spec_lighting_bind_group(),
    {
        let ghost s0 = *self;
        let mut ids: Vec<MeshInstanceId> = Vec::new();
        let mut instances = instances;
        let ghost all = instances@;
        let n = instances.len();
        let mut i: usize = 0;
        while i < n
            invariant
                n == all.len(),
                0 <= i <= n,
                instances@ == all.subrange(i as int, n as int),
                ids@.len() == i,
                self.wf(),
                self.instances_by_mesh == s0.instances_by_mesh,
                self.pipeline == s0.pipeline,
                self.global_bind_group == s0.global_bind_group,
                self.lighting_bind_group == s0.lighting_bind_group,
                instance_slots(self.mesh_instances).len() == instance_slots(s0.mesh_instances).len() + i,
                instance_slots(s0.mesh_instances).len() + n + 1 < u32::MAX,
                forall|k: int|
                    0 <= k < i ==> !s0.has_instance(#[trigger] ids@[k]) && self.has_instance(ids@[k])
                        && self.instance_of(ids@[k]) == all[k],
                forall|id: MeshInstanceId| #[trigger]
                    s0.has_instance(id) ==> self.has_instance(id) && self.instance_of(id)
                        == s0.instance_of(id),
                forall|a: int, b: int| 0 <= a < b < i ==> ids@[a] != ids@[b],
            decreases n - i,
        {
            let inst = instances.remove(0);
            proof {
                assert(inst == all[i as int]);
                assert(instances@ =~= all.subrange(i + 1, n as int));
            }
            let ghost before = *self;
            let key = self.mesh_instances.insert(inst);
            let id = MeshInstanceId { key };
            proof {
                assert forall|k: int| 0 <= k < i implies ids@[k] != id by {
                    assert(before.has_instance(ids@[k]));
                }
            }
            ids.push(id);
            i = i + 1;
        }
        let list = match self.instances_by_mesh.get(mesh.key) {
            Some(cur) => {
                let mut l = copy_instance_ids(cur);
                let mut more = copy_instance_ids(&ids);
                l.append(&mut more);
                l
            },
            None => copy_instance_ids(&ids),
        };
        let ghost lists0 = instance_lists(self.instances_by_mesh);
        self.instances_by_mesh.insert(mesh.key, list);
        proof {
            let lists1 = instance_lists(self.instances_by_mesh);
            if lists0.contains_key(mesh.key) {
                assert(lists1 == lists0.insert(mesh.key, list));
            }
            if lists1.contains_key(mesh.key) {
                assert(lists1[mesh.key] == list);
            }
            if !lists0.contains_key(mesh.key) && !is_null_key(mesh.key) && (forall|m: MeshId| #[trigger]
                s0.has_group(m) ==> slot_of(m.key) != slot_of(mesh.key)) {
                assert forall|j: DefaultKey| #[trigger] lists0.contains_key(j) && j != mesh.key implies slot_of(j)
                    != slot_of(mesh.key) by {
                    assert(s0.has_group(MeshId { key: j }));
                }
                assert(lists1 == lists0.insert(mesh.key, list));
                assert(list@ =~= Seq::<MeshInstanceId>::empty() + ids@);
            }
            assert forall|m: MeshId| #[trigger]
                s0.has_group(m) && slot_of(m.key) != slot_of(mesh.key) implies self.has_group(m) by {
                assert(lists0.contains_key(m.key));
            }
            assert forall|m: MeshId| #[trigger]
                self.has_group(m) && m.key != mesh.key implies s0.has_group(m) && self.group(m)
                    == s0.group(m) by {
                assert(lists1.contains_key(m.key));
            }
        }
        ids
    }

    /// A command that stays assembled while the buffer only grows.
    proof fn lemma_assembled_kept(
        &self,
        world: &World,
        assets: &AssetStore,
        cmd: MeshRenderCommand,
        before: InstanceBuffer,
        after: InstanceBuffer,
        index: int,
        added: Seq<SpatialTransform>,
        range: crate::instance_buffer::InstanceBufferRange,
    )
        requires
            self.command_assembled(world, assets, cmd, before, index),
            after.records() == before.records() + added,
            after.issued_ranges() == before.issued_ranges().push(range),
        ensures
            self.command_assembled(world, assets, cmd, after, index),
    {
        let rg = cmd.instance_buffer_range;
        assert(after.issued_ranges()[index] == before.issued_ranges()[index]);
        assert(after.records().subrange(rg.start as int, rg.end as int) =~= before.records().subrange(
            rg.start as int,
            rg.end as int,
        ));
    }

    /// Resolves the group of `mesh_id` and, if it resolves, appends its
    /// transforms to `instance_buffer` and builds its command.
    fn assemble_group(
        &self,
        world: &World,
        assets: &AssetStore,
        mesh_id: MeshId,
        instance_buffer: &mut InstanceBuffer,
    ) -> (r: Result<MeshRenderCommand, SceneError>)
        requires
            old(instance_buffer).wf(),
            self.has_group(mesh_id),
        ensures
            final(instance_buffer).wf(),
            match r {
                Ok(cmd) => {
                    &&& self.group_resolves(world, assets, mesh_id)
                    &&& cmd.mesh == mesh_id
                    &&& final(instance_buffer).records() == old(instance_buffer).records()
                        + self.transforms_of(world, self.group(mesh_id))
                    &&& final(instance_buffer).issued_ranges() == old(
                        instance_buffer).issued_ranges().push(cmd.instance_buffer_range)
                    &&& self.command_assembled(
                        world,
                        assets,
                        cmd,
                        *final(instance_buffer),
                        old(instance_buffer).issued_ranges().len() as int,
                    )
                    &&& forall|k: DefaultKey| #[trigger]
                        final(instance_buffer).ranges().contains_key(k) ==> (k == mesh_id.key
                            && final(instance_buffer).ranges()[k] == cmd.instance_buffer_range) || (k
                            != mesh_id.key && old(instance_buffer).ranges().contains_key(k) && final(
                            instance_buffer).ranges()[k] == old(instance_buffer).ranges()[k])
                    &&& !is_null_key(mesh_id.key) && (forall|k: DefaultKey| #[trigger]
                        old(instance_buffer).ranges().contains_key(k) && k != mesh_id.key ==> slot_of(k)
                            != slot_of(mesh_id.key)) ==> final(instance_buffer).ranges() == old(
                        instance_buffer).ranges().insert(mesh_id.key, cmd.instance_buffer_range)
                    &&& forall|k: DefaultKey| #[trigger]
                        old(instance_buffer).ranges().contains_key(k) && slot_of(k) != slot_of(mesh_id.key)
                            ==> final(instance_buffer).ranges().contains_key(k)
                },
                Err(e) => {
                    &&& self.group_error(world, *assets, mesh_id, e)
                    &&& *final(instance_buffer) == *old(instance_buffer)
                },
            },
    {
        let mesh = match assets.mesh(mesh_id) {
            Some(m) => m,
            None => {
                return Err(SceneError::MeshNotFound(mesh_id));
            },
        };
        let material = match assets.material(mesh.material) {
            Some(m) => m,
            None => {
                return Err(SceneError::MaterialNotFound(mesh.material));
            },
        };
        let ids = match self.instances_by_mesh.get(mesh_id.key) {
            Some(ids) => ids,
            None => {
                return Err(SceneError::MeshNotFound(mesh_id));
            },
        };
        let transforms = match self.resolve_group(world, ids) {
            Ok(ts) => ts,
            Err(e) => {
                return Err(e);
            },
        };
        let ghost added = transforms@;
        let range = instance_buffer.add(transforms, mesh_id);
        let cmd = mesh.to_render_command(
            mesh_id,
            material,
            self.pipeline,
            range,
            self.global_bind_group,
            self.lighting_bind_group,
        );
        proof {
            let recs = instance_buffer.records();
            assert(recs.subrange(range.start as int, range.end as int) =~= added);
            let issued = instance_buffer.issued_ranges();
            assert(issued[issued.len() - 1] == range);
        }
        Ok(cmd)
    }

    /// Turns the scene into one command per group of instances: resolves the
    /// mesh, its material, every instance and its entity, appends the entities'
    /// overall transforms to `instance_buffer` as one range, and builds the
    /// command for that range. The first lookup that fails aborts the whole
    /// assembly with its error.
    pub fn to_commands(
        &self,
        world: &World,
        assets: &AssetStore,
        instance_buffer: &mut InstanceBuffer,
    ) -> (r: Result<Vec<MeshRenderCommand>, SceneError>)
        requires
            old(instance_buffer).wf(),
        ensures
            final(instance_buffer).wf(),
            r is Ok <==> forall|m: MeshId| #[trigger]
                self.has_group(m) ==> self.group_resolves(world, assets, m),
            match r {
                Ok(cmds) => {
                    &&& forall|m: MeshId| #[trigger]
                        self.has_group(m) ==> exists|i: int|
                            0 <= i < cmds@.len() && (#[trigger] cmds@[i]).mesh == m
                    &&& forall|a: int, b: int|
                        0 <= a < b < cmds@.len() ==> cmds@[a].mesh != cmds@[b].mesh
                    &&& old(instance_buffer).records().is_prefix_of(final(instance_buffer).records())
                    &&& final(instance_buffer).issued_ranges().len() == old(
                        instance_buffer).issued_ranges().len() + cmds@.len()
                    &&& forall|i: int|
                        0 <= i < cmds@.len() ==> self.command_assembled(
                            world,
                            assets,
                            #[trigger] cmds@[i],
                            *final(instance_buffer),
                            old(instance_buffer).issued_ranges().len() + i,
                        )
                    &&& self.slots_free_in(old(instance_buffer).ranges()) ==> forall|i: int|
                        0 <= i < cmds@.len() ==> final(instance_buffer).ranges().contains_key(
                            (#[trigger] cmds@[i]).mesh.key,
                        ) && final(instance_buffer).ranges()[cmds@[i].mesh.key]
                            == cmds@[i].instance_buffer_range
                },
                Err(e) => exists|m: MeshId| #[trigger]
                    self.has_group(m) && self.group_error(world, *assets, m, e) && final(
                        instance_buffer).ranges().contains_key(m.key) == old(
                        instance_buffer).ranges().contains_key(m.key) && (old(
                        instance_buffer).ranges().contains_key(m.key) ==> final(
                        instance_buffer).ranges()[m.key] == old(instance_buffer).ranges()[m.key]),
            },
    {
        let ghost ib0 = *instance_buffer;
        let ghost n0 = instance_buffer.issued_ranges().len();
        let keys = self.instances_by_mesh.keys();
        let mut commands: Vec<MeshRenderCommand> = Vec::new();
        let mut i: usize = 0;
        while i < keys.len()
            invariant
                i <= keys.len(),
                keys@.no_duplicates(),
                forall|j: DefaultKey| #[trigger]
                    keys@.contains(j) <==> instance_lists(self.instances_by_mesh).contains_key(j),
                instance_buffer.wf(),
                commands@.len() == i,
                ib0.records().is_prefix_of(instance_buffer.records()),
                instance_buffer.issued_ranges().len() == n0 + i,
                n0 == ib0.issued_ranges().len(),
                forall|k: int|
                    0 <= k < i ==> {
                        &&& (#[trigger] commands@[k]).mesh == (MeshId { key: keys@[k] })
                        &&& self.group_resolves(world, assets, commands@[k].mesh)
                        &&& self.command_assembled(world, assets, commands@[k], *instance_buffer, n0 + k)
                    },
                ib0 == *old(instance_buffer),
                forall|a: int, b: int| 0 <= a < b < keys@.len() ==> slot_of(keys@[a]) != slot_of(keys@[b]),
                forall|a: int| 0 <= a < keys@.len() ==> !is_null_key(#[trigger] keys@[a]),
                forall|j: DefaultKey| #[trigger]
                    instance_buffer.ranges().contains_key(j) ==> ib0.ranges().contains_key(j)
                        || keys@.subrange(0, i as int).contains(j),
                forall|j: DefaultKey| #[trigger]
                    ib0.ranges().contains_key(j) && (forall|k: int| 0 <= k < i ==> slot_of(j) != slot_of(#[trigger] keys@[k]))
                        ==> instance_buffer.ranges().contains_key(j) && instance_buffer.ranges()[j] == ib0.ranges()[j],
                self.slots_free_in(ib0.ranges()) ==> forall|k: int|
                    0 <= k < i ==> instance_buffer.ranges().contains_key((#[trigger] commands@[k]).mesh.key)
                        && instance_buffer.ranges()[commands@[k].mesh.key] == commands@[k].instance_buffer_range,
            decreases keys.len() - i,
        {
            let mesh_id = MeshId { key: keys[i] };
            proof {
                assert(keys@.contains(keys@[i as int]));
            }
            let ghost before = *instance_buffer;
            let cmd = match self.assemble_group(world, assets, mesh_id, instance_buffer) {
                Ok(c) => c,
                Err(e) => {
                    proof {
                        assert(self.has_group(mesh_id));
                        let m = mesh_id;
                        assert(!keys@.subrange(0, i as int).contains(m.key)) by {
                            if keys@.subrange(0, i as int).contains(m.key) {
                                let k = choose|k: int| 0 <= k < i && keys@.subrange(0, i as int)[k] == m.key;
                                assert(keys@[k] == keys@[i as int]);
                            }
                        }
                        if ib0.ranges().contains_key(m.key) {
                            assert forall|k: int| 0 <= k < i implies slot_of(m.key) != slot_of(#[trigger] keys@[k]) by {
                                assert(keys@[i as int] == m.key);
                            }
                            assert(instance_buffer.ranges().contains_key(m.key));
                            assert(instance_buffer.ranges()[m.key] == ib0.ranges()[m.key]);
                        } else {
                            assert(!instance_buffer.ranges().contains_key(m.key));
                        }
                        assert(self.group_error(world, *assets, m, e));
                    }
                    return Err(e);
                },
            };
            commands.push(cmd);
            proof {
                let added = self.transforms_of(world, self.group(mesh_id));
                let cur = instance_buffer.ranges();
                let prev = before.ranges();
                assert(keys@.subrange(0, i + 1) =~= keys@.subrange(0, i as int).push(mesh_id.key));
                assert forall|j: DefaultKey| #[trigger] cur.contains_key(j) implies ib0.ranges().contains_key(j)
                    || keys@.subrange(0, i + 1).contains(j) by {
                    if j == mesh_id.key {
                        assert(keys@.subrange(0, i + 1)[i as int] == j);
                    } else if keys@.subrange(0, i as int).contains(j) {
                        let k = choose|k: int| 0 <= k < i && keys@.subrange(0, i as int)[k] == j;
                        assert(keys@.subrange(0, i + 1)[k] == j);
                    }
                }
                assert forall|j: DefaultKey| #[trigger]
                    ib0.ranges().contains_key(j) && (forall|k: int| 0 <= k < i + 1 ==> slot_of(j) != slot_of(#[trigger] keys@[k]))
                        implies cur.contains_key(j) && cur[j] == ib0.ranges()[j] by {
                    assert(slot_of(j) != slot_of(keys@[i as int]));
                    assert(prev.contains_key(j));
                }
                if self.slots_free_in(ib0.ranges()) {
                    assert forall|j: DefaultKey| #[trigger] prev.contains_key(j) && j != mesh_id.key
                        implies slot_of(j) != slot_of(mesh_id.key) by {
                        if ib0.ranges().contains_key(j) {
                            assert(self.has_group(mesh_id));
                        } else {
                            let k = choose|k: int| 0 <= k < i && keys@.subrange(0, i as int)[k] == j;
                            assert(keys@[k] == j);
                        }
                    }
                    assert(keys@[i as int] == mesh_id.key);
                    assert(cur == prev.insert(mesh_id.key, cmd.instance_buffer_range));
                    assert forall|k: int| 0 <= k < i + 1 implies cur.contains_key((#[trigger] commands@[k]).mesh.key)
                        && cur[commands@[k].mesh.key] == commands@[k].instance_buffer_range by {
                        if k < i {
                            assert(commands@[k].mesh.key == keys@[k]);
                            assert(keys@[k] != keys@[i as int]);
                        }
                    }
                }
                assert forall|x: int| 0 <= x < ib0.records().len() implies instance_buffer.records()[x] == ib0.records()[x] by {
                    assert(before.records()[x] == ib0.records()[x]);
                }
                assert forall|k: int|
                    0 <= k < i + 1 implies {
                        &&& (#[trigger] commands@[k]).mesh == (MeshId { key: keys@[k] })
                        &&& self.group_resolves(world, assets, commands@[k].mesh)
                        &&& self.command_assembled(world, assets, commands@[k], *instance_buffer, n0 + k)
                    } by {
                    if k < i {
                        self.lemma_assembled_kept(world, assets, commands@[k], before, *instance_buffer,
                            n0 + k, added, cmd.instance_buffer_range);
                    }
                }
            }
            i = i + 1;
        }
        proof {
            assert forall|m: MeshId| #[trigger] self.has_group(m) implies exists|k: int|
                0 <= k < commands@.len() && (#[trigger] commands@[k]).mesh == m by {
                assert(keys@.contains(m.key));
                let k = choose|k: int| 0 <= k < keys@.len() && keys@[k] == m.key;
                assert(commands@[k].mesh == m);
            }
            assert forall|m: MeshId| #[trigger] self.has_group(m) implies self.group_resolves(world, assets, m) by {
                let k = choose|k: int| 0 <= k < commands@.len() && (#[trigger] commands@[k]).mesh == m;
            }
            assert forall|a: int, b: int| 0 <= a < b < commands@.len() implies commands@[a].mesh != commands@[b].mesh by {
                assert(commands@[a].mesh == (MeshId { key: keys@[a] }));
                assert(commands@[b].mesh == (MeshId { key: keys@[b] }));
            }
        }
        Ok(commands)
    }

    /// Resolves the transforms of the instances `ids`, stopping at the first
    /// instance or entity that does not resolve.
    fn resolve_group(&self, world: &World, ids: &Vec<MeshInstanceId>) -> (r: Result<
        Vec<SpatialTransform>,
        SceneError,
    >)
        ensures
            match r {
                Ok(ts) => {
                    &&& forall|i: int|
                        0 <= i < ids@.len() ==> self.instance_resolves(world, #[trigger] ids@[i])
                    &&& ts@ == self.transforms_of(world, ids@)
                },
                Err(e) => self.first_instance_error(world, ids@, e),
            },
    {
        let mut transforms: Vec<SpatialTransform> = Vec::new();
        let mut j: usize = 0;
        while j < ids.len()
            invariant
                j <= ids.len(),
                transforms@ == self.transforms_of(world, ids@.subrange(0, j as int)),
                forall|k: int| 0 <= k < j ==> self.instance_resolves(world, #[trigger] ids@[k]),
            decreases ids.len() - j,
        {
            let inst_id = ids[j];
            let instance = match self.mesh_instances.get(inst_id.key) {
                Some(x) => x,
                None => {
                    proof {
                        assert(!self.instance_resolves(world, ids@[j as int]));
                    }
                    return Err(SceneError::MeshInstanceNotFound(inst_id));
                },
            };
            let entity = match world.entity(instance.entity) {
                Some(e) => e,
                None => {
                    proof {
                        assert(!self.instance_resolves(world, ids@[j as int]));
                    }
                    return Err(SceneError::EntityNotFound(instance.entity));
                },
            };
            transforms.push(entity.transform());
            proof {
                assert(ids@.subrange(0, j + 1) =~= ids@.subrange(0, j as int).push(inst_id));
                assert(transforms@ =~= self.transforms_of(world, ids@.subrange(0, j + 1)));
            }
            j = j + 1;
        }
        proof {
            assert(ids@.subrange(0, ids@.len() as int) =~= ids@);
        }
        Ok(transforms)
    }
}

} // verus!
