//! The asset store: meshes and materials, each addressed by a generational id.
use vstd::prelude::*;
use slotmap::DefaultKey;
use std::ops::Range;
use crate::commands::{DrawCommand, MeshRenderCommand};
use crate::instance_buffer::InstanceBufferRange;
use crate::renderer::{BindGroupId, PipelineId};
use crate::slots::{HandleSlots, MaterialSlots, MeshSlots, handle_slots, is_null_key, material_slots, mesh_slots, slot_of};

verus! {

/// Refers to a mesh of an `AssetStore`.
#[derive(Clone, Copy, Debug, PartialEq, Eq, Hash)]
pub struct MeshId {
    pub key: DefaultKey,
}

/// Refers to a material of an `AssetStore`.
#[derive(Clone, Copy, Debug, PartialEq, Eq, Hash)]
pub struct MaterialId {
    pub key: DefaultKey,
}

/// Refers to a sprite texture of an `AssetStore`.
#[derive(Clone, Copy, Debug, PartialEq, Eq, Hash)]
pub struct SpriteTextureId {
    pub key: DefaultKey,
}

/// Refers to a device buffer owned by the graphics layer.
#[derive(Clone, Copy, Debug, PartialEq, Eq, Structural, Hash)]
pub struct BufferHandle {
    pub index: u64,
}

/// A material: the bind group holding its textures.
pub struct Material {
    pub name: String,
    pub bind_group: BindGroupId,
}

/// A mesh: vertex and index buffers, its material and its index count.
pub struct Mesh {
    pub name: String,
    pub vertex_buffer: BufferHandle,
    pub index_buffer: BufferHandle,
    pub material: MaterialId,
    pub num_elements: u32,
}

/// A model: a collection of meshes and the materials they use.
pub struct Model {
    pub meshes: Vec<MeshId>,
    pub materials: Vec<MaterialId>,
}

/// `cmd` draws the instances in `range` of mesh `id` (which is `mesh`) with
/// `material`, `pipeline` and the camera and lighting bind groups given.
pub open spec fn is_render_command(
    cmd: MeshRenderCommand,
    mesh: Mesh,
    id: MeshId,
    material: Material,
    pipeline: PipelineId,
    range: InstanceBufferRange,
    camera_bind_group: BindGroupId,
    lighting_bind_group: BindGroupId,
) -> bool {
    &&& cmd.name@ == mesh.name@
    &&& cmd.mesh == id
    &&& cmd.pipeline == pipeline
    &&& cmd.camera_bind_group == camera_bind_group
    &&& cmd.lighting_bind_group == lighting_bind_group
    &&& cmd.material_bind_group == material.bind_group
    &&& cmd.vertex_buffer == mesh.vertex_buffer
    &&& cmd.instance_buffer_range == range
    &&& cmd.index_buffer == mesh.index_buffer
    &&& cmd.draw == DrawCommand::Indexed {
        indices: Range { start: 0u32, end: mesh.num_elements },
        base_vertex: 0i32,
        instances: Range { start: 0u32, end: (range.end - range.start) as u32 },
    }
}

impl Mesh {
    /// The command that draws the instances in `instance_buffer_range` of this
    /// mesh, indexed, with its material and the given pipeline and bind groups.
    pub fn to_render_command(
        &self,
        id: MeshId,
        material: &Material,
        pipeline: PipelineId,
        instance_buffer_range: InstanceBufferRange,
        camera_bind_group: BindGroupId,
        lighting_bind_group: BindGroupId,
    ) -> (r: MeshRenderCommand)
        requires
            instance_buffer_range.start <= instance_buffer_range.end,
        ensures
            is_render_command(
                r,
                *self,
                id,
                *material,
                pipeline,
                instance_buffer_range,
                camera_bind_group,
                lighting_bind_group,
            ),
    {
        let count = instance_buffer_range.end - instance_buffer_range.start;
        MeshRenderCommand {
            name: self.name.clone(),
            mesh: id,
            pipeline,
            camera_bind_group,
            lighting_bind_group,
            material_bind_group: material.bind_group,
            vertex_buffer: self.vertex_buffer,
            instance_buffer_range,
            index_buffer: self.index_buffer,
            draw: DrawCommand::Indexed {
                indices: 0..self.num_elements,
                base_vertex: 0,
                instances: 0..(#[verifier::truncate] (count as u32)),
            },
        }
    }
}

/// Owns the meshes and materials.
pub struct AssetStore {
    meshes: MeshSlots,
    materials: MaterialSlots,
    sprite_textures: HandleSlots,
}

impl AssetStore {
    /// Whether `id` resolves to a mesh.
    pub closed spec fn has_mesh(&self, id: MeshId) -> bool {
        mesh_slots(self.meshes).contains_key(id.key)
    }

    /// The mesh that `id` resolves to.
    pub closed spec fn mesh_of(&self, id: MeshId) -> Mesh {
        mesh_slots(self.meshes)[id.key]
    }

    /// Whether `id` resolves to a material.
    pub closed spec fn has_material(&self, id: MaterialId) -> bool {
        material_slots(self.materials).contains_key(id.key)
    }

    /// The material that `id` resolves to.
    pub closed spec fn material_of(&self, id: MaterialId) -> Material {
        material_slots(self.materials)[id.key]
    }

    /// Whether `id` resolves to a sprite texture.
    pub closed spec fn has_sprite_texture(&self, id: SpriteTextureId) -> bool {
        handle_slots(self.sprite_textures).contains(id.key)
    }

    /// The number of sprite textures.
    pub closed spec fn sprite_texture_count(&self) -> nat {
        handle_slots(self.sprite_textures).len()
    }

    /// The number of meshes.
    pub closed spec fn mesh_count(&self) -> nat {
        mesh_slots(self.meshes).len()
    }

    /// The number of materials.
    pub closed spec fn material_count(&self) -> nat {
        material_slots(self.materials).len()
    }

    /// The store's collections are finite, and no two meshes share a slot.
    pub closed spec fn wf(&self) -> bool {
        &&& mesh_slots(self.meshes).dom().finite()
        &&& material_slots(self.materials).dom().finite()
        &&& handle_slots(self.sprite_textures).finite()
        &&& forall|a: DefaultKey| #[trigger] mesh_slots(self.meshes).contains_key(a) ==> !is_null_key(a)
        &&& forall|a: DefaultKey, b: DefaultKey|
            #[trigger] mesh_slots(self.meshes).contains_key(a) && #[trigger] mesh_slots(self.meshes).contains_key(b)
                && a != b ==> slot_of(a) != slot_of(b)
    }

    /// An empty store.
    pub fn new() -> (r: AssetStore)
        ensures
            r.wf(),
            r.mesh_count() == 0,
            r.material_count() == 0,
            forall|id: MeshId| !r.has_mesh(id),
            forall|id: MaterialId| !r.has_material(id),
            forall|id: SpriteTextureId| !r.has_sprite_texture(id),
    {
        let r = AssetStore {
            meshes: MeshSlots::new(),
            materials: MaterialSlots::new(),
            sprite_textures: HandleSlots::new(),
        };
        proof {
            assert(mesh_slots(r.meshes).dom() =~= Set::<DefaultKey>::empty());
            assert(material_slots(r.materials).dom() =~= Set::<DefaultKey>::empty());
        }
        r
    }

    /// Adds the materials and returns their ids, in order.
    pub fn add_materials(&mut self, materials: Vec<Material>) -> (ids: Vec<MaterialId>)
        requires
            old(self).wf(),
            old(self).material_count() + materials@.len() + 1 < u32::MAX,
        ensures
            final(self).wf(),
            ids@.len() == materials@.len(),
            final(self).material_count() == old(self).material_count() + materials@.len(),
            forall|i: int|
                0 <= i < ids@.len() ==> !old(self).has_material(#[trigger] ids@[i]) && final(self).has_material(ids@[i]) && final(self).material_of(ids@[i]) == materials@[i],
            forall|id: MaterialId| #[trigger]
                old(self).has_material(id) ==> final(self).has_material(id) && final(self).material_of(id)
                    == old(self).material_of(id),
            forall|id: MeshId| #[trigger]
                final(self).has_mesh(id) == old(self).has_mesh(id),
            forall|id: MeshId| #[trigger]
                old(self).has_mesh(id) ==> final(self).mesh_of(id) == old(self).mesh_of(id),
            forall|id: SpriteTextureId| #[trigger]
                final(self).has_sprite_texture(id) == old(self).has_sprite_texture(id),
    {
        let ghost s0 = *self;
        let mut ids: Vec<MaterialId> = Vec::new();
        let mut materials = materials;
        let ghost all = materials@;
        let mut i: usize = 0;
        let n = materials.len();
        while i < n
            invariant
                n == all.len(),
                0 <= i <= n,
                materials@ == all.subrange(i as int, n as int),
                ids@.len() == i,
                self.wf(),
                self.meshes == s0.meshes,
                self.sprite_textures == s0.sprite_textures,
                material_slots(self.materials).len() == material_slots(s0.materials).len() + i,
                material_slots(s0.materials).len() + n + 1 < u32::MAX,
                forall|k: int|
                    0 <= k < i ==> !s0.has_material(#[trigger] ids@[k]) && self.has_material(ids@[k])
                        && self.material_of(ids@[k]) == all[k],
                forall|id: MaterialId| #[trigger]
                    s0.has_material(id) ==> self.has_material(id) && self.material_of(id)
                        == s0.material_of(id),
                forall|a: int, b: int| 0 <= a < b < i ==> ids@[a] != ids@[b],
            decreases n - i,
        {
            let m = materials.remove(0);
            proof {
                assert(m == all[i as int]);
                assert(materials@ =~= all.subrange(i + 1, n as int));
            }
            let ghost before = *self;
            let key = self.materials.insert(m);
            let id = MaterialId { key };
            proof {
                assert forall|k: int| 0 <= k < i implies ids@[k] != id by {
                    assert(before.has_material(ids@[k]));
                }
            }
            ids.push(id);
            i = i + 1;
        }
        ids
    }

    /// Adds the meshes and returns their ids, in order.
    pub fn add_meshes(&mut self, meshes: Vec<Mesh>) -> (ids: Vec<MeshId>)
        requires
            old(self).wf(),
            old(self).mesh_count() + meshes@.len() + 1 < u32::MAX,
        ensures
            final(self).wf(),
            ids@.len() == meshes@.len(),
            final(self).mesh_count() == old(self).mesh_count() + meshes@.len(),
            forall|i: int|
                0 <= i < ids@.len() ==> !old(self).has_mesh(#[trigger] ids@[i]) && final(self).has_mesh(ids@[i]) && final(self).mesh_of(ids@[i]) == meshes@[i],
            forall|k: int| 0 <= k < ids@.len() ==> !is_null_key((#[trigger] ids@[k]).key),
            forall|a: int, b: int| 0 <= a < b < ids@.len() ==> slot_of(ids@[a].key) != slot_of(ids@[b].key),
            forall|id: MeshId| #[trigger]
                old(self).has_mesh(id) ==> final(self).has_mesh(id) && final(self).mesh_of(id)
                    == old(self).mesh_of(id),
            forall|id: MaterialId| #[trigger]
                final(self).has_material(id) == old(self).has_material(id),
            forall|id: MaterialId| #[trigger]
                old(self).has_material(id) ==> final(self).material_of(id) == old(self).material_of(id),
            forall|id: SpriteTextureId| #[trigger]
                final(self).has_sprite_texture(id) == old(self).has_sprite_texture(id),
    {
        let ghost s0 = *self;
        let mut ids: Vec<MeshId> = Vec::new();
        let mut meshes = meshes;
        let ghost all = meshes@;
        let mut i: usize = 0;
        let n = meshes.len();
        while i < n
            invariant
                n == all.len(),
                0 <= i <= n,
                meshes@ == all.subrange(i as int, n as int),
                ids@.len() == i,
                self.wf(),
                self.materials == s0.materials,
                self.sprite_textures == s0.sprite_textures,
                mesh_slots(self.meshes).len() == mesh_slots(s0.meshes).len() + i,
                mesh_slots(s0.meshes).len() + n + 1 < u32::MAX,
                forall|k: int|
                    0 <= k < i ==> !s0.has_mesh(#[trigger] ids@[k]) && self.has_mesh(ids@[k])
                        && self.mesh_of(ids@[k]) == all[k],
                forall|id: MeshId| #[trigger]
                    s0.has_mesh(id) ==> self.has_mesh(id) && self.mesh_of(id) == s0.mesh_of(id),
                forall|a: int, b: int| 0 <= a < b < i ==> ids@[a] != ids@[b],
            decreases n - i,
        {
            let m = meshes.remove(0);
            proof {
                assert(m == all[i as int]);
                assert(meshes@ =~= all.subrange(i + 1, n as int));
            }
            let ghost before = *self;
            let key = self.meshes.insert(m);
            let id = MeshId { key };
            proof {
                let m0 = mesh_slots(before.meshes);
                let m1 = mesh_slots(self.meshes);
                assert forall|a: DefaultKey, b: DefaultKey|
                    #[trigger] m1.contains_key(a) && #[trigger] m1.contains_key(b) && a != b implies slot_of(a)
                        != slot_of(b) by {
                    if a != key && b != key {
                        assert(m0.contains_key(a) && m0.contains_key(b));
                    } else if a == key {
                        assert(m0.contains_key(b));
                    } else {
                        assert(m0.contains_key(a));
                    }
                }
            }
            proof {
                assert forall|k: int| 0 <= k < i implies ids@[k] != id by {
                    assert(before.has_mesh(ids@[k]));
                }
            }
            ids.push(id);
            i = i + 1;
        }
        proof {
            assert forall|a: int, b: int| 0 <= a < b < ids@.len() implies slot_of(ids@[a].key) != slot_of(ids@[b].key) by {
                assert(mesh_slots(self.meshes).contains_key(ids@[a].key));
                assert(mesh_slots(self.meshes).contains_key(ids@[b].key));
                assert(ids@[a] != ids@[b]);
            }
            assert forall|k: int| 0 <= k < ids@.len() implies !is_null_key((#[trigger] ids@[k]).key) by {
                assert(mesh_slots(self.meshes).contains_key(ids@[k].key));
            }
        }
        ids
    }

    /// Registers `count` sprite textures, whose images the graphics layer
    /// holds, and returns their ids, all new and distinct.
    pub fn add_sprite_textures(&mut self, count: usize) -> (ids: Vec<SpriteTextureId>)
        requires
            old(self).wf(),
            old(self).sprite_texture_count() + count + 1 < u32::MAX,
        ensures
            final(self).wf(),
            ids@.len() == count,
            final(self).sprite_texture_count() == old(self).sprite_texture_count() + count,
            forall|i: int|
                0 <= i < ids@.len() ==> !old(self).has_sprite_texture(#[trigger] ids@[i])
                    && final(self).has_sprite_texture(ids@[i]),
            forall|a: int, b: int| 0 <= a < b < ids@.len() ==> ids@[a] != ids@[b],
            forall|id: SpriteTextureId| #[trigger]
                old(self).has_sprite_texture(id) ==> final(self).has_sprite_texture(id),
            forall|id: MeshId| #[trigger] final(self).has_mesh(id) == old(self).has_mesh(id),
            forall|id: MeshId| #[trigger]
                old(self).has_mesh(id) ==> final(self).mesh_of(id) == old(self).mesh_of(id),
            forall|id: MaterialId| #[trigger]
                final(self).has_material(id) == old(self).has_material(id),
            forall|id: MaterialId| #[trigger]
                old(self).has_material(id) ==> final(self).material_of(id) == old(self).material_of(id),
    {
        let ghost s0 = *self;
        let mut ids: Vec<SpriteTextureId> = Vec::new();
        let mut i: usize = 0;
        while i < count
            invariant
                0 <= i <= count,
                ids@.len() == i,
                self.wf(),
                handle_slots(self.sprite_textures).len() == handle_slots(s0.sprite_textures).len() + i,
                handle_slots(s0.sprite_textures).len() + count + 1 < u32::MAX,
                self.meshes == s0.meshes,
                self.materials == s0.materials,
                forall|k: int|
                    0 <= k < i ==> !s0.has_sprite_texture(#[trigger] ids@[k])
                        && self.has_sprite_texture(ids@[k]),
                forall|id: SpriteTextureId| #[trigger]
                    s0.has_sprite_texture(id) ==> self.has_sprite_texture(id),
                forall|a: int, b: int| 0 <= a < b < i ==> ids@[a] != ids@[b],
            decreases count - i,
        {
            let ghost before = *self;
            let key = self.sprite_textures.insert();
            let id = SpriteTextureId { key };
            proof {
                assert forall|k: int| 0 <= k < i implies ids@[k] != id by {
                    assert(before.has_sprite_texture(ids@[k]));
                }
            }
            ids.push(id);
            i = i + 1;
        }
        ids
    }

    /// `id` if it was registered as a sprite texture, else `None`.
    pub fn sprite_texture(&self, id: SpriteTextureId) -> (r: Option<SpriteTextureId>)
        ensures
            r is Some <==> self.has_sprite_texture(id),
            r is Some ==> r == Some(id),
    {
        if self.sprite_textures.contains_key(id.key) {
            Some(id)
        } else {
            None
        }
    }

    /// The material that `id` resolves to, or `None`.
    pub fn material(&self, id: MaterialId) -> (r: Option<&Material>)
        ensures
            match r {
                Some(m) => self.has_material(id) && *m == self.material_of(id),
                None => !self.has_material(id),
            },
    {
        self.materials.get(id.key)
    }

    /// The mesh that `id` resolves to, or `None`.
    pub fn mesh(&self, id: MeshId) -> (r: Option<&Mesh>)
        ensures
            match r {
                Some(m) => self.has_mesh(id) && *m == self.mesh_of(id),
                None => !self.has_mesh(id),
            },
    {
        self.meshes.get(id.key)
    }
}

} // verus!
