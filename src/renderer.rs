//! The command executor: frame boundaries, handle registries and the
//! resolution of render commands into draw calls.
use vstd::prelude::*;
use slotmap::DefaultKey;
use crate::assets::{AssetStore, BufferHandle, MeshId};
use crate::commands::{DrawCommand, MeshRenderCommand, SkyboxRenderCommand};
use crate::instance_buffer::{InstanceBuffer, InstanceBufferRange};
use crate::scene::{Scene, SceneError};
use crate::slots::{HandleSlots, handle_slots};
use crate::world::World;

verus! {

/// Refers to a pipeline registered with a `Renderer`.
#[derive(Clone, Copy, Debug, PartialEq, Eq, Hash)]
pub struct PipelineId {
    pub key: DefaultKey,
}

/// Refers to a bind group registered with a `Renderer`.
#[derive(Clone, Copy, Debug, PartialEq, Eq, Hash)]
pub struct BindGroupId {
    pub key: DefaultKey,
}

/// Why rendering a frame failed.
#[derive(Debug, PartialEq, Eq)]
pub enum RenderError {
    /// Drawing or ending a frame was asked for outside a frame.
    NoFrameInProgress,
    /// A command named a pipeline that was never registered.
    PipelineNotFound { label: String },
    /// A command named a bind group that was never registered.
    GlobalBindGroupNotFound { label: String },
    /// A command named a lighting bind group that was never registered.
    LightingBindGroupNotFound { label: String },
    /// The surface has not been configured with a size yet.
    UnconfiguredSurface,
    /// The instance arena holds no range for the mesh of a command.
    MeshHasNoInstanceData(MeshId),
    /// Scene assembly failed.
    Scene(SceneError),
}

/// A draw with every handle resolved: bind the pipeline and the bind groups,
/// the vertex buffer and the instance range, the index buffer, then draw.
pub struct DrawCall {
    pub pipeline: PipelineId,
    pub camera_bind_group: BindGroupId,
    pub lighting_bind_group: BindGroupId,
    pub material_bind_group: BindGroupId,
    pub vertex_buffer: BufferHandle,
    pub instances: InstanceBufferRange,
    pub index_buffer: BufferHandle,
    pub draw: DrawCommand,
}

/// A skybox draw with its handles resolved: bind the pipeline, the camera
/// and cubemap bind groups, then draw one full-screen triangle.
pub struct SkyboxDraw {
    pub pipeline: PipelineId,
    pub camera_bind_group: BindGroupId,
    pub sky_bind_group: BindGroupId,
}

/// Drives frames: owns the assets, the instance arena and the registries of
/// pipelines and bind groups, and turns scenes into resolved draw calls.
pub struct Renderer {
    surface_is_configured: bool,
    frame_in_progress: bool,
    instance_buffer: InstanceBuffer,
    assets: AssetStore,
    pipelines: HandleSlots,
    bind_groups: HandleSlots,
}

impl Renderer {
    pub closed spec fn configured(&self) -> bool {
        self.surface_is_configured
    }

    pub closed spec fn in_frame(&self) -> bool {
        self.frame_in_progress
    }

    pub closed spec fn spec_instance_buffer(&self) -> InstanceBuffer {
        self.instance_buffer
    }

    pub closed spec fn spec_assets(&self) -> AssetStore {
        self.assets
    }

    /// Whether `id` was registered as a pipeline.
    pub closed spec fn has_pipeline(&self, id: PipelineId) -> bool {
        handle_slots(self.pipelines).contains(id.key)
    }

    /// Whether `id` was registered as a bind group.
    pub closed spec fn has_bind_group(&self, id: BindGroupId) -> bool {
        handle_slots(self.bind_groups).contains(id.key)
    }

    pub closed spec fn pipeline_count(&self) -> nat {
        handle_slots(self.pipelines).len()
    }

    pub closed spec fn bind_group_count(&self) -> nat {
        handle_slots(self.bind_groups).len()
    }

    /// `self` and `other` have registered the same pipelines and bind groups.
    pub closed spec fn same_registries(&self, other: &Renderer) -> bool {
        self.pipelines == other.pipelines && self.bind_groups == other.bind_groups
    }

    /// The registries are finite and the instance arena is well formed.
    pub closed spec fn wf(&self) -> bool {
        &&& handle_slots(self.pipelines).finite()
        &&& handle_slots(self.bind_groups).finite()
        &&& self.instance_buffer.wf()
    }

    /// Every handle of `cmd` resolves and the arena holds a range for its mesh.
    pub open spec fn command_resolves(&self, cmd: MeshRenderCommand) -> bool {
        &&& self.has_pipeline(cmd.pipeline)
        &&& self.has_bind_group(cmd.camera_bind_group)
        &&& self.has_bind_group(cmd.lighting_bind_group)
        &&& self.has_bind_group(cmd.material_bind_group)
        &&& self.spec_instance_buffer().ranges().contains_key(cmd.mesh.key)
    }

    /// `e` is the first failure met when resolving `cmd`: the pipeline, then
    /// the camera, lighting and material bind groups, then the instance range.
    pub open spec fn command_error(&self, cmd: MeshRenderCommand, e: RenderError) -> bool {
        if !self.has_pipeline(cmd.pipeline) {
            e matches RenderError::PipelineNotFound { label } && label@ == cmd.name@
        } else if !self.has_bind_group(cmd.camera_bind_group) || !self.has_bind_group(
            cmd.lighting_bind_group,
        ) || !self.has_bind_group(cmd.material_bind_group) {
            e matches RenderError::GlobalBindGroupNotFound { label } && label@ == cmd.name@
        } else {
            e == RenderError::MeshHasNoInstanceData(cmd.mesh)
        }
    }

    /// The scene's pipeline, its camera and lighting bind groups, and the
    /// bind group of the material of every mesh it draws are registered.
    pub open spec fn registers_scene(&self, scene: &Scene) -> bool {
        &&& self.has_pipeline(scene.spec_pipeline())
        &&& self.has_bind_group(scene.spec_camera_bind_group())
        &&& self.has_bind_group(scene.spec_lighting_bind_group())
        &&& forall|m: MeshId| #[trigger]
            scene.has_group(m) ==> self.has_bind_group(
                self.spec_assets().material_of(self.spec_assets().mesh_of(m).material).bind_group,
            )
    }

    /// `dc` is the draw of `cmd`, with the arena's range for its mesh.
    pub open spec fn is_draw_call(&self, cmd: MeshRenderCommand, dc: DrawCall) -> bool {
        &&& dc.pipeline == cmd.pipeline
        &&& dc.camera_bind_group == cmd.camera_bind_group
        &&& dc.lighting_bind_group == cmd.lighting_bind_group
        &&& dc.material_bind_group == cmd.material_bind_group
        &&& dc.vertex_buffer == cmd.vertex_buffer
        &&& dc.instances == self.spec_instance_buffer().ranges()[cmd.mesh.key]
        &&& dc.index_buffer == cmd.index_buffer
        &&& dc.draw == cmd.draw
    }

    /// `e` is the error of the first of `cmds` that does not resolve.
    pub open spec fn first_command_error(&self, cmds: Seq<MeshRenderCommand>, e: RenderError) -> bool {
        exists|i: int|
            0 <= i < cmds.len() && !self.command_resolves(#[trigger] cmds[i]) && self.command_error(
                cmds[i],
                e,
            ) && forall|j: int| 0 <= j < i ==> self.command_resolves(#[trigger] cmds[j])
    }

    /// `cmds` are the commands that assembling `scene` from a cleared arena
    /// gives: one per group of the scene, in the order of the arena's ranges.
    pub open spec fn frame_commands(&self, scene: &Scene, world: &World, cmds: Seq<MeshRenderCommand>) -> bool {
        &&& self.spec_instance_buffer().issued_ranges().len() == cmds.len()
        &&& forall|m: MeshId| #[trigger]
            scene.has_group(m) ==> exists|i: int| 0 <= i < cmds.len() && (#[trigger] cmds[i]).mesh == m
        &&& forall|a: int, b: int| 0 <= a < b < cmds.len() ==> cmds[a].mesh != cmds[b].mesh
        &&& forall|i: int|
            0 <= i < cmds.len() ==> scene.command_assembled(
                world,
                &self.spec_assets(),
                #[trigger] cmds[i],
                self.spec_instance_buffer(),
                i,
            )
    }

    /// A renderer over `assets`, with nothing registered, no frame begun and
    /// the surface not configured yet.
    pub fn new(assets: AssetStore) -> (r: Renderer)
        ensures
            r.wf(),
            !r.configured(),
            !r.in_frame(),
            r.spec_assets() == assets,
            r.pipeline_count() == 0,
            r.bind_group_count() == 0,
            forall|id: PipelineId| !r.has_pipeline(id),
            forall|id: BindGroupId| !r.has_bind_group(id),
    {
        let r = Renderer {
            surface_is_configured: false,
            frame_in_progress: false,
            instance_buffer: InstanceBuffer::new(),
            assets,
            pipelines: HandleSlots::new(),
            bind_groups: HandleSlots::new(),
        };
        proof {
            assert(handle_slots(r.pipelines) =~= Set::<DefaultKey>::empty());
        }
        r
    }

    /// Takes a new surface size. A size with a zero side is ignored; otherwise
    /// the surface counts as configured. Returns whether the caller must
    /// configure the surface with this size.
    pub fn resize(&mut self, width: u32, height: u32) -> (r: bool)
        ensures
            r == (width > 0 && height > 0),
            final(self).configured() == (old(self).configured() || r),
            final(self).in_frame() == old(self).in_frame(),
            final(self).spec_instance_buffer() == old(self).spec_instance_buffer(),
            final(self).spec_assets() == old(self).spec_assets(),
            final(self).same_registries(old(self)),
    {
        if width > 0 && height > 0 {
            self.surface_is_configured = true;
            true
        } else {
            false
        }
    }

    /// Registers `count` pipelines and returns their ids, all new and distinct.
    pub fn add_pipelines(&mut self, count: usize) -> (ids: Vec<PipelineId>)
        requires
            old(self).wf(),
            old(self).pipeline_count() + count + 1 < u32::MAX,
        ensures
            final(self).wf(),
            ids@.len() == count,
            final(self).pipeline_count() == old(self).pipeline_count() + count,
            forall|i: int|
                0 <= i < ids@.len() ==> !old(self).has_pipeline(#[trigger] ids@[i]) && final(
                    self).has_pipeline(ids@[i]),
            forall|a: int, b: int| 0 <= a < b < ids@.len() ==> ids@[a] != ids@[b],
            forall|id: PipelineId| #[trigger] old(self).has_pipeline(id) ==> final(self).has_pipeline(id),
            forall|id: BindGroupId| #[trigger] final(self).has_bind_group(id) == old(self).has_bind_group(id),
            final(self).configured() == old(self).configured(),
            final(self).in_frame() == old(self).in_frame(),
            final(self).spec_instance_buffer() == old(self).spec_instance_buffer(),
            final(self).spec_assets() == old(self).spec_assets(),
    {
        let ghost s0 = *self;
        let mut ids: Vec<PipelineId> = Vec::new();
        let mut i: usize = 0;
        while i < count
            invariant
                0 <= i <= count,
                ids@.len() == i,
                handle_slots(self.pipelines).finite(),
                handle_slots(self.pipelines).len() == handle_slots(s0.pipelines).len() + i,
                handle_slots(s0.pipelines).len() + count + 1 < u32::MAX,
                self.bind_groups == s0.bind_groups,
                self.instance_buffer == s0.instance_buffer,
                self.assets == s0.assets,
                self.surface_is_configured == s0.surface_is_configured,
                self.frame_in_progress == s0.frame_in_progress,
                forall|k: int| 0 <= k < i ==> !s0.has_pipeline(#[trigger] ids@[k]) && self.has_pipeline(ids@[k]),
                forall|id: PipelineId| #[trigger] s0.has_pipeline(id) ==> self.has_pipeline(id),
                forall|a: int, b: int| 0 <= a < b < i ==> ids@[a] != ids@[b],
            decreases count - i,
        {
            let ghost before = *self;
            let key = self.pipelines.insert();
            let id = PipelineId { key };
            proof {
                assert forall|k: int| 0 <= k < i implies ids@[k] != id by {
                    assert(before.has_pipeline(ids@[k]));
                }
            }
            ids.push(id);
            i = i + 1;
        }
        ids
    }

    /// Registers `count` bind groups and returns their ids, all new and distinct.
    pub fn add_bind_groups(&mut self, count: usize) -> (ids: Vec<BindGroupId>)
        requires
            old(self).wf(),
            old(self).bind_group_count() + count + 1 < u32::MAX,
        ensures
            final(self).wf(),
            ids@.len() == count,
            final(self).bind_group_count() == old(self).bind_group_count() + count,
            forall|i: int|
                0 <= i < ids@.len() ==> !old(self).has_bind_group(#[trigger] ids@[i]) && final(
                    self).has_bind_group(ids@[i]),
            forall|a: int, b: int| 0 <= a < b < ids@.len() ==> ids@[a] != ids@[b],
            forall|id: BindGroupId| #[trigger] old(self).has_bind_group(id) ==> final(self).has_bind_group(id),
            forall|id: PipelineId| #[trigger] final(self).has_pipeline(id) == old(self).has_pipeline(id),
            final(self).configured() == old(self).configured(),
            final(self).in_frame() == old(self).in_frame(),
            final(self).spec_instance_buffer() == old(self).spec_instance_buffer(),
            final(self).spec_assets() == old(self).spec_assets(),
    {
        let ghost s0 = *self;
        let mut ids: Vec<BindGroupId> = Vec::new();
        let mut i: usize = 0;
        while i < count
            invariant
                0 <= i <= count,
                ids@.len() == i,
                handle_slots(self.bind_groups).finite(),
                handle_slots(self.bind_groups).len() == handle_slots(s0.bind_groups).len() + i,
                handle_slots(s0.bind_groups).len() + count + 1 < u32::MAX,
                self.pipelines == s0.pipelines,
                self.instance_buffer == s0.instance_buffer,
                self.assets == s0.assets,
                self.surface_is_configured == s0.surface_is_configured,
                self.frame_in_progress == s0.frame_in_progress,
                forall|k: int| 0 <= k < i ==> !s0.has_bind_group(#[trigger] ids@[k]) && self.has_bind_group(ids@[k]),
                forall|id: BindGroupId| #[trigger] s0.has_bind_group(id) ==> self.has_bind_group(id),
                forall|a: int, b: int| 0 <= a < b < i ==> ids@[a] != ids@[b],
            decreases count - i,
        {
            let ghost before = *self;
            let key = self.bind_groups.insert();
            let id = BindGroupId { key };
            proof {
                assert forall|k: int| 0 <= k < i implies ids@[k] != id by {
                    assert(before.has_bind_group(ids@[k]));
                }
            }
            ids.push(id);
            i = i + 1;
        }
        ids
    }

    /// `id` if it was registered as a pipeline, else the error naming `command_label`.
    pub fn get_pipeline(&self, id: PipelineId, command_label: &str) -> (r: Result<PipelineId, RenderError>)
        ensures
            match r {
                Ok(p) => self.has_pipeline(id) && p == id,
                Err(e) => !self.has_pipeline(id) && (e matches RenderError::PipelineNotFound { label }
                    && label@ == command_label@),
            },
    {
        if self.pipelines.contains_key(id.key) {
            Ok(id)
        } else {
            Err(RenderError::PipelineNotFound { label: command_label.to_string() })
        }
    }

    /// `id` if it was registered as a bind group, else the error naming `command_label`.
    pub fn get_bind_group(&self, id: BindGroupId, command_label: &str) -> (r: Result<BindGroupId, RenderError>)
        ensures
            match r {
                Ok(b) => self.has_bind_group(id) && b == id,
                Err(e) => !self.has_bind_group(id) && (e matches RenderError::GlobalBindGroupNotFound {
                    label,
                } && label@ == command_label@),
            },
    {
        if self.bind_groups.contains_key(id.key) {
            Ok(id)
        } else {
            Err(RenderError::GlobalBindGroupNotFound { label: command_label.to_string() })
        }
    }

    /// The asset store.
    pub fn assets(&self) -> (r: &AssetStore)
        ensures
            *r == self.spec_assets(),
    {
        &self.assets
    }

    /// The asset store, to add meshes and materials to.
    pub fn get_assets_store(&mut self) -> (r: &mut AssetStore)
        ensures
            *r == old(self).spec_assets(),
            final(self).spec_assets() == *final(r),
            final(self).spec_instance_buffer() == old(self).spec_instance_buffer(),
            final(self).configured() == old(self).configured(),
            final(self).in_frame() == old(self).in_frame(),
            final(self).same_registries(old(self)),
    {
        &mut self.assets
    }

    /// The instance arena, whose records the caller uploads before drawing.
    pub fn instance_buffer(&self) -> (r: &InstanceBuffer)
        ensures
            *r == self.spec_instance_buffer(),
    {
        &self.instance_buffer
    }

    /// Begins a frame; the caller then acquires the surface image. Fails when
    /// the surface is not configured.
    pub fn begin_frame(&mut self) -> (r: Result<(), RenderError>)
        ensures
            r is Ok <==> old(self).configured(),
            r is Err ==> (r matches Err(RenderError::UnconfiguredSurface)),
            final(self).in_frame() == (old(self).in_frame() || r is Ok),
            final(self).configured() == old(self).configured(),
            final(self).spec_instance_buffer() == old(self).spec_instance_buffer(),
            final(self).spec_assets() == old(self).spec_assets(),
            final(self).same_registries(old(self)),
    {
        if !self.surface_is_configured {
            return Err(RenderError::UnconfiguredSurface);
        }
        self.frame_in_progress = true;
        Ok(())
    }

    /// Ends the frame in progress; the caller then presents it. Fails when no
    /// frame is in progress.
    pub fn end_frame(&mut self) -> (r: Result<(), RenderError>)
        ensures
            r is Ok <==> old(self).in_frame(),
            r is Err ==> (r matches Err(RenderError::NoFrameInProgress)),
            !final(self).in_frame(),
            final(self).configured() == old(self).configured(),
            final(self).spec_instance_buffer() == old(self).spec_instance_buffer(),
            final(self).spec_assets() == old(self).spec_assets(),
            final(self).same_registries(old(self)),
    {
        if self.frame_in_progress {
            self.frame_in_progress = false;
            Ok(())
        } else {
            Err(RenderError::NoFrameInProgress)
        }
    }

    /// Resolves every handle of `command` into a draw call, stopping at the
    /// first that is not registered.
    pub fn write_mesh_command(&self, command: MeshRenderCommand) -> (r: Result<DrawCall, RenderError>)
        ensures
            r is Ok <==> self.command_resolves(command),
            match r {
                Ok(dc) => self.is_draw_call(command, dc),
                Err(e) => self.command_error(command, e),
            },
    {
        let pipeline = match self.get_pipeline(command.pipeline, command.name.as_str()) {
            Ok(p) => p,
            Err(e) => {
                return Err(e);
            },
        };
        let camera_bind_group = match self.get_bind_group(command.camera_bind_group, command.name.as_str()) {
            Ok(b) => b,
            Err(e) => {
                return Err(e);
            },
        };
        let lighting_bind_group = match self.get_bind_group(command.lighting_bind_group, command.name.as_str()) {
            Ok(b) => b,
            Err(e) => {
                return Err(e);
            },
        };
        let material_bind_group = match self.get_bind_group(command.material_bind_group, command.name.as_str()) {
            Ok(b) => b,
            Err(e) => {
                return Err(e);
            },
        };
        let instances = match self.instance_buffer.get_range(command.mesh) {
            Some(range) => range,
            None => {
                return Err(RenderError::MeshHasNoInstanceData(command.mesh));
            },
        };
        Ok(DrawCall {
            pipeline,
            camera_bind_group,
            lighting_bind_group,
            material_bind_group,
            vertex_buffer: command.vertex_buffer,
            instances,
            index_buffer: command.index_buffer,
            draw: command.draw,
        })
    }

    /// Resolves the handles of a skybox command: the pipeline, then the camera
    /// and cubemap bind groups.
    pub fn write_skybox_command(&self, command: &SkyboxRenderCommand) -> (r: Result<SkyboxDraw, RenderError>)
        ensures
            r is Ok <==> self.has_pipeline(command.sky_pipeline) && self.has_bind_group(
                command.camera_bind_group,
            ) && self.has_bind_group(command.sky_bind_group),
            match r {
                Ok(d) => d.pipeline == command.sky_pipeline && d.camera_bind_group
                    == command.camera_bind_group && d.sky_bind_group == command.sky_bind_group,
                Err(e) => if !self.has_pipeline(command.sky_pipeline) {
                    e matches RenderError::PipelineNotFound { label } && label@ == command.name@
                } else {
                    e matches RenderError::GlobalBindGroupNotFound { label } && label@ == command.name@
                },
            },
    {
        let pipeline = match self.get_pipeline(command.sky_pipeline, command.name.as_str()) {
            Ok(p) => p,
            Err(e) => {
                return Err(e);
            },
        };
        let camera_bind_group = match self.get_bind_group(command.camera_bind_group, command.name.as_str()) {
            Ok(b) => b,
            Err(e) => {
                return Err(e);
            },
        };
        let sky_bind_group = match self.get_bind_group(command.sky_bind_group, command.name.as_str()) {
            Ok(b) => b,
            Err(e) => {
                return Err(e);
            },
        };
        Ok(SkyboxDraw { pipeline, camera_bind_group, sky_bind_group })
    }

    /// Resolves the commands in order into draw calls; the first command that
    /// does not resolve aborts the frame, so no draw call is handed out at all.
    pub fn resolve_commands(&self, commands: Vec<MeshRenderCommand>) -> (r: Result<Vec<DrawCall>, RenderError>)
        ensures
            r is Ok <==> forall|i: int|
                0 <= i < commands@.len() ==> self.command_resolves(#[trigger] commands@[i]),
            match r {
                Ok(dcs) => {
                    &&& dcs@.len() == commands@.len()
                    &&& forall|i: int|
                        0 <= i < commands@.len() ==> self.is_draw_call(#[trigger] commands@[i], dcs@[i])
                },
                Err(e) => self.first_command_error(commands@, e),
            },
    {
        let ghost all = commands@;
        let mut pending = commands;
        let n = pending.len();
        let mut draws: Vec<DrawCall> = Vec::new();
        let mut i: usize = 0;
        while i < n
            invariant
                n == all.len(),
                all == commands@,
                0 <= i <= n,
                pending@ == all.subrange(i as int, n as int),
                draws@.len() == i,
                forall|k: int| 0 <= k < i ==> self.command_resolves(#[trigger] all[k]),
                forall|k: int| 0 <= k < i ==> self.is_draw_call(#[trigger] all[k], draws@[k]),
            decreases n - i,
        {
            let command = pending.remove(0);
            proof {
                assert(command == all[i as int]);
                assert(pending@ =~= all.subrange(i + 1, n as int));
            }
            match self.write_mesh_command(command) {
                Ok(dc) => {
                    draws.push(dc);
                },
                Err(e) => {
                    proof {
                        assert(!self.command_resolves(all[i as int]));
                        assert(self.command_error(all[i as int], e));
                        assert(self.first_command_error(all, e));
                        assert(!(forall|k: int| 0 <= k < all.len() ==> self.command_resolves(#[trigger] all[k])));
                    }
                    return Err(e);
                },
            }
            i = i + 1;
        }
        Ok(draws)
    }

    /// Renders `scene` in the frame in progress: fails on an unconfigured
    /// surface, clears the instance arena, assembles the scene's commands
    /// (which fill the arena), fails outside a frame, then resolves the
    /// commands into draw calls. Any failure leaves no draw call at all.
    pub fn render_scene_for_frame(&mut self, scene: &Scene, world: &World) -> (r: Result<
        Vec<DrawCall>,
        RenderError,
    >)
        requires
            old(self).wf(),
        ensures
            final(self).wf(),
            final(self).configured() == old(self).configured(),
            final(self).in_frame() == old(self).in_frame(),
            final(self).spec_assets() == old(self).spec_assets(),
            final(self).same_registries(old(self)),
            !old(self).configured() ==> final(self).spec_instance_buffer() == old(
                self).spec_instance_buffer(),
            final(self).spec_instance_buffer().wf(),
            old(self).configured() && old(self).in_frame() && scene.all_groups_resolve(
                world,
                old(self).spec_assets(),
            ) && old(self).registers_scene(scene) ==> r is Ok,
            match r {
                Ok(dcs) => {
                    &&& old(self).configured()
                    &&& old(self).in_frame()
                    &&& scene.all_groups_resolve(world, old(self).spec_assets())
                    &&& exists|cmds: Seq<MeshRenderCommand>|
                        #[trigger] final(self).frame_commands(scene, world, cmds) && dcs@.len()
                            == cmds.len() && forall|i: int|
                            0 <= i < cmds.len() ==> final(self).command_resolves(#[trigger] cmds[i])
                                && final(self).is_draw_call(cmds[i], dcs@[i])
                },
                Err(RenderError::UnconfiguredSurface) => !old(self).configured(),
                Err(RenderError::Scene(e)) => {
                    &&& old(self).configured()
                    &&& exists|m: MeshId| #[trigger]
                        scene.has_group(m) && scene.group_error(world, old(self).spec_assets(), m, e)
                },
                Err(RenderError::NoFrameInProgress) => {
                    &&& old(self).configured()
                    &&& !old(self).in_frame()
                    &&& scene.all_groups_resolve(world, old(self).spec_assets())
                },
                Err(e) => {
                    &&& old(self).configured()
                    &&& old(self).in_frame()
                    &&& scene.all_groups_resolve(world, old(self).spec_assets())
                    &&& exists|cmds: Seq<MeshRenderCommand>|
                        #[trigger] final(self).frame_commands(scene, world, cmds)
                            && final(self).first_command_error(cmds, e)
                },
            },
    {
        if !self.surface_is_configured {
            return Err(RenderError::UnconfiguredSurface);
        }
        self.instance_buffer.clear();
        let commands = match scene.to_commands(world, &self.assets, &mut self.instance_buffer) {
            Ok(c) => c,
            Err(e) => {
                return Err(RenderError::Scene(e));
            },
        };
        proof {
            assert(self.frame_commands(scene, world, commands@));
        }
        if !self.frame_in_progress {
            return Err(RenderError::NoFrameInProgress);
        }
        proof {
            if self.registers_scene(scene) {
                assert forall|i: int| 0 <= i < commands@.len() implies self.command_resolves(
                    #[trigger] commands@[i]) by {
                    assert(scene.command_assembled(world, &self.assets, commands@[i], self.instance_buffer, i));
                    assert(scene.has_group(commands@[i].mesh));
                }
            }
        }
        self.resolve_commands(commands)
    }
}

} // verus!
