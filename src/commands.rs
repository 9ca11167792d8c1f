//! Draw instructions produced by scene assembly.
use vstd::prelude::*;
use std::ops::Range;
use crate::assets::{BufferHandle, MeshId};
use crate::instance_buffer::InstanceBufferRange;
use crate::renderer::{BindGroupId, PipelineId};

verus! {

/// What kind of draw to issue.
#[derive(Debug, PartialEq, Eq)]
pub enum DrawCommand {
    NonIndexed { vertices: Range<u32>, instances: Range<u32> },
    Indexed { indices: Range<u32>, base_vertex: i32, instances: Range<u32> },
}

/// How to draw the instances of one mesh.
pub struct MeshRenderCommand {
    pub name: String,
    pub mesh: MeshId,
    pub pipeline: PipelineId,
    pub camera_bind_group: BindGroupId,
    pub lighting_bind_group: BindGroupId,
    pub material_bind_group: BindGroupId,
    pub vertex_buffer: BufferHandle,
    pub instance_buffer_range: InstanceBufferRange,
    pub index_buffer: BufferHandle,
    pub draw: DrawCommand,
}

/// How to draw a skybox.
pub struct SkyboxRenderCommand {
    pub name: String,
    pub sky_pipeline: PipelineId,
    pub sky_bind_group: BindGroupId,
    pub camera_bind_group: BindGroupId,
}

/// The commands of one frame.
pub struct RenderCommandBuffer {
    pub mesh: Vec<MeshRenderCommand>,
    pub skybox: Option<SkyboxRenderCommand>,
}

} // verus!
