use scenegraph_core::assets::{AssetStore, BufferHandle, Material, Mesh, MeshId};
use scenegraph_core::commands::{DrawCommand, MeshRenderCommand, SkyboxRenderCommand};
use scenegraph_core::instance_buffer::InstanceBufferRange;
use scenegraph_core::renderer::{BindGroupId, PipelineId, RenderError, Renderer};
use scenegraph_core::scene::{MeshInstance, Scene};
use scenegraph_core::transform::{SpatialTransform, Vec3};
use scenegraph_core::world::World;

fn at(x: i64) -> SpatialTransform {
    let mut t = SpatialTransform::identity();
    t.position = Vec3::new(x, 0, 0);
    t
}

/// A configured renderer with one pipeline, three bind groups (camera,
/// lighting, material) and one mesh, plus a world with one entity.
fn setup() -> (Renderer, PipelineId, Vec<BindGroupId>, MeshId, World, Scene) {
    let mut renderer = Renderer::new(AssetStore::new());
    assert!(renderer.resize(800, 600));
    let pipeline = renderer.add_pipelines(1)[0];
    let groups = renderer.add_bind_groups(3);
    let assets = renderer.get_assets_store();
    let material = assets.add_materials(vec![Material { name: "mat".to_string(), bind_group: groups[2] }])[0];
    let mesh = assets.add_meshes(vec![Mesh {
        name: "cube".to_string(),
        vertex_buffer: BufferHandle { index: 1 },
        index_buffer: BufferHandle { index: 2 },
        material,
        num_elements: 36,
    }])[0];
    let mut world = World::new();
    let e = world.add_entity(None, vec![], at(4)).unwrap();
    world.propagate();
    let mut scene = Scene::new(pipeline, groups[0], groups[1]);
    scene.add_mesh_instances(mesh, vec![MeshInstance { mesh, entity: e }]);
    (renderer, pipeline, groups, mesh, world, scene)
}

#[test]
fn frame_resolves_draw_calls() {
    let (mut renderer, pipeline, groups, mesh, world, scene) = setup();
    renderer.begin_frame().unwrap();
    let draws = renderer.render_scene_for_frame(&scene, &world).unwrap();
    assert_eq!(draws.len(), 1);
    let d = &draws[0];
    assert_eq!(d.pipeline, pipeline);
    assert_eq!(d.camera_bind_group, groups[0]);
    assert_eq!(d.lighting_bind_group, groups[1]);
    assert_eq!(d.material_bind_group, groups[2]);
    assert_eq!(d.vertex_buffer, BufferHandle { index: 1 });
    assert_eq!(d.index_buffer, BufferHandle { index: 2 });
    assert_eq!(d.instances, InstanceBufferRange { start: 0, end: 1 });
    assert_eq!(d.draw, DrawCommand::Indexed { indices: 0..36, base_vertex: 0, instances: 0..1 });
    assert_eq!(renderer.instance_buffer().data()[0].position, Vec3::new(4, 0, 0));
    assert_eq!(renderer.instance_buffer().get_range(mesh), Some(InstanceBufferRange { start: 0, end: 1 }));
    renderer.end_frame().unwrap();
}

#[test]
fn each_frame_starts_from_an_empty_arena() {
    let (mut renderer, _pipeline, _groups, _mesh, world, scene) = setup();
    renderer.begin_frame().unwrap();
    renderer.render_scene_for_frame(&scene, &world).unwrap();
    renderer.end_frame().unwrap();
    renderer.begin_frame().unwrap();
    let draws = renderer.render_scene_for_frame(&scene, &world).unwrap();
    assert_eq!(draws[0].instances, InstanceBufferRange { start: 0, end: 1 });
    assert_eq!(renderer.instance_buffer().data().len(), 1);
}

#[test]
fn unregistered_pipeline_gives_no_draws() {
    let (mut renderer, _pipeline, groups, mesh, world, _scene) = setup();
    let mut other = Renderer::new(AssetStore::new());
    let foreign = other.add_pipelines(2)[1];
    let mut scene = Scene::new(foreign, groups[0], groups[1]);
    let mut w = world;
    let e = w.add_entity(None, vec![], at(1)).unwrap();
    w.propagate();
    scene.add_mesh_instances(mesh, vec![MeshInstance { mesh, entity: e }]);
    renderer.begin_frame().unwrap();
    let r = renderer.render_scene_for_frame(&scene, &w);
    match r {
        Err(RenderError::PipelineNotFound { label }) => assert_eq!(label, "cube"),
        Err(e) => panic!("unexpected error {:?}", e),
        Ok(draws) => panic!("expected no draws, got {}", draws.len()),
    }
}

#[test]
fn resolution_stops_at_first_unresolved_command() {
    let (mut renderer, pipeline, groups, mesh, world, scene) = setup();
    renderer.begin_frame().unwrap();
    renderer.render_scene_for_frame(&scene, &world).unwrap();
    let mut other = Renderer::new(AssetStore::new());
    let foreign = other.add_pipelines(2)[1];
    let command = |p: PipelineId, name: &str| MeshRenderCommand {
        name: name.to_string(),
        mesh,
        pipeline: p,
        camera_bind_group: groups[0],
        lighting_bind_group: groups[1],
        material_bind_group: groups[2],
        vertex_buffer: BufferHandle { index: 1 },
        instance_buffer_range: InstanceBufferRange { start: 0, end: 1 },
        index_buffer: BufferHandle { index: 2 },
        draw: DrawCommand::Indexed { indices: 0..36, base_vertex: 0, instances: 0..1 },
    };
    let r = renderer.resolve_commands(vec![command(pipeline, "first"), command(foreign, "second"), command(foreign, "third")]);
    match r {
        Err(RenderError::PipelineNotFound { label }) => assert_eq!(label, "second"),
        _ => panic!("expected a missing pipeline"),
    }
}

#[test]
fn command_without_instance_data_is_refused() {
    let (renderer, pipeline, groups, mesh, _world, _scene) = setup();
    let cmd = MeshRenderCommand {
        name: "cube".to_string(),
        mesh,
        pipeline,
        camera_bind_group: groups[0],
        lighting_bind_group: groups[1],
        material_bind_group: groups[2],
        vertex_buffer: BufferHandle { index: 1 },
        instance_buffer_range: InstanceBufferRange { start: 0, end: 1 },
        index_buffer: BufferHandle { index: 2 },
        draw: DrawCommand::NonIndexed { vertices: 0..3, instances: 0..1 },
    };
    assert_eq!(renderer.write_mesh_command(cmd).err(), Some(RenderError::MeshHasNoInstanceData(mesh)));
}

#[test]
fn unregistered_bind_group_is_refused() {
    let (mut renderer, _pipeline, groups, _mesh, world, scene) = setup();
    let mut other = Renderer::new(AssetStore::new());
    let foreign = other.add_bind_groups(5)[4];
    assert_eq!(
        renderer.get_bind_group(foreign, "x").err(),
        Some(RenderError::GlobalBindGroupNotFound { label: "x".to_string() })
    );
    assert_eq!(renderer.get_bind_group(groups[1], "x").ok(), Some(groups[1]));
    renderer.begin_frame().unwrap();
    assert!(renderer.render_scene_for_frame(&scene, &world).is_ok());
}

#[test]
fn frame_state_errors() {
    let mut renderer = Renderer::new(AssetStore::new());
    assert_eq!(renderer.begin_frame(), Err(RenderError::UnconfiguredSurface));
    assert!(!renderer.resize(0, 600));
    assert_eq!(renderer.begin_frame(), Err(RenderError::UnconfiguredSurface));
    assert!(renderer.resize(800, 600));
    assert_eq!(renderer.end_frame(), Err(RenderError::NoFrameInProgress));
    assert_eq!(renderer.begin_frame(), Ok(()));
    assert_eq!(renderer.end_frame(), Ok(()));
    assert_eq!(renderer.end_frame(), Err(RenderError::NoFrameInProgress));
}

#[test]
fn rendering_needs_a_configured_surface_and_a_frame() {
    let (_r, pipeline, groups, _mesh, world, _scene) = setup();
    let mut fresh = Renderer::new(AssetStore::new());
    let scene = Scene::new(pipeline, groups[0], groups[1]);
    assert_eq!(fresh.render_scene_for_frame(&scene, &world).err(), Some(RenderError::UnconfiguredSurface));
    fresh.resize(10, 10);
    assert_eq!(fresh.render_scene_for_frame(&scene, &world).err(), Some(RenderError::NoFrameInProgress));
    fresh.begin_frame().unwrap();
    assert_eq!(fresh.render_scene_for_frame(&scene, &world).map(|d| d.len()), Ok(0));
}

#[test]
fn skybox_handles_are_resolved() {
    let (renderer, pipeline, groups, _mesh, _world, _scene) = setup();
    let ok = SkyboxRenderCommand {
        name: "sky".to_string(),
        sky_pipeline: pipeline,
        sky_bind_group: groups[2],
        camera_bind_group: groups[0],
    };
    let d = renderer.write_skybox_command(&ok).unwrap();
    assert_eq!(d.pipeline, pipeline);
    assert_eq!(d.sky_bind_group, groups[2]);
    assert_eq!(d.camera_bind_group, groups[0]);
    let mut other = Renderer::new(AssetStore::new());
    let foreign = other.add_bind_groups(6)[5];
    let bad = SkyboxRenderCommand {
        name: "sky".to_string(),
        sky_pipeline: pipeline,
        sky_bind_group: foreign,
        camera_bind_group: groups[0],
    };
    match renderer.write_skybox_command(&bad) {
        Err(RenderError::GlobalBindGroupNotFound { label }) => assert_eq!(label, "sky"),
        _ => panic!("expected a missing bind group"),
    }
}
