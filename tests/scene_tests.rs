use scenegraph_core::assets::{AssetStore, BufferHandle, Material, Mesh, MeshId};
use scenegraph_core::commands::DrawCommand;
use scenegraph_core::instance_buffer::{InstanceBuffer, InstanceBufferRange};
use scenegraph_core::renderer::{BindGroupId, PipelineId, Renderer};
use scenegraph_core::scene::{MeshInstance, Scene, SceneError};
use scenegraph_core::transform::{SpatialTransform, Vec3};
use scenegraph_core::world::{World, WorldEntityId};

struct Setup {
    assets: AssetStore,
    meshes: Vec<MeshId>,
    pipeline: PipelineId,
    groups: Vec<BindGroupId>,
}

fn setup(mesh_count: usize) -> Setup {
    let mut renderer = Renderer::new(AssetStore::new());
    let pipeline = renderer.add_pipelines(1)[0];
    let groups = renderer.add_bind_groups(3);
    let mut assets = AssetStore::new();
    let material = assets.add_materials(vec![Material { name: "stone".to_string(), bind_group: groups[2] }])[0];
    let meshes = (0..mesh_count)
        .map(|k| Mesh {
            name: format!("mesh{}", k),
            vertex_buffer: BufferHandle { index: 10 + k as u64 },
            index_buffer: BufferHandle { index: 20 + k as u64 },
            material,
            num_elements: 36,
        })
        .collect();
    let meshes = assets.add_meshes(meshes);
    Setup { assets, meshes, pipeline, groups }
}

fn at(x: i64) -> SpatialTransform {
    let mut t = SpatialTransform::identity();
    t.position = Vec3::new(x, 0, 0);
    t
}

fn foreign_entity() -> WorldEntityId {
    let mut other = World::new();
    let mut last = other.root();
    for _ in 0..4 {
        last = other.add_entity(None, vec![], at(0)).unwrap();
    }
    last
}

#[test]
fn missing_entity_aborts_assembly() {
    let s = setup(1);
    let mut world = World::new();
    let e = world.add_entity(None, vec![], at(1)).unwrap();
    world.propagate();
    let missing = foreign_entity();
    let mut scene = Scene::new(s.pipeline, s.groups[0], s.groups[1]);
    scene.add_mesh_instances(
        s.meshes[0],
        vec![MeshInstance { mesh: s.meshes[0], entity: e }, MeshInstance { mesh: s.meshes[0], entity: missing }],
    );
    let mut buffer = InstanceBuffer::with_capacity(4);
    let r = scene.to_commands(&world, &s.assets, &mut buffer);
    assert_eq!(r.err(), Some(SceneError::EntityNotFound(missing)));
    assert!(buffer.data().is_empty());
    assert_eq!(buffer.get_range(s.meshes[0]), None);
}

#[test]
fn missing_mesh_aborts_assembly() {
    let s = setup(1);
    let other = setup(3);
    let mut world = World::new();
    let e = world.add_entity(None, vec![], at(1)).unwrap();
    let unknown = other.meshes[2];
    let mut scene = Scene::new(s.pipeline, s.groups[0], s.groups[1]);
    scene.add_mesh_instances(unknown, vec![MeshInstance { mesh: unknown, entity: e }]);
    let mut buffer = InstanceBuffer::new();
    let r = scene.to_commands(&world, &s.assets, &mut buffer);
    assert_eq!(r.err(), Some(SceneError::MeshNotFound(unknown)));
}

#[test]
fn missing_material_aborts_assembly() {
    let s = setup(0);
    let mut big = AssetStore::new();
    let mats = big.add_materials(vec![
        Material { name: "a".to_string(), bind_group: s.groups[2] },
        Material { name: "b".to_string(), bind_group: s.groups[2] },
    ]);
    let mut assets = AssetStore::new();
    let mesh = assets.add_meshes(vec![Mesh {
        name: "orphan".to_string(),
        vertex_buffer: BufferHandle { index: 0 },
        index_buffer: BufferHandle { index: 1 },
        material: mats[1],
        num_elements: 3,
    }])[0];
    let mut world = World::new();
    let e = world.add_entity(None, vec![], at(1)).unwrap();
    let mut scene = Scene::new(s.pipeline, s.groups[0], s.groups[1]);
    scene.add_mesh_instances(mesh, vec![MeshInstance { mesh, entity: e }]);
    let mut buffer = InstanceBuffer::new();
    let r = scene.to_commands(&world, &assets, &mut buffer);
    assert_eq!(r.err(), Some(SceneError::MaterialNotFound(mats[1])));
}

#[test]
fn assembly_writes_transforms_and_commands() {
    let s = setup(2);
    let mut world = World::new();
    let a = world.add_entity(None, vec![], at(1)).unwrap();
    let b = world.add_entity(Some(a), vec![], at(2)).unwrap();
    let c = world.add_entity(None, vec![], at(5)).unwrap();
    world.propagate();
    let mut scene = Scene::new(s.pipeline, s.groups[0], s.groups[1]);
    let first = scene.add_mesh_instances(
        s.meshes[0],
        vec![MeshInstance { mesh: s.meshes[0], entity: a }, MeshInstance { mesh: s.meshes[0], entity: b }],
    );
    assert_eq!(first.len(), 2);
    scene.add_mesh_instances(s.meshes[1], vec![MeshInstance { mesh: s.meshes[1], entity: c }]);
    let mut buffer = InstanceBuffer::with_capacity(1);
    let cmds = scene.to_commands(&world, &s.assets, &mut buffer).unwrap();
    assert_eq!(cmds.len(), 2);
    assert_eq!(buffer.data().len(), 3);
    assert_eq!(buffer.capacity(), 4);
    for cmd in &cmds {
        let r = cmd.instance_buffer_range;
        let xs: Vec<i64> = buffer.data()[r.start as usize..r.end as usize].iter().map(|t| t.position.x).collect();
        assert_eq!(cmd.pipeline, s.pipeline);
        assert_eq!(cmd.camera_bind_group, s.groups[0]);
        assert_eq!(cmd.lighting_bind_group, s.groups[1]);
        assert_eq!(cmd.material_bind_group, s.groups[2]);
        if cmd.mesh == s.meshes[0] {
            assert_eq!(xs, vec![1, 3]);
            assert_eq!(cmd.name, "mesh0");
            assert_eq!(cmd.vertex_buffer, BufferHandle { index: 10 });
            assert_eq!(cmd.index_buffer, BufferHandle { index: 20 });
            assert_eq!(cmd.draw, DrawCommand::Indexed { indices: 0..36, base_vertex: 0, instances: 0..2 });
        } else {
            assert_eq!(cmd.mesh, s.meshes[1]);
            assert_eq!(xs, vec![5]);
            assert_eq!(cmd.draw, DrawCommand::Indexed { indices: 0..36, base_vertex: 0, instances: 0..1 });
        }
        assert_eq!(buffer.get_range(cmd.mesh), Some(r));
    }
}

#[test]
fn instances_added_later_join_their_group() {
    let s = setup(1);
    let mut world = World::new();
    let a = world.add_entity(None, vec![], at(1)).unwrap();
    let b = world.add_entity(None, vec![], at(2)).unwrap();
    world.propagate();
    let mut scene = Scene::new(s.pipeline, s.groups[0], s.groups[1]);
    let one = scene.add_mesh_instances(s.meshes[0], vec![MeshInstance { mesh: s.meshes[0], entity: a }]);
    let two = scene.add_mesh_instances(s.meshes[0], vec![MeshInstance { mesh: s.meshes[0], entity: b }]);
    assert_ne!(one[0], two[0]);
    let mut buffer = InstanceBuffer::new();
    let cmds = scene.to_commands(&world, &s.assets, &mut buffer).unwrap();
    assert_eq!(cmds.len(), 1);
    assert_eq!(cmds[0].instance_buffer_range, InstanceBufferRange { start: 0, end: 2 });
    let xs: Vec<i64> = buffer.data().iter().map(|t| t.position.x).collect();
    assert_eq!(xs, vec![1, 2]);
}

#[test]
fn empty_scene_gives_no_commands() {
    let s = setup(1);
    let world = World::new();
    let scene = Scene::new(s.pipeline, s.groups[0], s.groups[1]);
    let mut buffer = InstanceBuffer::new();
    let cmds = scene.to_commands(&world, &s.assets, &mut buffer).unwrap();
    assert!(cmds.is_empty());
}
