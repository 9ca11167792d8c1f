use scenegraph_core::assets::{AssetStore, BufferHandle, Material, MaterialId, Mesh, MeshId};
use scenegraph_core::instance_buffer::{ByteRange, InstanceBuffer, InstanceBufferRange, INITIAL_BUF_SIZE};
use scenegraph_core::renderer::{BindGroupId, Renderer};
use scenegraph_core::transform::{SpatialTransform, Vec3};

fn mesh_ids(n: usize) -> Vec<MeshId> {
    let mut renderer = Renderer::new(AssetStore::new());
    let bind_group: BindGroupId = renderer.add_bind_groups(1)[0];
    let mut assets = AssetStore::new();
    let material: MaterialId = assets.add_materials(vec![Material { name: "m".to_string(), bind_group }])[0];
    let meshes = (0..n)
        .map(|k| Mesh {
            name: format!("mesh{}", k),
            vertex_buffer: BufferHandle { index: 0 },
            index_buffer: BufferHandle { index: 1 },
            material,
            num_elements: 3,
        })
        .collect();
    assets.add_meshes(meshes)
}

fn records(n: i64) -> Vec<SpatialTransform> {
    (0..n)
        .map(|k| {
            let mut t = SpatialTransform::identity();
            t.position = Vec3::new(k, 0, 0);
            t
        })
        .collect()
}

#[test]
fn growth_doubles_once_and_ranges_follow() {
    let ids = mesh_ids(2);
    let mut buffer = InstanceBuffer::with_capacity(4);
    let first = buffer.add(records(3), ids[0]);
    assert_eq!(buffer.capacity(), 4);
    let second = buffer.add(records(3), ids[1]);
    assert_eq!(buffer.capacity(), 8);
    assert_eq!(first, InstanceBufferRange { start: 0, end: 3 });
    assert_eq!(second, InstanceBufferRange { start: 3, end: 6 });
    assert_eq!(buffer.get_range(ids[1]), Some(InstanceBufferRange { start: 3, end: 6 }));
    assert_eq!(buffer.data().len(), 6);
}

#[test]
fn growth_doubles_until_everything_fits() {
    let ids = mesh_ids(1);
    let mut buffer = InstanceBuffer::with_capacity(4);
    buffer.add(records(9), ids[0]);
    assert_eq!(buffer.capacity(), 16);
}

#[test]
fn growth_from_zero_capacity() {
    let ids = mesh_ids(1);
    let mut buffer = InstanceBuffer::with_capacity(0);
    buffer.add(records(3), ids[0]);
    assert_eq!(buffer.capacity(), 4);
}

#[test]
fn new_arena_has_initial_capacity() {
    let buffer = InstanceBuffer::new();
    assert_eq!(buffer.capacity(), INITIAL_BUF_SIZE);
    assert_eq!(buffer.capacity(), 10_000);
    assert!(buffer.data().is_empty());
}

#[test]
fn ranges_are_disjoint_and_cover_all_records() {
    let ids = mesh_ids(5);
    let mut buffer = InstanceBuffer::with_capacity(2);
    let sizes = [2i64, 0, 5, 1, 3];
    let mut ranges = Vec::new();
    for (k, n) in sizes.iter().enumerate() {
        ranges.push(buffer.add(records(*n), ids[k]));
    }
    let total = buffer.data().len() as u64;
    assert_eq!(total, 11);
    for i in 0..ranges.len() {
        for j in (i + 1)..ranges.len() {
            assert!(ranges[i].end <= ranges[j].start);
        }
    }
    for x in 0..total {
        assert_eq!(ranges.iter().filter(|r| r.start <= x && x < r.end).count(), 1);
    }
    assert_eq!(ranges[0].start, 0);
    assert_eq!(ranges[ranges.len() - 1].end, total);
}

#[test]
fn records_are_appended_in_order() {
    let ids = mesh_ids(2);
    let mut buffer = InstanceBuffer::with_capacity(4);
    buffer.add(records(2), ids[0]);
    buffer.add(records(2), ids[1]);
    let xs: Vec<i64> = buffer.data().iter().map(|t| t.position.x).collect();
    assert_eq!(xs, vec![0, 1, 0, 1]);
}

#[test]
fn last_add_for_a_mesh_wins() {
    let ids = mesh_ids(1);
    let mut buffer = InstanceBuffer::with_capacity(8);
    buffer.add(records(2), ids[0]);
    buffer.add(records(3), ids[0]);
    assert_eq!(buffer.get_range(ids[0]), Some(InstanceBufferRange { start: 2, end: 5 }));
}

#[test]
fn clear_forgets_ranges_and_keeps_capacity() {
    let ids = mesh_ids(1);
    let mut buffer = InstanceBuffer::with_capacity(2);
    buffer.add(records(3), ids[0]);
    buffer.clear();
    assert_eq!(buffer.get_range(ids[0]), None);
    assert_eq!(buffer.get_slice(ids[0], 100), None);
    assert!(buffer.data().is_empty());
    assert_eq!(buffer.capacity(), 4);
    let r = buffer.add(records(1), ids[0]);
    assert_eq!(r, InstanceBufferRange { start: 0, end: 1 });
}

#[test]
fn slice_is_in_bytes() {
    let ids = mesh_ids(2);
    let mut buffer = InstanceBuffer::with_capacity(4);
    buffer.add(records(3), ids[0]);
    buffer.add(records(3), ids[1]);
    assert_eq!(buffer.get_slice(ids[1], 100), Some(ByteRange { start: 300, end: 600 }));
    assert_eq!(buffer.get_slice(ids[0], 100), Some(ByteRange { start: 0, end: 300 }));
}

#[test]
fn sprite_textures_are_registered() {
    let mut assets = AssetStore::new();
    let ids = assets.add_sprite_textures(2);
    assert_eq!(ids.len(), 2);
    assert_ne!(ids[0], ids[1]);
    assert_eq!(assets.sprite_texture(ids[1]), Some(ids[1]));
    let other = AssetStore::new().add_sprite_textures(4);
    assert_eq!(assets.sprite_texture(other[3]), None);
}

#[test]
fn clear_forgets_a_range_in_slot_zero() {
    let key: slotmap::DefaultKey = slotmap::KeyData::from_ffi(1u64 << 32).into();
    let mesh = MeshId { key };
    let mut buffer = InstanceBuffer::with_capacity(4);
    buffer.add(records(2), mesh);
    assert_eq!(buffer.get_range(mesh), Some(InstanceBufferRange { start: 0, end: 2 }));
    buffer.clear();
    assert_eq!(buffer.get_range(mesh), None);
}
