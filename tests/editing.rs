use voxel_editor::chunk_map::{ambient_chunk_voxels, ChunkMap};
use voxel_editor::edit_buffer::{reclaim_empty_chunks, EditBuffer};
use voxel_editor::geometry::{keys_contain, ChunkKey, Extent3i, Point3i};
use voxel_editor::voxel::{SdfVoxel, SdfVoxelType, VoxelDistance};

fn extent(min: (i32, i32, i32), shape: (i32, i32, i32)) -> Extent3i {
    Extent3i::from_min_and_shape(Point3i::new(min.0, min.1, min.2), Point3i::new(shape.0, shape.1, shape.2))
        .unwrap()
}

fn solid(_p: Point3i, _v: SdfVoxel) -> SdfVoxel {
    SdfVoxel::new(SdfVoxelType(1), VoxelDistance(-10))
}

#[test]
fn edit_stays_out_of_place_until_merge() {
    let mut map = ChunkMap::new();
    let mut buffer = EditBuffer::new();
    buffer.edit_extent(&map, &extent((0, 0, 0), (2, 2, 2)), solid);
    assert!(buffer.has_edit(ChunkKey::new(0, 0, 0)));
    assert_eq!(map.len(), 0);
    let read = buffer.read_chunk(&map, ChunkKey::new(0, 0, 0));
    assert_eq!(read[0], solid(Point3i::new(0, 0, 0), SdfVoxel::empty()));
    assert_eq!(read[2], SdfVoxel::empty());
    let dirty = buffer.merge_into(&mut map);
    assert_eq!(dirty, vec![ChunkKey::new(0, 0, 0)]);
    assert_eq!(map.get_voxel(Point3i::new(1, 1, 1)).distance, VoxelDistance(-10));
    assert_eq!(map.get_voxel(Point3i::new(2, 1, 1)), SdfVoxel::empty());
}

#[test]
fn edit_sees_earlier_edits_of_the_frame() {
    let map = ChunkMap::new();
    let mut buffer = EditBuffer::new();
    let e = extent((0, 0, 0), (1, 1, 1));
    buffer.edit_extent(&map, &e, |_p, v| SdfVoxel::new(v.voxel_type, VoxelDistance(v.distance.0 - 1)));
    buffer.edit_extent(&map, &e, |_p, v| SdfVoxel::new(v.voxel_type, VoxelDistance(v.distance.0 - 1)));
    assert_eq!(buffer.read_chunk(&map, ChunkKey::new(0, 0, 0))[0].distance, VoxelDistance(125));
}

#[test]
fn dirty_set_holds_face_neighbors() {
    let mut map = ChunkMap::new();
    let mut buffer = EditBuffer::new();
    let e = extent((5, 5, 5), (2, 2, 2));
    buffer.edit_extent_and_touch_neighbors(&map, &e, solid);
    let dirty = buffer.merge_into(&mut map);
    assert!(keys_contain(&dirty, ChunkKey::new(0, 0, 0)));
    for k in [
        ChunkKey::new(1, 0, 0),
        ChunkKey::new(-1, 0, 0),
        ChunkKey::new(0, 1, 0),
        ChunkKey::new(0, -1, 0),
        ChunkKey::new(0, 0, 1),
        ChunkKey::new(0, 0, -1),
    ] {
        assert!(keys_contain(&dirty, k));
    }
    assert_eq!(dirty.len(), 27);
    // Only the edited chunk was written.
    assert_eq!(map.len(), 1);
}

#[test]
fn merge_reports_each_key_once() {
    let mut map = ChunkMap::new();
    let mut buffer = EditBuffer::new();
    buffer.edit_extent_and_touch_neighbors(&map, &extent((0, 0, 0), (1, 1, 1)), solid);
    buffer.edit_extent_and_touch_neighbors(&map, &extent((15, 0, 0), (2, 1, 1)), solid);
    let dirty = buffer.merge_into(&mut map);
    for (i, a) in dirty.iter().enumerate() {
        for b in dirty[i + 1..].iter() {
            assert_ne!(a, b);
        }
    }
    assert!(keys_contain(&dirty, ChunkKey::new(2, 0, 0)));
    assert_eq!(buffer.merge_into(&mut map), vec![]);
}

#[test]
fn reclaim_removes_untouched_empty_chunks() {
    let mut map = ChunkMap::new();
    map.write_chunk(ChunkKey::new(0, 0, 0), ambient_chunk_voxels());
    map.write_chunk(ChunkKey::new(5, 0, 0), ambient_chunk_voxels());
    let buffer = EditBuffer::new();
    reclaim_empty_chunks(&mut map, &vec![ChunkKey::new(0, 0, 0)], &buffer);
    assert!(!map.contains_chunk(ChunkKey::new(0, 0, 0)));
    assert!(map.contains_chunk(ChunkKey::new(5, 0, 0)));
}

#[test]
fn reclaim_spares_chunks_edited_this_frame() {
    let mut map = ChunkMap::new();
    let key = ChunkKey::new(0, 0, 0);
    map.write_chunk(key, ambient_chunk_voxels());
    let mut buffer = EditBuffer::new();
    buffer.edit_extent_and_touch_neighbors(&map, &extent((3, 3, 3), (1, 1, 1)), solid);
    reclaim_empty_chunks(&mut map, &vec![key], &buffer);
    assert!(map.contains_chunk(key));
    buffer.merge_into(&mut map);
    assert_eq!(map.get_voxel(Point3i::new(3, 3, 3)).voxel_type, SdfVoxelType(1));
}
