use voxel_editor::chunk_table::ChunkTable;
use voxel_editor::geometry::{ChunkKey, Extent3i, Point3i};
use voxel_editor::voxel::{
    SdfVoxel, SdfVoxelPalette, SdfVoxelType, SdfVoxelTypeInfo, VoxelDistance, VoxelMaterial,
};
use voxel_editor::world::VoxelWorld;

fn palette() -> SdfVoxelPalette {
    SdfVoxelPalette::new(vec![
        SdfVoxelTypeInfo { is_empty: true, material: VoxelMaterial(255) },
        SdfVoxelTypeInfo { is_empty: false, material: VoxelMaterial(0) },
        SdfVoxelTypeInfo { is_empty: false, material: VoxelMaterial(1) },
    ])
    .unwrap()
}

fn extent(min: (i32, i32, i32), shape: (i32, i32, i32)) -> Extent3i {
    Extent3i::from_min_and_shape(Point3i::new(min.0, min.1, min.2), Point3i::new(shape.0, shape.1, shape.2))
        .unwrap()
}

fn fill(t: u8) -> impl Fn(Point3i, SdfVoxel) -> SdfVoxel {
    move |_p, _v| SdfVoxel::new(SdfVoxelType(t), VoxelDistance(-20))
}

fn frame(world: &mut VoxelWorld) -> Vec<ChunkKey> {
    let mut caches: Vec<ChunkTable> = vec![ChunkTable::new(), ChunkTable::new()];
    world.end_of_frame(&mut caches, 64)
}

fn snapshot(world: &VoxelWorld, keys: &[ChunkKey]) -> Vec<Vec<SdfVoxel>> {
    keys.iter().map(|k| world.map().read_chunk(*k)).collect()
}

#[test]
fn undo_then_redo_restores_edit() {
    let mut w = VoxelWorld::new(palette());
    let keys = [ChunkKey::new(0, 0, 0), ChunkKey::new(1, 0, 0)];
    w.edit_extent_and_touch_neighbors(&extent((10, 2, 2), (10, 3, 3)), fill(1));
    frame(&mut w);
    w.edit_extent_and_touch_neighbors(&extent((12, 2, 2), (2, 2, 2)), fill(2));
    frame(&mut w);
    w.finish_edit();
    let after_edit = snapshot(&w, &keys);
    w.undo();
    frame(&mut w);
    assert_eq!(w.get_voxel(Point3i::new(10, 2, 2)), SdfVoxel::empty());
    assert_eq!(w.get_voxel(Point3i::new(12, 2, 2)), SdfVoxel::empty());
    w.redo();
    frame(&mut w);
    assert_eq!(snapshot(&w, &keys), after_edit);
    assert_eq!(w.get_voxel(Point3i::new(12, 2, 2)).voxel_type, SdfVoxelType(2));
}

#[test]
fn undo_on_empty_history_does_nothing() {
    let mut w = VoxelWorld::new(palette());
    w.undo();
    w.redo();
    assert_eq!(frame(&mut w), vec![]);
    assert_eq!(w.undo_len(), 0);
    assert_eq!(w.redo_len(), 0);
}

#[test]
fn many_undos_restore_start_and_redos_the_end() {
    let mut w = VoxelWorld::new(palette());
    let keys = [ChunkKey::new(0, 0, 0), ChunkKey::new(1, 0, 0), ChunkKey::new(0, 1, 0)];
    let start = snapshot(&w, &keys);
    for i in 0..3 {
        w.edit_extent_and_touch_neighbors(&extent((5 * i, 8 * i, 0), (8, 4, 4)), fill(1 + (i as u8 % 2)));
        w.finish_edit();
        frame(&mut w);
    }
    let end = snapshot(&w, &keys);
    assert_eq!(w.undo_len(), 3);
    for _ in 0..3 {
        w.undo();
        frame(&mut w);
    }
    assert_eq!(snapshot(&w, &keys), start);
    assert_eq!(w.redo_len(), 3);
    for _ in 0..3 {
        w.redo();
        frame(&mut w);
    }
    assert_eq!(snapshot(&w, &keys), end);
}

#[test]
fn new_edit_clears_redo() {
    let mut w = VoxelWorld::new(palette());
    w.edit_extent_and_touch_neighbors(&extent((0, 0, 0), (1, 1, 1)), fill(1));
    w.finish_edit();
    frame(&mut w);
    w.undo();
    frame(&mut w);
    assert_eq!(w.redo_len(), 1);
    w.edit_extent_and_touch_neighbors(&extent((4, 0, 0), (1, 1, 1)), fill(2));
    w.finish_edit();
    assert_eq!(w.redo_len(), 0);
    assert_eq!(w.undo_len(), 1);
}

#[test]
fn ray_cast_hits_nearest_occupied_voxel() {
    let mut w = VoxelWorld::new(palette());
    w.edit_extent_and_touch_neighbors(&extent((20, 0, 0), (1, 1, 1)), fill(1));
    w.edit_extent_and_touch_neighbors(&extent((40, 0, 0), (1, 1, 1)), fill(2));
    frame(&mut w);
    let path: Vec<Point3i> = (0..64).map(|x| Point3i::new(x, 0, 0)).collect();
    assert_eq!(w.cast_ray(&path), Some(20));
    let back: Vec<Point3i> = (0..64).rev().map(|x| Point3i::new(x, 0, 0)).collect();
    assert_eq!(w.cast_ray(&back), Some(63 - 40));
    let miss: Vec<Point3i> = (0..64).map(|x| Point3i::new(x, 1, 0)).collect();
    assert_eq!(w.cast_ray(&miss), None);
}

#[test]
fn ray_cast_follows_edits_after_rebuild() {
    let mut w = VoxelWorld::new(palette());
    w.edit_extent_and_touch_neighbors(&extent((20, 0, 0), (1, 1, 1)), fill(1));
    frame(&mut w);
    let path: Vec<Point3i> = (0..64).map(|x| Point3i::new(x, 0, 0)).collect();
    assert_eq!(w.cast_ray(&path), Some(20));
    w.edit_extent_and_touch_neighbors(&extent((20, 0, 0), (1, 1, 1)), |_p, _v| SdfVoxel::empty());
    frame(&mut w);
    assert_eq!(w.cast_ray(&path), None);
}

#[test]
fn emptied_chunk_is_reclaimed_next_frame() {
    let mut w = VoxelWorld::new(palette());
    w.edit_extent_and_touch_neighbors(&extent((1, 1, 1), (1, 1, 1)), fill(1));
    frame(&mut w);
    assert_eq!(w.map().len(), 1);
    w.edit_extent_and_touch_neighbors(&extent((1, 1, 1), (1, 1, 1)), |_p, _v| SdfVoxel::empty());
    frame(&mut w);
    assert_eq!(w.map().len(), 1);
    frame(&mut w);
    assert_eq!(w.map().len(), 0);
}

#[test]
fn queued_chunk_edited_in_same_frame_survives() {
    let mut w = VoxelWorld::new(palette());
    w.edit_extent_and_touch_neighbors(&extent((1, 1, 1), (1, 1, 1)), |_p, _v| SdfVoxel::empty());
    frame(&mut w);
    // The chunk holds only empty voxels and is queued; an edit lands before
    // the next maintenance pass.
    w.edit_extent_and_touch_neighbors(&extent((2, 2, 2), (1, 1, 1)), fill(2));
    frame(&mut w);
    assert_eq!(w.map().len(), 1);
    assert_eq!(w.get_voxel(Point3i::new(2, 2, 2)).voxel_type, SdfVoxelType(2));
}

#[test]
fn compression_budget_keeps_contents() {
    let mut w = VoxelWorld::new(palette());
    for i in 0..5 {
        w.edit_extent_and_touch_neighbors(&extent((16 * i, 0, 0), (1, 1, 1)), fill(1));
    }
    let mut caches: Vec<ChunkTable> = vec![ChunkTable::new()];
    w.end_of_frame(&mut caches, 2);
    assert_eq!(w.map().num_decompressed(), 2);
    for i in 0..5 {
        assert_eq!(w.get_voxel(Point3i::new(16 * i, 0, 0)).voxel_type, SdfVoxelType(1));
    }
    // Reads a compressed chunk through a worker cache; the flush at the next
    // frame holds it decompressed again.
    let key = ChunkKey::new(4, 0, 0);
    let mut cache = ChunkTable::new();
    let read = w.map().get_chunk(key, &mut cache);
    assert_eq!(read[0].voxel_type, SdfVoxelType(1));
    let mut caches = vec![cache];
    w.end_of_frame(&mut caches, 100);
    assert_eq!(caches[0].len(), 0);
    assert_eq!(w.map().num_decompressed(), 3);
}

#[test]
fn meshes_are_listed_per_key() {
    let mut w = VoxelWorld::new(palette());
    w.edit_extent_and_touch_neighbors(&extent((3, 3, 3), (2, 2, 2)), fill(1));
    frame(&mut w);
    let keys = vec![ChunkKey::new(0, 0, 0), ChunkKey::new(5, 5, 5), ChunkKey::new(i32::MAX / 16, 0, 0)];
    let meshes = w.generate_meshes(&keys);
    assert_eq!(meshes.len(), 3);
    assert_eq!(meshes[0].0, keys[0]);
    assert!(meshes[0].1.is_some());
    assert!(meshes[1].1.is_none());
    assert!(meshes[2].1.is_none());
}

#[test]
fn finish_edit_pushes_one_step_per_gesture() {
    let mut w = VoxelWorld::new(palette());
    w.edit_extent_and_touch_neighbors(&extent((0, 0, 0), (1, 1, 1)), fill(1));
    frame(&mut w);
    w.edit_extent_and_touch_neighbors(&extent((40, 0, 0), (1, 1, 1)), fill(1));
    frame(&mut w);
    w.finish_edit();
    assert_eq!(w.undo_len(), 1);
    // One undo reverts both parts of the gesture.
    w.undo();
    frame(&mut w);
    assert_eq!(w.get_voxel(Point3i::new(0, 0, 0)), SdfVoxel::empty());
    assert_eq!(w.get_voxel(Point3i::new(40, 0, 0)), SdfVoxel::empty());
}

#[test]
fn chunk_with_non_ambient_distances_is_kept() {
    let mut w = VoxelWorld::new(palette());
    w.edit_extent_and_touch_neighbors(&extent((1, 1, 1), (1, 1, 1)), fill(1));
    frame(&mut w);
    // Empty type, but a distance that differs from the ambient one.
    w.edit_extent_and_touch_neighbors(&extent((1, 1, 1), (1, 1, 1)), |_p, _v| {
        SdfVoxel::new(SdfVoxelType(0), VoxelDistance(3))
    });
    frame(&mut w);
    frame(&mut w);
    assert_eq!(w.map().len(), 1);
    assert_eq!(w.get_voxel(Point3i::new(1, 1, 1)).distance, VoxelDistance(3));
    let path: Vec<Point3i> = (0..16).map(|x| Point3i::new(x, 1, 1)).collect();
    assert_eq!(w.cast_ray(&path), None);
}
