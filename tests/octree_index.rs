use voxel_editor::chunk_map::{ambient_chunk_voxels, ChunkMap};
use voxel_editor::geometry::{ChunkKey, Point3i};
use voxel_editor::spatial_index::{generate_octree_for_each_chunk, octree_for_chunk, VoxelBVT};
use voxel_editor::voxel::{
    SdfVoxel, SdfVoxelPalette, SdfVoxelType, SdfVoxelTypeInfo, VoxelDistance, VoxelMaterial,
};

fn palette() -> SdfVoxelPalette {
    SdfVoxelPalette::new(vec![
        SdfVoxelTypeInfo { is_empty: true, material: VoxelMaterial(255) },
        SdfVoxelTypeInfo { is_empty: false, material: VoxelMaterial(0) },
    ])
    .unwrap()
}

#[test]
fn octree_records_occupied_voxels_and_octants() {
    let mut c = ambient_chunk_voxels();
    c[9 + 16 * 2 + 256 * 12] = SdfVoxel::new(SdfVoxelType(1), VoxelDistance(-3));
    let t = octree_for_chunk(&palette(), &c);
    assert_eq!(t.occupied.iter().filter(|b| **b).count(), 1);
    assert!(t.occupied[9 + 16 * 2 + 256 * 12]);
    // x = 9 and z = 12 lie in the upper halves, y = 2 in the lower one.
    assert_eq!(t.octants, vec![false, false, false, false, false, true, false, false]);
    assert!(!t.is_empty());
    assert!(octree_for_chunk(&palette(), &ambient_chunk_voxels()).is_empty());
}

#[test]
fn octrees_listed_once_per_key() {
    let mut map = ChunkMap::new();
    let mut c = ambient_chunk_voxels();
    c[0] = SdfVoxel::new(SdfVoxelType(1), VoxelDistance(-3));
    map.write_chunk(ChunkKey::new(0, 0, 0), c);
    let keys = vec![ChunkKey::new(0, 0, 0), ChunkKey::new(1, 0, 0)];
    let trees = generate_octree_for_each_chunk(&map, &palette(), &keys);
    assert_eq!(trees.len(), 2);
    assert_eq!(trees[0].0, keys[0]);
    assert!(!trees[0].1.is_empty());
    assert!(trees[1].1.is_empty());
}

#[test]
fn index_update_and_ray_cast() {
    let mut map = ChunkMap::new();
    let mut c = ambient_chunk_voxels();
    c[7] = SdfVoxel::new(SdfVoxelType(1), VoxelDistance(-3));
    map.write_chunk(ChunkKey::new(0, 0, 0), c);
    let mut index = VoxelBVT::new();
    let empty = index.update_chunks(&map, &palette(), &vec![ChunkKey::new(0, 0, 0), ChunkKey::new(0, 1, 0)]);
    assert_eq!(empty, vec![ChunkKey::new(0, 1, 0)]);
    assert!(index.get(ChunkKey::new(0, 0, 0)).is_some());
    assert!(index.get(ChunkKey::new(0, 1, 0)).is_none());
    let path: Vec<Point3i> = (0..16).map(|x| Point3i::new(x, 0, 0)).collect();
    assert_eq!(index.cast_ray(&map, &palette(), &path), Some(7));
}
