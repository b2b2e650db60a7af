use voxel_editor::chunk_map::{ambient_chunk_voxels, ChunkMap};
use voxel_editor::chunk_table::ChunkTable;
use voxel_editor::geometry::{ChunkKey, Point3i};
use voxel_editor::voxel::{SdfVoxel, SdfVoxelType, VoxelDistance};

fn filled(t: u8, d: i8) -> Vec<SdfVoxel> {
    vec![SdfVoxel::new(SdfVoxelType(t), VoxelDistance(d)); 4096]
}

#[test]
fn unwritten_key_reads_ambient() {
    let map = ChunkMap::new();
    let key = ChunkKey::new(4, -2, 9);
    let mut cache = ChunkTable::new();
    let c = map.get_chunk(key, &mut cache);
    assert_eq!(c.len(), 4096);
    for v in c.iter() {
        assert_eq!(v.voxel_type, SdfVoxelType(0));
        assert_eq!(v.distance, VoxelDistance::max());
    }
    assert!(map.copy_chunk_without_caching(key).is_none());
    assert_eq!(map.get_voxel(Point3i::new(64, -20, 150)), SdfVoxel::empty());
}

#[test]
fn written_chunk_reads_back() {
    let mut map = ChunkMap::new();
    let key = ChunkKey::new(1, 0, 0);
    let mut c = ambient_chunk_voxels();
    c[5] = SdfVoxel::new(SdfVoxelType(1), VoxelDistance(-4));
    map.write_chunk(key, c.clone());
    assert_eq!(map.len(), 1);
    assert!(map.contains_chunk(key));
    assert_eq!(map.copy_chunk_without_caching(key).unwrap(), c);
    assert_eq!(map.get_voxel(Point3i::new(21, 0, 0)), c[5]);
}

#[test]
fn compression_keeps_contents_and_order() {
    let mut map = ChunkMap::new();
    for i in 0..4 {
        map.write_chunk(ChunkKey::new(i, 0, 0), filled(1, i as i8));
    }
    assert_eq!(map.num_decompressed(), 4);
    map.compress_least_recently_used(1);
    assert_eq!(map.num_decompressed(), 1);
    for i in 0..4 {
        assert_eq!(map.read_chunk(ChunkKey::new(i, 0, 0)), filled(1, i as i8));
    }
    // The most recently written chunk stays decompressed; rewriting an old
    // one makes it the most recent.
    map.write_chunk(ChunkKey::new(0, 0, 0), filled(2, 0));
    assert_eq!(map.num_decompressed(), 2);
    map.compress_least_recently_used(1);
    assert_eq!(map.read_chunk(ChunkKey::new(3, 0, 0)), filled(1, 3));
    assert_eq!(map.read_chunk(ChunkKey::new(0, 0, 0)), filled(2, 0));
}

#[test]
fn removal_frees_key() {
    let mut map = ChunkMap::new();
    map.write_chunk(ChunkKey::new(0, 0, 0), filled(1, -1));
    map.write_chunk(ChunkKey::new(0, 1, 0), filled(1, -1));
    map.compress_least_recently_used(0);
    map.remove_chunk(ChunkKey::new(0, 0, 0));
    assert_eq!(map.len(), 1);
    assert!(!map.contains_chunk(ChunkKey::new(0, 0, 0)));
    assert_eq!(map.read_chunk(ChunkKey::new(0, 0, 0)), ambient_chunk_voxels());
}

#[test]
fn cache_fills_and_flushes() {
    let mut map = ChunkMap::new();
    let key = ChunkKey::new(2, 2, 2);
    map.write_chunk(key, filled(3, 5));
    map.compress_least_recently_used(0);
    assert_eq!(map.num_decompressed(), 0);
    let mut cache = ChunkTable::new();
    assert_eq!(map.get_chunk(key, &mut cache), filled(3, 5));
    assert_eq!(cache.len(), 1);
    // A second read comes from the cache.
    assert_eq!(map.get_chunk(key, &mut cache), filled(3, 5));
    map.flush_local_cache(&mut cache, &Vec::new());
    assert_eq!(cache.len(), 0);
    assert_eq!(map.num_decompressed(), 1);
    assert_eq!(map.read_chunk(key), filled(3, 5));
}

#[test]
fn flush_skips_fresh_keys() {
    let mut map = ChunkMap::new();
    let key = ChunkKey::new(0, 0, 0);
    map.write_chunk(key, filled(1, 1));
    map.compress_least_recently_used(0);
    let mut cache = ChunkTable::new();
    map.get_chunk(key, &mut cache);
    map.write_chunk(key, filled(2, 2));
    map.compress_least_recently_used(0);
    map.flush_local_cache(&mut cache, &vec![key]);
    assert_eq!(map.read_chunk(key), filled(2, 2));
    assert_eq!(map.num_decompressed(), 0);
}
