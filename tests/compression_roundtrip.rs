use voxel_editor::chunk_map::ambient_chunk_voxels;
use voxel_editor::compression::{compress, decompress};
use voxel_editor::voxel::{SdfVoxel, SdfVoxelType, VoxelDistance};

fn varied_chunk() -> Vec<SdfVoxel> {
    (0..4096)
        .map(|i: i32| SdfVoxel::new(SdfVoxelType((i / 700) as u8), VoxelDistance(((i * 37) % 256 - 128) as i8)))
        .collect()
}

#[test]
fn ambient_chunk_compresses_small() {
    let c = ambient_chunk_voxels();
    let blob = compress(&c);
    // 4096 equal voxels make runs of at most 255.
    assert_eq!(blob.len(), 3 * 17);
    assert_eq!(decompress(&blob).unwrap(), c);
}

#[test]
fn varied_chunk_round_trips() {
    let c = varied_chunk();
    let blob = compress(&c);
    assert_eq!(decompress(&blob).unwrap(), c);
}

#[test]
fn negative_distances_survive() {
    let mut c = ambient_chunk_voxels();
    c[17] = SdfVoxel::new(SdfVoxelType(2), VoxelDistance(-128));
    c[18] = SdfVoxel::new(SdfVoxelType(2), VoxelDistance(-1));
    assert_eq!(decompress(&compress(&c)).unwrap(), c);
}

#[test]
fn malformed_blobs_are_refused() {
    let blob = compress(&ambient_chunk_voxels());
    let mut short = blob.clone();
    short.pop();
    assert!(decompress(&short).is_none());
    let mut missing_run = blob.clone();
    missing_run.truncate(blob.len() - 3);
    assert!(decompress(&missing_run).is_none());
    let mut extra = blob.clone();
    extra.extend_from_slice(&[1, 0, 0]);
    assert!(decompress(&extra).is_none());
    assert!(decompress(&Vec::new()).is_none());
}
