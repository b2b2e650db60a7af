use voxel_editor::chunk_map::ChunkMap;
use voxel_editor::geometry::{ChunkKey, Point3i};
use voxel_editor::mesh::{count_adjacent_materials, generate_chunk_mesh, padded_chunk_samples, surface_nets};
use voxel_editor::voxel::{
    SdfVoxel, SdfVoxelPalette, SdfVoxelType, SdfVoxelTypeInfo, VoxelDistance, VoxelMaterial,
};

fn palette() -> SdfVoxelPalette {
    SdfVoxelPalette::new(vec![
        SdfVoxelTypeInfo { is_empty: true, material: VoxelMaterial(255) },
        SdfVoxelTypeInfo { is_empty: false, material: VoxelMaterial(0) },
        SdfVoxelTypeInfo { is_empty: false, material: VoxelMaterial(3) },
    ])
    .unwrap()
}

fn rock() -> SdfVoxel {
    SdfVoxel::new(SdfVoxelType(1), VoxelDistance(-16))
}

#[test]
fn empty_chunk_has_no_mesh() {
    let map = ChunkMap::new();
    assert!(generate_chunk_mesh(&map, &palette(), ChunkKey::new(0, 0, 0)).is_none());
    let samples = padded_chunk_samples(&map, ChunkKey::new(0, 0, 0));
    let topo = surface_nets(&samples);
    assert!(topo.surface_cells.is_empty());
    assert!(topo.quads.is_empty());
}

#[test]
fn single_solid_voxel_gives_closed_mesh() {
    let mut map = ChunkMap::new();
    let mut c = voxel_editor::chunk_map::ambient_chunk_voxels();
    c[5 + 16 * 5 + 256 * 5] = rock();
    map.write_chunk(ChunkKey::new(0, 0, 0), c);
    let mesh = generate_chunk_mesh(&map, &palette(), ChunkKey::new(0, 0, 0)).unwrap();
    // The eight cells around the voxel carry vertices; its six edges give
    // six quads.
    assert_eq!(mesh.topology.surface_cells.len(), 8);
    assert_eq!(mesh.topology.quads.len(), 24);
    assert!(mesh.topology.quads.iter().all(|&v| (v as usize) < 8));
    // Each vertex has exactly one rock corner, of material layer 0.
    assert_eq!(mesh.material_counts.len(), 32);
    for i in 0..8 {
        assert_eq!(&mesh.material_counts[4 * i..4 * i + 4], &[1, 0, 0, 0]);
    }
}

#[test]
fn neighbor_chunk_sees_halo() {
    let mut map = ChunkMap::new();
    let mut c = voxel_editor::chunk_map::ambient_chunk_voxels();
    // A solid voxel on the face x = 15 of chunk 0 lies in the halo of chunk 1.
    c[15 + 16 * 5 + 256 * 5] = rock();
    map.write_chunk(ChunkKey::new(0, 0, 0), c);
    let samples = padded_chunk_samples(&map, ChunkKey::new(1, 0, 0));
    assert_eq!(samples[0 + 18 * 6 + 324 * 6], rock());
    // The edge from that voxel into chunk 1 starts in chunk 0, which meshes
    // it; chunk 1 has no quad of its own.
    assert!(generate_chunk_mesh(&map, &palette(), ChunkKey::new(1, 0, 0)).is_none());
    let mesh = generate_chunk_mesh(&map, &palette(), ChunkKey::new(0, 0, 0)).unwrap();
    assert_eq!(mesh.topology.quads.len(), 24);
}

#[test]
fn material_counts_skip_empty_and_sum_layers() {
    let mut samples = vec![SdfVoxel::empty(); 5832];
    samples[0] = rock();
    samples[1] = SdfVoxel::new(SdfVoxelType(2), VoxelDistance(-1));
    samples[18] = SdfVoxel::new(SdfVoxelType(2), VoxelDistance(-1));
    let cells = vec![Point3i::new(0, 0, 0), Point3i::new(1, 0, 0)];
    let counts = count_adjacent_materials(&palette(), &samples, &cells);
    assert_eq!(counts, vec![1, 0, 0, 2, 0, 0, 0, 1]);
}

#[test]
fn surface_cells_are_listed_once() {
    let mut samples = vec![SdfVoxel::empty(); 5832];
    for t in 0..324 * 9 {
        samples[t] = rock();
    }
    let topo = surface_nets(&samples);
    // A flat surface between the sample layers 8 and 9: one row of cells.
    assert_eq!(topo.surface_cells.len(), 17 * 17);
    assert!(topo.surface_cells.iter().all(|p| p.z == 8));
    assert_eq!(topo.quads.len(), 4 * 16 * 16);
}

#[test]
fn quads_split_into_two_triangles() {
    let tris = voxel_editor::mesh::triangle_indices(&vec![0, 1, 2, 3, 4, 5, 6, 7]);
    assert_eq!(tris, vec![0, 1, 2, 0, 2, 3, 4, 5, 6, 4, 6, 7]);
    assert!(voxel_editor::mesh::triangle_indices(&vec![]).is_empty());
}

#[test]
fn material_weights_pack_one_byte_per_layer() {
    let packed = voxel_editor::mesh::pack_material_weights(&vec![1, 2, 3, 4, 8, 0, 0, 0]);
    assert_eq!(packed, vec![0x0403_0201, 8]);
}

#[test]
fn mesh_triangles_index_vertices() {
    let mut map = ChunkMap::new();
    let mut c = voxel_editor::chunk_map::ambient_chunk_voxels();
    c[5 + 16 * 5 + 256 * 5] = rock();
    map.write_chunk(ChunkKey::new(0, 0, 0), c);
    let mesh = generate_chunk_mesh(&map, &palette(), ChunkKey::new(0, 0, 0)).unwrap();
    assert_eq!(mesh.indices.len(), 36);
    assert!(mesh.indices.iter().all(|&v| (v as usize) < mesh.topology.surface_cells.len()));
}
