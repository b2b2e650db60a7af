use voxel_editor::chunk_table::ChunkTable;
use voxel_editor::geometry::{keys_contain, ChunkKey, Extent3i, Point3i};
use voxel_editor::voxel::{
    SdfVoxel, SdfVoxelPalette, SdfVoxelType, SdfVoxelTypeInfo, VoxelDistance, VoxelMaterial,
};
use voxel_editor::world::VoxelWorld;

fn sphere_voxel(p: Point3i, radius: f64) -> SdfVoxel {
    let d = ((p.x * p.x + p.y * p.y + p.z * p.z) as f64).sqrt() - radius;
    let distance = VoxelDistance::encode_ratio((d * 1000.0) as i32, 1000);
    let t = if d <= 0.0 { 1 } else { 0 };
    SdfVoxel::new(SdfVoxelType(t), distance)
}

#[test]
fn solid_sphere_edit_meshes_and_picks() {
    let palette = SdfVoxelPalette::new(vec![
        SdfVoxelTypeInfo { is_empty: true, material: VoxelMaterial(255) },
        SdfVoxelTypeInfo { is_empty: false, material: VoxelMaterial(0) },
    ])
    .unwrap();
    let mut w = VoxelWorld::new(palette);
    let e = Extent3i::from_min_and_shape(Point3i::new(-12, -12, -12), Point3i::new(25, 25, 25)).unwrap();
    w.edit_extent_and_touch_neighbors(&e, |p, _v| sphere_voxel(p, 10.0));
    w.finish_edit();
    let mut caches = vec![ChunkTable::new()];
    let dirty = w.end_of_frame(&mut caches, 64);
    assert!(!dirty.is_empty());
    let bounding: Vec<ChunkKey> = (-1..=0)
        .flat_map(|x| (-1..=0).flat_map(move |y| (-1..=0).map(move |z| ChunkKey::new(x, y, z))))
        .collect();
    for k in bounding.iter() {
        assert!(keys_contain(&dirty, *k));
    }
    let meshes = w.generate_meshes(&bounding);
    assert_eq!(meshes.len(), 8);
    for (_k, mesh) in meshes.iter() {
        let mesh = mesh.as_ref().unwrap();
        assert!(!mesh.topology.quads.is_empty());
    }
    // From outside the sphere through its center.
    let path: Vec<Point3i> = (-30..=30).rev().map(|x| Point3i::new(x, 0, 0)).collect();
    let hit = w.cast_ray(&path).unwrap();
    let impact = path[hit];
    let dist = impact.x.abs() as f64;
    assert!((dist - 10.0).abs() <= 1.0);
    // The voxel hit is on the surface: its distance is within a step of zero.
    let v = w.get_voxel(impact);
    assert!(v.distance.0.abs() <= 32);
}
