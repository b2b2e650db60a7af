use voxel_editor::voxel::{
    apply_sdf_delta, SdfVoxel, SdfVoxelPalette, SdfVoxelType, SdfVoxelTypeInfo, VoxelDistance, VoxelMaterial,
};

fn info(is_empty: bool, material: u8) -> SdfVoxelTypeInfo {
    SdfVoxelTypeInfo { is_empty, material: VoxelMaterial(material) }
}

#[test]
fn new_voxel_keeps_fields() {
    let v = SdfVoxel::new(SdfVoxelType(3), VoxelDistance(-7));
    assert_eq!(v.voxel_type, SdfVoxelType(3));
    assert_eq!(v.distance, VoxelDistance(-7));
    assert_eq!(v.get_type_index(), 3);
}

#[test]
fn empty_voxel_is_ambient() {
    let v = SdfVoxel::empty();
    assert_eq!(v.voxel_type, SdfVoxelType(0));
    assert_eq!(v.distance, VoxelDistance::max());
    assert_eq!(SdfVoxel::default(), v);
}

#[test]
fn distance_bounds() {
    assert_eq!(VoxelDistance::min().0, i8::MIN);
    assert_eq!(VoxelDistance::max().0, i8::MAX);
}

#[test]
fn encode_scales_to_steps() {
    assert_eq!(VoxelDistance::encode_ratio(1, 2).0, 16);
    assert_eq!(VoxelDistance::encode_ratio(-1, 32).0, -1);
    assert_eq!(VoxelDistance::encode_ratio(3, 1).0, 96);
    assert_eq!(VoxelDistance::encode_ratio(0, 7).0, 0);
}

#[test]
fn encode_rounds_toward_zero() {
    assert_eq!(VoxelDistance::encode_ratio(1, 64).0, 0);
    assert_eq!(VoxelDistance::encode_ratio(-1, 64).0, 0);
    assert_eq!(VoxelDistance::encode_ratio(5, 96).0, 1);
    assert_eq!(VoxelDistance::encode_ratio(-5, 96).0, -1);
}

#[test]
fn encode_clamps_at_range() {
    assert_eq!(VoxelDistance::encode_ratio(5, 1).0, 127);
    assert_eq!(VoxelDistance::encode_ratio(-5, 1).0, -128);
    assert_eq!(VoxelDistance::encode_ratio(i32::MAX, 1).0, 127);
    assert_eq!(VoxelDistance::encode_ratio(i32::MIN, 1).0, -128);
}

#[test]
fn encode_is_monotonic_on_samples() {
    let mut last = i8::MIN;
    for n in -200..200 {
        let e = VoxelDistance::encode_ratio(n, 40).0;
        assert!(e >= last);
        last = e;
    }
}

#[test]
fn decode_within_one_step() {
    // Within the representable range: -128 * 9 <= 32 * n <= 127 * 9.
    for n in -36..=35 {
        let d = 9u32;
        let e = VoxelDistance::encode_ratio(n, d).steps() as i64;
        let err = 32 * n as i64 - d as i64 * e;
        assert!(err > -(d as i64) && err < d as i64);
    }
}

#[test]
fn inside_is_negative_distance() {
    assert!(VoxelDistance(-1).is_inside());
    assert!(!VoxelDistance(0).is_inside());
}

#[test]
fn palette_requires_empty_type_zero() {
    assert!(SdfVoxelPalette::new(vec![]).is_none());
    assert!(SdfVoxelPalette::new(vec![info(false, 0)]).is_none());
    assert!(SdfVoxelPalette::new(vec![info(true, 255), info(false, 1)]).is_some());
}

#[test]
fn palette_rejects_material_out_of_layers() {
    assert!(SdfVoxelPalette::new(vec![info(true, 255), info(false, 4)]).is_none());
    assert!(SdfVoxelPalette::new(vec![info(true, 255), info(true, 9)]).is_some());
    let too_many: Vec<SdfVoxelTypeInfo> = (0..257).map(|_| info(true, 0)).collect();
    assert!(SdfVoxelPalette::new(too_many).is_none());
}

#[test]
fn palette_lookup() {
    let p = SdfVoxelPalette::new(vec![info(true, 255), info(false, 2)]).unwrap();
    assert_eq!(p.len(), 2);
    assert!(p.is_empty(SdfVoxel::empty()));
    let rock = SdfVoxel::new(SdfVoxelType(1), VoxelDistance(-3));
    assert!(!p.is_empty(rock));
    assert_eq!(p.info(rock).material(), VoxelMaterial(2));
    assert!(!p.info(rock).is_empty());
    // A type id outside the palette counts as occupied.
    assert!(!p.is_empty(SdfVoxel::new(SdfVoxelType(9), VoxelDistance(0))));
}

#[test]
fn brush_delta_saturates_and_sets_type() {
    let rock = SdfVoxelType(2);
    let v = SdfVoxel::new(SdfVoxelType(0), VoxelDistance(5));
    let solid = apply_sdf_delta(v, -20, rock);
    assert_eq!(solid.distance, VoxelDistance(-15));
    assert_eq!(solid.voxel_type, rock);
    let barely = apply_sdf_delta(v, -3, rock);
    assert_eq!(barely.distance, VoxelDistance(2));
    assert_eq!(barely.voxel_type, SdfVoxelType(0));
    let cleared = apply_sdf_delta(SdfVoxel::new(rock, VoxelDistance(-4)), 10, rock);
    assert_eq!(cleared.distance, VoxelDistance(6));
    assert_eq!(cleared.voxel_type, SdfVoxelType(0));
    assert_eq!(apply_sdf_delta(SdfVoxel::new(rock, VoxelDistance(-120)), -100, rock).distance, VoxelDistance(-128));
    assert_eq!(apply_sdf_delta(v, 300, rock).distance, VoxelDistance(127));
    assert_eq!(apply_sdf_delta(v, 0, rock), v);
}
