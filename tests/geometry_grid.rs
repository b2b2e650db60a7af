use voxel_editor::geometry::{
    chunk_coord_of, chunk_key_for_point, chunk_keys_for_extent, key_in_bounds, keys_contain,
    local_index_of, point_in_chunk, ChunkKey, Extent3i, Point3i,
};

fn extent(min: (i32, i32, i32), shape: (i32, i32, i32)) -> Extent3i {
    Extent3i::from_min_and_shape(Point3i::new(min.0, min.1, min.2), Point3i::new(shape.0, shape.1, shape.2))
        .unwrap()
}

#[test]
fn chunk_coords_round_down() {
    assert_eq!(chunk_coord_of(0), 0);
    assert_eq!(chunk_coord_of(15), 0);
    assert_eq!(chunk_coord_of(16), 1);
    assert_eq!(chunk_coord_of(-1), -1);
    assert_eq!(chunk_coord_of(-16), -1);
    assert_eq!(chunk_coord_of(-17), -2);
    assert_eq!(chunk_coord_of(i32::MIN), i32::MIN / 16);
    assert_eq!(chunk_coord_of(i32::MAX), i32::MAX / 16);
}

#[test]
fn local_index_and_point_agree() {
    let p = Point3i::new(-1, 17, 35);
    let k = chunk_key_for_point(p);
    assert_eq!(k, ChunkKey::new(-1, 1, 2));
    let i = local_index_of(p);
    assert_eq!(i, 15 + 16 * 1 + 256 * 3);
    assert_eq!(point_in_chunk(k, i), p);
}

#[test]
fn extent_rejects_bad_shapes() {
    assert!(Extent3i::from_min_and_shape(Point3i::new(0, 0, 0), Point3i::new(-1, 1, 1)).is_none());
    assert!(Extent3i::from_min_and_shape(Point3i::new(600_000_000, 0, 0), Point3i::new(1, 1, 1)).is_none());
    let e = extent((0, 0, 0), (2, 3, 4));
    assert!(e.contains(Point3i::new(1, 2, 3)));
    assert!(!e.contains(Point3i::new(2, 0, 0)));
    assert!(!e.is_empty());
    assert!(extent((0, 0, 0), (0, 3, 4)).is_empty());
}

#[test]
fn keys_for_extent_within_one_chunk() {
    let keys = chunk_keys_for_extent(&extent((1, 1, 1), (3, 3, 3)));
    assert_eq!(keys, vec![ChunkKey::new(0, 0, 0)]);
}

#[test]
fn keys_for_extent_across_chunks() {
    let keys = chunk_keys_for_extent(&extent((-1, 0, 15), (2, 16, 2)));
    assert_eq!(keys.len(), 4);
    for k in [ChunkKey::new(-1, 0, 0), ChunkKey::new(0, 0, 0), ChunkKey::new(-1, 0, 1), ChunkKey::new(0, 0, 1)] {
        assert!(keys_contain(&keys, k));
    }
}

#[test]
fn keys_for_empty_extent() {
    assert!(chunk_keys_for_extent(&extent((5, 5, 5), (0, 4, 4))).is_empty());
}

#[test]
fn padded_extent_reaches_face_neighbors() {
    let e = extent((3, 3, 3), (1, 1, 1));
    let keys = chunk_keys_for_extent(&e.padded());
    assert_eq!(keys.len(), 27);
    assert!(keys_contain(&keys, ChunkKey::new(1, 0, 0)));
    assert!(keys_contain(&keys, ChunkKey::new(0, 0, -1)));
}

#[test]
fn bounds_of_keys() {
    assert!(key_in_bounds(ChunkKey::new(0, 0, 0)));
    assert!(!key_in_bounds(ChunkKey::new(i32::MAX / 16, 0, 0)));
}

#[test]
fn centered_extent_spans_diameter() {
    let e = Extent3i::centered(Point3i::new(10, -4, 0), 3).unwrap();
    assert_eq!(e.minimum, Point3i::new(7, -7, -3));
    assert_eq!(e.shape, Point3i::new(7, 7, 7));
    assert!(Extent3i::centered(Point3i::new(0, 0, 0), 0).is_some());
    assert!(Extent3i::centered(Point3i::new(536_870_000, 0, 0), 1000).is_none());
}
