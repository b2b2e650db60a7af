//! Surface extraction for one chunk: the padded sample grid, the cells the
//! isosurface passes through (one mesh vertex each), the quads between them,
//! and the material weights of each vertex. Vertex positions and normals are
//! computed from the samples outside this crate.
use vstd::prelude::*;
use crate::chunk_map::{chunk_content, voxel_at, ChunkMap};
use crate::geometry::{
    chunk_coord, chunk_key_for_point, key_of, lemma_local_coord, local_coord, local_index_of, ChunkKey,
    Point3i, CHUNK_VOLUME,
};
use crate::voxel::{SdfVoxel, SdfVoxelPalette, NUM_MATERIAL_LAYERS};

verus! {

/// Samples along each axis of a padded chunk: the chunk and a one-voxel halo
/// on every side.
pub const PADDED_EDGE: usize = 18;

/// Number of samples of a padded chunk.
pub const PADDED_VOLUME: usize = 5832;

/// Cells along each axis of a padded chunk.
pub const CELL_EDGE: usize = 17;

/// Number of cells of a padded chunk.
pub const CELL_VOLUME: usize = 4913;

/// The index of sample `(a, b, c)` of a padded chunk.
pub open spec fn sample_index(a: int, b: int, c: int) -> int {
    a + 18 * b + 324 * c
}

/// The point of sample `(a, b, c)` of the padded chunk around `key`.
pub open spec fn sample_point(key: ChunkKey, a: int, b: int, c: int) -> Point3i {
    Point3i { x: (16 * key.x - 1 + a) as i32, y: (16 * key.y - 1 + b) as i32, z: (16 * key.z - 1 + c) as i32 }
}

pub open spec fn in_samples(a: int, b: int, c: int) -> bool {
    0 <= a < 18 && 0 <= b < 18 && 0 <= c < 18
}

pub open spec fn in_cells(a: int, b: int, c: int) -> bool {
    0 <= a < 17 && 0 <= b < 17 && 0 <= c < 17
}

/// Whether the sample `(a, b, c)` lies inside the solid (negative distance).
pub open spec fn inside(s: Seq<SdfVoxel>, a: int, b: int, c: int) -> bool {
    s[sample_index(a, b, c)].distance.0 < 0
}

/// Whether the isosurface passes through cell `(a, b, c)`: among its eight
/// corner samples some lie inside and some do not.
pub open spec fn is_surface_cell(s: Seq<SdfVoxel>, a: int, b: int, c: int) -> bool {
    let any_in = inside(s, a, b, c) || inside(s, a + 1, b, c) || inside(s, a, b + 1, c) || inside(
        s,
        a + 1,
        b + 1,
        c,
    ) || inside(s, a, b, c + 1) || inside(s, a + 1, b, c + 1) || inside(s, a, b + 1, c + 1)
        || inside(s, a + 1, b + 1, c + 1);
    let all_in = inside(s, a, b, c) && inside(s, a + 1, b, c) && inside(s, a, b + 1, c) && inside(
        s,
        a + 1,
        b + 1,
        c,
    ) && inside(s, a, b, c + 1) && inside(s, a + 1, b, c + 1) && inside(s, a, b + 1, c + 1)
        && inside(s, a + 1, b + 1, c + 1);
    any_in && !all_in
}

/// The offset of axis `axis` (0, 1 or 2).
pub open spec fn axis_step(axis: int) -> (int, int, int) {
    if axis == 0 {
        (1, 0, 0)
    } else if axis == 1 {
        (0, 1, 0)
    } else {
        (0, 0, 1)
    }
}

/// Whether the isosurface crosses the edge from sample `(a, b, c)` of the
/// chunk proper along `axis`; each such edge gives one quad.
pub open spec fn crossing(s: Seq<SdfVoxel>, a: int, b: int, c: int, axis: int) -> bool {
    let (dx, dy, dz) = axis_step(axis);
    &&& 1 <= a < 17 && 1 <= b < 17 && 1 <= c < 17
    &&& 0 <= axis < 3
    &&& inside(s, a, b, c) != inside(s, a + dx, b + dy, c + dz)
}

pub open spec fn has_crossing(s: Seq<SdfVoxel>) -> bool {
    exists|a: int, b: int, c: int, axis: int| #[trigger] crossing(s, a, b, c, axis)
}

/// The key of the neighbor of `key` at offset `(dx, dy, dz)`.
pub open spec fn neighbor_key(key: ChunkKey, dx: int, dy: int, dz: int) -> ChunkKey {
    ChunkKey { x: (key.x + dx) as i32, y: (key.y + dy) as i32, z: (key.z + dz) as i32 }
}

/// Index of the neighbor at offset `(dx, dy, dz)` among the 27 chunks around
/// and including a chunk.
pub open spec fn neighbor_index(dx: int, dy: int, dz: int) -> int {
    (dx + 1) + 3 * (dy + 1) + 9 * (dz + 1)
}

/// The chunks around and including `key`, as `map` reads them.
fn read_neighborhood(map: &ChunkMap, key: ChunkKey) -> (r: Vec<Vec<SdfVoxel>>)
    requires
        map.wf(),
        key.in_bounds(),
    ensures
        r@.len() == 27,
        forall|dx: int, dy: int, dz: int|
            -1 <= dx <= 1 && -1 <= dy <= 1 && -1 <= dz <= 1 ==> (#[trigger] r@[neighbor_index(dx, dy, dz)])@
                == chunk_content(map@, neighbor_key(key, dx, dy, dz)),
        forall|n: int| 0 <= n < 27 ==> (#[trigger] r@[n])@.len() == CHUNK_VOLUME,
{
    let mut out: Vec<Vec<SdfVoxel>> = Vec::new();
    let mut dz: i32 = -1;
    while dz <= 1
        invariant
            map.wf(),
            key.in_bounds(),
            -1 <= dz <= 2,
            out@.len() == 9 * (dz + 1),
            forall|n: int| 0 <= n < out@.len() ==> (#[trigger] out@[n])@.len() == CHUNK_VOLUME,
            forall|x: int, y: int, z: int|
                -1 <= x <= 1 && -1 <= y <= 1 && -1 <= z < dz ==> (#[trigger] out@[neighbor_index(x, y, z)])@
                    == chunk_content(map@, neighbor_key(key, x, y, z)),
        decreases 2 - dz,
    {
        let mut dy: i32 = -1;
        while dy <= 1
            invariant
                map.wf(),
                key.in_bounds(),
                -1 <= dz <= 1,
                -1 <= dy <= 2,
                out@.len() == 9 * (dz + 1) + 3 * (dy + 1),
                forall|n: int| 0 <= n < out@.len() ==> (#[trigger] out@[n])@.len() == CHUNK_VOLUME,
                forall|x: int, y: int, z: int|
                    -1 <= x <= 1 && -1 <= y <= 1 && -1 <= z <= 1 && (z < dz || (z == dz && y < dy))
                        ==> (#[trigger] out@[neighbor_index(x, y, z)])@ == chunk_content(
                        map@,
                        neighbor_key(key, x, y, z),
                    ),
            decreases 2 - dy,
        {
            let mut dx: i32 = -1;
            while dx <= 1
                invariant
                    map.wf(),
                    key.in_bounds(),
                    -1 <= dz <= 1,
                    -1 <= dy <= 1,
                    -1 <= dx <= 2,
                    out@.len() == 9 * (dz + 1) + 3 * (dy + 1) + (dx + 1),
                    forall|n: int| 0 <= n < out@.len() ==> (#[trigger] out@[n])@.len() == CHUNK_VOLUME,
                    forall|x: int, y: int, z: int|
                        -1 <= x <= 1 && -1 <= y <= 1 && -1 <= z <= 1 && (z < dz || (z == dz && y < dy) || (z
                            == dz && y == dy && x < dx)) ==> (#[trigger] out@[neighbor_index(x, y, z)])@
                            == chunk_content(map@, neighbor_key(key, x, y, z)),
                decreases 2 - dx,
            {
                let k = ChunkKey { x: key.x + dx, y: key.y + dy, z: key.z + dz };
                let c = map.read_chunk(k);
                out.push(c);
                dx += 1;
            }
            dy += 1;
        }
        dz += 1;
    }
    out
}

/// The offset of the chunk holding coordinate `16 * k - 1 + a` from chunk
/// coordinate `k`, for `a` in a padded chunk's range, and its local offset.
proof fn lemma_padded_coord(k: int, a: int)
    requires
        0 <= a < 18,
    ensures
        -1 <= chunk_coord(16 * k - 1 + a) - k <= 1,
        16 * k - 1 + a == 16 * chunk_coord(16 * k - 1 + a) + local_coord(16 * k - 1 + a),
{
    lemma_local_coord(16 * k - 1 + a);
}

/// The samples of the padded chunk around `key`, read from `map`.
pub fn padded_chunk_samples(map: &ChunkMap, key: ChunkKey) -> (r: Vec<SdfVoxel>)
    requires
        map.wf(),
        key.in_bounds(),
    ensures
        r@.len() == PADDED_VOLUME,
        forall|a: int, b: int, c: int|
            in_samples(a, b, c) ==> #[trigger] r@[sample_index(a, b, c)] == voxel_at(
                map@,
                sample_point(key, a, b, c),
            ),
{
    let chunks = read_neighborhood(map, key);
    let mut out: Vec<SdfVoxel> = Vec::new();
    let mut c: usize = 0;
    while c < PADDED_EDGE
        invariant
            map.wf(),
            key.in_bounds(),
            chunks@.len() == 27,
            forall|dx: int, dy: int, dz: int|
                -1 <= dx <= 1 && -1 <= dy <= 1 && -1 <= dz <= 1 ==> (#[trigger] chunks@[neighbor_index(dx, dy, dz)])@
                    == chunk_content(map@, neighbor_key(key, dx, dy, dz)),
            forall|n: int| 0 <= n < 27 ==> (#[trigger] chunks@[n])@.len() == CHUNK_VOLUME,
            c <= PADDED_EDGE,
            out@.len() == 324 * c,
            forall|a: int, b: int, cc: int|
                in_samples(a, b, cc) && cc < c ==> #[trigger] out@[sample_index(a, b, cc)] == voxel_at(
                    map@,
                    sample_point(key, a, b, cc),
                ),
        decreases PADDED_EDGE - c,
    {
        let mut b: usize = 0;
        while b < PADDED_EDGE
            invariant
                map.wf(),
                key.in_bounds(),
                chunks@.len() == 27,
                forall|dx: int, dy: int, dz: int|
                    -1 <= dx <= 1 && -1 <= dy <= 1 && -1 <= dz <= 1 ==> (#[trigger] chunks@[neighbor_index(dx, dy, dz)])@
                        == chunk_content(map@, neighbor_key(key, dx, dy, dz)),
                forall|n: int| 0 <= n < 27 ==> (#[trigger] chunks@[n])@.len() == CHUNK_VOLUME,
                c < PADDED_EDGE,
                b <= PADDED_EDGE,
                out@.len() == 324 * c + 18 * b,
                forall|a: int, bb: int, cc: int|
                    in_samples(a, bb, cc) && (cc < c || (cc == c && bb < b)) ==> #[trigger] out@[sample_index(
                        a,
                        bb,
                        cc,
                    )] == voxel_at(map@, sample_point(key, a, bb, cc)),
            decreases PADDED_EDGE - b,
        {
            let mut a: usize = 0;
            while a < PADDED_EDGE
                invariant
                    map.wf(),
                    key.in_bounds(),
                    chunks@.len() == 27,
                    forall|dx: int, dy: int, dz: int|
                        -1 <= dx <= 1 && -1 <= dy <= 1 && -1 <= dz <= 1 ==> (#[trigger] chunks@[neighbor_index(dx, dy, dz)])@
                            == chunk_content(map@, neighbor_key(key, dx, dy, dz)),
                    forall|n: int| 0 <= n < 27 ==> (#[trigger] chunks@[n])@.len() == CHUNK_VOLUME,
                    c < PADDED_EDGE,
                    b < PADDED_EDGE,
                    a <= PADDED_EDGE,
                    out@.len() == 324 * c + 18 * b + a,
                    forall|aa: int, bb: int, cc: int|
                        in_samples(aa, bb, cc) && (cc < c || (cc == c && bb < b) || (cc == c && bb == b
                            && aa < a)) ==> #[trigger] out@[sample_index(aa, bb, cc)] == voxel_at(
                            map@,
                            sample_point(key, aa, bb, cc),
                        ),
                decreases PADDED_EDGE - a,
            {
                let p = Point3i {
                    x: 16 * key.x - 1 + a as i32,
                    y: 16 * key.y - 1 + b as i32,
                    z: 16 * key.z - 1 + c as i32,
                };
                let k = chunk_key_for_point(p);
                let li = local_index_of(p);
                proof {
                    lemma_padded_coord(key.x as int, a as int);
                    lemma_padded_coord(key.y as int, b as int);
                    lemma_padded_coord(key.z as int, c as int);
                }
                let n: usize = ((k.x - key.x + 1) + 3 * (k.y - key.y + 1) + 9 * (k.z - key.z + 1)) as usize;
                proof {
                    let dx = k.x - key.x;
                    let dy = k.y - key.y;
                    let dz = k.z - key.z;
                    assert(n == neighbor_index(dx as int, dy as int, dz as int));
                    assert(neighbor_key(key, dx as int, dy as int, dz as int) == key_of(p));
                    assert(p == sample_point(key, a as int, b as int, c as int));
                }
                let v = chunks[n][li];
                out.push(v);
                a += 1;
            }
            b += 1;
        }
        c += 1;
    }
    out
}

/// Whether `q` numbers a quad of `quads`.
pub open spec fn is_quad(quads: Seq<u32>, q: int) -> bool {
    0 <= q < quads.len() / 4
}

pub open spec fn cell_point(t: (int, int, int)) -> Point3i {
    Point3i { x: t.0 as i32, y: t.1 as i32, z: t.2 as i32 }
}

/// Cell `r` (0 to 3) of the four around the edge from sample `(a, b, c)`
/// along `axis`, in winding order for an edge that leaves the solid.
pub open spec fn edge_cell(a: int, b: int, c: int, axis: int, r: int) -> (int, int, int) {
    if axis == 0 {
        if r == 0 { (a, b - 1, c - 1) } else if r == 1 { (a, b, c - 1) } else if r == 2 { (a, b, c) } else { (a, b - 1, c) }
    } else if axis == 1 {
        if r == 0 { (a - 1, b, c - 1) } else if r == 1 { (a - 1, b, c) } else if r == 2 { (a, b, c) } else { (a, b, c - 1) }
    } else {
        if r == 0 { (a - 1, b - 1, c) } else if r == 1 { (a, b - 1, c) } else if r == 2 { (a, b, c) } else { (a - 1, b, c) }
    }
}

/// Which cell goes to corner `r` of a quad: the winding is reversed for an
/// edge that enters the solid.
pub open spec fn wound(r: int, leaves: bool) -> int {
    if leaves || r == 0 {
        r
    } else {
        4 - r
    }
}

/// Whether quad `q` of `quads` joins the vertices of the four cells around
/// the edge from sample `(a, b, c)` along `axis`, in winding order.
pub open spec fn quad_matches(
    s: Seq<SdfVoxel>,
    cells: Seq<Point3i>,
    quads: Seq<u32>,
    q: int,
    a: int,
    b: int,
    c: int,
    axis: int,
) -> bool {
    let leaves = inside(s, a, b, c);
    &&& 0 <= q && 4 * q + 4 <= quads.len()
    &&& quads[4 * q] < cells.len() && cells[quads[4 * q] as int] == cell_point(edge_cell(a, b, c, axis, wound(0, leaves)))
    &&& quads[4 * q + 1] < cells.len() && cells[quads[4 * q + 1] as int] == cell_point(edge_cell(a, b, c, axis, wound(1, leaves)))
    &&& quads[4 * q + 2] < cells.len() && cells[quads[4 * q + 2] as int] == cell_point(edge_cell(a, b, c, axis, wound(2, leaves)))
    &&& quads[4 * q + 3] < cells.len() && cells[quads[4 * q + 3] as int] == cell_point(edge_cell(a, b, c, axis, wound(3, leaves)))
}

/// The topology of a chunk's surface mesh: one vertex per surface cell, and
/// four vertex indices per quad.
pub struct SurfaceNetsTopology {
    /// The minimum corner sample `(a, b, c)` of each surface cell.
    pub surface_cells: Vec<Point3i>,
    /// Vertex indices, four per quad, in winding order.
    pub quads: Vec<u32>,
}

/// What `surface_nets` finds in the padded samples `s`: exactly the surface
/// cells, each once; quads of four vertex indices; and one quad for each
/// crossing edge, joining the vertices of the four cells around it.
pub open spec fn surface_topology(s: Seq<SdfVoxel>, r: SurfaceNetsTopology) -> bool {
    &&& r.surface_cells@.no_duplicates()
    &&& forall|i: int|
            0 <= i < r.surface_cells@.len() ==> {
                let p = #[trigger] r.surface_cells@[i];
                in_cells(p.x as int, p.y as int, p.z as int) && is_surface_cell(s, p.x as int, p.y as int, p.z as int)
            }
    &&& forall|a: int, b: int, c: int|
            in_cells(a, b, c) && #[trigger] is_surface_cell(s, a, b, c) ==> r.surface_cells@.contains(
                Point3i { x: a as i32, y: b as i32, z: c as i32 },
            )
    &&& r.quads@.len() % 4 == 0
    &&& forall|i: int| 0 <= i < r.quads@.len() ==> (#[trigger] r.quads@[i] as int) < r.surface_cells@.len()
    &&& (r.quads@.len() == 0 <==> !has_crossing(s))
    &&& forall|q: int|
            #[trigger] is_quad(r.quads@, q) ==> exists|a: int, b: int, c: int, axis: int|
                crossing(s, a, b, c, axis) && #[trigger] quad_matches(s, r.surface_cells@, r.quads@, q, a, b, c, axis)
    &&& forall|a: int, b: int, c: int, axis: int|
            #[trigger] crossing(s, a, b, c, axis) ==> exists|q: int|
                0 <= q < r.quads@.len() / 4 && #[trigger] quad_matches(s, r.surface_cells@, r.quads@, q, a, b, c, axis)
}

/// Finds the surface cells of the padded samples `s` and the quads that
/// join them: one quad for each edge from a sample of the chunk proper
/// along which the isosurface crosses.
#[verifier::rlimit(100)]
pub fn surface_nets(s: &Vec<SdfVoxel>) -> (r: SurfaceNetsTopology)
    requires
        s@.len() == PADDED_VOLUME,
    ensures
        surface_topology(s@, r),
{
    let mut cells: Vec<Point3i> = Vec::new();
    let mut table: Vec<u32> = Vec::new();
    let mut c: usize = 0;
    while c < CELL_EDGE
        invariant
            s@.len() == PADDED_VOLUME,
            c <= CELL_EDGE,
            table@.len() == 289 * c,
            cells@.len() <= table@.len(),
            cells@.no_duplicates(),
            forall|i: int|
                0 <= i < cells@.len() ==> {
                    let p = #[trigger] cells@[i];
                    in_cells(p.x as int, p.y as int, p.z as int) && p.z < c && is_surface_cell(s@, p.x as int, p.y as int, p.z as int)
                },
            forall|a: int, b: int, cc: int|
                in_cells(a, b, cc) && cc < c && #[trigger] is_surface_cell(s@, a, b, cc) ==> {
                    let t = table@[a + 17 * b + 289 * cc] as int;
                    0 <= t < cells@.len() && cells@[t] == Point3i { x: a as i32, y: b as i32, z: cc as i32 }
                },
        decreases CELL_EDGE - c,
    {
        let mut b: usize = 0;
        while b < CELL_EDGE
            invariant
                s@.len() == PADDED_VOLUME,
                c < CELL_EDGE,
                b <= CELL_EDGE,
                table@.len() == 289 * c + 17 * b,
                cells@.len() <= table@.len(),
                cells@.no_duplicates(),
                forall|i: int|
                    0 <= i < cells@.len() ==> {
                        let p = #[trigger] cells@[i];
                        in_cells(p.x as int, p.y as int, p.z as int) && (p.z < c || (p.z == c && p.y < b))
                            && is_surface_cell(s@, p.x as int, p.y as int, p.z as int)
                    },
                forall|a: int, bb: int, cc: int|
                    in_cells(a, bb, cc) && (cc < c || (cc == c && bb < b)) && #[trigger] is_surface_cell(s@, a, bb, cc) ==> {
                        let t = table@[a + 17 * bb + 289 * cc] as int;
                        0 <= t < cells@.len() && cells@[t] == Point3i { x: a as i32, y: bb as i32, z: cc as i32 }
                    },
            decreases CELL_EDGE - b,
        {
            let mut a: usize = 0;
            while a < CELL_EDGE
                invariant
                    s@.len() == PADDED_VOLUME,
                    c < CELL_EDGE,
                    b < CELL_EDGE,
                    a <= CELL_EDGE,
                    table@.len() == 289 * c + 17 * b + a,
                    cells@.len() <= table@.len(),
                    cells@.no_duplicates(),
                    forall|i: int|
                        0 <= i < cells@.len() ==> {
                            let p = #[trigger] cells@[i];
                            in_cells(p.x as int, p.y as int, p.z as int) && (p.z < c || (p.z == c && p.y < b) || (p.z == c
                                && p.y == b && p.x < a)) && is_surface_cell(s@, p.x as int, p.y as int, p.z as int)
                        },
                    forall|aa: int, bb: int, cc: int|
                        in_cells(aa, bb, cc) && (cc < c || (cc == c && bb < b) || (cc == c && bb == b && aa < a))
                            && #[trigger] is_surface_cell(s@, aa, bb, cc) ==> {
                            let t = table@[aa + 17 * bb + 289 * cc] as int;
                            0 <= t < cells@.len() && cells@[t] == Point3i { x: aa as i32, y: bb as i32, z: cc as i32 }
                        },
                decreases CELL_EDGE - a,
            {
                let ghost (ga, gb, gc) = (a as int, b as int, c as int);
                let i000 = s[a + 18 * b + 324 * c].distance.0 < 0;
                let i100 = s[a + 1 + 18 * b + 324 * c].distance.0 < 0;
                let i010 = s[a + 18 * (b + 1) + 324 * c].distance.0 < 0;
                let i110 = s[a + 1 + 18 * (b + 1) + 324 * c].distance.0 < 0;
                let i001 = s[a + 18 * b + 324 * (c + 1)].distance.0 < 0;
                let i101 = s[a + 1 + 18 * b + 324 * (c + 1)].distance.0 < 0;
                let i011 = s[a + 18 * (b + 1) + 324 * (c + 1)].distance.0 < 0;
                let i111 = s[a + 1 + 18 * (b + 1) + 324 * (c + 1)].distance.0 < 0;
                let any_in = i000 || i100 || i010 || i110 || i001 || i101 || i011 || i111;
                let all_in = i000 && i100 && i010 && i110 && i001 && i101 && i011 && i111;
                let surface = any_in && !all_in;
                assert(surface == is_surface_cell(s@, ga, gb, gc));
                let p = Point3i { x: a as i32, y: b as i32, z: c as i32 };
                if surface {
                    let ghost before = cells@;
                    table.push(cells.len() as u32);
                    cells.push(p);
                    proof {
                        assert(!before.contains(p)) by {
                            if before.contains(p) {
                                let n = choose|n: int| 0 <= n < before.len() && before[n] == p;
                                assert(before[n] == p);
                            }
                        }
                    }
                } else {
                    table.push(u32::MAX);
                }
                a += 1;
            }
            b += 1;
        }
        c += 1;
    }
    let ghost table_done = table@;
    let mut quads: Vec<u32> = Vec::new();
    proof {
        assert forall|a: int, b: int, cc: int| in_cells(a, b, cc) && #[trigger] is_surface_cell(s@, a, b, cc)
            implies cells@.contains(Point3i { x: a as i32, y: b as i32, z: cc as i32 }) by {
            let t = table@[a + 17 * b + 289 * cc] as int;
            assert(cells@[t] == Point3i { x: a as i32, y: b as i32, z: cc as i32 });
        }
    }
    let mut c: usize = 1;
    while c < 17
        invariant
                1 <= c <= 17,
                s@.len() == PADDED_VOLUME,
                table@ == table_done,
                table@.len() == CELL_VOLUME,
                forall|aa: int, bb: int, cc: int|
                    in_cells(aa, bb, cc) && #[trigger] is_surface_cell(s@, aa, bb, cc) ==> {
                        let t = table@[aa + 17 * bb + 289 * cc] as int;
                        0 <= t < cells@.len() && cells@[t] == cell_point((aa, bb, cc))
                    },
                quads@.len() % 4 == 0,
                forall|i: int| 0 <= i < quads@.len() ==> (#[trigger] quads@[i] as int) < cells@.len(),
                forall|q: int|
                    #[trigger] is_quad(quads@, q) ==> exists|aa: int, bb: int, cc: int, ax: int|
                        crossing(s@, aa, bb, cc, ax) && #[trigger] quad_matches(s@, cells@, quads@, q, aa, bb, cc, ax),
                forall|aa: int, bb: int, cc: int, ax: int|
                    (cc < c) && #[trigger] crossing(s@, aa, bb, cc, ax) ==> exists|q: int|
                        0 <= q < quads@.len() / 4 && #[trigger] quad_matches(s@, cells@, quads@, q, aa, bb, cc, ax),
                quads@.len() == 0 <==> !(exists|aa: int, bb: int, cc: int, ax: int|
                    (cc < c) && #[trigger] crossing(s@, aa, bb, cc, ax)),
        decreases 17 - c,
    {
        let mut b: usize = 1;
        while b < 17
            invariant
                1 <= c < 17,
                1 <= b <= 17,
                s@.len() == PADDED_VOLUME,
                table@ == table_done,
                table@.len() == CELL_VOLUME,
                forall|aa: int, bb: int, cc: int|
                    in_cells(aa, bb, cc) && #[trigger] is_surface_cell(s@, aa, bb, cc) ==> {
                        let t = table@[aa + 17 * bb + 289 * cc] as int;
                        0 <= t < cells@.len() && cells@[t] == cell_point((aa, bb, cc))
                    },
                quads@.len() % 4 == 0,
                forall|i: int| 0 <= i < quads@.len() ==> (#[trigger] quads@[i] as int) < cells@.len(),
                forall|q: int|
                    #[trigger] is_quad(quads@, q) ==> exists|aa: int, bb: int, cc: int, ax: int|
                        crossing(s@, aa, bb, cc, ax) && #[trigger] quad_matches(s@, cells@, quads@, q, aa, bb, cc, ax),
                forall|aa: int, bb: int, cc: int, ax: int|
                    (cc < c || (cc == c && bb < b)) && #[trigger] crossing(s@, aa, bb, cc, ax) ==> exists|q: int|
                        0 <= q < quads@.len() / 4 && #[trigger] quad_matches(s@, cells@, quads@, q, aa, bb, cc, ax),
                quads@.len() == 0 <==> !(exists|aa: int, bb: int, cc: int, ax: int|
                    (cc < c || (cc == c && bb < b)) && #[trigger] crossing(s@, aa, bb, cc, ax)),
            decreases 17 - b,
        {
            let mut a: usize = 1;
            while a < 17
                invariant
                1 <= c < 17,
                1 <= b < 17,
                1 <= a <= 17,
                s@.len() == PADDED_VOLUME,
                table@ == table_done,
                table@.len() == CELL_VOLUME,
                forall|aa: int, bb: int, cc: int|
                    in_cells(aa, bb, cc) && #[trigger] is_surface_cell(s@, aa, bb, cc) ==> {
                        let t = table@[aa + 17 * bb + 289 * cc] as int;
                        0 <= t < cells@.len() && cells@[t] == cell_point((aa, bb, cc))
                    },
                quads@.len() % 4 == 0,
                forall|i: int| 0 <= i < quads@.len() ==> (#[trigger] quads@[i] as int) < cells@.len(),
                forall|q: int|
                    #[trigger] is_quad(quads@, q) ==> exists|aa: int, bb: int, cc: int, ax: int|
                        crossing(s@, aa, bb, cc, ax) && #[trigger] quad_matches(s@, cells@, quads@, q, aa, bb, cc, ax),
                forall|aa: int, bb: int, cc: int, ax: int|
                    (cc < c || (cc == c && bb < b) || (cc == c && bb == b && aa < a)) && #[trigger] crossing(s@, aa, bb, cc, ax) ==> exists|q: int|
                        0 <= q < quads@.len() / 4 && #[trigger] quad_matches(s@, cells@, quads@, q, aa, bb, cc, ax),
                quads@.len() == 0 <==> !(exists|aa: int, bb: int, cc: int, ax: int|
                    (cc < c || (cc == c && bb < b) || (cc == c && bb == b && aa < a)) && #[trigger] crossing(s@, aa, bb, cc, ax)),
                decreases 17 - a,
            {
                let here = s[a + 18 * b + 324 * c].distance.0 < 0;
                let mut axis: usize = 0;
                while axis < 3
                    invariant
                1 <= c < 17,
                1 <= b < 17,
                1 <= a < 17,
                axis <= 3,
                here == inside(s@, a as int, b as int, c as int),
                s@.len() == PADDED_VOLUME,
                table@ == table_done,
                table@.len() == CELL_VOLUME,
                forall|aa: int, bb: int, cc: int|
                    in_cells(aa, bb, cc) && #[trigger] is_surface_cell(s@, aa, bb, cc) ==> {
                        let t = table@[aa + 17 * bb + 289 * cc] as int;
                        0 <= t < cells@.len() && cells@[t] == cell_point((aa, bb, cc))
                    },
                quads@.len() % 4 == 0,
                forall|i: int| 0 <= i < quads@.len() ==> (#[trigger] quads@[i] as int) < cells@.len(),
                forall|q: int|
                    #[trigger] is_quad(quads@, q) ==> exists|aa: int, bb: int, cc: int, ax: int|
                        crossing(s@, aa, bb, cc, ax) && #[trigger] quad_matches(s@, cells@, quads@, q, aa, bb, cc, ax),
                forall|aa: int, bb: int, cc: int, ax: int|
                    (cc < c || (cc == c && bb < b) || (cc == c && bb == b && aa < a) || (cc == c && bb == b && aa == a && ax < axis)) && #[trigger] crossing(s@, aa, bb, cc, ax) ==> exists|q: int|
                        0 <= q < quads@.len() / 4 && #[trigger] quad_matches(s@, cells@, quads@, q, aa, bb, cc, ax),
                quads@.len() == 0 <==> !(exists|aa: int, bb: int, cc: int, ax: int|
                    (cc < c || (cc == c && bb < b) || (cc == c && bb == b && aa < a) || (cc == c && bb == b && aa == a && ax < axis)) && #[trigger] crossing(s@, aa, bb, cc, ax)),
                    decreases 3 - axis,
                {
                    let (nx, ny, nz) = if axis == 0 {
                        (a + 1, b, c)
                    } else if axis == 1 {
                        (a, b + 1, c)
                    } else {
                        (a, b, c + 1)
                    };
                    let there = s[nx + 18 * ny + 324 * nz].distance.0 < 0;
                    let ghost (ga, gb, gc, gx) = (a as int, b as int, c as int, axis as int);
                    proof {
                        assert(there == inside(s@, nx as int, ny as int, nz as int));
                    }
                    let ghost q0: int = (quads@.len() / 4) as int;
                    let ghost old_quads = quads@;
                    if here != there {
                        // The four cells around the edge, in winding order.
                        let (c0, c1, c2, c3) = if axis == 0 {
                            ((a, b - 1, c - 1), (a, b, c - 1), (a, b, c), (a, b - 1, c))
                        } else if axis == 1 {
                            ((a - 1, b, c - 1), (a - 1, b, c), (a, b, c), (a, b, c - 1))
                        } else {
                            ((a - 1, b - 1, c), (a, b - 1, c), (a, b, c), (a - 1, b, c))
                        };
                        proof {
                            assert(is_surface_cell(s@, c0.0 as int, c0.1 as int, c0.2 as int));
                            assert(is_surface_cell(s@, c1.0 as int, c1.1 as int, c1.2 as int));
                            assert(is_surface_cell(s@, c2.0 as int, c2.1 as int, c2.2 as int));
                            assert(is_surface_cell(s@, c3.0 as int, c3.1 as int, c3.2 as int));
                            assert(crossing(s@, ga, gb, gc, gx));
                            assert((c0.0 as int, c0.1 as int, c0.2 as int) == edge_cell(ga, gb, gc, gx, 0));
                            assert((c1.0 as int, c1.1 as int, c1.2 as int) == edge_cell(ga, gb, gc, gx, 1));
                            assert((c2.0 as int, c2.1 as int, c2.2 as int) == edge_cell(ga, gb, gc, gx, 2));
                            assert((c3.0 as int, c3.1 as int, c3.2 as int) == edge_cell(ga, gb, gc, gx, 3));
                        }
                        let v0 = table[c0.0 + 17 * c0.1 + 289 * c0.2];
                        let v1 = table[c1.0 + 17 * c1.1 + 289 * c1.2];
                        let v2 = table[c2.0 + 17 * c2.1 + 289 * c2.2];
                        let v3 = table[c3.0 + 17 * c3.1 + 289 * c3.2];
                        if here {
                            quads.push(v0);
                            quads.push(v1);
                            quads.push(v2);
                            quads.push(v3);
                        } else {
                            quads.push(v0);
                            quads.push(v3);
                            quads.push(v2);
                            quads.push(v1);
                        }
                        proof {
                            assert(quads@.len() / 4 == q0 + 1);
                            assert(quad_matches(s@, cells@, quads@, q0, ga, gb, gc, gx));
                            assert forall|q: int, aa: int, bb: int, cc: int, ax: int|
                                0 <= q < q0 && #[trigger] quad_matches(s@, cells@, old_quads, q, aa, bb, cc, ax)
                                    implies quad_matches(s@, cells@, quads@, q, aa, bb, cc, ax) by {
                                assert(quads@[4 * q] == old_quads[4 * q]);
                                assert(quads@[4 * q + 1] == old_quads[4 * q + 1]);
                                assert(quads@[4 * q + 2] == old_quads[4 * q + 2]);
                                assert(quads@[4 * q + 3] == old_quads[4 * q + 3]);
                            }
                            assert forall|q: int| #[trigger] is_quad(quads@, q) implies exists|aa: int, bb: int, cc: int, ax: int|
                                crossing(s@, aa, bb, cc, ax) && #[trigger] quad_matches(s@, cells@, quads@, q, aa, bb, cc, ax) by {
                                if q < q0 {
                                    assert(is_quad(old_quads, q));
                                    let (aa, bb, cc, ax) = choose|aa: int, bb: int, cc: int, ax: int|
                                        crossing(s@, aa, bb, cc, ax) && #[trigger] quad_matches(s@, cells@, old_quads, q, aa, bb, cc, ax);
                                    assert(quad_matches(s@, cells@, quads@, q, aa, bb, cc, ax));
                                } else {
                                    assert(q == q0);
                                }
                            }
                            assert forall|aa: int, bb: int, cc: int, ax: int|
                                (cc < gc || (cc == gc && bb < gb) || (cc == gc && bb == gb && aa < ga) || (cc == gc && bb == gb && aa == ga && ax < gx + 1)) && #[trigger] crossing(s@, aa, bb, cc, ax) implies exists|q: int|
                                0 <= q < quads@.len() / 4 && #[trigger] quad_matches(s@, cells@, quads@, q, aa, bb, cc, ax) by {
                                if aa == ga && bb == gb && cc == gc && ax == gx {
                                    assert(quad_matches(s@, cells@, quads@, q0, aa, bb, cc, ax));
                                } else {
                                    let q = choose|q: int|
                                        0 <= q < old_quads.len() / 4 && #[trigger] quad_matches(s@, cells@, old_quads, q, aa, bb, cc, ax);
                                    assert(quad_matches(s@, cells@, quads@, q, aa, bb, cc, ax));
                                }
                            }
                        }
                    } else {
                        proof {
                            assert(!crossing(s@, ga, gb, gc, gx));
                        }
                    }
                    axis += 1;
                }
                a += 1;
            }
            b += 1;
        }
        c += 1;
    }
    SurfaceNetsTopology { surface_cells: cells, quads }
}

/// Whether voxel `v` adds weight to material layer `m`: it is of a
/// non-empty type of the palette whose material is `m`.
pub open spec fn weighs(pal: SdfVoxelPalette, v: SdfVoxel, m: int) -> bool {
    pal.covers(v) && !pal.infos()[v.voxel_type.0 as int].is_empty
        && pal.infos()[v.voxel_type.0 as int].material.0 == m
}

pub open spec fn weight(pal: SdfVoxelPalette, v: SdfVoxel, m: int) -> int {
    if weighs(pal, v, m) {
        1
    } else {
        0
    }
}

/// The number of corner samples of cell `(a, b, c)` that weigh on layer `m`.
pub open spec fn corner_count(pal: SdfVoxelPalette, s: Seq<SdfVoxel>, a: int, b: int, c: int, m: int) -> int {
    weight(pal, s[sample_index(a, b, c)], m) + weight(pal, s[sample_index(a + 1, b, c)], m) + weight(
        pal,
        s[sample_index(a, b + 1, c)],
        m,
    ) + weight(pal, s[sample_index(a + 1, b + 1, c)], m) + weight(pal, s[sample_index(a, b, c + 1)], m)
        + weight(pal, s[sample_index(a + 1, b, c + 1)], m) + weight(pal, s[sample_index(a, b + 1, c + 1)], m)
        + weight(pal, s[sample_index(a + 1, b + 1, c + 1)], m)
}

fn corner_weight(palette: &SdfVoxelPalette, v: SdfVoxel, m: u8) -> (r: u8)
    ensures
        r == weight(*palette, v, m as int),
{
    if (v.voxel_type.0 as usize) < palette.len() {
        let info = palette.info(v);
        if !info.is_empty && info.material.0 == m {
            1
        } else {
            0
        }
    } else {
        0
    }
}

/// For each surface cell, the number of its eight corner samples of each
/// material layer, skipping empty voxels: entry `4 * i + m` counts layer
/// `m` around cell `cells[i]`.
pub fn count_adjacent_materials(
    palette: &SdfVoxelPalette,
    s: &Vec<SdfVoxel>,
    cells: &Vec<Point3i>,
) -> (r: Vec<u8>)
    requires
        palette.wf(),
        s@.len() == PADDED_VOLUME,
        forall|i: int|
            0 <= i < cells@.len() ==> {
                let p = #[trigger] cells@[i];
                in_cells(p.x as int, p.y as int, p.z as int)
            },
    ensures
        r@.len() == 4 * cells@.len(),
        forall|i: int, m: int|
            0 <= i < cells@.len() && 0 <= m < NUM_MATERIAL_LAYERS ==> #[trigger] r@[4 * i + m] as int
                == corner_count(*palette, s@, cells@[i].x as int, cells@[i].y as int, cells@[i].z as int, m),
{
    let mut out: Vec<u8> = Vec::new();
    let mut i: usize = 0;
    while i < cells.len()
        invariant
            s@.len() == PADDED_VOLUME,
            forall|j: int|
                0 <= j < cells@.len() ==> {
                    let p = #[trigger] cells@[j];
                    in_cells(p.x as int, p.y as int, p.z as int)
                },
            i <= cells@.len(),
            out@.len() == 4 * i,
            forall|j: int, m: int|
                0 <= j < i && 0 <= m < NUM_MATERIAL_LAYERS ==> #[trigger] out@[4 * j + m] as int
                    == corner_count(*palette, s@, cells@[j].x as int, cells@[j].y as int, cells@[j].z as int, m),
        decreases cells@.len() - i,
    {
        let p = cells[i];
        assert(in_cells(p.x as int, p.y as int, p.z as int));
        let a = p.x as usize;
        let b = p.y as usize;
        let c = p.z as usize;
        let mut m: u8 = 0;
        while m < NUM_MATERIAL_LAYERS
            invariant
                s@.len() == PADDED_VOLUME,
                in_cells(a as int, b as int, c as int),
                p == cells@[i as int],
                a == p.x && b == p.y && c == p.z,
                m <= NUM_MATERIAL_LAYERS,
                i < cells@.len(),
                out@.len() == 4 * i + m,
                forall|j: int, mm: int|
                    0 <= j < i && 0 <= mm < NUM_MATERIAL_LAYERS ==> #[trigger] out@[4 * j + mm] as int
                        == corner_count(*palette, s@, cells@[j].x as int, cells@[j].y as int, cells@[j].z as int, mm),
                forall|mm: int|
                    0 <= mm < m ==> #[trigger] out@[4 * i + mm] as int == corner_count(
                        *palette,
                        s@,
                        a as int,
                        b as int,
                        c as int,
                        mm,
                    ),
            decreases NUM_MATERIAL_LAYERS - m,
        {
            let n = corner_weight(palette, s[a + 18 * b + 324 * c], m) + corner_weight(
                palette,
                s[a + 1 + 18 * b + 324 * c],
                m,
            ) + corner_weight(palette, s[a + 18 * (b + 1) + 324 * c], m) + corner_weight(
                palette,
                s[a + 1 + 18 * (b + 1) + 324 * c],
                m,
            ) + corner_weight(palette, s[a + 18 * b + 324 * (c + 1)], m) + corner_weight(
                palette,
                s[a + 1 + 18 * b + 324 * (c + 1)],
                m,
            ) + corner_weight(palette, s[a + 18 * (b + 1) + 324 * (c + 1)], m) + corner_weight(
                palette,
                s[a + 1 + 18 * (b + 1) + 324 * (c + 1)],
                m,
            );
            out.push(n);
            m += 1;
        }
        i += 1;
    }
    out
}

/// Whether `counts` holds, for each of `cells`, the number of its corner
/// samples of each material layer (entry `4 * i + m` for cell `i`).
pub open spec fn counts_match(pal: SdfVoxelPalette, s: Seq<SdfVoxel>, cells: Seq<Point3i>, counts: Seq<u8>) -> bool {
    &&& counts.len() == 4 * cells.len()
    &&& forall|i: int, m: int|
        0 <= i < cells.len() && 0 <= m < NUM_MATERIAL_LAYERS ==> #[trigger] counts[4 * i + m] as int
            == corner_count(pal, s, cells[i].x as int, cells[i].y as int, cells[i].z as int, m)
}

/// Whether `tris` splits each quad `(v0, v1, v2, v3)` of `quads` into the
/// triangles `(v0, v1, v2)` and `(v0, v2, v3)`, in order.
pub open spec fn triangles_of(quads: Seq<u32>, tris: Seq<u32>) -> bool {
    &&& tris.len() == 6 * (quads.len() / 4)
    &&& forall|q: int|
        #[trigger] is_quad(quads, q) ==> {
            &&& tris[6 * q] == quads[4 * q]
            &&& tris[6 * q + 1] == quads[4 * q + 1]
            &&& tris[6 * q + 2] == quads[4 * q + 2]
            &&& tris[6 * q + 3] == quads[4 * q]
            &&& tris[6 * q + 4] == quads[4 * q + 2]
            &&& tris[6 * q + 5] == quads[4 * q + 3]
        }
}

/// The triangle list of a quad list: two triangles per quad, same winding.
pub fn triangle_indices(quads: &Vec<u32>) -> (r: Vec<u32>)
    requires
        quads@.len() % 4 == 0,
    ensures
        triangles_of(quads@, r@),
{
    let mut out: Vec<u32> = Vec::new();
    let mut q: usize = 0;
    while q < quads.len() / 4
        invariant
            quads@.len() % 4 == 0,
            q <= quads@.len() / 4,
            out@.len() == 6 * q,
            forall|j: int|
                #[trigger] is_quad(quads@, j) && j < q ==> {
                    &&& out@[6 * j] == quads@[4 * j]
                    &&& out@[6 * j + 1] == quads@[4 * j + 1]
                    &&& out@[6 * j + 2] == quads@[4 * j + 2]
                    &&& out@[6 * j + 3] == quads@[4 * j]
                    &&& out@[6 * j + 4] == quads@[4 * j + 2]
                    &&& out@[6 * j + 5] == quads@[4 * j + 3]
                },
        decreases quads@.len() / 4 - q,
    {
        out.push(quads[4 * q]);
        out.push(quads[4 * q + 1]);
        out.push(quads[4 * q + 2]);
        out.push(quads[4 * q]);
        out.push(quads[4 * q + 2]);
        out.push(quads[4 * q + 3]);
        q += 1;
    }
    out
}

/// The material counts of each vertex packed into one word, layer `m` in
/// byte `m`: `c0 + 2^8 c1 + 2^16 c2 + 2^24 c3`.
pub fn pack_material_weights(counts: &Vec<u8>) -> (r: Vec<u32>)
    requires
        counts@.len() % 4 == 0,
    ensures
        r@.len() == counts@.len() / 4,
        forall|i: int|
            0 <= i < r@.len() ==> #[trigger] r@[i] as int == counts@[4 * i] as int + 256 * counts@[4 * i + 1]
                + 65536 * counts@[4 * i + 2] + 16777216 * counts@[4 * i + 3],
{
    let mut out: Vec<u32> = Vec::new();
    let mut i: usize = 0;
    while i < counts.len() / 4
        invariant
            counts@.len() % 4 == 0,
            i <= counts@.len() / 4,
            out@.len() == i,
            forall|j: int|
                0 <= j < i ==> #[trigger] out@[j] as int == counts@[4 * j] as int + 256 * counts@[4 * j + 1]
                    + 65536 * counts@[4 * j + 2] + 16777216 * counts@[4 * j + 3],
        decreases counts@.len() / 4 - i,
    {
        let w: u32 = counts[4 * i] as u32 + 256 * counts[4 * i + 1] as u32 + 65536 * counts[4 * i + 2] as u32
            + 16777216 * counts[4 * i + 3] as u32;
        out.push(w);
        i += 1;
    }
    out
}

/// The mesh data of one chunk: the padded samples that vertex positions
/// and normals are computed from, the topology, the triangle list, and
/// vertex material counts.
pub struct ChunkMeshData {
    pub samples: Vec<SdfVoxel>,
    pub topology: SurfaceNetsTopology,
    pub indices: Vec<u32>,
    pub material_counts: Vec<u8>,
}

/// What `generate_chunk_mesh` makes of the chunk under `key` in map `m`:
/// the padded samples, their surface topology with at least one quad, its
/// triangles, and the material counts of its vertices.
pub open spec fn mesh_of(m: Map<ChunkKey, Seq<SdfVoxel>>, pal: SdfVoxelPalette, key: ChunkKey, d: ChunkMeshData) -> bool {
    &&& d.samples@ == padded_samples(m, key)
    &&& surface_topology(d.samples@, d.topology)
    &&& d.topology.quads@.len() > 0
    &&& triangles_of(d.topology.quads@, d.indices@)
    &&& counts_match(pal, d.samples@, d.topology.surface_cells@, d.material_counts@)
}

/// The samples of the padded chunk around `key` as map `m` reads them.
pub open spec fn padded_samples(m: Map<ChunkKey, Seq<SdfVoxel>>, key: ChunkKey) -> Seq<SdfVoxel> {
    Seq::new(
        PADDED_VOLUME as nat,
        |t: int| voxel_at(m, sample_point(key, t % 18, (t / 18) % 18, t / 324)),
    )
}

proof fn lemma_padded_samples(m: Map<ChunkKey, Seq<SdfVoxel>>, key: ChunkKey, s: Seq<SdfVoxel>)
    requires
        s.len() == PADDED_VOLUME,
        forall|a: int, b: int, c: int|
            in_samples(a, b, c) ==> #[trigger] s[sample_index(a, b, c)] == voxel_at(m, sample_point(key, a, b, c)),
    ensures
        s == padded_samples(m, key),
{
    assert forall|t: int| 0 <= t < PADDED_VOLUME implies s[t] == padded_samples(m, key)[t] by {
        let a = t % 18;
        let b = (t / 18) % 18;
        let c = t / 324;
        vstd::arithmetic::div_mod::lemma_fundamental_div_mod(t, 18);
        vstd::arithmetic::div_mod::lemma_fundamental_div_mod(t / 18, 18);
        vstd::arithmetic::div_mod::lemma_div_denominator(t, 18, 18);
        vstd::arithmetic::div_mod::lemma_div_is_ordered(t, 5831, 324);
        vstd::arithmetic::div_mod::lemma_mod_bound(t, 18);
        vstd::arithmetic::div_mod::lemma_mod_bound(t / 18, 18);
        vstd::arithmetic::div_mod::lemma_div_pos_is_pos(t, 324);
        assert(in_samples(a, b, c));
        assert(t == sample_index(a, b, c));
    }
    assert(s =~= padded_samples(m, key));
}

/// The mesh of the chunk under `key` as `map` reads it, or `None` when the
/// surface has no quad there, so that any mesh of the chunk is removed.
pub fn generate_chunk_mesh(map: &ChunkMap, palette: &SdfVoxelPalette, key: ChunkKey) -> (r: Option<ChunkMeshData>)
    requires
        map.wf(),
        palette.wf(),
        key.in_bounds(),
    ensures
        r.is_none() <==> !has_crossing(padded_samples(map@, key)),
        r.is_some() ==> mesh_of(map@, *palette, key, r.unwrap()),
{
    let samples = padded_chunk_samples(map, key);
    let topology = surface_nets(&samples);
    proof {
        lemma_padded_samples(map@, key, samples@);
    }
    if topology.quads.len() == 0 {
        return None;
    }
    let material_counts = count_adjacent_materials(palette, &samples, &topology.surface_cells);
    let indices = triangle_indices(&topology.quads);
    Some(ChunkMeshData { samples, topology, indices, material_counts })
}

/// A padded chunk whose samples all lie outside the solid has no quad; one
/// with a sample of the chunk proper inside the solid whose neighbor along
/// an axis lies outside has one.
pub proof fn lemma_mesh_emptiness(s: Seq<SdfVoxel>, a: int, b: int, c: int)
    requires
        s.len() == PADDED_VOLUME,
    ensures
        (forall|t: int| 0 <= t < PADDED_VOLUME ==> (#[trigger] s[t]).distance.0 >= 0) ==> !has_crossing(s),
        1 <= a < 17 && 1 <= b < 17 && 1 <= c < 17 && inside(s, a, b, c) && !inside(s, a + 1, b, c)
            ==> has_crossing(s),
{
    if forall|t: int| 0 <= t < PADDED_VOLUME ==> (#[trigger] s[t]).distance.0 >= 0 {
        assert forall|aa: int, bb: int, cc: int, axis: int| !#[trigger] crossing(s, aa, bb, cc, axis) by {
            if crossing(s, aa, bb, cc, axis) {
                assert(s[sample_index(aa, bb, cc)].distance.0 >= 0);
            }
        }
    }
    if 1 <= a < 17 && 1 <= b < 17 && 1 <= c < 17 && inside(s, a, b, c) && !inside(s, a + 1, b, c) {
        assert(crossing(s, a, b, c, 0));
    }
}

} // verus!
