//! Integer points, axis-aligned extents and the chunk grid that partitions
//! space into cubes of `CHUNK_EDGE` voxels.
use vstd::prelude::*;

verus! {

/// Edge length of every chunk, in voxels.
pub const CHUNK_EDGE: i32 = 16;

/// Number of voxels in one chunk.
pub const CHUNK_VOLUME: usize = 4096;

/// Every coordinate of an extent lies strictly within this distance of the
/// origin, so that padding an extent by a chunk cannot overflow.
pub const COORD_LIMIT: i32 = 536870912;

/// Bound on the coordinates of an extent that has been padded.
pub const PADDED_LIMIT: i32 = 1073741824;

#[derive(Clone, Copy, Debug, PartialEq, Eq, Structural, Hash)]
pub struct Point3i {
    pub x: i32,
    pub y: i32,
    pub z: i32,
}

/// Identifies a chunk by its position on the chunk grid: the chunk with key
/// `k` covers the points `p` with `16 * k <= p < 16 * k + 16` on each axis.
#[derive(Clone, Copy, Debug, PartialEq, Eq, Structural, Hash)]
pub struct ChunkKey {
    pub x: i32,
    pub y: i32,
    pub z: i32,
}

/// The box of points `minimum <= p < minimum + shape`, axis by axis.
#[derive(Clone, Copy, Debug, PartialEq, Eq, Structural, Hash)]
pub struct Extent3i {
    pub minimum: Point3i,
    pub shape: Point3i,
}

pub open spec fn in_limits(c: int) -> bool {
    -COORD_LIMIT < c < COORD_LIMIT
}

pub open spec fn in_padded_limits(c: int) -> bool {
    -PADDED_LIMIT < c < PADDED_LIMIT
}

/// The chunk grid coordinate of a point coordinate: `c` divided by the edge
/// length, rounded down.
pub open spec fn chunk_coord(c: int) -> int {
    c / (CHUNK_EDGE as int)
}

/// The offset of a coordinate within its chunk.
pub open spec fn local_coord(c: int) -> int {
    c % (CHUNK_EDGE as int)
}

impl Point3i {
    pub open spec fn wf(&self) -> bool {
        in_limits(self.x as int) && in_limits(self.y as int) && in_limits(self.z as int)
    }

    pub fn new(x: i32, y: i32, z: i32) -> (r: Self)
        ensures
            r.x == x && r.y == y && r.z == z,
    {
        Point3i { x, y, z }
    }
}

impl ChunkKey {
    pub fn new(x: i32, y: i32, z: i32) -> (r: Self)
        ensures
            r.x == x && r.y == y && r.z == z,
    {
        ChunkKey { x, y, z }
    }

    /// Whether the points of this chunk lie within the padded limits.
    pub open spec fn in_bounds(&self) -> bool {
        &&& in_padded_limits(16 * self.x) && in_padded_limits(16 * self.x + 16)
        &&& in_padded_limits(16 * self.y) && in_padded_limits(16 * self.y + 16)
        &&& in_padded_limits(16 * self.z) && in_padded_limits(16 * self.z + 16)
    }

    /// The six keys that share a face with this one.
    pub open spec fn face_neighbors(self) -> Set<ChunkKey> {
        Set::new(|n: ChunkKey| is_face_neighbor(self, n))
    }
}

pub open spec fn is_face_neighbor(k: ChunkKey, n: ChunkKey) -> bool {
    let dx = n.x - k.x;
    let dy = n.y - k.y;
    let dz = n.z - k.z;
    ||| (dx == 1 || dx == -1) && dy == 0 && dz == 0
    ||| dx == 0 && (dy == 1 || dy == -1) && dz == 0
    ||| dx == 0 && dy == 0 && (dz == 1 || dz == -1)
}

/// The key of the chunk that holds point `p`.
pub open spec fn key_of(p: Point3i) -> ChunkKey {
    ChunkKey {
        x: chunk_coord(p.x as int) as i32,
        y: chunk_coord(p.y as int) as i32,
        z: chunk_coord(p.z as int) as i32,
    }
}

/// The index of point `p` in the dense array of its chunk (x fastest).
pub open spec fn local_index(p: Point3i) -> int {
    local_coord(p.x as int) + 16 * local_coord(p.y as int) + 256 * local_coord(p.z as int)
}

/// The point of chunk `k` stored at index `i` of its dense array.
pub open spec fn point_of(k: ChunkKey, i: int) -> Point3i {
    Point3i {
        x: (16 * k.x + i % 16) as i32,
        y: (16 * k.y + (i / 16) % 16) as i32,
        z: (16 * k.z + i / 256) as i32,
    }
}

impl Extent3i {
    pub open spec fn wf(&self) -> bool {
        &&& self.shape.x >= 0 && self.shape.y >= 0 && self.shape.z >= 0
        &&& self.minimum.wf()
        &&& in_limits(self.minimum.x + self.shape.x)
        &&& in_limits(self.minimum.y + self.shape.y)
        &&& in_limits(self.minimum.z + self.shape.z)
    }

    /// Within the looser bound that padded extents keep.
    pub open spec fn fits(&self) -> bool {
        &&& self.shape.x >= 0 && self.shape.y >= 0 && self.shape.z >= 0
        &&& in_padded_limits(self.minimum.x as int)
        &&& in_padded_limits(self.minimum.y as int)
        &&& in_padded_limits(self.minimum.z as int)
        &&& in_padded_limits(self.minimum.x + self.shape.x)
        &&& in_padded_limits(self.minimum.y + self.shape.y)
        &&& in_padded_limits(self.minimum.z + self.shape.z)
    }

    pub open spec fn is_empty_spec(&self) -> bool {
        self.shape.x == 0 || self.shape.y == 0 || self.shape.z == 0
    }

    pub open spec fn contains_spec(&self, p: Point3i) -> bool {
        &&& self.minimum.x <= p.x < self.minimum.x + self.shape.x
        &&& self.minimum.y <= p.y < self.minimum.y + self.shape.y
        &&& self.minimum.z <= p.z < self.minimum.z + self.shape.z
    }

    /// Whether the cube of chunk `k` shares a point with this extent.
    pub open spec fn intersects_chunk(&self, k: ChunkKey) -> bool {
        &&& !self.is_empty_spec()
        &&& 16 * k.x <= self.minimum.x + self.shape.x - 1 && self.minimum.x <= 16 * k.x + 15
        &&& 16 * k.y <= self.minimum.y + self.shape.y - 1 && self.minimum.y <= 16 * k.y + 15
        &&& 16 * k.z <= self.minimum.z + self.shape.z - 1 && self.minimum.z <= 16 * k.z + 15
    }

    /// This extent grown by one chunk edge on every side.
    pub open spec fn padded_by_chunk(&self) -> Extent3i {
        Extent3i {
            minimum: Point3i {
                x: (self.minimum.x - 16) as i32,
                y: (self.minimum.y - 16) as i32,
                z: (self.minimum.z - 16) as i32,
            },
            shape: Point3i {
                x: (self.shape.x + 32) as i32,
                y: (self.shape.y + 32) as i32,
                z: (self.shape.z + 32) as i32,
            },
        }
    }

    /// The extent `minimum <= p < minimum + shape`; `None` when a side is
    /// negative or a corner leaves the coordinate limits.
    pub fn from_min_and_shape(minimum: Point3i, shape: Point3i) -> (r: Option<Extent3i>)
        ensures
            r.is_some() <==> (Extent3i { minimum, shape }).wf(),
            r.is_some() ==> r.unwrap() == (Extent3i { minimum, shape }),
    {
        let e = Extent3i { minimum, shape };
        if shape.x < 0 || shape.y < 0 || shape.z < 0 {
            return None;
        }
        if minimum.x <= -COORD_LIMIT || minimum.x >= COORD_LIMIT || minimum.y <= -COORD_LIMIT
            || minimum.y >= COORD_LIMIT || minimum.z <= -COORD_LIMIT || minimum.z >= COORD_LIMIT {
            return None;
        }
        if minimum.x as i64 + shape.x as i64 >= COORD_LIMIT as i64 || minimum.y as i64
            + shape.y as i64 >= COORD_LIMIT as i64 || minimum.z as i64 + shape.z as i64
            >= COORD_LIMIT as i64 {
            return None;
        }
        Some(e)
    }

    /// The cube of edge `2 * radius + 1` centered on `center`; `None` where
    /// it leaves the coordinate limits.
    pub fn centered(center: Point3i, radius: u32) -> (r: Option<Extent3i>)
        ensures
            r.is_some() <==> {
                &&& in_limits(center.x - radius) && in_limits(center.x + radius + 1)
                &&& in_limits(center.y - radius) && in_limits(center.y + radius + 1)
                &&& in_limits(center.z - radius) && in_limits(center.z + radius + 1)
            },
            r.is_some() ==> r.unwrap().minimum == (Point3i {
                x: (center.x - radius) as i32,
                y: (center.y - radius) as i32,
                z: (center.z - radius) as i32,
            }) && r.unwrap().shape == (Point3i {
                x: (2 * radius + 1) as i32,
                y: (2 * radius + 1) as i32,
                z: (2 * radius + 1) as i32,
            }),
    {
        if radius >= COORD_LIMIT as u32 {
            return None;
        }
        let r: i64 = radius as i64;
        let lo_x: i64 = center.x as i64 - r;
        let lo_y: i64 = center.y as i64 - r;
        let lo_z: i64 = center.z as i64 - r;
        if lo_x <= -(COORD_LIMIT as i64) || lo_y <= -(COORD_LIMIT as i64) || lo_z <= -(COORD_LIMIT as i64)
            || lo_x >= COORD_LIMIT as i64 || lo_y >= COORD_LIMIT as i64 || lo_z >= COORD_LIMIT as i64 {
            return None;
        }
        let side: i32 = (2 * r + 1) as i32;
        Extent3i::from_min_and_shape(
            Point3i { x: lo_x as i32, y: lo_y as i32, z: lo_z as i32 },
            Point3i { x: side, y: side, z: side },
        )
    }

    pub fn is_empty(&self) -> (r: bool)
        ensures
            r == self.is_empty_spec(),
    {
        self.shape.x == 0 || self.shape.y == 0 || self.shape.z == 0
    }

    pub fn contains(&self, p: Point3i) -> (r: bool)
        requires
            self.wf(),
        ensures
            r == self.contains_spec(p),
    {
        self.minimum.x <= p.x && p.x < self.minimum.x + self.shape.x && self.minimum.y <= p.y
            && p.y < self.minimum.y + self.shape.y && self.minimum.z <= p.z && p.z
            < self.minimum.z + self.shape.z
    }

    /// This extent grown by one chunk edge on every side.
    pub fn padded(&self) -> (r: Extent3i)
        requires
            self.wf(),
        ensures
            r == self.padded_by_chunk(),
            r.fits(),
    {
        Extent3i {
            minimum: Point3i {
                x: self.minimum.x - 16,
                y: self.minimum.y - 16,
                z: self.minimum.z - 16,
            },
            shape: Point3i {
                x: self.shape.x + 32,
                y: self.shape.y + 32,
                z: self.shape.z + 32,
            },
        }
    }
}

/// The point of chunk `key` stored at index `i` of its dense array.
pub fn point_in_chunk(key: ChunkKey, i: usize) -> (r: Point3i)
    requires
        key.in_bounds(),
        i < CHUNK_VOLUME,
    ensures
        r == point_of(key, i as int),
{
    proof {
        vstd::arithmetic::div_mod::lemma_div_is_ordered(i as int, 4095, 256);
        vstd::arithmetic::div_mod::lemma_mod_bound(i as int, 16);
        vstd::arithmetic::div_mod::lemma_mod_bound(i as int / 16, 16);
    }
    Point3i {
        x: 16 * key.x + (i % 16) as i32,
        y: 16 * key.y + ((i / 16) % 16) as i32,
        z: 16 * key.z + (i / 256) as i32,
    }
}

/// A point of a non-empty extent lies in a chunk that the extent intersects.
pub proof fn lemma_point_in_intersecting_chunk(e: Extent3i, p: Point3i)
    requires
        e.contains_spec(p),
    ensures
        e.intersects_chunk(key_of(p)),
{
    lemma_local_coord(p.x as int);
    lemma_local_coord(p.y as int);
    lemma_local_coord(p.z as int);
}

/// Chunks that a well-formed extent intersects lie within the bounds.
pub proof fn lemma_intersecting_chunk_in_bounds(e: Extent3i, k: ChunkKey)
    requires
        e.wf(),
        e.intersects_chunk(k),
    ensures
        k.in_bounds(),
{
}

/// Rounds `c / 16` down.
pub fn chunk_coord_of(c: i32) -> (r: i32)
    ensures
        r == chunk_coord(c as int),
{
    let shifted: i64 = c as i64 + 2147483648;
    let q: i64 = shifted / 16;
    proof {
        vstd::arithmetic::div_mod::lemma_hoist_over_denominator(c as int, 134217728, 16);
    }
    (q - 134217728) as i32
}

/// The key of the chunk holding `p`.
pub fn chunk_key_for_point(p: Point3i) -> (r: ChunkKey)
    ensures
        r == key_of(p),
{
    ChunkKey { x: chunk_coord_of(p.x), y: chunk_coord_of(p.y), z: chunk_coord_of(p.z) }
}

/// The index of `p` within the dense array of its chunk.
pub fn local_index_of(p: Point3i) -> (r: usize)
    ensures
        r == local_index(p),
        r < CHUNK_VOLUME,
{
    let kx = chunk_coord_of(p.x);
    let ky = chunk_coord_of(p.y);
    let kz = chunk_coord_of(p.z);
    proof {
        lemma_local_coord(p.x as int);
        lemma_local_coord(p.y as int);
        lemma_local_coord(p.z as int);
    }
    let lx: i64 = p.x as i64 - 16 * kx as i64;
    let ly: i64 = p.y as i64 - 16 * ky as i64;
    let lz: i64 = p.z as i64 - 16 * kz as i64;
    (lx + 16 * ly + 256 * lz) as usize
}

/// `c` splits into its chunk coordinate and its offset within the chunk.
pub proof fn lemma_local_coord(c: int)
    ensures
        c == 16 * chunk_coord(c) + local_coord(c),
        0 <= local_coord(c) < 16,
{
    vstd::arithmetic::div_mod::lemma_fundamental_div_mod(c, 16);
}

/// A point lies in the chunk of its key, at its local index.
pub proof fn lemma_index_of_point(p: Point3i)
    requires
        in_padded_limits(p.x as int) && in_padded_limits(p.y as int) && in_padded_limits(p.z as int),
    ensures
        point_of(key_of(p), local_index(p)) == p,
        0 <= local_index(p) < CHUNK_VOLUME,
{
    let lx = local_coord(p.x as int);
    let ly = local_coord(p.y as int);
    let lz = local_coord(p.z as int);
    lemma_local_coord(p.x as int);
    lemma_local_coord(p.y as int);
    lemma_local_coord(p.z as int);
    let i = lx + 16 * ly + 256 * lz;
    vstd::arithmetic::div_mod::lemma_div_multiples_vanish_fancy(ly + 16 * lz, lx, 16);
    vstd::arithmetic::div_mod::lemma_div_multiples_vanish_fancy(lz, ly, 16);
    vstd::arithmetic::div_mod::lemma_div_multiples_vanish_fancy(lz, lx + 16 * ly, 256);
    assert(i == 16 * (ly + 16 * lz) + lx);
    assert(i / 16 == ly + 16 * lz);
    assert((ly + 16 * lz) == 16 * lz + ly);
    vstd::arithmetic::div_mod::lemma_fundamental_div_mod(i, 16);
    vstd::arithmetic::div_mod::lemma_fundamental_div_mod(i / 16, 16);
    assert(i == 256 * lz + (lx + 16 * ly));
}

/// Whether key `k` lies in the key box `lo <= k <= hi`.
pub open spec fn in_key_box(k: ChunkKey, lo: ChunkKey, hi: ChunkKey) -> bool {
    lo.x <= k.x <= hi.x && lo.y <= k.y <= hi.y && lo.z <= k.z <= hi.z
}

/// For a non-empty extent, the chunks it intersects form the key box between
/// the keys of its two corners.
pub proof fn lemma_intersects_iff_in_box(e: Extent3i, k: ChunkKey)
    requires
        e.fits(),
        !e.is_empty_spec(),
    ensures
        e.intersects_chunk(k) <==> in_key_box(
            k,
            ChunkKey {
                x: chunk_coord(e.minimum.x as int) as i32,
                y: chunk_coord(e.minimum.y as int) as i32,
                z: chunk_coord(e.minimum.z as int) as i32,
            },
            ChunkKey {
                x: chunk_coord(e.minimum.x + e.shape.x - 1) as i32,
                y: chunk_coord(e.minimum.y + e.shape.y - 1) as i32,
                z: chunk_coord(e.minimum.z + e.shape.z - 1) as i32,
            },
        ),
{
    lemma_local_coord(e.minimum.x as int);
    lemma_local_coord(e.minimum.y as int);
    lemma_local_coord(e.minimum.z as int);
    lemma_local_coord(e.minimum.x + e.shape.x - 1);
    lemma_local_coord(e.minimum.y + e.shape.y - 1);
    lemma_local_coord(e.minimum.z + e.shape.z - 1);
}

pub open spec fn key_lex_before(k: ChunkKey, x: int, y: int, z: int) -> bool {
    k.x < x || (k.x == x && (k.y < y || (k.y == y && k.z < z)))
}

/// Every chunk key whose chunk intersects `extent`, each once.
pub fn chunk_keys_for_extent(extent: &Extent3i) -> (r: Vec<ChunkKey>)
    requires
        extent.fits(),
    ensures
        r@.no_duplicates(),
        forall|k: ChunkKey| r@.contains(k) <==> extent.intersects_chunk(k),
{
    let mut out: Vec<ChunkKey> = Vec::new();
    if extent.is_empty() {
        return out;
    }
    let lo = chunk_key_for_point(extent.minimum);
    let hi = chunk_key_for_point(
        Point3i {
            x: extent.minimum.x + extent.shape.x - 1,
            y: extent.minimum.y + extent.shape.y - 1,
            z: extent.minimum.z + extent.shape.z - 1,
        },
    );
    proof {
        assert forall|k: ChunkKey| extent.intersects_chunk(k) <==> in_key_box(k, lo, hi) by {
            lemma_intersects_iff_in_box(*extent, k);
        }
        lemma_local_coord(extent.minimum.x as int);
        lemma_local_coord(extent.minimum.y as int);
        lemma_local_coord(extent.minimum.z as int);
        lemma_local_coord(extent.minimum.x + extent.shape.x - 1);
        lemma_local_coord(extent.minimum.y + extent.shape.y - 1);
        lemma_local_coord(extent.minimum.z + extent.shape.z - 1);
    }
    let mut x: i32 = lo.x;
    while x <= hi.x
        invariant
            lo.x <= x <= hi.x + 1,
            lo.y <= hi.y,
            lo.z <= hi.z,
            hi.x < PADDED_LIMIT / 16 && hi.y < PADDED_LIMIT / 16 && hi.z < PADDED_LIMIT / 16,
            out@.no_duplicates(),
            forall|k: ChunkKey|
                out@.contains(k) <==> (in_key_box(k, lo, hi) && k.x < x),
        decreases hi.x + 1 - x,
    {
        let mut y: i32 = lo.y;
        while y <= hi.y
            invariant
                lo.x <= x <= hi.x,
                lo.y <= y <= hi.y + 1,
                lo.z <= hi.z,
                hi.x < PADDED_LIMIT / 16 && hi.y < PADDED_LIMIT / 16 && hi.z < PADDED_LIMIT / 16,
                out@.no_duplicates(),
                forall|k: ChunkKey|
                    out@.contains(k) <==> (in_key_box(k, lo, hi) && key_lex_before(
                        k,
                        x as int,
                        y as int,
                        lo.z as int,
                    )),
            decreases hi.y + 1 - y,
        {
            let mut z: i32 = lo.z;
            while z <= hi.z
                invariant
                    lo.x <= x <= hi.x,
                    lo.y <= y <= hi.y,
                    lo.z <= z <= hi.z + 1,
                    hi.x < PADDED_LIMIT / 16 && hi.y < PADDED_LIMIT / 16 && hi.z < PADDED_LIMIT / 16,
                    out@.no_duplicates(),
                    forall|k: ChunkKey|
                        out@.contains(k) <==> (in_key_box(k, lo, hi) && key_lex_before(
                            k,
                            x as int,
                            y as int,
                            z as int,
                        )),
                decreases hi.z + 1 - z,
            {
                let k = ChunkKey { x, y, z };
                let ghost before = out@;
                assert(!before.contains(k));
                out.push(k);
                proof {
                    assert forall|j: ChunkKey|
                        out@.contains(j) <==> (in_key_box(j, lo, hi) && key_lex_before(
                            j,
                            x as int,
                            y as int,
                            z + 1,
                        )) by {
                        if j == k {
                            assert(out@[out@.len() - 1] == k);
                        } else {
                            if out@.contains(j) {
                                let n = choose|n: int| 0 <= n < out@.len() && out@[n] == j;
                                assert(before[n] == j);
                            }
                            if before.contains(j) {
                                let n = choose|n: int| 0 <= n < before.len() && before[n] == j;
                                assert(out@[n] == j);
                            }
                        }
                    }
                }
                z += 1;
            }
            y += 1;
        }
        x += 1;
    }
    out
}

/// The face neighbors of every chunk that intersects `e` intersect `e`
/// padded by one chunk edge.
pub proof fn lemma_face_neighbors_in_padding(e: Extent3i, k: ChunkKey, n: ChunkKey)
    requires
        e.wf(),
        e.intersects_chunk(k),
        is_face_neighbor(k, n),
    ensures
        e.padded_by_chunk().intersects_chunk(n),
{
    let p = e.padded_by_chunk();
    assert(p.minimum.x == e.minimum.x - 16 && p.shape.x == e.shape.x + 32);
    assert(p.minimum.y == e.minimum.y - 16 && p.shape.y == e.shape.y + 32);
    assert(p.minimum.z == e.minimum.z - 16 && p.shape.z == e.shape.z + 32);
}

} // verus!

verus! {

/// Whether `keys` holds `key`.
pub fn keys_contain(keys: &Vec<ChunkKey>, key: ChunkKey) -> (r: bool)
    ensures
        r == keys@.contains(key),
{
    let mut i: usize = 0;
    while i < keys.len()
        invariant
            i <= keys@.len(),
            forall|j: int| 0 <= j < i ==> keys@[j] != key,
        decreases keys@.len() - i,
    {
        if keys[i] == key {
            assert(keys@[i as int] == key);
            return true;
        }
        i += 1;
    }
    false
}

} // verus!

verus! {

/// Whether the points of chunk `key` lie within the padded limits.
pub fn key_in_bounds(key: ChunkKey) -> (r: bool)
    ensures
        r == key.in_bounds(),
{
    let lo: i64 = -(PADDED_LIMIT as i64);
    let hi: i64 = PADDED_LIMIT as i64;
    let x: i64 = 16 * key.x as i64;
    let y: i64 = 16 * key.y as i64;
    let z: i64 = 16 * key.z as i64;
    lo < x && x + 16 < hi && lo < y && y + 16 < hi && lo < z && z + 16 < hi
}

} // verus!
