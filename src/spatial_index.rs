//! The spatial index used for picking: for every chunk with an occupied
//! voxel, a two-level octree of it: which of its eight octants hold an
//! occupied voxel, and which voxels are occupied. Ray casts descend only into
//! occupied chunks and octants.
use vstd::prelude::*;
use crate::chunk_map::{chunk_content, voxel_at, ChunkMap};
use crate::geometry::{
    chunk_key_for_point, lemma_local_coord, local_index_of, ChunkKey, Point3i, CHUNK_VOLUME,
};
use crate::voxel::{SdfVoxel, SdfVoxelPalette};

verus! {

/// The octant (0 to 7) of index `j` of a chunk's array.
pub open spec fn octant_of(j: int) -> int {
    (j % 16) / 8 + 2 * (((j / 16) % 16) / 8) + 4 * ((j / 256) / 8)
}

/// Whether chunk voxels `c` hold a voxel of a non-empty type.
pub open spec fn chunk_occupied(pal: SdfVoxelPalette, c: Seq<SdfVoxel>) -> bool {
    exists|j: int| 0 <= j < c.len() && !pal.is_empty_type(#[trigger] c[j])
}

/// Which voxels of chunk voxels `c` are of a non-empty type.
pub open spec fn occupancy_of(pal: SdfVoxelPalette, c: Seq<SdfVoxel>) -> Seq<bool> {
    Seq::new(c.len(), |j: int| !pal.is_empty_type(c[j]))
}

/// For each octant, whether it holds a set bit of the voxel bits `bits`.
pub open spec fn octants_of_bits(bits: Seq<bool>) -> Seq<bool> {
    Seq::new(8, |o: int| exists|j: int| 0 <= j < bits.len() && octant_of(j) == o && #[trigger] bits[j])
}

proof fn lemma_octant_range(j: int)
    requires
        0 <= j < CHUNK_VOLUME,
    ensures
        0 <= octant_of(j) < 8,
{
    vstd::arithmetic::div_mod::lemma_mod_bound(j, 16);
    vstd::arithmetic::div_mod::lemma_mod_bound(j / 16, 16);
    vstd::arithmetic::div_mod::lemma_div_is_ordered(j, 4095, 256);
    vstd::arithmetic::div_mod::lemma_div_pos_is_pos(j, 16);
    vstd::arithmetic::div_mod::lemma_div_pos_is_pos(j, 256);
    vstd::arithmetic::div_mod::lemma_div_is_ordered(j % 16, 15, 8);
    vstd::arithmetic::div_mod::lemma_div_is_ordered((j / 16) % 16, 15, 8);
    vstd::arithmetic::div_mod::lemma_div_is_ordered(j / 256, 15, 8);
    vstd::arithmetic::div_mod::lemma_div_pos_is_pos(j % 16, 8);
    vstd::arithmetic::div_mod::lemma_div_pos_is_pos((j / 16) % 16, 8);
    vstd::arithmetic::div_mod::lemma_div_pos_is_pos(j / 256, 8);
}

fn octant_index(j: usize) -> (r: usize)
    requires
        j < CHUNK_VOLUME,
    ensures
        r == octant_of(j as int),
        r < 8,
{
    proof {
        lemma_octant_range(j as int);
    }
    (j % 16) / 8 + 2 * (((j / 16) % 16) / 8) + 4 * ((j / 256) / 8)
}

/// The octree of one chunk: which voxels are occupied, and which octants
/// hold an occupied voxel.
pub struct ChunkOctree {
    pub occupied: Vec<bool>,
    pub octants: Vec<bool>,
}

impl ChunkOctree {
    pub open spec fn wf(&self) -> bool {
        &&& self.occupied@.len() == CHUNK_VOLUME
        &&& self.octants@ == octants_of_bits(self.occupied@)
    }

    /// Whether any voxel is occupied.
    pub fn is_empty(&self) -> (r: bool)
        requires
            self.wf(),
        ensures
            r == !(exists|j: int| 0 <= j < CHUNK_VOLUME && #[trigger] self.occupied@[j]),
    {
        let r = !(self.octants[0] || self.octants[1] || self.octants[2] || self.octants[3]
            || self.octants[4] || self.octants[5] || self.octants[6] || self.octants[7]);
        proof {
            if exists|j: int| 0 <= j < CHUNK_VOLUME && #[trigger] self.occupied@[j] {
                let j = choose|j: int| 0 <= j < CHUNK_VOLUME && #[trigger] self.occupied@[j];
                lemma_octant_range(j);
                assert(self.octants@[octant_of(j)]);
            }
            if !r {
                let o = choose|o: int| 0 <= o < 8 && self.octants@[o];
                assert(octants_of_bits(self.occupied@)[o]);
            }
        }
        r
    }
}

/// The octree of a chunk: its occupied voxels and octants.
pub fn octree_for_chunk(palette: &SdfVoxelPalette, voxels: &Vec<SdfVoxel>) -> (r: ChunkOctree)
    requires
        voxels@.len() == CHUNK_VOLUME,
    ensures
        r.wf(),
        r.occupied@ == occupancy_of(*palette, voxels@),
{
    let mut bits: Vec<bool> = Vec::new();
    let mut occ: Vec<bool> = vec![false; 8];
    let mut j: usize = 0;
    while j < CHUNK_VOLUME
        invariant
            voxels@.len() == CHUNK_VOLUME,
            j <= CHUNK_VOLUME,
            occ@.len() == 8,
            bits@ == occupancy_of(*palette, voxels@).subrange(0, j as int),
            forall|o: int|
                0 <= o < 8 ==> #[trigger] occ@[o] == exists|i: int|
                    0 <= i < j && octant_of(i) == o && #[trigger] bits@[i],
        decreases CHUNK_VOLUME - j,
    {
        let o = octant_index(j);
        let b = !palette.is_empty(voxels[j]);
        let ghost before = bits@;
        bits.push(b);
        if b {
            occ.set(o, true);
        }
        proof {
            assert(bits@ =~= occupancy_of(*palette, voxels@).subrange(0, j + 1));
            assert forall|q: int| 0 <= q < 8 implies #[trigger] occ@[q] == exists|i: int|
                0 <= i < j + 1 && octant_of(i) == q && #[trigger] bits@[i] by {
                if exists|i: int| 0 <= i < j && octant_of(i) == q && #[trigger] before[i] {
                    let i = choose|i: int| 0 <= i < j && octant_of(i) == q && #[trigger] before[i];
                    assert(bits@[i]);
                }
                if exists|i: int| 0 <= i < j + 1 && octant_of(i) == q && #[trigger] bits@[i] {
                    let i = choose|i: int| 0 <= i < j + 1 && octant_of(i) == q && #[trigger] bits@[i];
                    if i < j {
                        assert(before[i]);
                    }
                }
                if occ@[q] && !(exists|i: int| 0 <= i < j && octant_of(i) == q && #[trigger] before[i]) {
                    assert(octant_of(j as int) == q && bits@[j as int]);
                }
            }
        }
        j += 1;
    }
    proof {
        assert(bits@ =~= occupancy_of(*palette, voxels@));
        assert(occ@ =~= octants_of_bits(bits@));
    }
    ChunkOctree { occupied: bits, octants: occ }
}

/// The octree of each chunk of `keys`, in order, as `map` reads it.
pub fn generate_octree_for_each_chunk(
    map: &ChunkMap,
    palette: &SdfVoxelPalette,
    keys: &Vec<ChunkKey>,
) -> (r: Vec<(ChunkKey, ChunkOctree)>)
    requires
        map.wf(),
    ensures
        r@.len() == keys@.len(),
        forall|i: int|
            0 <= i < r@.len() ==> {
                let (k, t) = #[trigger] r@[i];
                &&& k == keys@[i]
                &&& t.wf()
                &&& t.occupied@ == occupancy_of(*palette, chunk_content(map@, k))
            },
{
    let mut out: Vec<(ChunkKey, ChunkOctree)> = Vec::new();
    let mut i: usize = 0;
    while i < keys.len()
        invariant
            map.wf(),
            i <= keys@.len(),
            out@.len() == i,
            forall|j: int|
                0 <= j < i ==> {
                    let (k, t) = #[trigger] out@[j];
                    &&& k == keys@[j]
                    &&& t.wf()
                    &&& t.occupied@ == occupancy_of(*palette, chunk_content(map@, k))
                },
        decreases keys@.len() - i,
    {
        let k = keys[i];
        let voxels = map.read_chunk(k);
        let t = octree_for_chunk(palette, &voxels);
        out.push((k, t));
        i += 1;
    }
    out
}

/// A chunk is occupied exactly when its octree has an occupied voxel.
pub proof fn lemma_occupied_iff_some_bit(pal: SdfVoxelPalette, c: Seq<SdfVoxel>)
    ensures
        chunk_occupied(pal, c) <==> exists|j: int| 0 <= j < c.len() && #[trigger] occupancy_of(pal, c)[j],
{
    if chunk_occupied(pal, c) {
        let j = choose|j: int| 0 <= j < c.len() && !pal.is_empty_type(#[trigger] c[j]);
        assert(occupancy_of(pal, c)[j]);
    }
    if exists|j: int| 0 <= j < c.len() && #[trigger] occupancy_of(pal, c)[j] {
        let j = choose|j: int| 0 <= j < c.len() && #[trigger] occupancy_of(pal, c)[j];
        assert(!pal.is_empty_type(c[j]));
    }
}

struct IndexEntry {
    key: ChunkKey,
    tree: ChunkOctree,
}

/// The index: its view maps each occupied chunk's key to which of its
/// voxels are occupied.
pub struct VoxelBVT {
    entries: Vec<IndexEntry>,
    contents: Ghost<Map<ChunkKey, Seq<bool>>>,
}

impl View for VoxelBVT {
    type V = Map<ChunkKey, Seq<bool>>;

    closed spec fn view(&self) -> Map<ChunkKey, Seq<bool>> {
        self.contents@
    }
}

/// Whether `index` records exactly the occupied chunks of `m`, each with
/// which of its voxels are occupied.
pub open spec fn index_consistent(
    index: Map<ChunkKey, Seq<bool>>,
    m: Map<ChunkKey, Seq<SdfVoxel>>,
    pal: SdfVoxelPalette,
) -> bool {
    forall|k: ChunkKey|
        #[trigger] index.contains_key(k) == chunk_occupied(pal, chunk_content(m, k)) && (
        index.contains_key(k) ==> index[k] == occupancy_of(pal, chunk_content(m, k)))
}

impl VoxelBVT {
    pub closed spec fn wf(&self) -> bool {
        &&& forall|i: int, j: int|
            0 <= i < j < self.entries@.len() ==> self.entries@[i].key != self.entries@[j].key
        &&& forall|i: int|
            0 <= i < self.entries@.len() ==> {
                let e = #[trigger] self.entries@[i];
                &&& self.contents@.contains_key(e.key)
                &&& self.contents@[e.key] == e.tree.occupied@
                &&& e.tree.wf()
            }
        &&& forall|k: ChunkKey|
            self.contents@.contains_key(k) ==> exists|i: int|
                0 <= i < self.entries@.len() && self.entries@[i].key == k
        &&& forall|k: ChunkKey| #[trigger] self.contents@.contains_key(k) ==> self.contents@[k].len() == CHUNK_VOLUME
    }

    pub fn new() -> (r: Self)
        ensures
            r.wf(),
            r@ == Map::<ChunkKey, Seq<bool>>::empty(),
    {
        VoxelBVT { entries: Vec::new(), contents: Ghost(Map::empty()) }
    }

    fn find(&self, key: ChunkKey) -> (r: Option<usize>)
        requires
            self.wf(),
        ensures
            match r {
                Some(i) => i < self.entries@.len() && self.entries@[i as int].key == key,
                None => !self@.contains_key(key),
            },
    {
        let mut i: usize = 0;
        while i < self.entries.len()
            invariant
                i <= self.entries@.len(),
                forall|j: int| 0 <= j < i ==> self.entries@[j].key != key,
            decreases self.entries@.len() - i,
        {
            if self.entries[i].key == key {
                return Some(i);
            }
            i += 1;
        }
        None
    }

    /// The octree recorded for `key`, if the chunk is indexed.
    pub fn get(&self, key: ChunkKey) -> (r: Option<&ChunkOctree>)
        requires
            self.wf(),
        ensures
            r.is_some() == self@.contains_key(key),
            r.is_some() ==> r.unwrap().wf() && r.unwrap().occupied@ == self@[key],
    {
        match self.find(key) {
            Some(i) => {
                proof {
                    let e = self.entries@[i as int];
                    assert(self.contents@.contains_key(e.key));
                }
                Some(&self.entries[i].tree)
            },
            None => None,
        }
    }

    /// Records `tree` for `key`, replacing any prior entry.
    pub fn insert(&mut self, key: ChunkKey, tree: ChunkOctree)
        requires
            old(self).wf(),
            tree.wf(),
        ensures
            final(self).wf(),
            final(self)@ == old(self)@.insert(key, tree.occupied@),
    {
        let ghost old_entries = self.entries@;
        let ghost new_contents = self.contents@.insert(key, tree.occupied@);
        match self.find(key) {
            Some(i) => {
                self.entries.set(i, IndexEntry { key, tree });
                self.contents = Ghost(new_contents);
                proof {
                    assert forall|k: ChunkKey| self.contents@.contains_key(k) implies exists|j: int|
                        0 <= j < self.entries@.len() && self.entries@[j].key == k by {
                        if k == key {
                            assert(self.entries@[i as int].key == k);
                        } else {
                            let j = choose|j: int| 0 <= j < old_entries.len() && old_entries[j].key == k;
                            assert(self.entries@[j].key == k);
                        }
                    }
                }
            },
            None => {
                self.entries.push(IndexEntry { key, tree });
                self.contents = Ghost(new_contents);
                proof {
                    assert forall|k: ChunkKey| self.contents@.contains_key(k) implies exists|j: int|
                        0 <= j < self.entries@.len() && self.entries@[j].key == k by {
                        if k == key {
                            assert(self.entries@[old_entries.len() as int].key == k);
                        } else {
                            let j = choose|j: int| 0 <= j < old_entries.len() && old_entries[j].key == k;
                            assert(self.entries@[j].key == k);
                        }
                    }
                }
            },
        }
    }

    /// Drops the entry for `key`, if any.
    pub fn remove(&mut self, key: ChunkKey)
        requires
            old(self).wf(),
        ensures
            final(self).wf(),
            final(self)@ == old(self)@.remove(key),
    {
        let ghost old_entries = self.entries@;
        match self.find(key) {
            Some(i) => {
                self.entries.remove(i);
                self.contents = Ghost(self.contents@.remove(key));
                proof {
                    old_entries.remove_ensures(i as int);
                    assert forall|k: ChunkKey| self.contents@.contains_key(k) implies exists|j: int|
                        0 <= j < self.entries@.len() && self.entries@[j].key == k by {
                        let j = choose|j: int| 0 <= j < old_entries.len() && old_entries[j].key == k;
                        assert(j != i);
                        if j < i {
                            assert(self.entries@[j].key == k);
                        } else {
                            assert(self.entries@[j - 1].key == k);
                        }
                    }
                }
            },
            None => {
                proof {
                    assert(self.contents@.remove(key) =~= self.contents@);
                }
            },
        }
    }

    /// Rebuilds the entries of the `dirty` chunks from what `map` reads:
    /// an occupied chunk gets its octant occupancy, an unoccupied one is
    /// dropped. Other entries stay as they were. Returns the dirty keys whose
    /// chunks turned out unoccupied, to be queued for reclamation.
    pub fn update_chunks(&mut self, map: &ChunkMap, palette: &SdfVoxelPalette, dirty: &Vec<ChunkKey>) -> (empty: Vec<ChunkKey>)
        requires
            old(self).wf(),
            map.wf(),
        ensures
            final(self).wf(),
            forall|k: ChunkKey|
                #[trigger] empty@.contains(k) <==> dirty@.contains(k) && !chunk_occupied(
                    *palette,
                    chunk_content(map@, k),
                ),
            forall|k: ChunkKey|
                #[trigger] final(self)@.contains_key(k) == if dirty@.contains(k) {
                    chunk_occupied(*palette, chunk_content(map@, k))
                } else {
                    old(self)@.contains_key(k)
                },
            forall|k: ChunkKey|
                #[trigger] final(self)@.contains_key(k) ==> final(self)@[k] == if dirty@.contains(k) {
                    occupancy_of(*palette, chunk_content(map@, k))
                } else {
                    old(self)@[k]
                },
    {
        let mut trees = generate_octree_for_each_chunk(map, palette, dirty);
        let ghost old_trees = trees@;
        let mut empty: Vec<ChunkKey> = Vec::new();
        let mut i: usize = 0;
        while i < dirty.len()
            invariant
                self.wf(),
                map.wf(),
                i <= dirty@.len(),
                old_trees.len() == dirty@.len(),
                trees@.len() == dirty@.len(),
                forall|j: int| i <= j < trees@.len() ==> trees@[j] == old_trees[j],
                forall|j: int|
                    0 <= j < old_trees.len() ==> {
                        let (kk, t) = #[trigger] old_trees[j];
                        &&& kk == dirty@[j]
                        &&& t.wf()
                        &&& t.occupied@ == occupancy_of(*palette, chunk_content(map@, kk))
                    },
                forall|k: ChunkKey|
                    #[trigger] empty@.contains(k) <==> dirty@.subrange(0, i as int).contains(k)
                        && !chunk_occupied(*palette, chunk_content(map@, k)),
                forall|k: ChunkKey|
                    #[trigger] self@.contains_key(k) == if dirty@.subrange(0, i as int).contains(k) {
                        chunk_occupied(*palette, chunk_content(map@, k))
                    } else {
                        old(self)@.contains_key(k)
                    },
                forall|k: ChunkKey|
                    #[trigger] self@.contains_key(k) ==> self@[k] == if dirty@.subrange(0, i as int).contains(k) {
                        occupancy_of(*palette, chunk_content(map@, k))
                    } else {
                        old(self)@[k]
                    },
            decreases dirty@.len() - i,
        {
            let k = dirty[i];
            let mut slot = (k, ChunkOctree { occupied: Vec::new(), octants: Vec::new() });
            trees.set_and_swap(i, &mut slot);
            let t = slot.1;
            proof {
                let (kk, tt) = old_trees[i as int];
                assert(kk == k && t == tt);
                map.lemma_chunks_sized();
                lemma_occupied_iff_some_bit(*palette, chunk_content(map@, k));
            }
            let occupied = !t.is_empty();
            let ghost empty_before = empty@;
            if occupied {
                self.insert(k, t);
            } else {
                self.remove(k);
                empty.push(k);
            }
            proof {
                assert forall|j: ChunkKey| #[trigger] empty@.contains(j) <==> empty_before.contains(j)
                    || (j == k && !occupied) by {
                    if empty@.contains(j) && !empty_before.contains(j) {
                        let m = choose|m: int| 0 <= m < empty@.len() && empty@[m] == j;
                        assert(m == empty_before.len());
                    }
                    if empty_before.contains(j) {
                        let m = choose|m: int| 0 <= m < empty_before.len() && empty_before[m] == j;
                        assert(empty@[m] == j);
                    }
                    if j == k && !occupied {
                        assert(empty@[empty_before.len() as int] == j);
                    }
                }
                let a = dirty@.subrange(0, i as int);
                let b = dirty@.subrange(0, i as int + 1);
                assert forall|j: ChunkKey| #[trigger] b.contains(j) <==> a.contains(j) || j == k by {
                    if b.contains(j) {
                        let m = choose|m: int| 0 <= m < b.len() && b[m] == j;
                        if m < a.len() {
                            assert(a[m] == j);
                        }
                    }
                    if a.contains(j) {
                        let m = choose|m: int| 0 <= m < a.len() && a[m] == j;
                        assert(b[m] == j);
                    }
                    assert(b[i as int] == k);
                }
            }
            i += 1;
        }
        proof {
            assert(dirty@.subrange(0, dirty@.len() as int) =~= dirty@);
        }
        empty
    }

    /// The index of the first point of `path` whose voxel the index records
    /// as occupied, skipping chunks and octants without one; `None` when
    /// there is none. With an index consistent with `map`, that is the first
    /// point whose voxel is of a non-empty type.
    pub fn cast_ray(&self, map: &ChunkMap, palette: &SdfVoxelPalette, path: &Vec<Point3i>) -> (r: Option<usize>)
        requires
            self.wf(),
            map.wf(),
        ensures
            index_consistent(self@, map@, *palette) ==> r == first_hit(map@, *palette, path@),
    {
        let mut i: usize = 0;
        while i < path.len()
            invariant
                self.wf(),
                map.wf(),
                i <= path@.len(),
                index_consistent(self@, map@, *palette) ==> forall|j: int|
                    0 <= j < i ==> palette.is_empty_type(#[trigger] voxel_at(map@, path@[j])),
            decreases path@.len() - i,
        {
            let p = path[i];
            let key = chunk_key_for_point(p);
            let li = local_index_of(p);
            let o = octant_index(li);
            proof {
                lemma_local_coord(p.x as int);
                lemma_local_coord(p.y as int);
                lemma_local_coord(p.z as int);
            }
            match self.get(key) {
                Some(tree) => {
                    proof {
                        map.lemma_chunks_sized();
                    }
                    if tree.octants[o] && tree.occupied[li] {
                        proof {
                            if index_consistent(self@, map@, *palette) {
                                assert(occupancy_of(*palette, chunk_content(map@, key))[li as int]);
                                assert(voxel_at(map@, p) == chunk_content(map@, key)[li as int]);
                                assert(!palette.is_empty_type(voxel_at(map@, path@[i as int])));
                                assert(forall|j: int|
                                    0 <= j < i ==> palette.is_empty_type(#[trigger] voxel_at(map@, path@[j])));
                            }
                        }
                        return Some(i);
                    }
                    proof {
                        if index_consistent(self@, map@, *palette) {
                            if !palette.is_empty_type(voxel_at(map@, p)) {
                                assert(tree.occupied@[li as int]);
                                assert(octants_of_bits(tree.occupied@)[o as int]);
                            }
                        }
                    }
                },
                None => {
                    proof {
                        if index_consistent(self@, map@, *palette) {
                            assert(!self@.contains_key(key));
                            if !palette.is_empty_type(voxel_at(map@, p)) {
                                map.lemma_chunks_sized();
                                assert(chunk_occupied(*palette, chunk_content(map@, key)));
                            }
                        }
                    }
                },
            }
            i += 1;
        }
        None
    }
}

/// The index of the first point of `path` whose voxel in `m` is of a
/// non-empty type, if any.
pub open spec fn first_hit(m: Map<ChunkKey, Seq<SdfVoxel>>, pal: SdfVoxelPalette, path: Seq<Point3i>) -> Option<usize> {
    if exists|i: int| 0 <= i < path.len() && !pal.is_empty_type(#[trigger] voxel_at(m, path[i])) {
        let i = choose|i: int|
            0 <= i < path.len() && !pal.is_empty_type(#[trigger] voxel_at(m, path[i])) && forall|j: int|
                0 <= j < i ==> pal.is_empty_type(#[trigger] voxel_at(m, path[j]));
        Some(i as usize)
    } else {
        None
    }
}

/// Rebuilding the entries of the dirty chunks after a merge keeps the index
/// consistent with the map: `idx1` is what `update_chunks` makes of an index
/// `idx0` consistent with `m0`, for a map `m1` that reads as `m0` outside the
/// dirty keys.
pub proof fn lemma_index_consistent_after_update(
    idx0: Map<ChunkKey, Seq<bool>>,
    idx1: Map<ChunkKey, Seq<bool>>,
    m0: Map<ChunkKey, Seq<SdfVoxel>>,
    m1: Map<ChunkKey, Seq<SdfVoxel>>,
    pal: SdfVoxelPalette,
    dirty: Set<ChunkKey>,
)
    requires
        index_consistent(idx0, m0, pal),
        forall|k: ChunkKey| !dirty.contains(k) ==> #[trigger] chunk_content(m1, k) == chunk_content(m0, k),
        forall|k: ChunkKey|
            #[trigger] idx1.contains_key(k) == if dirty.contains(k) {
                chunk_occupied(pal, chunk_content(m1, k))
            } else {
                idx0.contains_key(k)
            },
        forall|k: ChunkKey|
            #[trigger] idx1.contains_key(k) ==> idx1[k] == if dirty.contains(k) {
                occupancy_of(pal, chunk_content(m1, k))
            } else {
                idx0[k]
            },
    ensures
        index_consistent(idx1, m1, pal),
{
    assert forall|k: ChunkKey| #[trigger] idx1.contains_key(k) == chunk_occupied(pal, chunk_content(m1, k))
        && (idx1.contains_key(k) ==> idx1[k] == occupancy_of(pal, chunk_content(m1, k))) by {
        if !dirty.contains(k) {
            assert(idx0.contains_key(k) == chunk_occupied(pal, chunk_content(m0, k)));
        }
    }
}

/// The ambient chunk holds no occupied voxel.
pub proof fn lemma_ambient_unoccupied(pal: SdfVoxelPalette)
    requires
        pal.wf(),
    ensures
        !chunk_occupied(pal, crate::chunk_map::ambient_chunk()),
{
    let c = crate::chunk_map::ambient_chunk();
    if chunk_occupied(pal, c) {
        let j = choose|j: int| 0 <= j < c.len() && !pal.is_empty_type(#[trigger] c[j]);
        assert(c[j] == crate::voxel::empty_voxel());
    }
}

/// Reclaiming chunks that hold only empty-type voxels keeps the index
/// consistent: they read as the ambient chunk afterwards, which is empty too.
pub proof fn lemma_reclaim_keeps_index_consistent(
    idx: Map<ChunkKey, Seq<bool>>,
    m: Map<ChunkKey, Seq<SdfVoxel>>,
    pal: SdfVoxelPalette,
    reclaimed: Set<ChunkKey>,
)
    requires
        pal.wf(),
        index_consistent(idx, m, pal),
        forall|k: ChunkKey| #[trigger] reclaimed.contains(k) ==> !chunk_occupied(pal, chunk_content(m, k)),
    ensures
        index_consistent(idx, m.remove_keys(reclaimed), pal),
{
    let m1 = m.remove_keys(reclaimed);
    assert forall|k: ChunkKey| #[trigger] idx.contains_key(k) == chunk_occupied(pal, chunk_content(m1, k))
        && (idx.contains_key(k) ==> idx[k] == occupancy_of(pal, chunk_content(m1, k))) by {
        if reclaimed.contains(k) {
            assert(!chunk_occupied(pal, chunk_content(m, k)));
            assert(chunk_content(m1, k) == crate::chunk_map::ambient_chunk());
            assert(!chunk_occupied(pal, chunk_content(m1, k))) by {
                if chunk_occupied(pal, chunk_content(m1, k)) {
                    let j = choose|j: int|
                        0 <= j < chunk_content(m1, k).len() && !pal.is_empty_type(#[trigger] chunk_content(m1, k)[j]);
                    assert(chunk_content(m1, k)[j] == crate::voxel::empty_voxel());
                }
            }
        } else {
            assert(chunk_content(m1, k) == chunk_content(m, k));
        }
    }
}

} // verus!
