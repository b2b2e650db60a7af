//! The double-buffered edit overlay: edits of a frame accumulate here, out
//! of place, and are merged into the chunk map at one point per frame, which
//! yields the frame's dirty chunk keys.
use vstd::prelude::*;
use crate::chunk_map::{chunk_content, chunks_sized, ChunkMap};
use crate::chunk_table::ChunkTable;
use crate::geometry::{
    chunk_keys_for_extent, is_face_neighbor, key_of, keys_contain, lemma_index_of_point,
    lemma_intersecting_chunk_in_bounds, lemma_local_coord, lemma_point_in_intersecting_chunk, local_index,
    point_in_chunk, point_of, ChunkKey, Extent3i, Point3i, CHUNK_VOLUME,
};
use crate::voxel::SdfVoxel;

verus! {

/// What chunk `k` reads through an overlay `ov` in front of map `m`.
pub open spec fn buffered_content(
    ov: Map<ChunkKey, Seq<SdfVoxel>>,
    m: Map<ChunkKey, Seq<SdfVoxel>>,
    k: ChunkKey,
) -> Seq<SdfVoxel> {
    if ov.contains_key(k) {
        ov[k]
    } else {
        chunk_content(m, k)
    }
}

/// What point `p` reads through an overlay `ov` in front of map `m`.
pub open spec fn buffered_voxel(
    ov: Map<ChunkKey, Seq<SdfVoxel>>,
    m: Map<ChunkKey, Seq<SdfVoxel>>,
    p: Point3i,
) -> SdfVoxel {
    buffered_content(ov, m, key_of(p))[local_index(p)]
}

/// Applies `f` to every voxel of `chunk` (the chunk under `key`) whose point
/// lies in `extent`; leaves the others as they are.
fn edit_chunk<F: Fn(Point3i, SdfVoxel) -> SdfVoxel>(
    chunk: &mut Vec<SdfVoxel>,
    key: ChunkKey,
    extent: &Extent3i,
    f: &F,
)
    requires
        old(chunk)@.len() == CHUNK_VOLUME,
        key.in_bounds(),
        extent.wf(),
        forall|p: Point3i, v: SdfVoxel| #[trigger] f.requires((p, v)),
    ensures
        final(chunk)@.len() == CHUNK_VOLUME,
        forall|j: int|
            0 <= j < CHUNK_VOLUME ==> if extent.contains_spec(point_of(key, j)) {
                f.ensures((point_of(key, j), old(chunk)@[j]), #[trigger] final(chunk)@[j])
            } else {
                final(chunk)@[j] == old(chunk)@[j]
            },
{
    let mut i: usize = 0;
    while i < CHUNK_VOLUME
        invariant
            chunk@.len() == CHUNK_VOLUME,
            key.in_bounds(),
            extent.wf(),
            forall|p: Point3i, v: SdfVoxel| #[trigger] f.requires((p, v)),
            forall|j: int|
                0 <= j < i ==> if extent.contains_spec(point_of(key, j)) {
                    f.ensures((point_of(key, j), old(chunk)@[j]), #[trigger] chunk@[j])
                } else {
                    chunk@[j] == old(chunk)@[j]
                },
            forall|j: int| i <= j < CHUNK_VOLUME ==> chunk@[j] == old(chunk)@[j],
        decreases CHUNK_VOLUME - i,
    {
        let p = point_in_chunk(key, i);
        if extent.contains(p) {
            let v = f(p, chunk[i]);
            chunk.set(i, v);
        }
        i += 1;
    }
}

/// The edit overlay of one frame, and the keys of chunks marked dirty
/// without a change of their own.
pub struct EditBuffer {
    overlay: ChunkTable,
    touched: Vec<ChunkKey>,
}

impl View for EditBuffer {
    type V = Map<ChunkKey, Seq<SdfVoxel>>;

    closed spec fn view(&self) -> Map<ChunkKey, Seq<SdfVoxel>> {
        self.overlay@
    }
}

impl EditBuffer {
    pub closed spec fn wf(&self) -> bool {
        &&& self.overlay.wf()
        &&& chunks_sized(self.overlay@)
        &&& self.touched@.no_duplicates()
    }

    /// Keys marked dirty besides those of the overlay.
    pub closed spec fn touched_keys(&self) -> Set<ChunkKey> {
        self.touched@.to_set()
    }

    /// The keys that merging this buffer reports dirty.
    pub open spec fn dirty_keys(&self) -> Set<ChunkKey> {
        self@.dom() + self.touched_keys()
    }

    pub fn new() -> (r: Self)
        ensures
            r.wf(),
            r@ == Map::<ChunkKey, Seq<SdfVoxel>>::empty(),
            r.touched_keys() == Set::<ChunkKey>::empty(),
    {
        let r = EditBuffer { overlay: ChunkTable::new(), touched: Vec::new() };
        proof {
            assert(r.touched@.to_set() =~= Set::<ChunkKey>::empty());
        }
        r
    }

    /// Whether the overlay holds a chunk under `key`.
    pub fn has_edit(&self, key: ChunkKey) -> (r: bool)
        requires
            self.wf(),
        ensures
            r == self@.contains_key(key),
    {
        self.overlay.contains(key)
    }

    /// A copy of what chunk `key` reads through this overlay in front of
    /// `map`.
    pub fn read_chunk(&self, map: &ChunkMap, key: ChunkKey) -> (r: Vec<SdfVoxel>)
        requires
            self.wf(),
            map.wf(),
        ensures
            r@ == buffered_content(self@, map@, key),
            r@.len() == CHUNK_VOLUME,
    {
        match self.overlay.get(key) {
            Some(v) => v,
            None => map.read_chunk(key),
        }
    }

    /// Whether merging this buffer would report `key` dirty.
    pub fn is_dirty(&self, key: ChunkKey) -> (r: bool)
        requires
            self.wf(),
        ensures
            r == self.dirty_keys().contains(key),
    {
        self.overlay.contains(key) || keys_contain(&self.touched, key)
    }

    /// Marks `key` dirty without changing its chunk.
    fn touch(&mut self, key: ChunkKey)
        requires
            old(self).wf(),
        ensures
            final(self).wf(),
            final(self)@ == old(self)@,
            final(self).touched_keys() == old(self).touched_keys().insert(key),
    {
        if !keys_contain(&self.touched, key) {
            let ghost before = self.touched@;
            self.touched.push(key);
            proof {
                assert(self.touched@.to_set() =~= before.to_set().insert(key)) by {
                    assert forall|k: ChunkKey| self.touched@.contains(k) <==> before.contains(k) || k == key by {
                        if self.touched@.contains(k) && k != key {
                            let n = choose|n: int| 0 <= n < self.touched@.len() && self.touched@[n] == k;
                            assert(before[n] == k);
                        }
                        if before.contains(k) {
                            let n = choose|n: int| 0 <= n < before.len() && before[n] == k;
                            assert(self.touched@[n] == k);
                        }
                        if k == key {
                            assert(self.touched@[before.len() as int] == key);
                        }
                    }
                }
            }
        } else {
            proof {
                assert(self.touched@.to_set() =~= self.touched@.to_set().insert(key));
            }
        }
    }

    /// Applies `f` to every voxel of `extent`, as read through this overlay
    /// in front of `map`, and holds the results in the overlay; the map is
    /// not changed.
    pub fn edit_extent<F: Fn(Point3i, SdfVoxel) -> SdfVoxel>(
        &mut self,
        map: &ChunkMap,
        extent: &Extent3i,
        f: F,
    )
        requires
            old(self).wf(),
            map.wf(),
            extent.wf(),
            forall|p: Point3i, v: SdfVoxel| #[trigger] f.requires((p, v)),
        ensures
            final(self).wf(),
            final(self).touched_keys() == old(self).touched_keys(),
            forall|k: ChunkKey|
                #[trigger] final(self)@.contains_key(k) <==> old(self)@.contains_key(k)
                    || extent.intersects_chunk(k),
            forall|p: Point3i|
                #[trigger] extent.contains_spec(p) ==> f.ensures(
                    (p, buffered_voxel(old(self)@, map@, p)),
                    buffered_voxel(final(self)@, map@, p),
                ),
            forall|p: Point3i|
                !extent.contains_spec(p) ==> #[trigger] buffered_voxel(final(self)@, map@, p)
                    == buffered_voxel(old(self)@, map@, p),
    {
        let keys = chunk_keys_for_extent(extent);
        proof {
            map.lemma_chunks_sized();
        }
        let mut n: usize = 0;
        while n < keys.len()
            invariant
                self.wf(),
                map.wf(),
                extent.wf(),
                chunks_sized(map@),
                forall|p: Point3i, v: SdfVoxel| #[trigger] f.requires((p, v)),
                keys@.no_duplicates(),
                forall|k: ChunkKey| keys@.contains(k) <==> extent.intersects_chunk(k),
                n <= keys@.len(),
                self.touched_keys() == old(self).touched_keys(),
                forall|k: ChunkKey|
                    #[trigger] self@.contains_key(k) <==> old(self)@.contains_key(k)
                        || keys@.subrange(0, n as int).contains(k),
                forall|k: ChunkKey|
                    !(#[trigger] keys@.subrange(0, n as int).contains(k)) ==> buffered_content(
                        self@,
                        map@,
                        k,
                    ) == buffered_content(old(self)@, map@, k),
                forall|k: ChunkKey, j: int|
                    #![trigger buffered_content(self@, map@, k)[j]]
                    keys@.subrange(0, n as int).contains(k) && 0 <= j < CHUNK_VOLUME ==> if extent.contains_spec(
                        point_of(k, j),
                    ) {
                        f.ensures(
                            (point_of(k, j), buffered_content(old(self)@, map@, k)[j]),
                            buffered_content(self@, map@, k)[j],
                        )
                    } else {
                        buffered_content(self@, map@, k)[j] == buffered_content(
                            old(self)@,
                            map@,
                            k,
                        )[j]
                    },
            decreases keys@.len() - n,
        {
            let key = keys[n];
            proof {
                assert(keys@.contains(key));
                assert(!keys@.subrange(0, n as int).contains(key)) by {
                    if keys@.subrange(0, n as int).contains(key) {
                        let m = choose|m: int| 0 <= m < n && keys@.subrange(0, n as int)[m] == key;
                        assert(keys@[m] == keys@[n as int]);
                    }
                }
            }
            let ghost before = self@;
            let mut chunk = match self.overlay.take(key) {
                Some(c) => c,
                None => map.read_chunk(key),
            };
            let ghost orig = chunk@;
            proof {
                lemma_intersecting_chunk_in_bounds(*extent, key);
            }
            assert(orig == buffered_content(old(self)@, map@, key));
            edit_chunk(&mut chunk, key, extent, &f);
            let ghost edited = chunk@;
            self.overlay.insert(key, chunk);
            proof {
                assert(buffered_content(self@, map@, key) == edited);
                assert forall|k: ChunkKey| k != key implies #[trigger] buffered_content(self@, map@, k)
                    == buffered_content(before, map@, k) by {}
                assert forall|k: ChunkKey, j: int|
                    #![trigger buffered_content(self@, map@, k)[j]]
                    (keys@.subrange(0, n as int).contains(k) || k == key) && 0 <= j < CHUNK_VOLUME
                        implies if extent.contains_spec(point_of(k, j)) {
                    f.ensures(
                        (point_of(k, j), buffered_content(old(self)@, map@, k)[j]),
                        buffered_content(self@, map@, k)[j],
                    )
                } else {
                    buffered_content(self@, map@, k)[j] == buffered_content(old(self)@, map@, k)[j]
                } by {
                    if k == key {
                        assert(edited[j] == buffered_content(self@, map@, k)[j]);
                    } else {
                        assert(buffered_content(self@, map@, k) == buffered_content(before, map@, k));
                    }
                }
                let done = keys@.subrange(0, n as int);
                let next = keys@.subrange(0, n as int + 1);
                assert forall|k: ChunkKey| #[trigger] next.contains(k) <==> done.contains(k) || k == key by {
                    if next.contains(k) {
                        let m = choose|m: int| 0 <= m < n + 1 && next[m] == k;
                        if m < n {
                            assert(done[m] == k);
                        }
                    }
                    if done.contains(k) {
                        let m = choose|m: int| 0 <= m < n && done[m] == k;
                        assert(next[m] == k);
                    }
                    if k == key {
                        assert(next[n as int] == k);
                    }
                }
                assert(chunks_sized(self.overlay@));
            }
            n += 1;
        }
        proof {
            assert(keys@.subrange(0, keys@.len() as int) =~= keys@);
            assert forall|p: Point3i| #[trigger] extent.contains_spec(p) implies f.ensures(
                (p, buffered_voxel(old(self)@, map@, p)),
                buffered_voxel(self@, map@, p),
            ) by {
                lemma_point_in_intersecting_chunk(*extent, p);
                lemma_index_of_point(p);
                let k = key_of(p);
                let j = local_index(p);
                assert(keys@.contains(k));
                assert(buffered_content(self@, map@, k)[j] == buffered_voxel(self@, map@, p));
            }
            assert forall|p: Point3i| !extent.contains_spec(p) implies #[trigger] buffered_voxel(
                self@,
                map@,
                p,
            ) == buffered_voxel(old(self)@, map@, p) by {
                let k = key_of(p);
                let j = local_index(p);
                if keys@.contains(k) {
                    lemma_intersecting_chunk_in_bounds(*extent, k);
                    lemma_local_coord(p.x as int);
                    lemma_local_coord(p.y as int);
                    lemma_local_coord(p.z as int);
                    lemma_index_of_point(p);
                    assert(buffered_content(self@, map@, k)[j] == buffered_voxel(self@, map@, p));
                }
            }
        }
    }

    /// Marks every key of `keys` dirty.
    fn touch_all(&mut self, keys: &Vec<ChunkKey>)
        requires
            old(self).wf(),
        ensures
            final(self).wf(),
            final(self)@ == old(self)@,
            final(self).touched_keys() == old(self).touched_keys() + keys@.to_set(),
    {
        let mut i: usize = 0;
        while i < keys.len()
            invariant
                self.wf(),
                self@ == old(self)@,
                i <= keys@.len(),
                self.touched_keys() == old(self).touched_keys() + keys@.subrange(0, i as int).to_set(),
            decreases keys@.len() - i,
        {
            let ghost before = self.touched_keys();
            self.touch(keys[i]);
            proof {
                assert(keys@.subrange(0, i as int + 1).to_set() =~= keys@.subrange(0, i as int).to_set().insert(
                    keys@[i as int],
                )) by {
                    let a = keys@.subrange(0, i as int);
                    let b = keys@.subrange(0, i as int + 1);
                    assert(b == a.push(keys@[i as int]));
                    assert forall|k: ChunkKey| b.contains(k) <==> a.contains(k) || k == keys@[i as int] by {
                        if b.contains(k) {
                            let m = choose|m: int| 0 <= m < b.len() && b[m] == k;
                            if m < a.len() {
                                assert(a[m] == k);
                            }
                        }
                        if a.contains(k) {
                            let m = choose|m: int| 0 <= m < a.len() && a[m] == k;
                            assert(b[m] == k);
                        }
                        if k == keys@[i as int] {
                            assert(b[i as int] == k);
                        }
                    }
                }
                assert(self.touched_keys() =~= old(self).touched_keys() + keys@.subrange(
                    0,
                    i as int + 1,
                ).to_set());
            }
            i += 1;
        }
        proof {
            assert(keys@.subrange(0, keys@.len() as int) =~= keys@);
        }
    }

    /// As [`EditBuffer::edit_extent`], and also marks dirty every chunk that
    /// `extent`, grown by one chunk on each side, intersects: among them the
    /// face neighbors of every chunk that the edit touched, whose meshes read
    /// across the shared face.
    pub fn edit_extent_and_touch_neighbors<F: Fn(Point3i, SdfVoxel) -> SdfVoxel>(
        &mut self,
        map: &ChunkMap,
        extent: &Extent3i,
        f: F,
    )
        requires
            old(self).wf(),
            map.wf(),
            extent.wf(),
            forall|p: Point3i, v: SdfVoxel| #[trigger] f.requires((p, v)),
        ensures
            final(self).wf(),
            forall|k: ChunkKey|
                #[trigger] final(self)@.contains_key(k) <==> old(self)@.contains_key(k)
                    || extent.intersects_chunk(k),
            forall|k: ChunkKey|
                #[trigger] final(self).dirty_keys().contains(k) <==> old(self).dirty_keys().contains(k)
                    || extent.padded_by_chunk().intersects_chunk(k),
            forall|p: Point3i|
                #[trigger] extent.contains_spec(p) ==> f.ensures(
                    (p, buffered_voxel(old(self)@, map@, p)),
                    buffered_voxel(final(self)@, map@, p),
                ),
            forall|p: Point3i|
                !extent.contains_spec(p) ==> #[trigger] buffered_voxel(final(self)@, map@, p)
                    == buffered_voxel(old(self)@, map@, p),
    {
        self.edit_extent(map, extent, f);
        let padded = extent.padded();
        let neighbors = chunk_keys_for_extent(&padded);
        self.touch_all(&neighbors);
        proof {
            assert forall|k: ChunkKey| extent.intersects_chunk(k) implies padded.intersects_chunk(k) by {}
        }
    }

    /// Holds `voxels` as the new content of chunk `key` and marks its face
    /// neighbors dirty.
    pub fn insert_chunk_and_touch_neighbors(&mut self, key: ChunkKey, voxels: Vec<SdfVoxel>)
        requires
            old(self).wf(),
            voxels@.len() == CHUNK_VOLUME,
            key.in_bounds(),
        ensures
            final(self).wf(),
            final(self)@ == old(self)@.insert(key, voxels@),
            final(self).touched_keys() == old(self).touched_keys() + key.face_neighbors(),
    {
        self.overlay.insert(key, voxels);
        let ghost t0 = self.touched_keys();
        self.touch(ChunkKey { x: key.x - 1, y: key.y, z: key.z });
        self.touch(ChunkKey { x: key.x + 1, y: key.y, z: key.z });
        self.touch(ChunkKey { x: key.x, y: key.y - 1, z: key.z });
        self.touch(ChunkKey { x: key.x, y: key.y + 1, z: key.z });
        self.touch(ChunkKey { x: key.x, y: key.y, z: key.z - 1 });
        self.touch(ChunkKey { x: key.x, y: key.y, z: key.z + 1 });
        proof {
            assert(self.touched_keys() =~= t0 + key.face_neighbors());
        }
    }

    /// Writes every chunk of the overlay into `map`, empties the buffer, and
    /// returns the dirty keys: those of the overlay and those touched, each
    /// once.
    pub fn merge_into(&mut self, map: &mut ChunkMap) -> (dirty: Vec<ChunkKey>)
        requires
            old(self).wf(),
            old(map).wf(),
        ensures
            final(map).wf(),
            final(map)@ == old(map)@.union_prefer_right(old(self)@),
            dirty@.no_duplicates(),
            forall|k: ChunkKey| #[trigger] dirty@.contains(k) <==> old(self).dirty_keys().contains(k),
            final(self).wf(),
            final(self)@ == Map::<ChunkKey, Seq<SdfVoxel>>::empty(),
            final(self).touched_keys() == Set::<ChunkKey>::empty(),
    {
        let ghost ov = self@;
        let mut dirty: Vec<ChunkKey> = Vec::new();
        loop
            invariant
                self.wf(),
                map.wf(),
                self.touched_keys() == old(self).touched_keys(),
                self.touched == old(self).touched,
                forall|k: ChunkKey| #[trigger] self@.contains_key(k) ==> ov.contains_key(k) && self@[k] == ov[k],
                forall|k: ChunkKey|
                    #[trigger] map@.contains_key(k) <==> old(map)@.contains_key(k) || (ov.contains_key(k)
                        && !self@.contains_key(k)),
                forall|k: ChunkKey|
                    #[trigger] map@.contains_key(k) ==> map@[k] == if ov.contains_key(k) && !self@.contains_key(k) {
                        ov[k]
                    } else {
                        old(map)@[k]
                    },
                dirty@.no_duplicates(),
                forall|k: ChunkKey|
                    #[trigger] dirty@.contains(k) <==> ov.contains_key(k) && !self@.contains_key(k),
            ensures
                self.wf(),
                map.wf(),
                self.touched_keys() == old(self).touched_keys(),
                self.touched == old(self).touched,
                self@ == Map::<ChunkKey, Seq<SdfVoxel>>::empty(),
                forall|k: ChunkKey|
                    #[trigger] map@.contains_key(k) <==> old(map)@.contains_key(k) || ov.contains_key(k),
                forall|k: ChunkKey|
                    #[trigger] map@.contains_key(k) ==> map@[k] == if ov.contains_key(k) {
                        ov[k]
                    } else {
                        old(map)@[k]
                    },
                dirty@.no_duplicates(),
                forall|k: ChunkKey| #[trigger] dirty@.contains(k) <==> ov.contains_key(k),
            decreases self.overlay.size(),
        {
            let ghost before = self@;
            let ghost dirty_before = dirty@;
            match self.overlay.pop() {
                Some((key, voxels)) => {
                    map.write_chunk(key, voxels);
                    dirty.push(key);
                    proof {
                        assert(!dirty_before.contains(key));
                        assert forall|k: ChunkKey| #[trigger] dirty@.contains(k) <==> dirty_before.contains(k) || k == key by {
                            if dirty@.contains(k) && k != key {
                                let n = choose|n: int| 0 <= n < dirty@.len() && dirty@[n] == k;
                                assert(dirty_before[n] == k);
                            }
                            if dirty_before.contains(k) {
                                let n = choose|n: int| 0 <= n < dirty_before.len() && dirty_before[n] == k;
                                assert(dirty@[n] == k);
                            }
                            if k == key {
                                assert(dirty@[dirty_before.len() as int] == key);
                            }
                        }
                    }
                },
                None => {
                    break;
                },
            }
        }
        proof {
            assert(map@ =~= old(map)@.union_prefer_right(ov));
        }
        let mut i: usize = 0;
        while i < self.touched.len()
            invariant
                self.wf(),
                i <= self.touched@.len(),
                self@ == Map::<ChunkKey, Seq<SdfVoxel>>::empty(),
                self.touched_keys() == old(self).touched_keys(),
                dirty@.no_duplicates(),
                forall|k: ChunkKey|
                    #[trigger] dirty@.contains(k) <==> ov.contains_key(k) || self.touched@.subrange(0, i as int).contains(k),
            decreases self.touched@.len() - i,
        {
            let k = self.touched[i];
            let ghost dirty_before = dirty@;
            if !keys_contain(&dirty, k) {
                dirty.push(k);
            }
            proof {
                let a = self.touched@.subrange(0, i as int);
                let b = self.touched@.subrange(0, i as int + 1);
                assert forall|j: ChunkKey| #[trigger] dirty@.contains(j) <==> ov.contains_key(j) || b.contains(j) by {
                    if b.contains(j) {
                        let m = choose|m: int| 0 <= m < b.len() && b[m] == j;
                        if m < a.len() {
                            assert(a[m] == j);
                        }
                    }
                    if a.contains(j) {
                        let m = choose|m: int| 0 <= m < a.len() && a[m] == j;
                        assert(b[m] == j);
                    }
                    assert(b[i as int] == k);
                    if dirty@.contains(j) && j != k {
                        let n = choose|n: int| 0 <= n < dirty@.len() && dirty@[n] == j;
                        assert(dirty_before[n] == j);
                    }
                    if dirty_before.contains(j) {
                        let n = choose|n: int| 0 <= n < dirty_before.len() && dirty_before[n] == j;
                        assert(dirty@[n] == j);
                    }
                    if j == k && !dirty_before.contains(k) {
                        assert(dirty@[dirty_before.len() as int] == k);
                    }
                }
            }
            i += 1;
        }
        proof {
            assert(self.touched@.subrange(0, self.touched@.len() as int) =~= self.touched@);
        }
        self.touched = Vec::new();
        proof {
            assert(self.touched@.to_set() =~= Set::<ChunkKey>::empty());
        }
        dirty
    }
}

/// After an edit of `extent` is merged, the dirty keys hold every chunk that
/// the extent intersects and every face neighbor of such a chunk.
pub proof fn lemma_dirty_set_complete(extent: Extent3i, k: ChunkKey, n: ChunkKey)
    requires
        extent.wf(),
        extent.intersects_chunk(k),
        is_face_neighbor(k, n),
    ensures
        extent.padded_by_chunk().intersects_chunk(k),
        extent.padded_by_chunk().intersects_chunk(n),
{
    crate::geometry::lemma_face_neighbors_in_padding(extent, k, n);
}

/// Removes from `map` every chunk queued as empty, except those that
/// `buffer` will write or mark dirty at this frame's merge.
pub fn reclaim_empty_chunks(map: &mut ChunkMap, queued: &Vec<ChunkKey>, buffer: &EditBuffer)
    requires
        old(map).wf(),
        buffer.wf(),
    ensures
        final(map).wf(),
        final(map)@ == old(map)@.remove_keys(queued@.to_set().difference(buffer.dirty_keys())),
{
    let mut i: usize = 0;
    while i < queued.len()
        invariant
            map.wf(),
            buffer.wf(),
            i <= queued@.len(),
            map@ == old(map)@.remove_keys(queued@.subrange(0, i as int).to_set().difference(
                buffer.dirty_keys(),
            )),
        decreases queued@.len() - i,
    {
        let k = queued[i];
        let ghost before = map@;
        if !buffer.is_dirty(k) {
            map.remove_chunk(k);
        }
        proof {
            let a = queued@.subrange(0, i as int);
            let b = queued@.subrange(0, i as int + 1);
            assert(b.to_set() =~= a.to_set().insert(k)) by {
                assert forall|j: ChunkKey| b.contains(j) <==> a.contains(j) || j == k by {
                    if b.contains(j) {
                        let m = choose|m: int| 0 <= m < b.len() && b[m] == j;
                        if m < a.len() {
                            assert(a[m] == j);
                        }
                    }
                    if a.contains(j) {
                        let m = choose|m: int| 0 <= m < a.len() && a[m] == j;
                        assert(b[m] == j);
                    }
                    assert(b[i as int] == k);
                }
            }
            assert(map@ =~= old(map)@.remove_keys(b.to_set().difference(buffer.dirty_keys())));
        }
        i += 1;
    }
    proof {
        assert(queued@.subrange(0, queued@.len() as int) =~= queued@);
    }
}

/// A chunk queued as empty that this frame's edits wrote is not reclaimed:
/// after reclamation and the merge, it holds the edit.
pub proof fn lemma_reclaim_keeps_edited(
    m: Map<ChunkKey, Seq<SdfVoxel>>,
    queued: Set<ChunkKey>,
    overlay: Map<ChunkKey, Seq<SdfVoxel>>,
    dirty: Set<ChunkKey>,
    k: ChunkKey,
)
    requires
        overlay.contains_key(k),
        overlay.dom().subset_of(dirty),
    ensures
        m.remove_keys(queued.difference(dirty)).union_prefer_right(overlay).contains_key(k),
        m.remove_keys(queued.difference(dirty)).union_prefer_right(overlay)[k] == overlay[k],
        !queued.difference(dirty).contains(k),
{
}

} // verus!
