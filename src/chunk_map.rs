//! The authoritative sparse map from chunk keys to chunks, each held either
//! decompressed or as a compressed blob, with a least-recently-used order of
//! the decompressed ones; and the per-worker read caches in front of it.
use vstd::prelude::*;
use crate::compression::{blob_is_valid, compress, decode_runs, decompress};
use crate::geometry::{
    keys_contain, chunk_key_for_point, key_of, local_index, local_index_of, ChunkKey, Point3i, CHUNK_VOLUME,
};
use crate::chunk_table::ChunkTable;
use crate::voxel::{empty_voxel, SdfVoxel, SdfVoxelPalette};

verus! {

/// The voxels of a chunk that holds only ambient voxels.
pub open spec fn ambient_chunk() -> Seq<SdfVoxel> {
    Seq::new(CHUNK_VOLUME as nat, |_i: int| empty_voxel())
}

/// What a map reads at chunk `k`: its stored voxels, or the ambient chunk
/// where nothing is stored.
pub open spec fn chunk_content(m: Map<ChunkKey, Seq<SdfVoxel>>, k: ChunkKey) -> Seq<SdfVoxel> {
    if m.contains_key(k) {
        m[k]
    } else {
        ambient_chunk()
    }
}

/// What a map reads at point `p`.
pub open spec fn voxel_at(m: Map<ChunkKey, Seq<SdfVoxel>>, p: Point3i) -> SdfVoxel {
    chunk_content(m, key_of(p))[local_index(p)]
}

/// A key that was never written reads as ambient: every voxel is of the
/// palette's empty type zero, with the largest representable distance.
pub proof fn lemma_unwritten_reads_ambient(m: Map<ChunkKey, Seq<SdfVoxel>>, k: ChunkKey, pal: SdfVoxelPalette)
    requires
        !m.contains_key(k),
        pal.wf(),
    ensures
        chunk_content(m, k).len() == CHUNK_VOLUME,
        forall|j: int|
            0 <= j < CHUNK_VOLUME ==> {
                let v = #[trigger] chunk_content(m, k)[j];
                &&& v.voxel_type.0 == 0
                &&& pal.is_empty_type(v)
                &&& v.distance.0 == i8::MAX
            },
{
}

/// Whether two maps read the same everywhere.
pub open spec fn same_content(
    m1: Map<ChunkKey, Seq<SdfVoxel>>,
    m2: Map<ChunkKey, Seq<SdfVoxel>>,
) -> bool {
    forall|k: ChunkKey| #[trigger] chunk_content(m1, k) == chunk_content(m2, k)
}

/// Whether every stored chunk of `m` has the size of a chunk.
pub open spec fn chunks_sized(m: Map<ChunkKey, Seq<SdfVoxel>>) -> bool {
    forall|k: ChunkKey| m.contains_key(k) ==> (#[trigger] m[k]).len() == CHUNK_VOLUME
}

/// A new vector of the ambient chunk's voxels.
pub fn ambient_chunk_voxels() -> (r: Vec<SdfVoxel>)
    ensures
        r@ == ambient_chunk(),
{
    let mut v: Vec<SdfVoxel> = Vec::new();
    let mut i: usize = 0;
    while i < CHUNK_VOLUME
        invariant
            i <= CHUNK_VOLUME,
            v@ == Seq::new(i as nat, |_j: int| empty_voxel()),
        decreases CHUNK_VOLUME - i,
    {
        v.push(SdfVoxel::empty());
        i += 1;
        proof {
            assert(v@ =~= Seq::new(i as nat, |_j: int| empty_voxel()));
        }
    }
    v
}

/// A copy of `v`.
pub fn copy_voxels(v: &Vec<SdfVoxel>) -> (r: Vec<SdfVoxel>)
    ensures
        r@ == v@,
{
    let mut out: Vec<SdfVoxel> = Vec::new();
    let mut i: usize = 0;
    while i < v.len()
        invariant
            i <= v@.len(),
            out@ == v@.subrange(0, i as int),
        decreases v@.len() - i,
    {
        out.push(v[i]);
        i += 1;
        proof {
            assert(out@ =~= v@.subrange(0, i as int));
        }
    }
    proof {
        assert(v@.subrange(0, v@.len() as int) =~= v@);
    }
    out
}

/// A chunk in one of its two representations.
pub enum ChunkData {
    Decompressed(Vec<SdfVoxel>),
    Compressed(Vec<u8>),
}

impl ChunkData {
    pub open spec fn voxels(&self) -> Seq<SdfVoxel> {
        match self {
            ChunkData::Decompressed(v) => v@,
            ChunkData::Compressed(b) => decode_runs(b@),
        }
    }

    pub open spec fn wf(&self) -> bool {
        match self {
            ChunkData::Decompressed(v) => v@.len() == CHUNK_VOLUME,
            ChunkData::Compressed(b) => blob_is_valid(b@),
        }
    }

    pub open spec fn is_decompressed(&self) -> bool {
        self is Decompressed
    }
}

struct StoredChunk {
    key: ChunkKey,
    data: ChunkData,
}

spec fn stored_in(s: Seq<StoredChunk>, k: ChunkKey, i: int) -> bool {
    0 <= i < s.len() && s[i].key == k
}

spec fn decompressed_in(s: Seq<StoredChunk>, k: ChunkKey) -> bool {
    exists|i: int| 0 <= i < s.len() && s[i].key == k && s[i].data.is_decompressed()
}

/// Replacing entry `i` keeps which other keys are held decompressed.
proof fn lemma_decompressed_update(s: Seq<StoredChunk>, i: int, e: StoredChunk, k: ChunkKey)
    requires
        0 <= i < s.len(),
        k != e.key,
        k != s[i].key,
    ensures
        decompressed_in(s.update(i, e), k) == decompressed_in(s, k),
{
    let t = s.update(i, e);
    if decompressed_in(s, k) {
        let j = choose|j: int| 0 <= j < s.len() && s[j].key == k && s[j].data.is_decompressed();
        assert(t[j] == s[j]);
    }
    if decompressed_in(t, k) {
        let j = choose|j: int| 0 <= j < t.len() && t[j].key == k && t[j].data.is_decompressed();
        assert(t[j] == s[j]);
    }
}

/// Appending an entry keeps which other keys are held decompressed.
proof fn lemma_decompressed_push(s: Seq<StoredChunk>, e: StoredChunk, k: ChunkKey)
    requires
        k != e.key,
    ensures
        decompressed_in(s.push(e), k) == decompressed_in(s, k),
{
    let t = s.push(e);
    if decompressed_in(s, k) {
        let j = choose|j: int| 0 <= j < s.len() && s[j].key == k && s[j].data.is_decompressed();
        assert(t[j] == s[j]);
    }
    if decompressed_in(t, k) {
        let j = choose|j: int| 0 <= j < t.len() && t[j].key == k && t[j].data.is_decompressed();
        assert(j < s.len());
        assert(t[j] == s[j]);
    }
}

/// The sparse chunk map. Its view maps each stored key to the chunk's
/// voxels, whatever representation holds them.
pub struct ChunkMap {
    entries: Vec<StoredChunk>,
    lru: Vec<ChunkKey>,
    contents: Ghost<Map<ChunkKey, Seq<SdfVoxel>>>,
}

impl View for ChunkMap {
    type V = Map<ChunkKey, Seq<SdfVoxel>>;

    closed spec fn view(&self) -> Map<ChunkKey, Seq<SdfVoxel>> {
        self.contents@
    }
}

impl ChunkMap {
    /// The keys of the decompressed chunks, least recently written first.
    pub closed spec fn lru_order(&self) -> Seq<ChunkKey> {
        self.lru@
    }

    pub closed spec fn wf(&self) -> bool {
        &&& forall|i: int, j: int|
            0 <= i < j < self.entries@.len() ==> self.entries@[i].key != self.entries@[j].key
        &&& forall|i: int|
            0 <= i < self.entries@.len() ==> {
                let e = #[trigger] self.entries@[i];
                &&& e.data.wf()
                &&& self.contents@.contains_key(e.key)
                &&& self.contents@[e.key] == e.data.voxels()
            }
        &&& forall|k: ChunkKey|
            self.contents@.contains_key(k) ==> exists|i: int| stored_in(self.entries@, k, i)
        &&& self.lru@.no_duplicates()
        &&& forall|k: ChunkKey|
            self.lru@.contains(k) <==> #[trigger] decompressed_in(self.entries@, k)
    }

    /// Every chunk of a well-formed map has the size of a chunk.
    pub proof fn lemma_chunks_sized(&self)
        requires
            self.wf(),
        ensures
            chunks_sized(self@),
    {
        assert forall|k: ChunkKey| self@.contains_key(k) implies (#[trigger] self@[k]).len()
            == CHUNK_VOLUME by {
            let i = choose|i: int| stored_in(self.entries@, k, i);
            assert(self.entries@[i].data.wf());
            match self.entries@[i].data {
                ChunkData::Decompressed(_) => {},
                ChunkData::Compressed(_) => {},
            }
        }
    }

    proof fn lemma_len(&self)
        requires
            self.wf(),
        ensures
            self.entries@.len() == self@.dom().len(),
    {
        let keys = self.entries@.map_values(|e: StoredChunk| e.key);
        assert forall|i: int, j: int| 0 <= i < j < keys.len() implies keys[i] != keys[j] by {}
        assert(keys.no_duplicates());
        assert forall|k: ChunkKey| keys.to_set().contains(k) <==> self@.dom().contains(k) by {
            if self@.dom().contains(k) {
                let i = choose|i: int| stored_in(self.entries@, k, i);
                assert(keys[i] == k);
            }
            if keys.to_set().contains(k) {
                let i = choose|i: int| 0 <= i < keys.len() && keys[i] == k;
                assert(self.entries@[i].key == k);
            }
        }
        assert(keys.to_set() =~= self@.dom());
        keys.unique_seq_to_set();
    }

    pub fn new() -> (r: Self)
        ensures
            r.wf(),
            r@ == Map::<ChunkKey, Seq<SdfVoxel>>::empty(),
            r.lru_order().len() == 0,
    {
        ChunkMap { entries: Vec::new(), lru: Vec::new(), contents: Ghost(Map::empty()) }
    }

    /// Number of stored chunks.
    pub fn len(&self) -> (r: usize)
        requires
            self.wf(),
        ensures
            r == self@.dom().len(),
    {
        proof {
            self.lemma_len();
        }
        self.entries.len()
    }

    /// Number of chunks held decompressed.
    pub fn num_decompressed(&self) -> (r: usize)
        ensures
            r == self.lru_order().len(),
    {
        self.lru.len()
    }

    fn find(&self, key: ChunkKey) -> (r: Option<usize>)
        requires
            self.wf(),
        ensures
            match r {
                Some(i) => stored_in(self.entries@, key, i as int),
                None => !self@.contains_key(key),
            },
    {
        let mut i: usize = 0;
        while i < self.entries.len()
            invariant
                i <= self.entries@.len(),
                forall|j: int| 0 <= j < i ==> self.entries@[j].key != key,
            decreases self.entries@.len() - i,
        {
            if self.entries[i].key == key {
                return Some(i);
            }
            i += 1;
        }
        None
    }

    fn find_lru(&self, key: ChunkKey) -> (r: Option<usize>)
        ensures
            match r {
                Some(i) => 0 <= i < self.lru@.len() && self.lru@[i as int] == key,
                None => !self.lru@.contains(key),
            },
    {
        let mut i: usize = 0;
        while i < self.lru.len()
            invariant
                i <= self.lru@.len(),
                forall|j: int| 0 <= j < i ==> self.lru@[j] != key,
            decreases self.lru@.len() - i,
        {
            if self.lru[i] == key {
                return Some(i);
            }
            i += 1;
        }
        None
    }

    /// Whether a chunk is stored under `key`.
    pub fn contains_chunk(&self, key: ChunkKey) -> (r: bool)
        requires
            self.wf(),
        ensures
            r == self@.contains_key(key),
    {
        match self.find(key) {
            Some(_) => true,
            None => false,
        }
    }

    fn voxels_of_entry(&self, i: usize) -> (r: Vec<SdfVoxel>)
        requires
            self.wf(),
            i < self.entries@.len(),
        ensures
            r@ == self@[self.entries@[i as int].key],
            r@.len() == CHUNK_VOLUME,
    {
        let e = &self.entries[i];
        assert(self.entries@[i as int].data.wf());
        match &e.data {
            ChunkData::Decompressed(v) => copy_voxels(v),
            ChunkData::Compressed(b) => match decompress(b) {
                Some(v) => v,
                None => {
                    proof {
                        assert(false);
                    }
                    Vec::new()
                },
            },
        }
    }

    /// A copy of the chunk stored under `key`, read without filling any
    /// cache or changing the map.
    pub fn copy_chunk_without_caching(&self, key: ChunkKey) -> (r: Option<Vec<SdfVoxel>>)
        requires
            self.wf(),
        ensures
            r.is_some() == self@.contains_key(key),
            r.is_some() ==> r.unwrap()@ == self@[key],
    {
        match self.find(key) {
            Some(i) => Some(self.voxels_of_entry(i)),
            None => None,
        }
    }

    /// A copy of what the map reads at chunk `key`: the ambient chunk where
    /// nothing is stored.
    pub fn read_chunk(&self, key: ChunkKey) -> (r: Vec<SdfVoxel>)
        requires
            self.wf(),
        ensures
            r@ == chunk_content(self@, key),
            r@.len() == CHUNK_VOLUME,
    {
        match self.find(key) {
            Some(i) => self.voxels_of_entry(i),
            None => ambient_chunk_voxels(),
        }
    }

    /// Whether chunk `key` reads exactly as the ambient chunk.
    pub fn reads_ambient(&self, key: ChunkKey) -> (r: bool)
        requires
            self.wf(),
        ensures
            r == (chunk_content(self@, key) == ambient_chunk()),
    {
        let c = self.read_chunk(key);
        let mut i: usize = 0;
        while i < CHUNK_VOLUME
            invariant
                c@.len() == CHUNK_VOLUME,
                c@ == chunk_content(self@, key),
                i <= CHUNK_VOLUME,
                forall|j: int| 0 <= j < i ==> c@[j] == empty_voxel(),
            decreases CHUNK_VOLUME - i,
        {
            if c[i] != SdfVoxel::empty() {
                proof {
                    assert(c@[i as int] != ambient_chunk()[i as int]);
                }
                return false;
            }
            i += 1;
        }
        proof {
            assert(c@ =~= ambient_chunk());
        }
        true
    }

    /// The voxel that the map reads at point `p`.
    pub fn get_voxel(&self, p: Point3i) -> (r: SdfVoxel)
        requires
            self.wf(),
        ensures
            r == voxel_at(self@, p),
    {
        let key = chunk_key_for_point(p);
        let i = local_index_of(p);
        match self.find(key) {
            Some(j) => {
                assert(self.entries@[j as int].data.wf());
                match &self.entries[j].data {
                    ChunkData::Decompressed(v) => v[i],
                    ChunkData::Compressed(_) => {
                        let v = self.voxels_of_entry(j);
                        v[i]
                    },
                }
            },
            None => SdfVoxel::empty(),
        }
    }

    /// Stores `voxels` decompressed under `key`, replacing any chunk there,
    /// and makes it the most recently written decompressed chunk.
    pub fn write_chunk(&mut self, key: ChunkKey, voxels: Vec<SdfVoxel>)
        requires
            old(self).wf(),
            voxels@.len() == CHUNK_VOLUME,
        ensures
            final(self).wf(),
            final(self)@ == old(self)@.insert(key, voxels@),
            final(self).lru_order() == old(self).lru_order().remove_value(key).push(key),
    {
        let ghost new_contents = self.contents@.insert(key, voxels@);
        let ghost old_lru = self.lru@;
        match self.find(key) {
            Some(i) => {
                let ghost old_entries = self.entries@;
                self.entries.set(i, StoredChunk { key, data: ChunkData::Decompressed(voxels) });
                self.contents = Ghost(new_contents);
                proof {
                    assert forall|k: ChunkKey| self.contents@.contains_key(k) implies exists|
                        j: int,
                    | stored_in(self.entries@, k, j) by {
                        if k != key {
                            let j = choose|j: int| 0 <= j < old_entries.len() && old_entries[j].key == k;
                            assert(stored_in(self.entries@, k, j));
                        } else {
                            assert(stored_in(self.entries@, k, i as int));
                        }
                    }
                    assert forall|k: ChunkKey| k != key implies #[trigger] decompressed_in(
                        self.entries@,
                        k,
                    ) == decompressed_in(old_entries, k) by {
                        lemma_decompressed_update(
                            old_entries,
                            i as int,
                            StoredChunk { key, data: ChunkData::Decompressed(voxels) },
                            k,
                        );
                    }
                    assert(decompressed_in(self.entries@, key)) by {
                        assert(self.entries@[i as int].key == key);
                    }
                }
            },
            None => {
                let ghost old_entries = self.entries@;
                self.entries.push(StoredChunk { key, data: ChunkData::Decompressed(voxels) });
                self.contents = Ghost(new_contents);
                proof {
                    let n = old_entries.len() as int;
                    assert forall|k: ChunkKey| self.contents@.contains_key(k) implies exists|
                        j: int,
                    | stored_in(self.entries@, k, j) by {
                        if k != key {
                            let j = choose|j: int| 0 <= j < old_entries.len() && old_entries[j].key == k;
                            assert(stored_in(self.entries@, k, j));
                        } else {
                            assert(stored_in(self.entries@, k, n));
                        }
                    }
                    assert forall|k: ChunkKey| k != key implies #[trigger] decompressed_in(
                        self.entries@,
                        k,
                    ) == decompressed_in(old_entries, k) by {
                        lemma_decompressed_push(
                            old_entries,
                            StoredChunk { key, data: ChunkData::Decompressed(voxels) },
                            k,
                        );
                    }
                    assert(decompressed_in(self.entries@, key)) by {
                        assert(self.entries@[n].key == key);
                    }
                    if old_lru.contains(key) {
                        assert(decompressed_in(old_entries, key));
                        let j = choose|j: int|
                            0 <= j < old_entries.len() && old_entries[j].key == key
                                && old_entries[j].data.is_decompressed();
                        assert(old_entries[j].data.wf());
                    }
                }
            },
        }
        self.touch_lru(key);
        proof {
            assert(forall|i: int, j: int|
                0 <= i < j < self.entries@.len() ==> self.entries@[i].key != self.entries@[j].key);
            assert(forall|i: int|
                0 <= i < self.entries@.len() ==> {
                    let e = #[trigger] self.entries@[i];
                    &&& e.data.wf()
                    &&& self.contents@.contains_key(e.key)
                    &&& self.contents@[e.key] == e.data.voxels()
                });
            assert(forall|k: ChunkKey|
                self.contents@.contains_key(k) ==> exists|i: int| stored_in(self.entries@, k, i));
            assert(forall|k: ChunkKey|
                self.lru@.contains(k) <==> #[trigger] decompressed_in(self.entries@, k));
        }
    }

    /// Removes the chunk stored under `key`, if any, whatever its
    /// representation.
    pub fn remove_chunk(&mut self, key: ChunkKey)
        requires
            old(self).wf(),
        ensures
            final(self).wf(),
            final(self)@ == old(self)@.remove(key),
            final(self).lru_order() == old(self).lru_order().remove_value(key),
    {
        let ghost old_entries = self.entries@;
        let ghost old_lru = self.lru@;
        match self.find(key) {
            Some(i) => {
                self.entries.remove(i);
                self.contents = Ghost(self.contents@.remove(key));
                proof {
                    let s = self.entries@;
                    assert(s == old_entries.remove(i as int));
                    old_entries.remove_ensures(i as int);
                    assert forall|k: ChunkKey| self.contents@.contains_key(k) implies exists|j: int|
                        stored_in(self.entries@, k, j) by {
                        let j = choose|j: int| stored_in(old_entries, k, j);
                        assert(j != i);
                        if j < i {
                            assert(stored_in(s, k, j));
                        } else {
                            assert(stored_in(s, k, j - 1));
                        }
                    }
                    assert forall|k: ChunkKey| k != key implies #[trigger] decompressed_in(s, k)
                        == decompressed_in(old_entries, k) by {
                        if decompressed_in(old_entries, k) {
                            let j = choose|j: int|
                                0 <= j < old_entries.len() && old_entries[j].key == k
                                    && old_entries[j].data.is_decompressed();
                            if j < i {
                                assert(s[j] == old_entries[j]);
                            } else {
                                assert(s[j - 1] == old_entries[j]);
                            }
                        }
                        if decompressed_in(s, k) {
                            let j = choose|j: int|
                                0 <= j < s.len() && s[j].key == k && s[j].data.is_decompressed();
                            if j < i {
                                assert(s[j] == old_entries[j]);
                            } else {
                                assert(s[j] == old_entries[j + 1]);
                            }
                        }
                    }
                    assert forall|j: int| 0 <= j < s.len() implies s[j].key != key by {
                        if j < i {
                            assert(s[j] == old_entries[j]);
                        } else {
                            assert(s[j] == old_entries[j + 1]);
                        }
                    }
                    assert(!decompressed_in(s, key));
                }
            },
            None => {
                proof {
                    assert(self.contents@.remove(key) =~= self.contents@);
                    if decompressed_in(old_entries, key) {
                        let j = choose|j: int|
                            0 <= j < old_entries.len() && old_entries[j].key == key
                                && old_entries[j].data.is_decompressed();
                        assert(old_entries[j].data.wf());
                    }
                }
            },
        }
        match self.find_lru(key) {
            Some(j) => {
                self.lru.remove(j);
                proof {
                    lemma_no_dup_first_index(old_lru, key, j as int);
                    assert(old_lru.remove_value(key) == old_lru.remove(j as int));
                    lemma_remove_no_dup(old_lru, j as int);
                }
            },
            None => {
                proof {
                    old_lru.index_of_first_ensures(key);
                    assert(old_lru.remove_value(key) == old_lru);
                }
            },
        }
    }

    /// Compresses the least recently written decompressed chunks, oldest
    /// first, until at most `max_decompressed` stay decompressed. What the
    /// map reads does not change.
    pub fn compress_least_recently_used(&mut self, max_decompressed: usize)
        requires
            old(self).wf(),
        ensures
            final(self).wf(),
            final(self)@ == old(self)@,
            final(self).lru_order() == if old(self).lru_order().len() > max_decompressed {
                old(self).lru_order().subrange(
                    old(self).lru_order().len() - max_decompressed,
                    old(self).lru_order().len() as int,
                )
            } else {
                old(self).lru_order()
            },
    {
        let ghost old_lru = self.lru@;
        while self.lru.len() > max_decompressed
            invariant
                self.wf(),
                self@ == old(self)@,
                old_lru.len() >= self.lru@.len(),
                self.lru@ == old_lru.subrange(old_lru.len() - self.lru@.len(), old_lru.len() as int),
                old_lru.len() <= max_decompressed ==> self.lru@.len() == old_lru.len(),
                old_lru.len() > max_decompressed ==> self.lru@.len() >= max_decompressed,
            decreases self.lru@.len(),
        {
            let key = self.lru[0];
            let ghost old_entries = self.entries@;
            assert(decompressed_in(self.entries@, key)) by {
                assert(self.lru@[0] == key);
            }
            let i = match self.find(key) {
                Some(i) => i,
                None => {
                    proof {
                        let j = choose|j: int|
                            0 <= j < old_entries.len() && old_entries[j].key == key
                                && old_entries[j].data.is_decompressed();
                        assert(old_entries[j].data.wf());
                    }
                    return;
                },
            };
            assert(old_entries[i as int].data.is_decompressed()) by {
                let j = choose|j: int|
                    0 <= j < old_entries.len() && old_entries[j].key == key
                        && old_entries[j].data.is_decompressed();
                assert(j == i);
            }
            let blob = match &self.entries[i].data {
                ChunkData::Decompressed(v) => compress(v),
                ChunkData::Compressed(b) => {
                    proof {
                        assert(false);
                    }
                    Vec::new()
                },
            };
            assert(old_entries[i as int].data.wf());
            let e = StoredChunk { key, data: ChunkData::Compressed(blob) };
            self.entries.set(i, e);
            let ghost mid_lru = self.lru@;
            self.lru.remove(0);
            proof {
                lemma_remove_no_dup(mid_lru, 0);
                assert forall|k: ChunkKey| k != key implies #[trigger] decompressed_in(
                    self.entries@,
                    k,
                ) == decompressed_in(old_entries, k) by {
                    lemma_decompressed_update(old_entries, i as int, e, k);
                }
                assert(!decompressed_in(self.entries@, key)) by {
                    if decompressed_in(self.entries@, key) {
                        let j = choose|j: int|
                            0 <= j < self.entries@.len() && self.entries@[j].key == key
                                && self.entries@[j].data.is_decompressed();
                        assert(j != i);
                    }
                }
                assert forall|k: ChunkKey| self.contents@.contains_key(k) implies exists|j: int|
                    stored_in(self.entries@, k, j) by {
                    let j = choose|j: int| stored_in(old_entries, k, j);
                    assert(stored_in(self.entries@, k, j));
                }
                assert(self.lru@ =~= old_lru.subrange(
                    old_lru.len() - self.lru@.len(),
                    old_lru.len() as int,
                ));
            }
        }
        proof {
            if old_lru.len() <= max_decompressed {
                assert(self.lru@ =~= old_lru);
            }
        }
    }

    /// Moves `key` to the back of the recency order.
    fn touch_lru(&mut self, key: ChunkKey)
        requires
            old(self).lru@.no_duplicates(),
        ensures
            final(self).lru@ == old(self).lru@.remove_value(key).push(key),
            final(self).lru@.no_duplicates(),
            forall|k: ChunkKey| final(self).lru@.contains(k) <==> (old(self).lru@.contains(k) || k == key),
            final(self).entries == old(self).entries,
            final(self).contents == old(self).contents,
    {
        let ghost old_lru = self.lru@;
        match self.find_lru(key) {
            Some(j) => {
                self.lru.remove(j);
                proof {
                    old_lru.index_of_first_ensures(key);
                    lemma_no_dup_first_index(old_lru, key, j as int);
                    assert(old_lru.remove_value(key) == old_lru.remove(j as int));
                    lemma_remove_no_dup(old_lru, j as int);
                }
            },
            None => {
                proof {
                    old_lru.index_of_first_ensures(key);
                    assert(old_lru.remove_value(key) == old_lru);
                }
            },
        }
        let ghost mid = self.lru@;
        self.lru.push(key);
        proof {
            assert(!mid.contains(key));
            assert forall|k: ChunkKey| self.lru@.contains(k) <==> (old_lru.contains(k) || k == key) by {
                if self.lru@.contains(k) && k != key {
                    let n = choose|n: int| 0 <= n < self.lru@.len() && self.lru@[n] == k;
                    assert(mid[n] == k);
                }
                if old_lru.contains(k) && k != key {
                    let n = choose|n: int| 0 <= n < old_lru.len() && old_lru[n] == k;
                    assert(mid.contains(k));
                    let m = choose|m: int| 0 <= m < mid.len() && mid[m] == k;
                    assert(self.lru@[m] == k);
                }
                if k == key {
                    assert(self.lru@[self.lru@.len() - 1] == key);
                }
            }
        }
    }
}

/// Whether every chunk that `cache` holds is what `m` stores under its key.
pub open spec fn cache_agrees(cache: Map<ChunkKey, Seq<SdfVoxel>>, m: Map<ChunkKey, Seq<SdfVoxel>>) -> bool {
    forall|k: ChunkKey|
        #[trigger] cache.contains_key(k) ==> m.contains_key(k) && m[k] == cache[k]
}

impl ChunkMap {
    /// What the map reads at chunk `key`, looked up first in the worker's
    /// cache; a compressed chunk is decompressed into the cache, and the map
    /// itself does not change.
    pub fn get_chunk(&self, key: ChunkKey, cache: &mut ChunkTable) -> (r: Vec<SdfVoxel>)
        requires
            self.wf(),
            old(cache).wf(),
            cache_agrees(old(cache)@, self@),
        ensures
            r@ == chunk_content(self@, key),
            final(cache).wf(),
            cache_agrees(final(cache)@, self@),
            forall|k: ChunkKey| #[trigger] final(cache)@.contains_key(k) ==> old(cache)@.contains_key(k) || k == key,
    {
        match cache.get(key) {
            Some(v) => v,
            None => match self.find(key) {
                Some(i) => {
                    let v = self.voxels_of_entry(i);
                    let copy = copy_voxels(&v);
                    cache.insert_new(key, copy);
                    v
                },
                None => ambient_chunk_voxels(),
            },
        }
    }

    /// Writes every chunk of a worker's cache back into the map, decompressed
    /// and most recently used, except those under `fresh` (written since the
    /// cache read them), and empties the cache. What the map reads does not
    /// change.
    pub fn flush_local_cache(&mut self, cache: &mut ChunkTable, fresh: &Vec<ChunkKey>)
        requires
            old(self).wf(),
            old(cache).wf(),
            forall|k: ChunkKey|
                #[trigger] old(cache)@.contains_key(k) && !fresh@.contains(k) ==> old(self)@.contains_key(k)
                    && old(self)@[k] == old(cache)@[k],
        ensures
            final(self).wf(),
            final(self)@ == old(self)@,
            final(cache).wf(),
            final(cache)@ == Map::<ChunkKey, Seq<SdfVoxel>>::empty(),
            forall|k: ChunkKey|
                #[trigger] old(cache)@.contains_key(k) && !fresh@.contains(k) ==> final(self).lru_order().contains(k),
    {
        loop
            invariant
                self.wf(),
                cache.wf(),
                self@ == old(self)@,
                forall|k: ChunkKey|
                    #[trigger] cache@.contains_key(k) ==> old(cache)@.contains_key(k) && cache@[k] == old(cache)@[k],
                forall|k: ChunkKey|
                    #[trigger] old(cache)@.contains_key(k) && !fresh@.contains(k) ==> old(self)@.contains_key(k)
                        && old(self)@[k] == old(cache)@[k],
                forall|k: ChunkKey|
                    #[trigger] old(cache)@.contains_key(k) && !fresh@.contains(k) && !cache@.contains_key(k)
                        ==> self.lru_order().contains(k),
            decreases cache.size(),
        {
            let ghost before = cache@;
            let ghost before_lru = self.lru@;
            match cache.pop() {
                Some((key, voxels)) => {
                    if !keys_contain(fresh, key) && self.contains_chunk(key) {
                        proof {
                            self.lemma_chunks_sized();
                        }
                        self.write_chunk(key, voxels);
                        proof {
                            assert(self@ =~= old(self)@);
                            assert forall|k: ChunkKey| #[trigger] before_lru.contains(k) implies self.lru@.contains(k) by {
                                if k != key {
                                    let n = choose|n: int| 0 <= n < before_lru.len() && before_lru[n] == k;
                                    before_lru.index_of_first_ensures(key);
                                    match before_lru.index_of_first(key) {
                                        Some(j) => {
                                            lemma_remove_no_dup(before_lru, j);
                                            assert(before_lru.remove_value(key) == before_lru.remove(j));
                                        },
                                        None => {
                                            assert(before_lru.remove_value(key) == before_lru);
                                        },
                                    }
                                    let r = before_lru.remove_value(key);
                                    assert(r.contains(k));
                                    let m = choose|m: int| 0 <= m < r.len() && r[m] == k;
                                    assert(self.lru@[m] == k);
                                } else {
                                    assert(self.lru@[self.lru@.len() - 1] == key);
                                }
                            }
                            assert(self.lru@.contains(key)) by {
                                assert(self.lru@[self.lru@.len() - 1] == key);
                            }
                        }
                    }
                },
                None => {
                    return;
                },
            }
        }
    }
}

proof fn lemma_no_dup_first_index(s: Seq<ChunkKey>, k: ChunkKey, j: int)
    requires
        s.no_duplicates(),
        0 <= j < s.len(),
        s[j] == k,
    ensures
        s.index_of_first(k) == Some(j),
{
    s.index_of_first_ensures(k);
}

proof fn lemma_remove_no_dup(s: Seq<ChunkKey>, j: int)
    requires
        s.no_duplicates(),
        0 <= j < s.len(),
    ensures
        s.remove(j).no_duplicates(),
        forall|k: ChunkKey| s.remove(j).contains(k) <==> (s.contains(k) && k != s[j]),
{
    s.remove_ensures(j);
    let r = s.remove(j);
    assert forall|k: ChunkKey| r.contains(k) <==> (s.contains(k) && k != s[j]) by {
        if r.contains(k) {
            let n = choose|n: int| 0 <= n < r.len() && r[n] == k;
            if n < j {
                assert(s[n] == k);
            } else {
                assert(s[n + 1] == k);
            }
        }
        if s.contains(k) && k != s[j] {
            let n = choose|n: int| 0 <= n < s.len() && s[n] == k;
            if n < j {
                assert(r[n] == k);
            } else {
                assert(n != j);
                assert(r[n - 1] == k);
            }
        }
    }
}

} // verus!
