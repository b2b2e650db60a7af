//! A small table of whole chunks keyed by chunk key.
use vstd::prelude::*;
use crate::chunk_map::copy_voxels;
use crate::geometry::ChunkKey;
use crate::voxel::SdfVoxel;

verus! {

struct TableEntry {
    key: ChunkKey,
    voxels: Vec<SdfVoxel>,
}

/// A small table of whole chunks by key: a worker's read cache, the edit
/// overlay, or an undo snapshot. Its view maps each key to its voxels.
pub struct ChunkTable {
    entries: Vec<TableEntry>,
    contents: Ghost<Map<ChunkKey, Seq<SdfVoxel>>>,
}

impl View for ChunkTable {
    type V = Map<ChunkKey, Seq<SdfVoxel>>;

    closed spec fn view(&self) -> Map<ChunkKey, Seq<SdfVoxel>> {
        self.contents@
    }
}

impl ChunkTable {
    pub closed spec fn wf(&self) -> bool {
        &&& forall|i: int, j: int|
            0 <= i < j < self.entries@.len() ==> self.entries@[i].key != self.entries@[j].key
        &&& forall|i: int|
            0 <= i < self.entries@.len() ==> {
                let e = #[trigger] self.entries@[i];
                &&& self.contents@.contains_key(e.key)
                &&& self.contents@[e.key] == e.voxels@
            }
        &&& forall|k: ChunkKey|
            self.contents@.contains_key(k) ==> exists|i: int|
                0 <= i < self.entries@.len() && self.entries@[i].key == k
    }

    pub fn new() -> (r: Self)
        ensures
            r.wf(),
            r@ == Map::<ChunkKey, Seq<SdfVoxel>>::empty(),
    {
        ChunkTable { entries: Vec::new(), contents: Ghost(Map::empty()) }
    }

    proof fn lemma_len(&self)
        requires
            self.wf(),
        ensures
            self.entries@.len() == self@.dom().len(),
    {
        let keys = self.entries@.map_values(|e: TableEntry| e.key);
        assert(keys.no_duplicates());
        assert forall|k: ChunkKey| keys.to_set().contains(k) <==> self@.dom().contains(k) by {
            if self@.dom().contains(k) {
                let i = choose|i: int| 0 <= i < self.entries@.len() && self.entries@[i].key == k;
                assert(keys[i] == k);
            }
            if keys.to_set().contains(k) {
                let i = choose|i: int| 0 <= i < keys.len() && keys[i] == k;
                let e = self.entries@[i];
                assert(self.contents@.contains_key(e.key));
            }
        }
        assert(keys.to_set() =~= self@.dom());
        keys.unique_seq_to_set();
    }

    /// Number of chunks held.
    pub fn len(&self) -> (r: usize)
        requires
            self.wf(),
        ensures
            r == self@.dom().len(),
            r == 0 <==> self@ == Map::<ChunkKey, Seq<SdfVoxel>>::empty(),
    {
        proof {
            self.lemma_len();
            if self.entries@.len() > 0 {
                let e = self.entries@[0];
                assert(self@.contains_key(e.key));
            } else {
                assert(self@ =~= Map::<ChunkKey, Seq<SdfVoxel>>::empty());
            }
        }
        self.entries.len()
    }

    pub fn get(&self, key: ChunkKey) -> (r: Option<Vec<SdfVoxel>>)
        requires
            self.wf(),
        ensures
            r.is_some() == self@.contains_key(key),
            r.is_some() ==> r.unwrap()@ == self@[key],
    {
        let mut i: usize = 0;
        while i < self.entries.len()
            invariant
                self.wf(),
                i <= self.entries@.len(),
                forall|j: int| 0 <= j < i ==> self.entries@[j].key != key,
            decreases self.entries@.len() - i,
        {
            if self.entries[i].key == key {
                proof {
                    let e = self.entries@[i as int];
                    assert(self.contents@.contains_key(e.key));
                }
                return Some(copy_voxels(&self.entries[i].voxels));
            }
            i += 1;
        }
        None
    }

    pub fn insert_new(&mut self, key: ChunkKey, voxels: Vec<SdfVoxel>)
        requires
            old(self).wf(),
            !old(self)@.contains_key(key),
        ensures
            final(self).wf(),
            final(self)@ == old(self)@.insert(key, voxels@),
    {
        let ghost old_entries = self.entries@;
        self.entries.push(TableEntry { key, voxels });
        self.contents = Ghost(self.contents@.insert(key, voxels@));
        proof {
            assert forall|k: ChunkKey| self.contents@.contains_key(k) implies exists|i: int|
                0 <= i < self.entries@.len() && self.entries@[i].key == k by {
                if k == key {
                    assert(self.entries@[old_entries.len() as int].key == k);
                } else {
                    let i = choose|i: int| 0 <= i < old_entries.len() && old_entries[i].key == k;
                    assert(self.entries@[i].key == k);
                }
            }
        }
    }

    pub closed spec fn size(&self) -> nat {
        self.entries@.len()
    }

    /// Takes out one cached chunk, if any.
    pub fn pop(&mut self) -> (r: Option<(ChunkKey, Vec<SdfVoxel>)>)
        requires
            old(self).wf(),
        ensures
            final(self).wf(),
            r.is_some() ==> final(self).size() < old(self).size(),
            match r {
                Some((k, v)) => old(self)@.contains_key(k) && old(self)@[k] == v@ && final(self)@
                    == old(self)@.remove(k),
                None => old(self)@ == Map::<ChunkKey, Seq<SdfVoxel>>::empty() && final(self)@ == old(self)@,
            },
    {
        let ghost old_entries = self.entries@;
        match self.entries.pop() {
            Some(c) => {
                self.contents = Ghost(self.contents@.remove(c.key));
                proof {
                    let n = old_entries.len() - 1;
                    assert(old_entries[n] == c);
                    assert forall|k: ChunkKey| self.contents@.contains_key(k) implies exists|i: int|
                        0 <= i < self.entries@.len() && self.entries@[i].key == k by {
                        let i = choose|i: int| 0 <= i < old_entries.len() && old_entries[i].key == k;
                        assert(i != n);
                        assert(self.entries@[i].key == k);
                    }
                }
                Some((c.key, c.voxels))
            },
            None => {
                proof {
                    assert(self@ =~= Map::<ChunkKey, Seq<SdfVoxel>>::empty());
                }
                None
            },
        }
    }

    /// Whether a chunk is held under `key`.
    pub fn contains(&self, key: ChunkKey) -> (r: bool)
        requires
            self.wf(),
        ensures
            r == self@.contains_key(key),
    {
        let mut i: usize = 0;
        while i < self.entries.len()
            invariant
                self.wf(),
                i <= self.entries@.len(),
                forall|j: int| 0 <= j < i ==> self.entries@[j].key != key,
            decreases self.entries@.len() - i,
        {
            if self.entries[i].key == key {
                proof {
                    let e = self.entries@[i as int];
                    assert(self.contents@.contains_key(e.key));
                }
                return true;
            }
            i += 1;
        }
        false
    }

    /// Takes out the chunk held under `key`, if any.
    pub fn take(&mut self, key: ChunkKey) -> (r: Option<Vec<SdfVoxel>>)
        requires
            old(self).wf(),
        ensures
            final(self).wf(),
            r.is_some() == old(self)@.contains_key(key),
            r.is_some() ==> r.unwrap()@ == old(self)@[key],
            final(self)@ == old(self)@.remove(key),
    {
        let mut i: usize = 0;
        while i < self.entries.len()
            invariant
                self.wf(),
                self.entries@ == old(self).entries@,
                self.contents@ == old(self).contents@,
                i <= self.entries@.len(),
                forall|j: int| 0 <= j < i ==> self.entries@[j].key != key,
            decreases self.entries@.len() - i,
        {
            if self.entries[i].key == key {
                let ghost old_entries = self.entries@;
                proof {
                    let e = self.entries@[i as int];
                    assert(self.contents@.contains_key(e.key));
                }
                let e = self.entries.remove(i);
                self.contents = Ghost(self.contents@.remove(key));
                proof {
                    old_entries.remove_ensures(i as int);
                    assert forall|k: ChunkKey| self.contents@.contains_key(k) implies exists|n: int|
                        0 <= n < self.entries@.len() && self.entries@[n].key == k by {
                        let n = choose|n: int| 0 <= n < old_entries.len() && old_entries[n].key == k;
                        assert(n != i);
                        if n < i {
                            assert(self.entries@[n].key == k);
                        } else {
                            assert(self.entries@[n - 1].key == k);
                        }
                    }
                }
                return Some(e.voxels);
            }
            i += 1;
        }
        proof {
            assert(self.contents@.remove(key) =~= self.contents@);
        }
        None
    }

    /// Holds `voxels` under `key`, replacing what was held there.
    pub fn insert(&mut self, key: ChunkKey, voxels: Vec<SdfVoxel>)
        requires
            old(self).wf(),
        ensures
            final(self).wf(),
            final(self)@ == old(self)@.insert(key, voxels@),
    {
        let _ = self.take(key);
        self.insert_new(key, voxels);
        proof {
            assert(self.contents@ =~= old(self).contents@.insert(key, voxels@));
        }
    }
}


} // verus!
