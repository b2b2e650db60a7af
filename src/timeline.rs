//! The edit timeline: snapshots of chunks taken before each logical edit,
//! kept on undo and redo stacks.
use vstd::prelude::*;
use crate::chunk_map::{chunk_content, chunks_sized, same_content, ChunkMap};
use crate::chunk_table::ChunkTable;
use crate::edit_buffer::{buffered_content, EditBuffer};
use crate::geometry::{chunk_keys_for_extent, lemma_intersecting_chunk_in_bounds, ChunkKey, Extent3i};
use crate::voxel::SdfVoxel;

verus! {

/// The chunks of `keys` as they read through overlay `ov` in front of `m`.
pub open spec fn capture(
    ov: Map<ChunkKey, Seq<SdfVoxel>>,
    m: Map<ChunkKey, Seq<SdfVoxel>>,
    keys: Set<ChunkKey>,
) -> Map<ChunkKey, Seq<SdfVoxel>> {
    Map::new(|k: ChunkKey| keys.contains(k), |k: ChunkKey| buffered_content(ov, m, k))
}

pub open spec fn keys_in_bounds(t: Map<ChunkKey, Seq<SdfVoxel>>) -> bool {
    forall|k: ChunkKey| #[trigger] t.contains_key(k) ==> k.in_bounds()
}

pub open spec fn snapshot_wf(t: ChunkTable) -> bool {
    t.wf() && chunks_sized(t@) && keys_in_bounds(t@)
}

/// The snapshot stacks and the snapshot of the edit in progress.
pub struct EditTimeline {
    undo_queue: Vec<ChunkTable>,
    redo_queue: Vec<ChunkTable>,
    current: ChunkTable,
}

impl EditTimeline {
    pub closed spec fn wf(&self) -> bool {
        &&& snapshot_wf(self.current)
        &&& forall|i: int| 0 <= i < self.undo_queue@.len() ==> snapshot_wf(#[trigger] self.undo_queue@[i])
        &&& forall|i: int| 0 <= i < self.redo_queue@.len() ==> snapshot_wf(#[trigger] self.redo_queue@[i])
    }

    /// The snapshots that `undo` restores, the last one first.
    pub closed spec fn undo_snapshots(&self) -> Seq<Map<ChunkKey, Seq<SdfVoxel>>> {
        self.undo_queue@.map_values(|t: ChunkTable| t@)
    }

    /// The snapshots that `redo` restores, the last one first.
    pub closed spec fn redo_snapshots(&self) -> Seq<Map<ChunkKey, Seq<SdfVoxel>>> {
        self.redo_queue@.map_values(|t: ChunkTable| t@)
    }

    /// The chunks captured so far for the edit in progress.
    pub closed spec fn current_snapshot(&self) -> Map<ChunkKey, Seq<SdfVoxel>> {
        self.current@
    }

    pub fn new() -> (r: Self)
        ensures
            r.wf(),
            r.undo_snapshots().len() == 0,
            r.redo_snapshots().len() == 0,
            r.current_snapshot() == Map::<ChunkKey, Seq<SdfVoxel>>::empty(),
    {
        let r = EditTimeline { undo_queue: Vec::new(), redo_queue: Vec::new(), current: ChunkTable::new() };
        proof {
            assert(r.undo_snapshots() =~= Seq::empty());
            assert(r.redo_snapshots() =~= Seq::empty());
        }
        r
    }

    pub fn undo_len(&self) -> (r: usize)
        ensures
            r == self.undo_snapshots().len(),
    {
        self.undo_queue.len()
    }

    pub fn redo_len(&self) -> (r: usize)
        ensures
            r == self.redo_snapshots().len(),
    {
        self.redo_queue.len()
    }

    /// Before an edit of `extent`: captures, for each chunk the extent
    /// intersects that the edit in progress has not captured yet, what it
    /// reads now through `buffer` in front of `map`.
    pub fn add_extent_to_snapshot(&mut self, extent: &Extent3i, buffer: &EditBuffer, map: &ChunkMap)
        requires
            old(self).wf(),
            buffer.wf(),
            map.wf(),
            extent.wf(),
        ensures
            final(self).wf(),
            final(self).undo_snapshots() == old(self).undo_snapshots(),
            final(self).redo_snapshots() == old(self).redo_snapshots(),
            final(self).current_snapshot() == old(self).current_snapshot().union_prefer_right(
                capture(
                    buffer@,
                    map@,
                    Set::new(|k: ChunkKey| extent.intersects_chunk(k)).difference(
                        old(self).current_snapshot().dom(),
                    ),
                ),
            ),
    {
        let keys = chunk_keys_for_extent(extent);
        let mut i: usize = 0;
        while i < keys.len()
            invariant
                self.wf(),
                buffer.wf(),
                map.wf(),
                extent.wf(),
                i <= keys@.len(),
                forall|k: ChunkKey| keys@.contains(k) <==> extent.intersects_chunk(k),
                self.undo_queue == old(self).undo_queue,
                self.redo_queue == old(self).redo_queue,
                self.current@ == old(self).current@.union_prefer_right(
                    capture(
                        buffer@,
                        map@,
                        keys@.subrange(0, i as int).to_set().difference(old(self).current@.dom()),
                    ),
                ),
            decreases keys@.len() - i,
        {
            let k = keys[i];
            proof {
                assert(keys@.contains(k));
                lemma_intersecting_chunk_in_bounds(*extent, k);
            }
            if !self.current.contains(k) {
                let v = buffer.read_chunk(map, k);
                self.current.insert(k, v);
            }
            proof {
                let a = keys@.subrange(0, i as int);
                let b = keys@.subrange(0, i as int + 1);
                assert(b.to_set() =~= a.to_set().insert(k)) by {
                    assert forall|j: ChunkKey| b.contains(j) <==> a.contains(j) || j == k by {
                        if b.contains(j) {
                            let m = choose|m: int| 0 <= m < b.len() && b[m] == j;
                            if m < a.len() {
                                assert(a[m] == j);
                            }
                        }
                        if a.contains(j) {
                            let m = choose|m: int| 0 <= m < a.len() && a[m] == j;
                            assert(b[m] == j);
                        }
                        assert(b[i as int] == k);
                    }
                }
                assert(self.current@ =~= old(self).current@.union_prefer_right(
                    capture(
                        buffer@,
                        map@,
                        b.to_set().difference(old(self).current@.dom()),
                    ),
                ));
            }
            i += 1;
        }
        proof {
            assert(keys@.subrange(0, keys@.len() as int) =~= keys@);
            assert(keys@.to_set() =~= Set::new(|k: ChunkKey| extent.intersects_chunk(k)));
        }
    }

    /// Ends the logical edit in progress: its snapshot goes onto the undo
    /// stack, a new empty one starts, and the redo stack is cleared.
    pub fn store_current_snapshot(&mut self)
        requires
            old(self).wf(),
        ensures
            final(self).wf(),
            final(self).undo_snapshots() == old(self).undo_snapshots().push(old(self).current_snapshot()),
            final(self).redo_snapshots().len() == 0,
            final(self).current_snapshot() == Map::<ChunkKey, Seq<SdfVoxel>>::empty(),
    {
        let mut finished = ChunkTable::new();
        core::mem::swap(&mut finished, &mut self.current);
        self.undo_queue.push(finished);
        self.redo_queue = Vec::new();
        proof {
            assert(self.undo_snapshots() =~= old(self).undo_snapshots().push(old(self).current_snapshot()));
            assert(self.redo_snapshots() =~= Seq::empty());
        }
    }

    /// Restores the last undo snapshot into `buffer` (marking the restored
    /// chunks' neighbors dirty) and pushes a snapshot of what those chunks
    /// read before onto the redo stack. Does nothing when there is nothing
    /// to undo.
    pub fn undo(&mut self, buffer: &mut EditBuffer, map: &ChunkMap)
        requires
            old(self).wf(),
            old(buffer).wf(),
            map.wf(),
        ensures
            final(self).wf(),
            final(buffer).wf(),
            final(self).current_snapshot() == old(self).current_snapshot(),
            old(self).undo_snapshots().len() == 0 ==> *final(self) == *old(self) && *final(buffer) == *old(buffer),
            old(self).undo_snapshots().len() > 0 ==> {
                let s = old(self).undo_snapshots().last();
                &&& final(self).undo_snapshots() == old(self).undo_snapshots().drop_last()
                &&& final(self).redo_snapshots() == old(self).redo_snapshots().push(
                    capture(old(buffer)@, map@, s.dom()),
                )
                &&& final(buffer)@ == old(buffer)@.union_prefer_right(s)
                &&& final(buffer).dirty_keys().subset_of(old(buffer).dirty_keys() + s.dom() + neighbors_of(s.dom()))
                &&& (forall|k: ChunkKey| #[trigger] neighbors_of(s.dom()).contains(k) ==> final(buffer).dirty_keys().contains(k))
            },
    {
        let ghost undo_before = self.undo_snapshots();
        let ghost redo_before = self.redo_snapshots();
        let ghost s0 = self.undo_queue@;
        let ghost r0 = self.redo_queue@;
        if self.undo_queue.len() > 0 {
            let ghost s = self.undo_snapshots().last();
            let snapshot = self.undo_queue.pop().unwrap();
            proof {
                assert(snapshot@ == s);
                assert(snapshot_wf(s0[s0.len() - 1]));
            }
            let redo = restore_snapshot(snapshot, buffer, map);
            self.redo_queue.push(redo);
            proof {
                assert(self.undo_snapshots() =~= undo_before.drop_last());
                assert(self.redo_snapshots() =~= redo_before.push(capture(old(buffer)@, map@, s.dom())));
            }
        }
    }

    /// Mirror of [`EditTimeline::undo`]: restores the last redo snapshot and
    /// pushes what it overwrote onto the undo stack.
    pub fn redo(&mut self, buffer: &mut EditBuffer, map: &ChunkMap)
        requires
            old(self).wf(),
            old(buffer).wf(),
            map.wf(),
        ensures
            final(self).wf(),
            final(buffer).wf(),
            final(self).current_snapshot() == old(self).current_snapshot(),
            old(self).redo_snapshots().len() == 0 ==> *final(self) == *old(self) && *final(buffer) == *old(buffer),
            old(self).redo_snapshots().len() > 0 ==> {
                let s = old(self).redo_snapshots().last();
                &&& final(self).redo_snapshots() == old(self).redo_snapshots().drop_last()
                &&& final(self).undo_snapshots() == old(self).undo_snapshots().push(
                    capture(old(buffer)@, map@, s.dom()),
                )
                &&& final(buffer)@ == old(buffer)@.union_prefer_right(s)
                &&& final(buffer).dirty_keys().subset_of(old(buffer).dirty_keys() + s.dom() + neighbors_of(s.dom()))
                &&& (forall|k: ChunkKey| #[trigger] neighbors_of(s.dom()).contains(k) ==> final(buffer).dirty_keys().contains(k))
            },
    {
        let ghost undo_before = self.undo_snapshots();
        let ghost redo_before = self.redo_snapshots();
        let ghost s0 = self.redo_queue@;
        if self.redo_queue.len() > 0 {
            let ghost s = self.redo_snapshots().last();
            let snapshot = self.redo_queue.pop().unwrap();
            proof {
                assert(snapshot@ == s);
                assert(snapshot_wf(s0[s0.len() - 1]));
            }
            let undo = restore_snapshot(snapshot, buffer, map);
            self.undo_queue.push(undo);
            proof {
                assert(self.redo_snapshots() =~= redo_before.drop_last());
                assert(self.undo_snapshots() =~= undo_before.push(capture(old(buffer)@, map@, s.dom())));
            }
        }
    }
}

/// The face neighbors of the chunks of `keys`.
pub open spec fn neighbors_of(keys: Set<ChunkKey>) -> Set<ChunkKey> {
    Set::new(|n: ChunkKey| exists|k: ChunkKey| keys.contains(k) && #[trigger] k.face_neighbors().contains(n))
}

/// Writes every chunk of `snapshot` into `buffer`, marking its neighbors
/// dirty, and returns a snapshot of what those chunks read before.
fn restore_snapshot(snapshot: ChunkTable, buffer: &mut EditBuffer, map: &ChunkMap) -> (r: ChunkTable)
    requires
        snapshot_wf(snapshot),
        old(buffer).wf(),
        map.wf(),
    ensures
        snapshot_wf(r),
        r@ == capture(old(buffer)@, map@, snapshot@.dom()),
        final(buffer).wf(),
        final(buffer)@ == old(buffer)@.union_prefer_right(snapshot@),
        final(buffer).dirty_keys().subset_of(old(buffer).dirty_keys() + snapshot@.dom() + neighbors_of(snapshot@.dom())),
        forall|k: ChunkKey| #[trigger] neighbors_of(snapshot@.dom()).contains(k) ==> final(buffer).dirty_keys().contains(k),
{
    let ghost s = snapshot@;
    let mut rest = snapshot;
    let mut captured = ChunkTable::new();
    loop
        invariant
            snapshot_wf(rest),
            snapshot_wf(captured),
            buffer.wf(),
            map.wf(),
            forall|k: ChunkKey| #[trigger] rest@.contains_key(k) ==> s.contains_key(k) && rest@[k] == s[k],
            forall|k: ChunkKey| #[trigger] captured@.contains_key(k) <==> s.contains_key(k) && !rest@.contains_key(k),
            forall|k: ChunkKey| #[trigger] captured@.contains_key(k) ==> captured@[k] == buffered_content(old(buffer)@, map@, k),
            buffer@ == old(buffer)@.union_prefer_right(captured_part(s, rest@)),
            buffer.dirty_keys().subset_of(old(buffer).dirty_keys() + s.dom() + neighbors_of(s.dom())),
            old(buffer).dirty_keys().subset_of(buffer.dirty_keys()),
            forall|k: ChunkKey, n: ChunkKey|
                #[trigger] captured@.contains_key(k) && #[trigger] k.face_neighbors().contains(n) ==> buffer.dirty_keys().contains(n),
        ensures
            snapshot_wf(captured),
            buffer.wf(),
            forall|k: ChunkKey| #[trigger] captured@.contains_key(k) <==> s.contains_key(k),
            forall|k: ChunkKey| #[trigger] captured@.contains_key(k) ==> captured@[k] == buffered_content(old(buffer)@, map@, k),
            buffer@ == old(buffer)@.union_prefer_right(s),
            buffer.dirty_keys().subset_of(old(buffer).dirty_keys() + s.dom() + neighbors_of(s.dom())),
            forall|k: ChunkKey, n: ChunkKey|
                #[trigger] captured@.contains_key(k) && #[trigger] k.face_neighbors().contains(n) ==> buffer.dirty_keys().contains(n),
        decreases rest.size(),
    {
        let ghost before = buffer@;
        let ghost rest_before = rest@;
        match rest.pop() {
            Some((k, chunk)) => {
                let current = buffer.read_chunk(map, k);
                proof {
                    assert(!captured@.contains_key(k));
                    assert(!captured_part(s, rest_before).contains_key(k));
                }
                captured.insert(k, current);
                buffer.insert_chunk_and_touch_neighbors(k, chunk);
                proof {
                    assert(buffer@ =~= old(buffer)@.union_prefer_right(captured_part(s, rest@)));
                    assert forall|j: ChunkKey| #[trigger] buffer.dirty_keys().contains(j) implies (old(
                        buffer,
                    ).dirty_keys() + s.dom() + neighbors_of(s.dom())).contains(j) by {
                        if k.face_neighbors().contains(j) {
                            assert(neighbors_of(s.dom()).contains(j));
                        }
                    }
                }
            },
            None => {
                proof {
                    assert(captured_part(s, rest@) =~= s);
                    assert forall|k: ChunkKey| #[trigger] captured@.contains_key(k) <==> s.contains_key(k) by {}
                }
                break;
            },
        }
    }
    proof {
        assert(captured@ =~= capture(old(buffer)@, map@, s.dom()));
        assert forall|n: ChunkKey| #[trigger] neighbors_of(s.dom()).contains(n) implies buffer.dirty_keys().contains(n) by {
            let k = choose|k: ChunkKey| s.dom().contains(k) && #[trigger] k.face_neighbors().contains(n);
            assert(captured@.contains_key(k));
        }
    }
    captured
}

/// The chunks of `s` that are no longer in `rest`.
pub open spec fn captured_part(
    s: Map<ChunkKey, Seq<SdfVoxel>>,
    rest: Map<ChunkKey, Seq<SdfVoxel>>,
) -> Map<ChunkKey, Seq<SdfVoxel>> {
    s.remove_keys(rest.dom())
}

/// What a frame's merge makes of map `m` with overlay `ov`.
pub open spec fn merged(
    m: Map<ChunkKey, Seq<SdfVoxel>>,
    ov: Map<ChunkKey, Seq<SdfVoxel>>,
) -> Map<ChunkKey, Seq<SdfVoxel>> {
    m.union_prefer_right(ov)
}

/// Undo followed by redo, each merged, gives back what every chunk read
/// before the undo. `m` and `ov` are the map and overlay when `undo` runs
/// and `s` the snapshot it restores; the redo restores the snapshot that
/// the undo captured.
pub proof fn lemma_undo_redo_identity(
    m: Map<ChunkKey, Seq<SdfVoxel>>,
    ov: Map<ChunkKey, Seq<SdfVoxel>>,
    s: Map<ChunkKey, Seq<SdfVoxel>>,
)
    ensures
        same_content(
            merged(
                merged(m, ov.union_prefer_right(s)),
                capture(ov, m, s.dom()),
            ),
            merged(m, ov),
        ),
{
    let before = merged(m, ov);
    let after = merged(merged(m, ov.union_prefer_right(s)), capture(ov, m, s.dom()));
    assert forall|k: ChunkKey| #[trigger] chunk_content(after, k) == chunk_content(before, k) by {
        if s.contains_key(k) {
            assert(after[k] == buffered_content(ov, m, k));
        }
    }
}

/// Applies the snapshots of `snaps` to `state`, the last one first.
pub open spec fn apply_in_reverse(
    state: Map<ChunkKey, Seq<SdfVoxel>>,
    snaps: Seq<Map<ChunkKey, Seq<SdfVoxel>>>,
) -> Map<ChunkKey, Seq<SdfVoxel>>
    decreases snaps.len(),
{
    if snaps.len() == 0 {
        state
    } else {
        apply_in_reverse(state.union_prefer_right(snaps.last()), snaps.drop_last())
    }
}

/// Whether `snaps[i]` captures what state `states[i]` read at each of its
/// keys, and `states[i + 1]` reads as `states[i]` outside those keys: the
/// history of logical edits, each merged, that the timeline records.
pub open spec fn recorded_history(
    states: Seq<Map<ChunkKey, Seq<SdfVoxel>>>,
    snaps: Seq<Map<ChunkKey, Seq<SdfVoxel>>>,
) -> bool {
    &&& states.len() == snaps.len() + 1
    &&& forall|i: int|
        0 <= i < snaps.len() ==> #[trigger] snaps[i] == capture(
            Map::empty(),
            states[i],
            snaps[i].dom(),
        )
    &&& forall|i: int, k: ChunkKey|
        0 <= i < snaps.len() && !snaps[i].dom().contains(k) ==> #[trigger] chunk_content(
            states[i + 1],
            k,
        ) == chunk_content(states[i], k)
}

/// Undoing every recorded edit, the last one first, gives back what every
/// chunk read before the first edit. The same holds of redoing what the
/// undos recorded, since they form such a history too.
pub proof fn lemma_undo_all(
    states: Seq<Map<ChunkKey, Seq<SdfVoxel>>>,
    snaps: Seq<Map<ChunkKey, Seq<SdfVoxel>>>,
    state: Map<ChunkKey, Seq<SdfVoxel>>,
)
    requires
        recorded_history(states, snaps),
        same_content(state, states.last()),
    ensures
        same_content(apply_in_reverse(state, snaps), states[0]),
    decreases snaps.len(),
{
    if snaps.len() > 0 {
        let n = snaps.len() - 1;
        let next = state.union_prefer_right(snaps.last());
        assert forall|k: ChunkKey| #[trigger] chunk_content(next, k) == chunk_content(states[n], k) by {
            if snaps[n].contains_key(k) {
                assert(next[k] == buffered_content(Map::empty(), states[n], k));
            } else {
                assert(chunk_content(states[n + 1], k) == chunk_content(states[n], k));
                assert(chunk_content(state, k) == chunk_content(states[n + 1], k));
            }
        }
        let states2 = states.drop_last();
        let snaps2 = snaps.drop_last();
        assert(recorded_history(states2, snaps2)) by {
            assert forall|i: int, k: ChunkKey|
                0 <= i < snaps2.len() && !snaps2[i].dom().contains(k) implies #[trigger] chunk_content(
                states2[i + 1],
                k,
            ) == chunk_content(states2[i], k) by {
                assert(chunk_content(states[i + 1], k) == chunk_content(states[i], k));
            }
        }
        lemma_undo_all(states2, snaps2, next);
    }
}

/// Redoing restores what undoing took away: each undo captures, before it
/// writes, what the chunks of its snapshot read, so the states seen while
/// undoing, with the captured snapshots, form a recorded history.
pub proof fn lemma_undo_steps_are_recorded(
    state: Map<ChunkKey, Seq<SdfVoxel>>,
    s: Map<ChunkKey, Seq<SdfVoxel>>,
)
    ensures
        recorded_history(
            seq![state, state.union_prefer_right(s)],
            seq![capture(Map::empty(), state, s.dom())],
        ),
{
    let states = seq![state, state.union_prefer_right(s)];
    let snaps = seq![capture(Map::empty(), state, s.dom())];
    assert(snaps[0].dom() =~= s.dom());
    assert forall|i: int, k: ChunkKey|
        0 <= i < snaps.len() && !snaps[i].dom().contains(k) implies #[trigger] chunk_content(
        states[i + 1],
        k,
    ) == chunk_content(states[i], k) by {
        assert(i == 0);
    }
}

/// One logical edit, merged, is a step of a recorded history: its snapshot
/// `s` captured from state `m` every chunk that its overlay `ov` writes (as
/// `add_extent_to_snapshot` does before each edit), and the merge makes the
/// next state.
pub proof fn lemma_action_recorded(
    m: Map<ChunkKey, Seq<SdfVoxel>>,
    ov: Map<ChunkKey, Seq<SdfVoxel>>,
    s: Map<ChunkKey, Seq<SdfVoxel>>,
)
    requires
        s == capture(Map::empty(), m, s.dom()),
        ov.dom().subset_of(s.dom()),
    ensures
        recorded_history(seq![m, merged(m, ov)], seq![s]),
{
    let states = seq![m, merged(m, ov)];
    let snaps = seq![s];
    assert forall|i: int, k: ChunkKey|
        0 <= i < snaps.len() && !snaps[i].dom().contains(k) implies #[trigger] chunk_content(
        states[i + 1],
        k,
    ) == chunk_content(states[i], k) by {
        assert(i == 0);
        assert(!ov.contains_key(k));
    }
}

/// Recorded histories chain: a history followed by one more recorded step
/// from its last state is a history.
pub proof fn lemma_history_extend(
    states: Seq<Map<ChunkKey, Seq<SdfVoxel>>>,
    snaps: Seq<Map<ChunkKey, Seq<SdfVoxel>>>,
    next: Map<ChunkKey, Seq<SdfVoxel>>,
    snap: Map<ChunkKey, Seq<SdfVoxel>>,
)
    requires
        recorded_history(states, snaps),
        recorded_history(seq![states.last(), next], seq![snap]),
    ensures
        recorded_history(states.push(next), snaps.push(snap)),
{
    let st = states.push(next);
    let sn = snaps.push(snap);
    let n = snaps.len() as int;
    let step_states = seq![states.last(), next];
    let step_snaps = seq![snap];
    assert forall|i: int| 0 <= i < sn.len() implies #[trigger] sn[i] == capture(
        Map::empty(),
        st[i],
        sn[i].dom(),
    ) by {
        if i == n {
            assert(step_snaps[0] == capture(Map::empty(), step_states[0], step_snaps[0].dom()));
        } else {
            assert(snaps[i] == capture(Map::empty(), states[i], snaps[i].dom()));
        }
    }
    assert forall|i: int, k: ChunkKey|
        0 <= i < sn.len() && !sn[i].dom().contains(k) implies #[trigger] chunk_content(st[i + 1], k)
        == chunk_content(st[i], k) by {
        if i == n {
            assert(chunk_content(step_states[1], k) == chunk_content(step_states[0], k));
        } else {
            assert(chunk_content(states[i + 1], k) == chunk_content(states[i], k));
        }
    }
}

} // verus!
