//! The coordinating object of the voxel core: the chunk map, this frame's
//! edit buffer, the edit timeline, the spatial index and the queue of
//! chunks found empty, with the per-frame maintenance pass that ties them.
use vstd::prelude::*;
use crate::chunk_map::{ambient_chunk, cache_agrees, chunk_content, same_content, voxel_at, ChunkMap};
use crate::chunk_table::ChunkTable;
use crate::edit_buffer::{buffered_voxel, reclaim_empty_chunks, EditBuffer};
use crate::geometry::{key_in_bounds, ChunkKey, Extent3i, Point3i};
use crate::mesh::{generate_chunk_mesh, has_crossing, mesh_of, padded_samples, ChunkMeshData};
use crate::spatial_index::{
    chunk_occupied, first_hit, index_consistent, lemma_index_consistent_after_update,
    lemma_ambient_unoccupied, lemma_reclaim_keeps_index_consistent, VoxelBVT,
};
use crate::timeline::{capture, neighbors_of, EditTimeline};
use crate::voxel::{SdfVoxel, SdfVoxelPalette};

verus! {

/// The edit entry point used by tools: edits go to the frame's buffer after
/// the chunks they touch are captured for undo.
pub struct SnapshottingVoxelEditor {
    buffer: EditBuffer,
    timeline: EditTimeline,
}

impl SnapshottingVoxelEditor {
    pub closed spec fn wf(&self) -> bool {
        self.buffer.wf() && self.timeline.wf()
    }

    /// This frame's edits, not merged yet.
    pub closed spec fn overlay_view(&self) -> Map<ChunkKey, Seq<SdfVoxel>> {
        self.buffer@
    }

    /// The keys this frame's merge will report dirty.
    pub closed spec fn pending_dirty(&self) -> Set<ChunkKey> {
        self.buffer.dirty_keys()
    }

    /// The snapshots that `undo` restores, the last one first.
    pub closed spec fn undo_snapshots(&self) -> Seq<Map<ChunkKey, Seq<SdfVoxel>>> {
        self.timeline.undo_snapshots()
    }

    /// The snapshots that `redo` restores, the last one first.
    pub closed spec fn redo_snapshots(&self) -> Seq<Map<ChunkKey, Seq<SdfVoxel>>> {
        self.timeline.redo_snapshots()
    }

    /// The chunks captured so far for the edit in progress.
    pub closed spec fn current_snapshot(&self) -> Map<ChunkKey, Seq<SdfVoxel>> {
        self.timeline.current_snapshot()
    }

    pub fn new() -> (r: Self)
        ensures
            r.wf(),
            r.overlay_view() == Map::<ChunkKey, Seq<SdfVoxel>>::empty(),
            r.pending_dirty() == Set::<ChunkKey>::empty(),
            r.undo_snapshots().len() == 0,
            r.redo_snapshots().len() == 0,
            r.current_snapshot() == Map::<ChunkKey, Seq<SdfVoxel>>::empty(),
    {
        let r = SnapshottingVoxelEditor { buffer: EditBuffer::new(), timeline: EditTimeline::new() };
        proof {
            assert(r.buffer.dirty_keys() =~= Set::<ChunkKey>::empty());
        }
        r
    }

    /// Edits every voxel of `extent` with `f`, out of place, as part of the
    /// logical edit in progress: first captures for undo the chunks that the
    /// extent touches and the edit has not captured yet, then marks them and
    /// their neighbors dirty.
    pub fn edit_extent_and_touch_neighbors<F: Fn(Point3i, SdfVoxel) -> SdfVoxel>(
        &mut self,
        map: &ChunkMap,
        extent: &Extent3i,
        f: F,
    )
        requires
            old(self).wf(),
            map.wf(),
            extent.wf(),
            forall|p: Point3i, v: SdfVoxel| #[trigger] f.requires((p, v)),
        ensures
            final(self).wf(),
            final(self).undo_snapshots() == old(self).undo_snapshots(),
            final(self).redo_snapshots() == old(self).redo_snapshots(),
            final(self).current_snapshot() == old(self).current_snapshot().union_prefer_right(
                capture(
                    old(self).overlay_view(),
                    map@,
                    Set::new(|k: ChunkKey| extent.intersects_chunk(k)).difference(
                        old(self).current_snapshot().dom(),
                    ),
                ),
            ),
            forall|k: ChunkKey|
                #[trigger] final(self).overlay_view().contains_key(k) <==> old(self).overlay_view().contains_key(k)
                    || extent.intersects_chunk(k),
            forall|p: Point3i|
                #[trigger] extent.contains_spec(p) ==> f.ensures(
                    (p, buffered_voxel(old(self).overlay_view(), map@, p)),
                    buffered_voxel(final(self).overlay_view(), map@, p),
                ),
            forall|p: Point3i|
                !extent.contains_spec(p) ==> #[trigger] buffered_voxel(final(self).overlay_view(), map@, p)
                    == buffered_voxel(old(self).overlay_view(), map@, p),
            forall|k: ChunkKey|
                #[trigger] final(self).pending_dirty().contains(k) <==> old(self).pending_dirty().contains(k)
                    || extent.padded_by_chunk().intersects_chunk(k),
    {
        self.timeline.add_extent_to_snapshot(extent, &self.buffer, map);
        self.buffer.edit_extent_and_touch_neighbors(map, extent, f);
    }

    /// Ends the logical edit in progress, making it one undoable step and
    /// clearing what could be redone.
    pub fn finish_edit(&mut self)
        requires
            old(self).wf(),
        ensures
            final(self).wf(),
            final(self).overlay_view() == old(self).overlay_view(),
            final(self).pending_dirty() == old(self).pending_dirty(),
            final(self).undo_snapshots() == old(self).undo_snapshots().push(old(self).current_snapshot()),
            final(self).redo_snapshots().len() == 0,
            final(self).current_snapshot() == Map::<ChunkKey, Seq<SdfVoxel>>::empty(),
    {
        self.timeline.store_current_snapshot();
    }

    /// Restores the last undo snapshot into this frame's buffer, marking the
    /// restored chunks' neighbors dirty, and pushes what those chunks read
    /// before onto the redo stack. Does nothing when there is nothing to undo.
    pub fn undo(&mut self, map: &ChunkMap)
        requires
            old(self).wf(),
            map.wf(),
        ensures
            final(self).wf(),
            final(self).current_snapshot() == old(self).current_snapshot(),
            old(self).undo_snapshots().len() == 0 ==> *final(self) == *old(self),
            old(self).undo_snapshots().len() > 0 ==> {
                let s = old(self).undo_snapshots().last();
                &&& final(self).undo_snapshots() == old(self).undo_snapshots().drop_last()
                &&& final(self).redo_snapshots() == old(self).redo_snapshots().push(
                    capture(old(self).overlay_view(), map@, s.dom()),
                )
                &&& final(self).overlay_view() == old(self).overlay_view().union_prefer_right(s)
                &&& final(self).pending_dirty().subset_of(old(self).pending_dirty() + s.dom() + neighbors_of(s.dom()))
                &&& neighbors_of(s.dom()).subset_of(final(self).pending_dirty())
            },
    {
        self.timeline.undo(&mut self.buffer, map);
        proof {
            if old(self).undo_snapshots().len() > 0 {
                let s = old(self).undo_snapshots().last();
                assert forall|k: ChunkKey| #[trigger] neighbors_of(s.dom()).contains(k) implies self.pending_dirty().contains(k) by {}
            }
        }
    }

    /// Mirror of [`SnapshottingVoxelEditor::undo`]: restores the last redo
    /// snapshot and pushes what it overwrote onto the undo stack.
    pub fn redo(&mut self, map: &ChunkMap)
        requires
            old(self).wf(),
            map.wf(),
        ensures
            final(self).wf(),
            final(self).current_snapshot() == old(self).current_snapshot(),
            old(self).redo_snapshots().len() == 0 ==> *final(self) == *old(self),
            old(self).redo_snapshots().len() > 0 ==> {
                let s = old(self).redo_snapshots().last();
                &&& final(self).redo_snapshots() == old(self).redo_snapshots().drop_last()
                &&& final(self).undo_snapshots() == old(self).undo_snapshots().push(
                    capture(old(self).overlay_view(), map@, s.dom()),
                )
                &&& final(self).overlay_view() == old(self).overlay_view().union_prefer_right(s)
                &&& final(self).pending_dirty().subset_of(old(self).pending_dirty() + s.dom() + neighbors_of(s.dom()))
                &&& neighbors_of(s.dom()).subset_of(final(self).pending_dirty())
            },
    {
        self.timeline.redo(&mut self.buffer, map);
        proof {
            if old(self).redo_snapshots().len() > 0 {
                let s = old(self).redo_snapshots().last();
                assert forall|k: ChunkKey| #[trigger] neighbors_of(s.dom()).contains(k) implies self.pending_dirty().contains(k) by {}
            }
        }
    }
}

pub struct VoxelWorld {
    map: ChunkMap,
    editor: SnapshottingVoxelEditor,
    index: VoxelBVT,
    palette: SdfVoxelPalette,
    empty_queue: Vec<ChunkKey>,
}

impl VoxelWorld {
    pub closed spec fn wf(&self) -> bool {
        &&& self.map.wf()
        &&& self.editor.wf()
        &&& self.index.wf()
        &&& self.palette.wf()
        &&& index_consistent(self.index@, self.map@, self.palette)
        &&& forall|k: ChunkKey|
            #[trigger] self.empty_queue@.contains(k) ==> chunk_content(self.map@, k) == ambient_chunk()
    }

    /// What the authoritative map holds.
    pub closed spec fn map_view(&self) -> Map<ChunkKey, Seq<SdfVoxel>> {
        self.map@
    }

    /// This frame's edits, not merged yet.
    pub closed spec fn overlay_view(&self) -> Map<ChunkKey, Seq<SdfVoxel>> {
        self.editor.overlay_view()
    }

    /// The keys this frame's merge will report dirty.
    pub closed spec fn pending_dirty(&self) -> Set<ChunkKey> {
        self.editor.pending_dirty()
    }

    /// The chunks queued for reclamation at the next maintenance pass.
    pub closed spec fn queued_empty(&self) -> Set<ChunkKey> {
        self.empty_queue@.to_set()
    }

    pub closed spec fn palette_view(&self) -> SdfVoxelPalette {
        self.palette
    }

    /// The snapshots that `undo` restores, the last one first.
    pub closed spec fn undo_snapshots(&self) -> Seq<Map<ChunkKey, Seq<SdfVoxel>>> {
        self.editor.undo_snapshots()
    }

    /// The snapshots that `redo` restores, the last one first.
    pub closed spec fn redo_snapshots(&self) -> Seq<Map<ChunkKey, Seq<SdfVoxel>>> {
        self.editor.redo_snapshots()
    }

    /// The chunks captured so far for the edit in progress.
    pub closed spec fn current_snapshot(&self) -> Map<ChunkKey, Seq<SdfVoxel>> {
        self.editor.current_snapshot()
    }

    /// An empty world over `palette`.
    pub fn new(palette: SdfVoxelPalette) -> (r: Self)
        requires
            palette.wf(),
        ensures
            r.wf(),
            r.map_view() == Map::<ChunkKey, Seq<SdfVoxel>>::empty(),
            r.overlay_view() == Map::<ChunkKey, Seq<SdfVoxel>>::empty(),
            r.palette_view() == palette,
            r.undo_snapshots().len() == 0,
            r.redo_snapshots().len() == 0,
            r.current_snapshot() == Map::<ChunkKey, Seq<SdfVoxel>>::empty(),
    {
        let r = VoxelWorld {
            map: ChunkMap::new(),
            editor: SnapshottingVoxelEditor::new(),
            index: VoxelBVT::new(),
            palette,
            empty_queue: Vec::new(),
        };
        proof {
            assert forall|k: ChunkKey| #[trigger] r.index@.contains_key(k) == chunk_occupied(
                r.palette,
                chunk_content(r.map@, k),
            ) && (r.index@.contains_key(k) ==> r.index@[k] == crate::spatial_index::occupancy_of(
                r.palette,
                chunk_content(r.map@, k),
            )) by {
                if chunk_occupied(r.palette, chunk_content(r.map@, k)) {
                    let j = choose|j: int|
                        0 <= j < chunk_content(r.map@, k).len() && !r.palette.is_empty_type(
                            #[trigger] chunk_content(r.map@, k)[j],
                        );
                    assert(chunk_content(r.map@, k)[j] == crate::voxel::empty_voxel());
                }
            }
        }
        r
    }

    pub fn palette(&self) -> (r: &SdfVoxelPalette)
        ensures
            *r == self.palette_view(),
    {
        &self.palette
    }

    /// Read access to the authoritative map, for parallel readers.
    pub fn map(&self) -> (r: &ChunkMap)
        requires
            self.wf(),
        ensures
            r@ == self.map_view(),
            r.wf(),
    {
        &self.map
    }

    pub fn undo_len(&self) -> (r: usize)
        ensures
            r == self.undo_snapshots().len(),
    {
        self.editor.timeline.undo_len()
    }

    pub fn redo_len(&self) -> (r: usize)
        ensures
            r == self.redo_snapshots().len(),
    {
        self.editor.timeline.redo_len()
    }

    /// The voxel at `p` as the authoritative map reads it.
    pub fn get_voxel(&self, p: Point3i) -> (r: SdfVoxel)
        requires
            self.wf(),
        ensures
            r == voxel_at(self.map_view(), p),
    {
        self.map.get_voxel(p)
    }

    /// Edits every voxel of `extent` with `f`, out of place, as part of the
    /// logical edit in progress: first captures for undo the chunks that the
    /// extent touches and the edit has not captured yet, then marks them and
    /// their neighbors dirty.
    pub fn edit_extent_and_touch_neighbors<F: Fn(Point3i, SdfVoxel) -> SdfVoxel>(
        &mut self,
        extent: &Extent3i,
        f: F,
    )
        requires
            old(self).wf(),
            extent.wf(),
            forall|p: Point3i, v: SdfVoxel| #[trigger] f.requires((p, v)),
        ensures
            final(self).wf(),
            final(self).map_view() == old(self).map_view(),
            final(self).undo_snapshots() == old(self).undo_snapshots(),
            final(self).redo_snapshots() == old(self).redo_snapshots(),
            final(self).current_snapshot() == old(self).current_snapshot().union_prefer_right(
                capture(
                    old(self).overlay_view(),
                    old(self).map_view(),
                    Set::new(|k: ChunkKey| extent.intersects_chunk(k)).difference(
                        old(self).current_snapshot().dom(),
                    ),
                ),
            ),
            forall|k: ChunkKey|
                #[trigger] final(self).overlay_view().contains_key(k) <==> old(self).overlay_view().contains_key(k)
                    || extent.intersects_chunk(k),
            forall|p: Point3i|
                #[trigger] extent.contains_spec(p) ==> f.ensures(
                    (p, buffered_voxel(old(self).overlay_view(), old(self).map_view(), p)),
                    buffered_voxel(final(self).overlay_view(), final(self).map_view(), p),
                ),
            forall|p: Point3i|
                !extent.contains_spec(p) ==> #[trigger] buffered_voxel(final(self).overlay_view(), final(self).map_view(), p)
                    == buffered_voxel(old(self).overlay_view(), old(self).map_view(), p),
            forall|k: ChunkKey|
                #[trigger] final(self).pending_dirty().contains(k) <==> old(self).pending_dirty().contains(k)
                    || extent.padded_by_chunk().intersects_chunk(k),
    {
        self.editor.edit_extent_and_touch_neighbors(&self.map, extent, f);
    }

    /// Ends the logical edit in progress, making it one undoable step and
    /// clearing what could be redone.
    pub fn finish_edit(&mut self)
        requires
            old(self).wf(),
        ensures
            final(self).wf(),
            final(self).map_view() == old(self).map_view(),
            final(self).overlay_view() == old(self).overlay_view(),
            final(self).pending_dirty() == old(self).pending_dirty(),
            final(self).undo_snapshots() == old(self).undo_snapshots().push(old(self).current_snapshot()),
            final(self).redo_snapshots().len() == 0,
            final(self).current_snapshot() == Map::<ChunkKey, Seq<SdfVoxel>>::empty(),
    {
        self.editor.finish_edit();
    }

    /// Undoes the last logical edit, out of place like an edit: its
    /// snapshot is written over this frame's buffer, the restored chunks'
    /// neighbors are marked dirty, and what those chunks read before goes
    /// onto the redo stack. Nothing happens when there is nothing to undo.
    pub fn undo(&mut self)
        requires
            old(self).wf(),
        ensures
            final(self).wf(),
            final(self).map_view() == old(self).map_view(),
            final(self).current_snapshot() == old(self).current_snapshot(),
            old(self).undo_snapshots().len() == 0 ==> final(self).overlay_view() == old(self).overlay_view()
                && final(self).pending_dirty() == old(self).pending_dirty()
                && final(self).undo_snapshots() == old(self).undo_snapshots()
                && final(self).redo_snapshots() == old(self).redo_snapshots(),
            old(self).undo_snapshots().len() > 0 ==> {
                let s = old(self).undo_snapshots().last();
                &&& final(self).undo_snapshots() == old(self).undo_snapshots().drop_last()
                &&& final(self).redo_snapshots() == old(self).redo_snapshots().push(
                    capture(old(self).overlay_view(), old(self).map_view(), s.dom()),
                )
                &&& final(self).overlay_view() == old(self).overlay_view().union_prefer_right(s)
                &&& final(self).pending_dirty().subset_of(old(self).pending_dirty() + s.dom() + neighbors_of(s.dom()))
                &&& neighbors_of(s.dom()).subset_of(final(self).pending_dirty())
            },
    {
        self.editor.undo(&self.map);
    }

    /// Redoes the last undone edit, the mirror of [`VoxelWorld::undo`];
    /// nothing happens when there is none.
    pub fn redo(&mut self)
        requires
            old(self).wf(),
        ensures
            final(self).wf(),
            final(self).map_view() == old(self).map_view(),
            final(self).current_snapshot() == old(self).current_snapshot(),
            old(self).redo_snapshots().len() == 0 ==> final(self).overlay_view() == old(self).overlay_view()
                && final(self).pending_dirty() == old(self).pending_dirty()
                && final(self).undo_snapshots() == old(self).undo_snapshots()
                && final(self).redo_snapshots() == old(self).redo_snapshots(),
            old(self).redo_snapshots().len() > 0 ==> {
                let s = old(self).redo_snapshots().last();
                &&& final(self).redo_snapshots() == old(self).redo_snapshots().drop_last()
                &&& final(self).undo_snapshots() == old(self).undo_snapshots().push(
                    capture(old(self).overlay_view(), old(self).map_view(), s.dom()),
                )
                &&& final(self).overlay_view() == old(self).overlay_view().union_prefer_right(s)
                &&& final(self).pending_dirty().subset_of(old(self).pending_dirty() + s.dom() + neighbors_of(s.dom()))
                &&& neighbors_of(s.dom()).subset_of(final(self).pending_dirty())
            },
    {
        self.editor.redo(&self.map);
    }

    /// The maintenance pass that ends a frame, in this order: the workers'
    /// read caches are flushed into the map; the chunks queued for
    /// reclamation are removed, but for those this frame's edits write or
    /// mark dirty; the edits are merged; chunks beyond `max_decompressed` are
    /// compressed, least recently written first; the index entries of the
    /// dirty chunks are rebuilt, and those found empty that read exactly as
    /// the ambient chunk are queued. Reclamation thus never changes what the
    /// map reads. Returns the dirty keys.
    pub fn end_of_frame(&mut self, caches: &mut Vec<ChunkTable>, max_decompressed: usize) -> (dirty: Vec<ChunkKey>)
        requires
            old(self).wf(),
            forall|i: int|
                0 <= i < old(caches)@.len() ==> (#[trigger] old(caches)@[i]).wf() && cache_agrees(
                    old(caches)@[i]@,
                    old(self).map_view(),
                ),
        ensures
            final(self).wf(),
            final(self).map_view() == old(self).map_view().remove_keys(
                old(self).queued_empty().difference(old(self).pending_dirty()),
            ).union_prefer_right(old(self).overlay_view()),
            same_content(final(self).map_view(), old(self).map_view().union_prefer_right(old(self).overlay_view())),
            final(self).overlay_view() == Map::<ChunkKey, Seq<SdfVoxel>>::empty(),
            dirty@.no_duplicates(),
            forall|k: ChunkKey| #[trigger] dirty@.contains(k) <==> old(self).pending_dirty().contains(k),
            final(caches)@.len() == old(caches)@.len(),
            forall|i: int|
                0 <= i < final(caches)@.len() ==> (#[trigger] final(caches)@[i]).wf() && final(caches)@[i]@
                    == Map::<ChunkKey, Seq<SdfVoxel>>::empty(),
            final(self).undo_snapshots() == old(self).undo_snapshots(),
            final(self).redo_snapshots() == old(self).redo_snapshots(),
            final(self).current_snapshot() == old(self).current_snapshot(),
    {
        // Flush every worker's cache.
        let no_keys: Vec<ChunkKey> = Vec::new();
        let mut i: usize = 0;
        while i < caches.len()
            invariant
                self.map.wf(),
                self.map@ == old(self).map@,
                self.map.wf(),
                caches@.len() == old(caches)@.len(),
                no_keys@.len() == 0,
                i <= caches@.len(),
                forall|j: int| 0 <= j < caches@.len() ==> (#[trigger] caches@[j]).wf(),
                forall|j: int| 0 <= j < i ==> (#[trigger] caches@[j])@ == Map::<ChunkKey, Seq<SdfVoxel>>::empty(),
                forall|j: int| i <= j < caches@.len() ==> cache_agrees((#[trigger] caches@[j])@, self.map@),
                self.editor == old(self).editor,
                self.index == old(self).index,
                self.palette == old(self).palette,
                self.empty_queue == old(self).empty_queue,
            decreases caches@.len() - i,
        {
            let mut cache = ChunkTable::new();
            caches.set_and_swap(i, &mut cache);
            assert(cache_agrees(cache@, self.map@));
            self.map.flush_local_cache(&mut cache, &no_keys);
            caches.set_and_swap(i, &mut cache);
            i += 1;
        }
        // Reclaim the chunks found empty, unless this frame edits them.
        let ghost m0 = self.map@;
        let ghost reclaimed = self.empty_queue@.to_set().difference(self.editor.buffer.dirty_keys());
        reclaim_empty_chunks(&mut self.map, &self.empty_queue, &self.editor.buffer);
        proof {
            lemma_ambient_unoccupied(self.palette);
            lemma_reclaim_keeps_index_consistent(self.index@, m0, self.palette, reclaimed);
        }
        // Merge this frame's edits.
        let ghost m1 = self.map@;
        let ghost idx1 = self.index@;
        let dirty = self.editor.buffer.merge_into(&mut self.map);
        // Compress what exceeds the budget.
        self.map.compress_least_recently_used(max_decompressed);
        // Rebuild the index entries of the dirty chunks.
        let empty = self.index.update_chunks(&self.map, &self.palette, &dirty);
        proof {
            lemma_index_consistent_after_update(idx1, self.index@, m1, self.map@, self.palette, dirty@.to_set());
        }
        let mut queue: Vec<ChunkKey> = Vec::new();
        let mut j: usize = 0;
        while j < empty.len()
            invariant
                self.map.wf(),
                j <= empty@.len(),
                forall|k: ChunkKey| #[trigger] queue@.contains(k) ==> chunk_content(self.map@, k) == ambient_chunk(),
            decreases empty@.len() - j,
        {
            let k = empty[j];
            let ambient = self.map.reads_ambient(k);
            if ambient {
                let ghost before = queue@;
                queue.push(k);
                proof {
                    assert forall|q: ChunkKey| #[trigger] queue@.contains(q) implies chunk_content(self.map@, q)
                        == ambient_chunk() by {
                        if q != k {
                            let n = choose|n: int| 0 <= n < queue@.len() && queue@[n] == q;
                            assert(before[n] == q);
                            assert(before.contains(q));
                        }
                    }
                }
            }
            j += 1;
        }
        self.empty_queue = queue;
        proof {
            let target = old(self).map_view().union_prefer_right(old(self).overlay_view());
            assert forall|k: ChunkKey| #[trigger] chunk_content(self.map@, k) == chunk_content(target, k) by {
                if old(self).empty_queue@.contains(k) {
                    assert(chunk_content(old(self).map@, k) == ambient_chunk());
                }
            }
        }
        dirty
    }

    /// The index of the first point of `path` whose voxel is of a non-empty
    /// type, found through the spatial index.
    pub fn cast_ray(&self, path: &Vec<Point3i>) -> (r: Option<usize>)
        requires
            self.wf(),
        ensures
            r == first_hit(self.map_view(), self.palette_view(), path@),
    {
        self.index.cast_ray(&self.map, &self.palette, path)
    }

    /// The mesh of each chunk of `keys`, in order, as the map reads now:
    /// `None` for a chunk whose surface has no quad, so that any mesh it had
    /// is removed, and for a key outside the coordinate bounds, which no
    /// edit reaches.
    pub fn generate_meshes(&self, keys: &Vec<ChunkKey>) -> (r: Vec<(ChunkKey, Option<ChunkMeshData>)>)
        requires
            self.wf(),
        ensures
            r@.len() == keys@.len(),
            forall|i: int|
                0 <= i < r@.len() ==> {
                    let (k, m) = #[trigger] r@[i];
                    &&& k == keys@[i]
                    &&& m.is_none() <==> !k.in_bounds() || !has_crossing(padded_samples(self.map_view(), k))
                    &&& m.is_some() ==> mesh_of(self.map_view(), self.palette_view(), k, m.unwrap())
                },
    {
        let mut out: Vec<(ChunkKey, Option<ChunkMeshData>)> = Vec::new();
        let mut i: usize = 0;
        while i < keys.len()
            invariant
                self.wf(),
                i <= keys@.len(),
                out@.len() == i,
                forall|j: int|
                    0 <= j < i ==> {
                        let (k, m) = #[trigger] out@[j];
                        &&& k == keys@[j]
                        &&& m.is_none() <==> !k.in_bounds() || !has_crossing(padded_samples(self.map_view(), k))
                        &&& m.is_some() ==> mesh_of(self.map_view(), self.palette_view(), k, m.unwrap())
                    },
            decreases keys@.len() - i,
        {
            let k = keys[i];
            if key_in_bounds(k) {
                let mesh = generate_chunk_mesh(&self.map, &self.palette, k);
                out.push((k, mesh));
            } else {
                out.push((k, None));
            }
            i += 1;
        }
        out
    }
}

} // verus!
