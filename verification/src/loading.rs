use vstd::prelude::*;
use vstd::seq_lib::*;
use crate::chunk_manager::{ChangeEntry, ChunkManager};
use crate::coords::{chunk_coord, local_coord};
use crate::column::ChunkColumn;
use crate::discovery::iabs;
use crate::meshing::spec_listed_prefix;
use crate::upload::UploadQueue;

verus! {

/// A column in the state generation expects to receive: sixteen empty
/// chunks with no pipeline progress, a zeroed heightmap and no foliage.
pub open spec fn spec_column_reset(c: ChunkColumn) -> bool {
    &&& c.spec_chunks().len() == 16
    &&& forall|i: int|
        0 <= i < 16 ==> (#[trigger] c.spec_chunks()[i]).spec_blocks() == Seq::new(
            4096,
            |j: int| crate::block::BlockID::Air,
        )
    &&& forall|i: int|
        0 <= i < 16 ==> !(#[trigger] c.spec_chunks()[i]).is_generated
            && !c.spec_chunks()[i].is_uploaded_to_gpu
    &&& forall|i: int| 0 <= i < 256 ==> (#[trigger] c.spec_heights()[i]) == 0
    &&& !c.has_foliage
}

/// The chunk at vertical index `y` of column (a, b) lies beyond the
/// render distance from the viewer's chunk on some axis.
pub open spec fn spec_chunk_far(
    cx: i32,
    cy: i32,
    cz: i32,
    rd: i32,
    a: i32,
    y: int,
    b: i32,
) -> bool {
    iabs(a as int - cx as int) > rd || iabs(y - cy as int) > rd || iabs(b as int - cz as int) > rd
}

/// The chunk kept its world data and generation progress but its GPU
/// resources were released.
pub open spec fn spec_chunk_released(c1: crate::chunk::Chunk, c0: crate::chunk::Chunk) -> bool {
    &&& c1.same_arrays(c0)
    &&& c1.is_generated == c0.is_generated
    &&& !c1.is_uploaded_to_gpu
    &&& c1.vao == 0
    &&& c1.vertices_drawn == 0
}

/// The column kept all its data (blocks, mesh, heightmap, foliage,
/// generation progress); only per-chunk GPU state may have been
/// released.
pub open spec fn spec_column_released(c1: ChunkColumn, c0: ChunkColumn) -> bool {
    &&& c1.spec_heights() == c0.spec_heights()
    &&& c1.has_foliage == c0.has_foliage
    &&& c1.spec_chunks().len() == 16
    &&& c0.spec_chunks().len() == 16
    &&& forall|y: int|
        0 <= y < 16 ==> (#[trigger] c1.spec_chunks()[y]).same_arrays(c0.spec_chunks()[y])
            && c1.spec_chunks()[y].is_generated == c0.spec_chunks()[y].is_generated
}

/// How many of the first `n` listed columns lie beyond the horizontal
/// bound from the viewer's chunk.
pub open spec fn spec_count_far(
    coords: Seq<(i32, i32)>,
    cx: i32,
    cz: i32,
    bound: int,
    n: int,
) -> int
    decreases n,
{
    if n <= 0 {
        0
    } else {
        spec_count_far(coords, cx, cz, bound, n - 1) + if iabs(
            coords[n - 1].0 as int - cx as int,
        ) > bound || iabs(coords[n - 1].1 as int - cz as int) > bound {
            1int
        } else {
            0int
        }
    }
}

/// The count of distant columns is never negative and never exceeds
/// the prefix it was taken over.
pub proof fn lemma_count_far_bounds(coords: Seq<(i32, i32)>, cx: i32, cz: i32, bound: int, n: int)
    requires
        n >= 0,
    ensures
        0 <= spec_count_far(coords, cx, cz, bound, n) <= n,
    decreases n,
{
    if n > 0 {
        lemma_count_far_bounds(coords, cx, cz, bound, n - 1);
    }
}

/// The streaming coordinator's state: the reusable-buffer pool of
/// evicted columns, the prioritized upload queue, the configured view
/// radius and per-frame upload budget, and the flag that keeps at most
/// one expansion cycle in flight.
///
/// Each frame the coordinator evicts distant columns, hands reset
/// columns from the pool to generation, drains ready uploads under its
/// budget, and - when no expansion is running - walks one expansion
/// cycle: unloaded-column discovery, terrain synthesis, foliage
/// placement and meshing, each phase a verified function here while a
/// caller supplies the sampled noise the synthesis consumes.
pub struct ChunkLoading {
    pub chunk_column_pool: Vec<ChunkColumn>,
    pub chunk_upload_priority_queue: UploadQueue,
    pub render_distance: i32,
    pub uploads_per_frame: usize,
    pub expand_chunks: bool,
}

impl ChunkLoading {
    pub open spec fn wf(self) -> bool {
        &&& forall|i: int|
            0 <= i < self.chunk_column_pool@.len() ==> (
            #[trigger] self.chunk_column_pool@[i]).wf()
        &&& 0 <= self.render_distance <= 60
    }

    /// Set the coordinator up with a pool holding one column per cell
    /// of the full load box, so steady-state streaming rarely
    /// allocates.
    pub fn new(render_distance: i32, uploads_per_frame: usize) -> (r: ChunkLoading)
        requires
            0 <= render_distance <= 60,
        ensures
            r.wf(),
            r.render_distance == render_distance,
            r.uploads_per_frame == uploads_per_frame,
            r.expand_chunks == true,
            r.chunk_upload_priority_queue.spec_entries().len() == 0,
            r.chunk_column_pool@.len() == (2 * (render_distance + 2) + 1) * (2 * (
            render_distance + 2) + 1),
            forall|i: int|
                0 <= i < r.chunk_column_pool@.len() ==> spec_column_reset(
                    #[trigger] r.chunk_column_pool@[i],
                ),
    {
        let matrix_width = (2 * (render_distance + 2) + 1) as usize;
        proof {
            assert(matrix_width * matrix_width <= 16641) by (nonlinear_arith)
                requires
                    0 < matrix_width <= 129,
            ;
        }
        let reserved_columns = matrix_width * matrix_width;
        let mut pool: Vec<ChunkColumn> = Vec::new();
        let mut i: usize = 0;
        while i < reserved_columns
            invariant
                i <= reserved_columns,
                pool@.len() == i,
                forall|j: int|
                    0 <= j < i ==> (#[trigger] pool@[j]).wf() && spec_column_reset(pool@[j]),
            decreases reserved_columns - i,
        {
            pool.push(ChunkColumn::new());
            i = i + 1;
        }
        ChunkLoading {
            chunk_column_pool: pool,
            chunk_upload_priority_queue: UploadQueue::new(),
            render_distance,
            uploads_per_frame,
            expand_chunks: true,
        }
    }

    /// Claim the expansion slot.  At most one expansion cycle is ever
    /// in flight: the claim succeeds only when no cycle is running, and
    /// the flag doubles as backpressure until the cycle completes.
    pub fn try_begin_expansion(&mut self) -> (r: bool)
        requires
            old(self).wf(),
        ensures
            final(self).wf(),
            r == old(self).expand_chunks,
            !final(self).expand_chunks,
            final(self).chunk_column_pool == old(self).chunk_column_pool,
            final(self).chunk_upload_priority_queue == old(self).chunk_upload_priority_queue,
            final(self).render_distance == old(self).render_distance,
            final(self).uploads_per_frame == old(self).uploads_per_frame,
    {
        let r = self.expand_chunks;
        self.expand_chunks = false;
        r
    }

    /// Release the expansion slot when the cycle has run to completion;
    /// a cycle is never cancelled, only finished.
    pub fn finish_expansion(&mut self)
        requires
            old(self).wf(),
        ensures
            final(self).wf(),
            final(self).expand_chunks,
            final(self).chunk_column_pool == old(self).chunk_column_pool,
            final(self).chunk_upload_priority_queue == old(self).chunk_upload_priority_queue,
            final(self).render_distance == old(self).render_distance,
            final(self).uploads_per_frame == old(self).uploads_per_frame,
    {
        self.expand_chunks = true;
    }

    /// Fulfil one buffer request: recycle a pooled column, resetting
    /// its fields now (they were left stale at eviction), or allocate a
    /// fresh one when the pool has run dry.
    pub fn take_reset_column(&mut self) -> (c: ChunkColumn)
        requires
            old(self).wf(),
        ensures
            final(self).wf(),
            final(self).chunk_upload_priority_queue == old(self).chunk_upload_priority_queue,
            final(self).render_distance == old(self).render_distance,
            final(self).uploads_per_frame == old(self).uploads_per_frame,
            final(self).expand_chunks == old(self).expand_chunks,
            old(self).chunk_column_pool@.len() > 0 ==> final(self).chunk_column_pool@ == old(
                self,
            ).chunk_column_pool@.drop_last(),
            old(self).chunk_column_pool@.len() == 0 ==> final(self).chunk_column_pool@ == old(
                self,
            ).chunk_column_pool@,
            c.wf(),
            spec_column_reset(c),
    {
        match self.chunk_column_pool.pop() {
            Some(mut column) => {
                let mut i: usize = 0;
                while i < 16
                    invariant
                        column.wf(),
                        i <= 16,
                        forall|j: int|
                            0 <= j < i ==> (#[trigger] column.spec_chunks()[j]).spec_blocks()
                                == Seq::new(4096, |k: int| crate::block::BlockID::Air)
                                && !column.spec_chunks()[j].is_generated
                                && !column.spec_chunks()[j].is_uploaded_to_gpu,
                    decreases 16 - i,
                {
                    let mut chunk = column.chunks.remove(i);
                    chunk.reset();
                    column.chunks.insert(i, chunk);
                    proof {
                        assert(column.chunks@.len() == 16);
                    }
                    i = i + 1;
                }
                let mut j: usize = 0;
                while j < 256
                    invariant
                        column.wf(),
                        j <= 256,
                        forall|k: int|
                            0 <= k < 16 ==> (#[trigger] column.spec_chunks()[k]).spec_blocks()
                                == Seq::new(4096, |l: int| crate::block::BlockID::Air)
                                && !column.spec_chunks()[k].is_generated
                                && !column.spec_chunks()[k].is_uploaded_to_gpu,
                        forall|k: int| 0 <= k < j ==> (#[trigger] column.spec_heights()[k]) == 0,
                    decreases 256 - j,
                {
                    column.highest_blocks.set(j, 0);
                    j = j + 1;
                }
                column.has_foliage = false;
                column
            },
            None => ChunkColumn::new(),
        }
    }

    /// Pop at most the per-frame budget of upload requests, highest
    /// priority first; the caller performs the actual uploads (they
    /// must run on the thread that owns the GPU context) and then marks
    /// each chunk uploaded.
    pub fn pop_uploads(&mut self) -> (r: Vec<(i32, (i32, i32, i32))>)
        requires
            old(self).wf(),
        ensures
            final(self).wf(),
            final(self).chunk_column_pool == old(self).chunk_column_pool,
            final(self).render_distance == old(self).render_distance,
            final(self).uploads_per_frame == old(self).uploads_per_frame,
            final(self).expand_chunks == old(self).expand_chunks,
            r@.len() == vstd::math::min(
                old(self).uploads_per_frame as int,
                old(self).chunk_upload_priority_queue.spec_entries().len() as int,
            ),
            final(self).chunk_upload_priority_queue.spec_entries().len()
                == old(self).chunk_upload_priority_queue.spec_entries().len() - r@.len(),
            r@.to_multiset().add(final(self).chunk_upload_priority_queue.spec_entries()
                .to_multiset()) == old(self).chunk_upload_priority_queue.spec_entries()
                .to_multiset(),
            forall|i: int, j: int| 0 <= i < j < r@.len() ==> (#[trigger] r@[i]).0 >= (#[trigger] r@[j]).0,
            forall|i: int, j: int|
                0 <= i < r@.len() && 0 <= j < final(self).chunk_upload_priority_queue.spec_entries().len()
                    ==> (#[trigger] r@[i]).0
                    >= (#[trigger] final(self).chunk_upload_priority_queue.spec_entries()[j]).0,
    {
        let mut r: Vec<(i32, (i32, i32, i32))> = Vec::new();
        proof {
            r@.to_multiset_ensures();
            assert forall|e: (i32, (i32, i32, i32))| true implies #[trigger] r@.to_multiset()
                .count(e) == 0 by {
                if r@.to_multiset().count(e) > 0 {
                    assert(r@.contains(e));
                }
            }
            assert(r@.to_multiset().add(
                self.chunk_upload_priority_queue.spec_entries().to_multiset(),
            ) =~= self.chunk_upload_priority_queue.spec_entries().to_multiset());
        }
        let mut n: usize = 0;
        while n < self.uploads_per_frame
            invariant
                self.wf(),
                self.chunk_column_pool == old(self).chunk_column_pool,
                self.render_distance == old(self).render_distance,
                self.uploads_per_frame == old(self).uploads_per_frame,
                self.expand_chunks == old(self).expand_chunks,
                n <= self.uploads_per_frame,
                r@.len() == n || (r@.len() < n
                    && self.chunk_upload_priority_queue.spec_entries().len() == 0 && r@.len()
                    == old(self).chunk_upload_priority_queue.spec_entries().len()),
                self.chunk_upload_priority_queue.spec_entries().len() == old(
                    self,
                ).chunk_upload_priority_queue.spec_entries().len() - r@.len(),
                r@.to_multiset().add(self.chunk_upload_priority_queue.spec_entries()
                    .to_multiset()) == old(self).chunk_upload_priority_queue.spec_entries()
                    .to_multiset(),
                forall|i: int, j: int|
                    0 <= i < j < r@.len() ==> (#[trigger] r@[i]).0 >= (#[trigger] r@[j]).0,
                forall|i: int, j: int|
                    0 <= i < r@.len() && 0 <= j
                        < self.chunk_upload_priority_queue.spec_entries().len() ==> (
                    #[trigger] r@[i]).0 >= (
                    #[trigger] self.chunk_upload_priority_queue.spec_entries()[j]).0,
            decreases self.uploads_per_frame - n,
        {
            let ghost q_old = self.chunk_upload_priority_queue.spec_entries();
            let ghost r_old = r@;
            match self.chunk_upload_priority_queue.pop_max() {
                Some(e) => {
                    proof {
                        let i = choose|i: int|
                            0 <= i < q_old.len() && q_old[i] == e
                                && self.chunk_upload_priority_queue.spec_entries() == q_old.remove(
                                i,
                            );
                        q_old.to_multiset_ensures();
                        r_old.to_multiset_ensures();
                        assert(self.chunk_upload_priority_queue.spec_entries().to_multiset()
                            =~= q_old.to_multiset().remove(e));
                        assert(r_old.push(e).to_multiset() =~= r_old.to_multiset().insert(e));
                        assert(q_old.to_multiset().count(e) > 0) by {
                            assert(q_old.contains(e));
                        }
                        assert(r_old.to_multiset().insert(e).add(
                            q_old.to_multiset().remove(e),
                        ) =~= r_old.to_multiset().add(q_old.to_multiset()));
                        assert forall|j: int|
                            0 <= j < self.chunk_upload_priority_queue.spec_entries().len() implies
                            e.0 >= (
                        #[trigger] self.chunk_upload_priority_queue.spec_entries()[j]).0 by {
                            if j < i {
                                assert(self.chunk_upload_priority_queue.spec_entries()[j]
                                    == q_old[j]);
                            } else {
                                assert(self.chunk_upload_priority_queue.spec_entries()[j]
                                    == q_old[j + 1]);
                            }
                        }
                    }
                    r.push(e);
                },
                None => {
                    proof {
                        assert(r@.len() == old(
                            self,
                        ).chunk_upload_priority_queue.spec_entries().len());
                    }
                },
            }
            n = n + 1;
        }
        proof {
            if r@.len() < old(self).chunk_upload_priority_queue.spec_entries().len() {
                assert(r@.len() == self.uploads_per_frame as int);
            }
        }
        r
    }

    /// Evict what lies beyond the view.  Any chunk farther than the
    /// render distance from the viewer's chunk on some axis loses its
    /// GPU resources at once; any column farther than the render
    /// distance plus two horizontally is removed from the map and its
    /// buffer returned to the pool, its contents left to be reset on
    /// reuse.
    #[verifier::rlimit(80)]
    pub fn evict_distant(
        &mut self,
        chunk_manager: &mut ChunkManager,
        chunk_x: i32,
        chunk_y: i32,
        chunk_z: i32,
    )
        requires
            old(self).wf(),
            old(chunk_manager).wf(),
            -2_000_000 <= chunk_x <= 2_000_000,
            -2_000_000 <= chunk_y <= 2_000_000,
            -2_000_000 <= chunk_z <= 2_000_000,
        ensures
            final(self).wf(),
            final(chunk_manager).wf(),
            final(self).chunk_upload_priority_queue == old(self).chunk_upload_priority_queue,
            final(self).render_distance == old(self).render_distance,
            final(self).uploads_per_frame == old(self).uploads_per_frame,
            final(self).expand_chunks == old(self).expand_chunks,
            // every column beyond render_distance + 2 is gone
            forall|a: i32, b: i32|
                (iabs(a as int - chunk_x as int) > old(self).render_distance + 2 || iabs(
                    b as int - chunk_z as int,
                ) > old(self).render_distance + 2) ==> !(#[trigger] final(chunk_manager).spec_has_column(
                    a,
                    b,
                )),
            // nearby columns stay loaded
            forall|a: i32, b: i32|
                iabs(a as int - chunk_x as int) <= old(self).render_distance + 2 && iabs(
                    b as int - chunk_z as int,
                ) <= old(self).render_distance + 2 ==> #[trigger] final(chunk_manager).spec_has_column(
                    a,
                    b,
                ) == old(chunk_manager).spec_has_column(a, b),
            // kept columns keep their data; chunks beyond the render
            // distance on some axis have their GPU resources released,
            // nearer chunks are untouched
            forall|a: i32, b: i32|
                #[trigger] final(chunk_manager).spec_has_column(a, b) ==> {
                    let c1 = final(chunk_manager).spec_column_at(a, b);
                    let c0 = old(chunk_manager).spec_column_at(a, b);
                    &&& c1.spec_heights() == c0.spec_heights()
                    &&& c1.has_foliage == c0.has_foliage
                    &&& forall|y: int|
                        0 <= y < 16 ==> if spec_chunk_far(
                            chunk_x,
                            chunk_y,
                            chunk_z,
                            old(self).render_distance,
                            a,
                            y,
                            b,
                        ) {
                            spec_chunk_released(
                                #[trigger] c1.spec_chunks()[y],
                                c0.spec_chunks()[y],
                            )
                        } else {
                            c1.spec_chunks()[y] == c0.spec_chunks()[y]
                        }
                },
            final(chunk_manager).spec_changelist() == old(chunk_manager).spec_changelist(),
            // the pool grows by exactly the removed columns, data intact
            forall|i: int|
                0 <= i < old(self).chunk_column_pool@.len() ==> final(self).chunk_column_pool@[i]
                    == old(self).chunk_column_pool@[i],
            final(self).chunk_column_pool@.len() == old(self).chunk_column_pool@.len()
                + spec_count_far(
                old(chunk_manager).spec_coords(),
                chunk_x,
                chunk_z,
                old(self).render_distance + 2,
                old(chunk_manager).spec_coords().len() as int,
            ),
            forall|a: i32, b: i32|
                (iabs(a as int - chunk_x as int) > old(self).render_distance + 2 || iabs(
                    b as int - chunk_z as int,
                ) > old(self).render_distance + 2) && #[trigger] old(chunk_manager).spec_has_column(
                    a,
                    b,
                ) ==> exists|k: int|
                    old(self).chunk_column_pool@.len() <= k < final(self).chunk_column_pool@.len()
                        && spec_column_released(
                        #[trigger] final(self).chunk_column_pool@[k],
                        old(chunk_manager).spec_column_at(a, b),
                    ),
    {
        let rd = self.render_distance;
        // release GPU resources of chunks beyond the render distance
        let coords = chunk_manager.loaded_coords();
        let mut i: usize = 0;
        while i < coords.len()
            invariant
                self.wf(),
                chunk_manager.wf(),
                old(chunk_manager).wf(),
                -2_000_000 <= chunk_x <= 2_000_000,
                -2_000_000 <= chunk_y <= 2_000_000,
                -2_000_000 <= chunk_z <= 2_000_000,
                rd == self.render_distance,
                i <= coords@.len(),
                coords@ == old(chunk_manager).spec_coords(),
                chunk_manager.spec_coords() == old(chunk_manager).spec_coords(),
                forall|a: i32, b: i32| #[trigger]
                    chunk_manager.spec_has_column(a, b) == old(chunk_manager).spec_has_column(
                        a,
                        b,
                    ),
                forall|a: i32, b: i32|
                    #[trigger] chunk_manager.spec_has_column(a, b) ==> {
                        let c1 = chunk_manager.spec_column_at(a, b);
                        let c0 = old(chunk_manager).spec_column_at(a, b);
                        &&& c1.spec_heights() == c0.spec_heights()
                        &&& c1.has_foliage == c0.has_foliage
                        &&& forall|y2: int|
                            0 <= y2 < 16 ==> ((#[trigger] c1.spec_chunks()[y2]).same_arrays(
                                c0.spec_chunks()[y2],
                            ) && c1.spec_chunks()[y2].is_generated == c0.spec_chunks()[y2]
                                .is_generated) && (!spec_chunk_far(
                                chunk_x,
                                chunk_y,
                                chunk_z,
                                rd,
                                a,
                                y2,
                                b,
                            ) ==> c1.spec_chunks()[y2] == c0.spec_chunks()[y2])
                    },
                forall|j: int, y2: int|
                    #![trigger coords@[j], chunk_manager.spec_column_at(coords@[j].0, coords@[j].1).spec_chunks()[y2]]
                    0 <= j < i && 0 <= y2 < 16 && spec_chunk_far(
                        chunk_x,
                        chunk_y,
                        chunk_z,
                        rd,
                        coords@[j].0,
                        y2,
                        coords@[j].1,
                    ) ==> spec_chunk_released(
                        chunk_manager.spec_column_at(
                            coords@[j].0,
                            coords@[j].1,
                        ).spec_chunks()[y2],
                        old(chunk_manager).spec_column_at(coords@[j].0, coords@[j].1)
                            .spec_chunks()[y2],
                    ),
                chunk_manager.spec_changelist() == old(chunk_manager).spec_changelist(),
                self.chunk_column_pool == old(self).chunk_column_pool,
                self.chunk_upload_priority_queue == old(self).chunk_upload_priority_queue,
                self.uploads_per_frame == old(self).uploads_per_frame,
                self.expand_chunks == old(self).expand_chunks,
            decreases coords@.len() - i,
        {
            let (a, b) = coords[i];
            let dxl = a as i64 - chunk_x as i64;
            let dzl = b as i64 - chunk_z as i64;
            let far_col = dxl > rd as i64 || dxl < -(rd as i64) || dzl > rd as i64 || dzl < -(
            rd as i64);
            let mut y: i32 = 0;
            while y < 16
                invariant
                    self.wf(),
                    chunk_manager.wf(),
                    old(chunk_manager).wf(),
                    -2_000_000 <= chunk_x <= 2_000_000,
                    -2_000_000 <= chunk_y <= 2_000_000,
                    -2_000_000 <= chunk_z <= 2_000_000,
                    rd == self.render_distance,
                    i < coords@.len(),
                    (a, b) == coords@[i as int],
                    far_col == (iabs(a as int - chunk_x as int) > rd || iabs(
                        b as int - chunk_z as int,
                    ) > rd),
                    0 <= y <= 16,
                    coords@ == old(chunk_manager).spec_coords(),
                    chunk_manager.spec_coords() == old(chunk_manager).spec_coords(),
                    forall|a2: i32, b2: i32| #[trigger]
                        chunk_manager.spec_has_column(a2, b2) == old(
                            chunk_manager,
                        ).spec_has_column(a2, b2),
                    forall|a2: i32, b2: i32|
                        #[trigger] chunk_manager.spec_has_column(a2, b2) ==> {
                            let c1 = chunk_manager.spec_column_at(a2, b2);
                            let c0 = old(chunk_manager).spec_column_at(a2, b2);
                            &&& c1.spec_heights() == c0.spec_heights()
                            &&& c1.has_foliage == c0.has_foliage
                            &&& forall|y2: int|
                                0 <= y2 < 16 ==> ((#[trigger] c1.spec_chunks()[y2]).same_arrays(
                                    c0.spec_chunks()[y2],
                                ) && c1.spec_chunks()[y2].is_generated == c0.spec_chunks()[y2]
                                    .is_generated) && (!spec_chunk_far(
                                    chunk_x,
                                    chunk_y,
                                    chunk_z,
                                    rd,
                                    a2,
                                    y2,
                                    b2,
                                ) ==> c1.spec_chunks()[y2] == c0.spec_chunks()[y2])
                        },
                    forall|j: int, y2: int|
                        #![trigger coords@[j], chunk_manager.spec_column_at(coords@[j].0, coords@[j].1).spec_chunks()[y2]]
                        0 <= j < coords@.len() && 0 <= y2 < 16 && (j < i || (j == i && y2 < y))
                            && spec_chunk_far(
                            chunk_x,
                            chunk_y,
                            chunk_z,
                            rd,
                            coords@[j].0,
                            y2,
                            coords@[j].1,
                        ) ==> spec_chunk_released(
                            chunk_manager.spec_column_at(
                                coords@[j].0,
                                coords@[j].1,
                            ).spec_chunks()[y2],
                            old(chunk_manager).spec_column_at(coords@[j].0, coords@[j].1)
                                .spec_chunks()[y2],
                        ),
                    chunk_manager.spec_changelist() == old(chunk_manager).spec_changelist(),
                    self.chunk_column_pool == old(self).chunk_column_pool,
                    self.chunk_upload_priority_queue == old(self).chunk_upload_priority_queue,
                    self.uploads_per_frame == old(self).uploads_per_frame,
                    self.expand_chunks == old(self).expand_chunks,
                decreases 16 - y,
            {
                let dyl = y as i64 - chunk_y as i64;
                let far = far_col || dyl > rd as i64 || dyl < -(rd as i64);
                if far {
                    let ghost mc_pre = *chunk_manager;
                    match chunk_manager.get_chunk(a, y, b) {
                        Some(c) => {
                            let generated = c.is_generated;
                            chunk_manager.set_chunk_gpu_state(a, y, b, generated, false, 0, 0);
                            proof {
                                let key = crate::chunk_manager::spec_column_key(a, b);
                                assert forall|a2: i32, b2: i32| #[trigger]
                                    chunk_manager.spec_has_column(a2, b2) == old(
                                        chunk_manager,
                                    ).spec_has_column(a2, b2) by {
                                    assert(chunk_manager.spec_columns().dom()
                                        == mc_pre.spec_columns().dom());
                                    assert(mc_pre.spec_has_column(a2, b2) == old(
                                        chunk_manager,
                                    ).spec_has_column(a2, b2));
                                }
                                assert forall|a2: i32, b2: i32|
                                    #[trigger] chunk_manager.spec_has_column(a2, b2) implies {
                                    let c1 = chunk_manager.spec_column_at(a2, b2);
                                    let c0 = old(chunk_manager).spec_column_at(a2, b2);
                                    &&& c1.spec_heights() == c0.spec_heights()
                                    &&& c1.has_foliage == c0.has_foliage
                                    &&& forall|y2: int|
                                        0 <= y2 < 16 ==> ((
                                        #[trigger] c1.spec_chunks()[y2]).same_arrays(
                                            c0.spec_chunks()[y2],
                                        ) && c1.spec_chunks()[y2].is_generated
                                            == c0.spec_chunks()[y2].is_generated) && (
                                        !spec_chunk_far(
                                            chunk_x,
                                            chunk_y,
                                            chunk_z,
                                            rd,
                                            a2,
                                            y2,
                                            b2,
                                        ) ==> c1.spec_chunks()[y2] == c0.spec_chunks()[y2])
                                } by {
                                    let k2 = crate::chunk_manager::spec_column_key(a2, b2);
                                    assert(mc_pre.spec_has_column(a2, b2));
                                    if k2 == key {
                                        crate::chunk_manager::lemma_column_key_injective(
                                            a2,
                                            b2,
                                            a,
                                            b,
                                        );
                                        assert(spec_chunk_far(
                                            chunk_x,
                                            chunk_y,
                                            chunk_z,
                                            rd,
                                            a,
                                            y as int,
                                            b,
                                        ));
                                    } else {
                                        assert(chunk_manager.spec_columns()[k2]
                                            == mc_pre.spec_columns()[k2]);
                                    }
                                }
                                assert forall|j: int, y2: int|
                                    #![trigger coords@[j], chunk_manager.spec_column_at(coords@[j].0, coords@[j].1).spec_chunks()[y2]]
                                    0 <= j < coords@.len() && 0 <= y2 < 16 && (j < i || (j == i
                                        && y2 < y + 1)) && spec_chunk_far(
                                        chunk_x,
                                        chunk_y,
                                        chunk_z,
                                        rd,
                                        coords@[j].0,
                                        y2,
                                        coords@[j].1,
                                    ) implies spec_chunk_released(
                                        chunk_manager.spec_column_at(
                                            coords@[j].0,
                                            coords@[j].1,
                                        ).spec_chunks()[y2],
                                        old(chunk_manager).spec_column_at(
                                            coords@[j].0,
                                            coords@[j].1,
                                        ).spec_chunks()[y2],
                                    ) by {
                                    let k2 = crate::chunk_manager::spec_column_key(
                                        coords@[j].0,
                                        coords@[j].1,
                                    );
                                    assert(mc_pre.spec_has_column(coords@[j].0, coords@[j].1));
                                    if j == i && y2 == y as int {
                                        assert(chunk_manager.spec_column_at(a, b).spec_chunks()[
                                        y as int].same_arrays(
                                            mc_pre.spec_column_at(a, b).spec_chunks()[y as int],
                                        ));
                                    } else {
                                        if k2 == key {
                                            crate::chunk_manager::lemma_column_key_injective(
                                                coords@[j].0,
                                                coords@[j].1,
                                                a,
                                                b,
                                            );
                                            assert(y2 != y as int);
                                        } else {
                                            assert(chunk_manager.spec_columns()[k2]
                                                == mc_pre.spec_columns()[k2]);
                                        }
                                        assert(chunk_manager.spec_column_at(
                                            coords@[j].0,
                                            coords@[j].1,
                                        ).spec_chunks()[y2] == mc_pre.spec_column_at(
                                            coords@[j].0,
                                            coords@[j].1,
                                        ).spec_chunks()[y2]);
                                    }
                                }
                            }
                        },
                        None => {
                            proof {
                                assert(false);
                            }
                        },
                    }
                }
                y = y + 1;
            }
            i = i + 1;
        }
        // remove columns beyond render_distance + 2 and pool their buffers
        let coords2 = chunk_manager.loaded_coords();
        let ghost m_mid = *chunk_manager;
        let mut i2: usize = 0;
        while i2 < coords2.len()
            invariant
                self.wf(),
                chunk_manager.wf(),
                old(chunk_manager).wf(),
                m_mid.wf(),
                -2_000_000 <= chunk_x <= 2_000_000,
                -2_000_000 <= chunk_z <= 2_000_000,
                rd == self.render_distance,
                0 <= rd <= 60,
                i2 <= coords2@.len(),
                coords2@ == m_mid.spec_coords(),
                coords2@ == old(chunk_manager).spec_coords(),
                forall|a: i32, b: i32| #[trigger]
                    m_mid.spec_has_column(a, b) == old(chunk_manager).spec_has_column(a, b),
                forall|a: i32, b: i32|
                    #[trigger] m_mid.spec_has_column(a, b) ==> {
                        let c1 = m_mid.spec_column_at(a, b);
                        let c0 = old(chunk_manager).spec_column_at(a, b);
                        &&& c1.spec_heights() == c0.spec_heights()
                        &&& c1.has_foliage == c0.has_foliage
                        &&& forall|y2: int|
                            0 <= y2 < 16 ==> ((#[trigger] c1.spec_chunks()[y2]).same_arrays(
                                c0.spec_chunks()[y2],
                            ) && c1.spec_chunks()[y2].is_generated == c0.spec_chunks()[y2]
                                .is_generated) && (!spec_chunk_far(
                                chunk_x,
                                chunk_y,
                                chunk_z,
                                rd,
                                a,
                                y2,
                                b,
                            ) ==> c1.spec_chunks()[y2] == c0.spec_chunks()[y2])
                    },
                forall|a: i32, b: i32|
                    #[trigger] chunk_manager.spec_has_column(a, b) ==> m_mid.spec_has_column(a, b)
                        && chunk_manager.spec_column_at(a, b) == m_mid.spec_column_at(a, b),
                // far columns among the processed prefix are gone
                forall|j: int|
                    0 <= j < i2 && (iabs((#[trigger] coords2@[j]).0 as int - chunk_x as int) > rd
                        + 2 || iabs(coords2@[j].1 as int - chunk_z as int) > rd + 2)
                        ==> !chunk_manager.spec_has_column(coords2@[j].0, coords2@[j].1),
                // unprocessed columns are still loaded
                forall|j: int|
                    i2 <= j < coords2@.len() ==> #[trigger] chunk_manager.spec_has_column(
                        coords2@[j].0,
                        coords2@[j].1,
                    ),
                // near columns were kept
                forall|a: i32, b: i32|
                    iabs(a as int - chunk_x as int) <= rd + 2 && iabs(b as int - chunk_z as int)
                        <= rd + 2 ==> #[trigger] chunk_manager.spec_has_column(a, b)
                        == m_mid.spec_has_column(a, b),
                chunk_manager.spec_changelist() == m_mid.spec_changelist(),
                forall|k: int|
                    0 <= k < old(self).chunk_column_pool@.len() ==> self.chunk_column_pool@[k]
                        == old(self).chunk_column_pool@[k],
                self.chunk_column_pool@.len() == old(self).chunk_column_pool@.len()
                    + spec_count_far(coords2@, chunk_x, chunk_z, rd + 2, i2 as int),
                // each removed far column sits in the pool, data intact
                forall|j: int|
                    0 <= j < i2 && (iabs((#[trigger] coords2@[j]).0 as int - chunk_x as int) > rd
                        + 2 || iabs(coords2@[j].1 as int - chunk_z as int) > rd + 2) ==> exists|
                        k: int,
                    |
                        old(self).chunk_column_pool@.len() <= k < self.chunk_column_pool@.len()
                            && spec_column_released(
                            #[trigger] self.chunk_column_pool@[k],
                            old(chunk_manager).spec_column_at(coords2@[j].0, coords2@[j].1),
                        ),
                self.chunk_upload_priority_queue == old(self).chunk_upload_priority_queue,
                self.uploads_per_frame == old(self).uploads_per_frame,
                self.expand_chunks == old(self).expand_chunks,
            decreases coords2@.len() - i2,
        {
            let (a, b) = coords2[i2];
            let dxl = a as i64 - chunk_x as i64;
            let dzl = b as i64 - chunk_z as i64;
            let far = dxl > rd as i64 + 2 || dxl < -(rd as i64) - 2 || dzl > rd as i64 + 2 || dzl
                < -(rd as i64) - 2;
            let ghost pool_pre = self.chunk_column_pool@;
            if far {
                let xz = (a, b);
                let ghost mc_pre = *chunk_manager;
                match chunk_manager.remove_chunk_column(&xz) {
                    Some(column) => {
                        self.chunk_column_pool.push(column);
                        proof {
                            assert(m_mid.spec_has_column(a, b));
                            assert(spec_column_released(
                                self.chunk_column_pool@[pool_pre.len() as int],
                                old(chunk_manager).spec_column_at(a, b),
                            ));
                        }
                    },
                    None => {
                        proof {
                            assert(false);
                        }
                    },
                }
                proof {
                    assert forall|a2: i32, b2: i32|
                        #[trigger] chunk_manager.spec_has_column(a2, b2) implies m_mid
                        .spec_has_column(a2, b2) && chunk_manager.spec_column_at(a2, b2)
                        == m_mid.spec_column_at(a2, b2) by {
                        assert(chunk_manager.spec_has_column(a2, b2) ==> mc_pre.spec_has_column(
                            a2,
                            b2,
                        ));
                        if crate::chunk_manager::spec_column_key(a2, b2)
                            != crate::chunk_manager::spec_column_key(a, b) {
                            assert(chunk_manager.spec_columns()[
                            crate::chunk_manager::spec_column_key(a2, b2)] == mc_pre.spec_columns()[
                            crate::chunk_manager::spec_column_key(a2, b2)]);
                        }
                    }
                    assert forall|a2: i32, b2: i32|
                        iabs(a2 as int - chunk_x as int) <= rd + 2 && iabs(
                            b2 as int - chunk_z as int,
                        ) <= rd + 2 implies #[trigger] chunk_manager.spec_has_column(a2, b2)
                        == m_mid.spec_has_column(a2, b2) by {
                        assert(mc_pre.spec_has_column(a2, b2) == m_mid.spec_has_column(a2, b2));
                        if crate::chunk_manager::spec_column_key(a2, b2)
                            == crate::chunk_manager::spec_column_key(a, b) {
                            crate::chunk_manager::lemma_column_key_injective(a2, b2, a, b);
                            assert(false);
                        } else {
                            assert(chunk_manager.spec_has_column(a2, b2) == mc_pre.spec_has_column(
                                a2,
                                b2,
                            ));
                        }
                    }
                    assert forall|j: int|
                        i2 + 1 <= j < coords2@.len() implies #[trigger] chunk_manager
                        .spec_has_column(coords2@[j].0, coords2@[j].1) by {
                        assert(mc_pre.spec_has_column(coords2@[j].0, coords2@[j].1));
                        if crate::chunk_manager::spec_column_key(coords2@[j].0, coords2@[j].1)
                            == crate::chunk_manager::spec_column_key(a, b) {
                            crate::chunk_manager::lemma_column_key_injective(
                                coords2@[j].0,
                                coords2@[j].1,
                                a,
                                b,
                            );
                            assert(coords2@[j] == coords2@[i2 as int]);
                            assert(false);
                        }
                    }
                }
            }
            proof {
                lemma_count_far_bounds(coords2@, chunk_x, chunk_z, rd + 2, i2 as int);
                assert(pool_pre.len() >= old(self).chunk_column_pool@.len());
                assert forall|k: int|
                    0 <= k < old(self).chunk_column_pool@.len() implies self.chunk_column_pool@[k]
                    == old(self).chunk_column_pool@[k] by {
                    assert(self.chunk_column_pool@[k] == pool_pre[k]);
                    assert(pool_pre[k] == old(self).chunk_column_pool@[k]);
                }
                assert forall|j: int|
                    0 <= j < i2 + 1 && (iabs(
                        (#[trigger] coords2@[j]).0 as int - chunk_x as int,
                    ) > rd + 2 || iabs(coords2@[j].1 as int - chunk_z as int) > rd + 2) implies
                    exists|k: int|
                        old(self).chunk_column_pool@.len() <= k < self.chunk_column_pool@.len()
                            && spec_column_released(
                            #[trigger] self.chunk_column_pool@[k],
                            old(chunk_manager).spec_column_at(coords2@[j].0, coords2@[j].1),
                        ) by {
                    if j < i2 {
                        let k0 = choose|k0: int|
                            old(self).chunk_column_pool@.len() <= k0 < pool_pre.len()
                                && spec_column_released(
                                #[trigger] pool_pre[k0],
                                old(chunk_manager).spec_column_at(coords2@[j].0, coords2@[j].1),
                            );
                        assert(self.chunk_column_pool@[k0] == pool_pre[k0]);
                    } else {
                        assert(spec_column_released(
                            self.chunk_column_pool@[pool_pre.len() as int],
                            old(chunk_manager).spec_column_at(coords2@[j].0, coords2@[j].1),
                        ));
                    }
                }
            }
            i2 = i2 + 1;
        }
        proof {
            assert forall|a: i32, b: i32|
                (iabs(a as int - chunk_x as int) > rd + 2 || iabs(b as int - chunk_z as int) > rd
                    + 2) implies !(#[trigger] chunk_manager.spec_has_column(a, b)) by {
                if chunk_manager.spec_has_column(a, b) {
                    assert(m_mid.spec_has_column(a, b));
                    let j = choose|j: int|
                        0 <= j < m_mid.spec_coords().len() && crate::chunk_manager::spec_column_key(
                            (#[trigger] m_mid.spec_coords()[j]).0,
                            m_mid.spec_coords()[j].1,
                        ) == crate::chunk_manager::spec_column_key(a, b);
                    crate::chunk_manager::lemma_column_key_injective(
                        m_mid.spec_coords()[j].0,
                        m_mid.spec_coords()[j].1,
                        a,
                        b,
                    );
                    assert(coords2@[j] == (a, b));
                    assert(false);
                }
            }
            assert forall|a: i32, b: i32|
                (iabs(a as int - chunk_x as int) > rd + 2 || iabs(b as int - chunk_z as int) > rd
                    + 2) && #[trigger] old(chunk_manager).spec_has_column(a, b) implies exists|
                k: int,
            |
                old(self).chunk_column_pool@.len() <= k < self.chunk_column_pool@.len()
                    && spec_column_released(
                    #[trigger] self.chunk_column_pool@[k],
                    old(chunk_manager).spec_column_at(a, b),
                ) by {
                assert(m_mid.spec_has_column(a, b));
                let j = choose|j: int|
                    0 <= j < m_mid.spec_coords().len() && crate::chunk_manager::spec_column_key(
                        (#[trigger] m_mid.spec_coords()[j]).0,
                        m_mid.spec_coords()[j].1,
                    ) == crate::chunk_manager::spec_column_key(a, b);
                crate::chunk_manager::lemma_column_key_injective(
                    m_mid.spec_coords()[j].0,
                    m_mid.spec_coords()[j].1,
                    a,
                    b,
                );
                assert(coords2@[j] == (a, b));
            }
            assert forall|a: i32, b: i32|
                #[trigger] chunk_manager.spec_has_column(a, b) implies {
                let c1 = chunk_manager.spec_column_at(a, b);
                let c0 = old(chunk_manager).spec_column_at(a, b);
                &&& c1.spec_heights() == c0.spec_heights()
                &&& c1.has_foliage == c0.has_foliage
                &&& forall|y: int|
                    0 <= y < 16 ==> if spec_chunk_far(chunk_x, chunk_y, chunk_z, rd, a, y, b) {
                        spec_chunk_released(#[trigger] c1.spec_chunks()[y], c0.spec_chunks()[y])
                    } else {
                        c1.spec_chunks()[y] == c0.spec_chunks()[y]
                    }
            } by {
                assert(m_mid.spec_has_column(a, b));
                assert(chunk_manager.spec_column_at(a, b) == m_mid.spec_column_at(a, b));
                let j = choose|j: int|
                    0 <= j < m_mid.spec_coords().len() && crate::chunk_manager::spec_column_key(
                        (#[trigger] m_mid.spec_coords()[j]).0,
                        m_mid.spec_coords()[j].1,
                    ) == crate::chunk_manager::spec_column_key(a, b);
                crate::chunk_manager::lemma_column_key_injective(
                    m_mid.spec_coords()[j].0,
                    m_mid.spec_coords()[j].1,
                    a,
                    b,
                );
                assert(coords2@[j] == (a, b));
                assert forall|y: int|
                    0 <= y < 16 implies if spec_chunk_far(
                    chunk_x,
                    chunk_y,
                    chunk_z,
                    rd,
                    a,
                    y,
                    b,
                ) {
                    spec_chunk_released(
                        #[trigger] chunk_manager.spec_column_at(a, b).spec_chunks()[y],
                        old(chunk_manager).spec_column_at(a, b).spec_chunks()[y],
                    )
                } else {
                    chunk_manager.spec_column_at(a, b).spec_chunks()[y] == old(
                        chunk_manager,
                    ).spec_column_at(a, b).spec_chunks()[y]
                } by {
                    if spec_chunk_far(chunk_x, chunk_y, chunk_z, rd, a, y, b) {
                        assert(spec_chunk_released(
                            m_mid.spec_column_at(coords2@[j].0, coords2@[j].1).spec_chunks()[y],
                            old(chunk_manager).spec_column_at(
                                coords2@[j].0,
                                coords2@[j].1,
                            ).spec_chunks()[y],
                        ));
                    }
                }
            }
        }
    }

}


/// Every local block coordinate of a chunk, for a full re-mesh of a
/// freshly generated chunk.
pub fn all_block_coords() -> (r: Vec<(u32, u32, u32)>)
    ensures
        forall|j: int|
            0 <= j < r@.len() ==> (#[trigger] r@[j]).0 < 16 && r@[j].1 < 16 && r@[j].2 < 16,
        forall|bx: u32, by: u32, bz: u32|
            bx < 16 && by < 16 && bz < 16 ==> spec_listed_prefix(
                r@,
                r@.len() as int,
                bx,
                by,
                bz,
            ),
{
    let mut r: Vec<(u32, u32, u32)> = Vec::new();
    let mut bx: u32 = 0;
    while bx < 16
        invariant
            bx <= 16,
            forall|j: int|
                0 <= j < r@.len() ==> (#[trigger] r@[j]).0 < 16 && r@[j].1 < 16 && r@[j].2 < 16,
            forall|x2: u32, y2: u32, z2: u32|
                x2 < bx && y2 < 16 && z2 < 16 ==> spec_listed_prefix(
                    r@,
                    r@.len() as int,
                    x2,
                    y2,
                    z2,
                ),
        decreases 16 - bx,
    {
        let mut by: u32 = 0;
        while by < 16
            invariant
                bx < 16,
                by <= 16,
                forall|j: int|
                    0 <= j < r@.len() ==> (#[trigger] r@[j]).0 < 16 && r@[j].1 < 16 && r@[j].2
                        < 16,
                forall|x2: u32, y2: u32, z2: u32|
                    x2 < 16 && y2 < 16 && z2 < 16 && (x2 < bx || (x2 == bx && y2 < by))
                        ==> spec_listed_prefix(r@, r@.len() as int, x2, y2, z2),
            decreases 16 - by,
        {
            let mut bz: u32 = 0;
            while bz < 16
                invariant
                    bx < 16,
                    by < 16,
                    bz <= 16,
                    forall|j: int|
                        0 <= j < r@.len() ==> (#[trigger] r@[j]).0 < 16 && r@[j].1 < 16
                            && r@[j].2 < 16,
                    forall|x2: u32, y2: u32, z2: u32|
                        x2 < 16 && y2 < 16 && z2 < 16 && (x2 < bx || (x2 == bx && (y2 < by || (y2
                            == by && z2 < bz)))) ==> spec_listed_prefix(
                            r@,
                            r@.len() as int,
                            x2,
                            y2,
                            z2,
                        ),
                decreases 16 - bz,
            {
                let ghost r_old = r@;
                r.push((bx, by, bz));
                proof {
                    assert(r@[r@.len() - 1] == (bx, by, bz));
                    assert forall|x2: u32, y2: u32, z2: u32|
                        x2 < 16 && y2 < 16 && z2 < 16 && (x2 < bx || (x2 == bx && (y2 < by || (y2
                            == by && z2 < bz + 1)))) implies spec_listed_prefix(
                        r@,
                        r@.len() as int,
                        x2,
                        y2,
                        z2,
                    ) by {
                        if x2 == bx && y2 == by && z2 == bz {
                            assert(r@[r@.len() - 1] == (x2, y2, z2));
                        } else {
                            assert(spec_listed_prefix(r_old, r_old.len() as int, x2, y2, z2));
                            let j = choose|j: int|
                                0 <= j < r_old.len() && #[trigger] r_old[j] == (x2, y2, z2);
                            assert(r@[j] == (x2, y2, z2));
                        }
                    }
                }
                bz = bz + 1;
            }
            by = by + 1;
        }
        bx = bx + 1;
    }
    r
}

impl ChunkManager {
    /// Record a finished GPU upload: the chunk keeps its data and its
    /// generated flag, and now carries the handle and vertex count the
    /// upload returned.
    pub fn mark_chunk_uploaded(&mut self, x: i32, y: i32, z: i32, vao: u32, vertices_drawn: u32)
        requires
            old(self).wf(),
            old(self).spec_chunk_at(x, y, z) is Some,
        ensures
            final(self).wf(),
            final(self).spec_coords() == old(self).spec_coords(),
            final(self).spec_changelist() == old(self).spec_changelist(),
            final(self).spec_columns().dom() == old(self).spec_columns().dom(),
            final(self).same_world_blocks(*old(self)),
            ({
                let c0 = old(self).spec_column_at(x, z).spec_chunks()[y as int];
                let c1 = final(self).spec_column_at(x, z).spec_chunks()[y as int];
                &&& c1.same_arrays(c0)
                &&& c1.is_generated == c0.is_generated
                &&& c1.is_uploaded_to_gpu
                &&& c1.vao == vao
                &&& c1.vertices_drawn == vertices_drawn
            }),
    {
        let generated = match self.get_chunk(x, y, z) {
            Some(c) => c.is_generated,
            None => vstd::pervasive::unreached(),
        };
        self.set_chunk_gpu_state(x, y, z, generated, true, vao, vertices_drawn);
    }
}

impl ChunkLoading {
    /// Mesh one discovered chunk.  An empty chunk is marked generated
    /// and uploaded outright, with no upload request; any other chunk
    /// has its faces and ambient occlusion fully recomputed, is marked
    /// generated, and has an upload request enqueued at priority 0.
    pub fn mesh_chunk(&mut self, chunk_manager: &mut ChunkManager, x: i32, y: i32, z: i32)
        requires
            old(self).wf(),
            old(chunk_manager).wf(),
            old(chunk_manager).spec_chunk_at(x, y, z) is Some,
            -2_000_000 <= x <= 2_000_000,
            -2_000_000 <= z <= 2_000_000,
        ensures
            final(self).wf(),
            final(chunk_manager).wf(),
            final(self).chunk_column_pool == old(self).chunk_column_pool,
            final(self).render_distance == old(self).render_distance,
            final(self).uploads_per_frame == old(self).uploads_per_frame,
            final(self).expand_chunks == old(self).expand_chunks,
            final(chunk_manager).same_world_blocks(*old(chunk_manager)),
            final(chunk_manager).spec_coords() == old(chunk_manager).spec_coords(),
            final(chunk_manager).spec_changelist() == old(chunk_manager).spec_changelist(),
            final(chunk_manager).spec_columns().dom() == old(chunk_manager).spec_columns().dom(),
            final(chunk_manager).spec_column_at(x, z).spec_chunks()[y as int].is_generated,
            old(chunk_manager).spec_column_at(x, z).spec_chunks()[y as int].spec_is_empty()
                ==> final(chunk_manager).spec_column_at(x, z).spec_chunks()[y as int]
                .is_uploaded_to_gpu && final(self).chunk_upload_priority_queue == old(
                self,
            ).chunk_upload_priority_queue,
            !old(chunk_manager).spec_column_at(x, z).spec_chunks()[y as int].spec_is_empty()
                ==> final(chunk_manager).spec_chunk_meshed(x, y, z) && final(self).chunk_upload_priority_queue.spec_entries() == old(
                self,
            ).chunk_upload_priority_queue.spec_entries().push((0, (x, y, z))),
    {
        let empty = match chunk_manager.get_chunk(x, y, z) {
            Some(c) => c.is_empty(),
            None => vstd::pervasive::unreached(),
        };
        if empty {
            let (vao, count) = match chunk_manager.get_chunk(x, y, z) {
                Some(c) => (c.vao, c.vertices_drawn),
                None => vstd::pervasive::unreached(),
            };
            chunk_manager.set_chunk_gpu_state(x, y, z, true, true, vao, count);
            return ;
        }
        let blocks = all_block_coords();
        let ghost m0 = *chunk_manager;
        chunk_manager.update_blocks(x, y, z, &blocks);
        let ghost m1 = *chunk_manager;
        let (uploaded, vao, count) = match chunk_manager.get_chunk(x, y, z) {
            Some(c) => (c.is_uploaded_to_gpu, c.vao, c.vertices_drawn),
            None => vstd::pervasive::unreached(),
        };
        chunk_manager.set_chunk_gpu_state(x, y, z, true, uploaded, vao, count);
        self.chunk_upload_priority_queue.push(0, (x, y, z));
        proof {
            let m2 = *chunk_manager;
            chunk_manager.lemma_same_world_trans(m1, m0);
            let c1 = m1.spec_column_at(x, z).spec_chunks()[y as int];
            let c2 = m2.spec_column_at(x, z).spec_chunks()[y as int];
            let c0 = m0.spec_column_at(x, z).spec_chunks()[y as int];
            assert(c2.spec_faces() == c1.spec_faces() && c2.spec_ao() == c1.spec_ao()
                && c2.spec_blocks() == c1.spec_blocks());
            assert forall|bx: u32, by: u32, bz: u32|
                #![trigger crate::chunk::block_index(bx as int, by as int, bz as int)]
                bx < 16 && by < 16 && bz < 16 && c2.spec_blocks()[crate::chunk::block_index(
                    bx as int,
                    by as int,
                    bz as int,
                )] != crate::block::BlockID::Air implies {
                let bi = crate::chunk::block_index(bx as int, by as int, bz as int);
                let wx = 16 * (x as int) + bx as int;
                let wy = 16 * (y as int) + by as int;
                let wz = 16 * (z as int) + bz as int;
                &&& forall|d: int|
                    0 <= d < 6 ==> (#[trigger] c2.spec_faces()[6 * bi + d])
                        == m2.spec_face_active(wx, wy, wz, d)
                &&& c2.spec_ao()[bi] as int == m2.spec_ao_of(wx, wy, wz)
            } by {
                let bi = crate::chunk::block_index(bx as int, by as int, bz as int);
                let wx = 16 * (x as int) + bx as int;
                let wy = 16 * (y as int) + by as int;
                let wz = 16 * (z as int) + bz as int;
                assert(spec_listed_prefix(blocks@, blocks@.len() as int, bx, by, bz));
                assert(c0.spec_blocks()[bi] != crate::block::BlockID::Air);
                m2.lemma_same_world_ao(m0, wx, wy, wz, 27);
                assert(c2.spec_ao()[bi] as int == m0.spec_ao_of(wx, wy, wz));
                assert forall|d: int|
                    0 <= d < 6 implies (#[trigger] c2.spec_faces()[6 * bi + d])
                    == m2.spec_face_active(wx, wy, wz, d) by {
                    assert(c1.spec_faces()[6 * bi + d] == m0.spec_face_active(wx, wy, wz, d));
                    m2.lemma_same_world_face(m0, wx, wy, wz, d);
                }
            }
        }
    }
}



/// One incremental re-mesh task: the chunk it targets, the local
/// coordinates to recompute, and the highest priority among the edits
/// that produced it, which selects the executing pool.
pub struct RemeshTask {
    pub chunk_x: i32,
    pub chunk_y: i32,
    pub chunk_z: i32,
    pub priority: i32,
    pub blocks: Vec<(u32, u32, u32)>,
    /// The (edit index, neighbourhood offset) of a member whose
    /// priority equals the task's, so the priority is attained within
    /// the group.
    pub witness: Ghost<(int, int)>,
}

impl RemeshTask {
    /// Externally triggered edits (priority 1 and above) run on the
    /// dedicated single-thread pool, so bulk background regeneration
    /// can never delay an interactive edit; generation-origin work
    /// (priority 0) shares the background pool.
    pub open spec fn spec_is_interactive(self) -> bool {
        self.priority >= 1
    }

    pub fn is_interactive(&self) -> (r: bool)
        ensures
            r == self.spec_is_interactive(),
    {
        self.priority >= 1
    }
}

/// The world cell the `o`-th neighbourhood offset of an edit touches.
pub open spec fn spec_change_cell(e: ChangeEntry, o: int) -> (int, int, int) {
    (
        e.x + crate::meshing::neighbor_offset(o).0,
        e.y + crate::meshing::neighbor_offset(o).1,
        e.z + crate::meshing::neighbor_offset(o).2,
    )
}

/// An edit and a neighbourhood offset that land in the task's chunk
/// and carry exactly the task's priority: the witness that a task's
/// priority is attained by one of its own members, which together with
/// the lower bound below makes it the group's maximum.
#[verifier::opaque]
pub open spec fn spec_task_witness(
    entries: Seq<ChangeEntry>,
    t: RemeshTask,
    jw: int,
    ow: int,
) -> bool {
    &&& 0 <= jw < entries.len()
    &&& 0 <= ow < 27
    &&& i32::MIN <= spec_change_cell(entries[jw], ow).0 <= i32::MAX
    &&& i32::MIN <= spec_change_cell(entries[jw], ow).1 <= i32::MAX
    &&& i32::MIN <= spec_change_cell(entries[jw], ow).2 <= i32::MAX
    &&& t.chunk_x == chunk_coord(spec_change_cell(entries[jw], ow).0) as i32
    &&& t.chunk_y == chunk_coord(spec_change_cell(entries[jw], ow).1) as i32
    &&& t.chunk_z == chunk_coord(spec_change_cell(entries[jw], ow).2) as i32
    &&& t.priority == entries[jw].priority
}

/// Expand every drained edit to its full 3x3x3 neighbourhood - one
/// changed block can flip face visibility and shading for all its
/// neighbours - and group the resulting cells by the chunk that owns
/// each; a group's priority is the highest among its edits.
#[verifier::rlimit(100)]
pub fn group_changes(entries: &Vec<ChangeEntry>) -> (tasks: Vec<RemeshTask>)
    ensures
        forall|t: int|
            0 <= t < tasks@.len() ==> forall|j: int|
                0 <= j < (#[trigger] tasks@[t]).blocks@.len() ==> ((#[trigger] tasks@[t].blocks@[j]).0
                    < 16 && tasks@[t].blocks@[j].1 < 16 && tasks@[t].blocks@[j].2 < 16),
        forall|t1: int, t2: int|
            0 <= t1 < t2 < tasks@.len() ==> !((#[trigger] tasks@[t1]).chunk_x == (
            #[trigger] tasks@[t2]).chunk_x && tasks@[t1].chunk_y == tasks@[t2].chunk_y
                && tasks@[t1].chunk_z == tasks@[t2].chunk_z),
        forall|t: int|
            0 <= t < tasks@.len() ==> spec_task_witness(
                entries@,
                #[trigger] tasks@[t],
                tasks@[t].witness@.0,
                tasks@[t].witness@.1,
            ),
        forall|j: int, o: int|
            #![trigger spec_change_cell(entries@[j], o)]
            0 <= j < entries@.len() && 0 <= o < 27 && i32::MIN <= spec_change_cell(
                entries@[j],
                o,
            ).0 <= i32::MAX && i32::MIN <= spec_change_cell(entries@[j], o).1 <= i32::MAX
                && i32::MIN <= spec_change_cell(entries@[j], o).2 <= i32::MAX ==> exists|t: int|
                0 <= t < tasks@.len() && (#[trigger] tasks@[t]).chunk_x == chunk_coord(
                    spec_change_cell(entries@[j], o).0,
                ) as i32 && tasks@[t].chunk_y == chunk_coord(spec_change_cell(entries@[j], o).1)
                    as i32 && tasks@[t].chunk_z == chunk_coord(spec_change_cell(entries@[j], o).2)
                    as i32 && tasks@[t].blocks@.contains(
                    (
                        local_coord(spec_change_cell(entries@[j], o).0) as u32,
                        local_coord(spec_change_cell(entries@[j], o).1) as u32,
                        local_coord(spec_change_cell(entries@[j], o).2) as u32,
                    ),
                ) && tasks@[t].priority >= entries@[j].priority,
{
    let mut tasks: Vec<RemeshTask> = Vec::new();
    let mut j: usize = 0;
    while j < entries.len()
        invariant
            j <= entries@.len(),
            forall|t: int|
                0 <= t < tasks@.len() ==> spec_task_witness(
                    entries@,
                    #[trigger] tasks@[t],
                    tasks@[t].witness@.0,
                    tasks@[t].witness@.1,
                ),
            forall|t: int|
                0 <= t < tasks@.len() ==> forall|jj: int|
                    0 <= jj < (#[trigger] tasks@[t]).blocks@.len() ==> ((
                    #[trigger] tasks@[t].blocks@[jj]).0 < 16 && tasks@[t].blocks@[jj].1 < 16
                        && tasks@[t].blocks@[jj].2 < 16),
            forall|t1: int, t2: int|
                0 <= t1 < t2 < tasks@.len() ==> !((#[trigger] tasks@[t1]).chunk_x == (
                #[trigger] tasks@[t2]).chunk_x && tasks@[t1].chunk_y == tasks@[t2].chunk_y
                    && tasks@[t1].chunk_z == tasks@[t2].chunk_z),
            forall|jj: int, o: int|
                #![trigger spec_change_cell(entries@[jj], o)]
                0 <= jj < j && 0 <= o < 27 && i32::MIN <= spec_change_cell(entries@[jj], o).0
                    <= i32::MAX && i32::MIN <= spec_change_cell(entries@[jj], o).1 <= i32::MAX
                    && i32::MIN <= spec_change_cell(entries@[jj], o).2 <= i32::MAX ==> exists|
                    t: int,
                |
                    0 <= t < tasks@.len() && (#[trigger] tasks@[t]).chunk_x == chunk_coord(
                        spec_change_cell(entries@[jj], o).0,
                    ) as i32 && tasks@[t].chunk_y == chunk_coord(
                        spec_change_cell(entries@[jj], o).1,
                    ) as i32 && tasks@[t].chunk_z == chunk_coord(
                        spec_change_cell(entries@[jj], o).2,
                    ) as i32 && tasks@[t].blocks@.contains(
                        (
                            local_coord(spec_change_cell(entries@[jj], o).0) as u32,
                            local_coord(spec_change_cell(entries@[jj], o).1) as u32,
                            local_coord(spec_change_cell(entries@[jj], o).2) as u32,
                        ),
                    ) && tasks@[t].priority >= entries@[jj].priority,
        decreases entries@.len() - j,
    {
        let e = entries[j];
        let mut o: u32 = 0;
        while o < 27
            invariant
                j < entries@.len(),
                e == entries@[j as int],
                o <= 27,
                forall|t: int|
                    0 <= t < tasks@.len() ==> spec_task_witness(
                        entries@,
                        #[trigger] tasks@[t],
                        tasks@[t].witness@.0,
                        tasks@[t].witness@.1,
                    ),
                forall|t: int|
                    0 <= t < tasks@.len() ==> forall|jj: int|
                        0 <= jj < (#[trigger] tasks@[t]).blocks@.len() ==> ((
                        #[trigger] tasks@[t].blocks@[jj]).0 < 16 && tasks@[t].blocks@[jj].1 < 16
                            && tasks@[t].blocks@[jj].2 < 16),
                forall|t1: int, t2: int|
                    0 <= t1 < t2 < tasks@.len() ==> !((#[trigger] tasks@[t1]).chunk_x == (
                    #[trigger] tasks@[t2]).chunk_x && tasks@[t1].chunk_y == tasks@[t2].chunk_y
                        && tasks@[t1].chunk_z == tasks@[t2].chunk_z),
                forall|jj: int, oo: int|
                    #![trigger spec_change_cell(entries@[jj], oo)]
                    0 <= jj < entries@.len() && 0 <= oo < 27 && (jj < j || (jj == j && oo < o))
                        && i32::MIN <= spec_change_cell(entries@[jj], oo).0 <= i32::MAX
                        && i32::MIN <= spec_change_cell(entries@[jj], oo).1 <= i32::MAX
                        && i32::MIN <= spec_change_cell(entries@[jj], oo).2 <= i32::MAX ==> exists|
                        t: int,
                    |
                        0 <= t < tasks@.len() && (#[trigger] tasks@[t]).chunk_x == chunk_coord(
                            spec_change_cell(entries@[jj], oo).0,
                        ) as i32 && tasks@[t].chunk_y == chunk_coord(
                            spec_change_cell(entries@[jj], oo).1,
                        ) as i32 && tasks@[t].chunk_z == chunk_coord(
                            spec_change_cell(entries@[jj], oo).2,
                        ) as i32 && tasks@[t].blocks@.contains(
                            (
                                local_coord(spec_change_cell(entries@[jj], oo).0) as u32,
                                local_coord(spec_change_cell(entries@[jj], oo).1) as u32,
                                local_coord(spec_change_cell(entries@[jj], oo).2) as u32,
                            ),
                        ) && tasks@[t].priority >= entries@[jj].priority,
            decreases 27 - o,
        {
            let dx = (o / 9) as i32 - 1;
            let dy = ((o % 9) / 3) as i32 - 1;
            let dz = (o % 3) as i32 - 1;
            let wxl = e.x as i64 + dx as i64;
            let wyl = e.y as i64 + dy as i64;
            let wzl = e.z as i64 + dz as i64;
            let lo = i32::MIN as i64;
            let hi = i32::MAX as i64;
            if wxl >= lo && wxl <= hi && wyl >= lo && wyl <= hi && wzl >= lo && wzl <= hi {
                let wx = wxl as i32;
                let wy = wyl as i32;
                let wz = wzl as i32;
                let (cx, cy, cz, bx, by, bz) = ChunkManager::get_chunk_coords(wx, wy, wz);
                proof {
                    assert(spec_change_cell(entries@[j as int], o as int) == (
                        wx as int,
                        wy as int,
                        wz as int,
                    ));
                }
                // find the task owning this chunk, if any
                let mut ti: usize = 0;
                let mut found: bool = false;
                while ti < tasks.len() && !found
                    invariant
                        ti <= tasks@.len(),
                        !found ==> forall|t: int|
                            0 <= t < ti ==> !((#[trigger] tasks@[t]).chunk_x == cx && tasks@[t].chunk_y
                                == cy && tasks@[t].chunk_z == cz),
                        found ==> ti < tasks@.len() && tasks@[ti as int].chunk_x == cx
                            && tasks@[ti as int].chunk_y == cy && tasks@[ti as int].chunk_z == cz,
                    decreases 2 * (tasks@.len() - ti) + (if found { 0int } else { 1int }),
                {
                    let t = &tasks[ti];
                    if t.chunk_x == cx && t.chunk_y == cy && t.chunk_z == cz {
                        found = true;
                    } else {
                        ti = ti + 1;
                    }
                }
                let ghost tasks_old = tasks@;
                if found {
                    let mut t = tasks.remove(ti);
                    let ghost blocks_old = t.blocks@;
                    t.blocks.push((bx, by, bz));
                    if e.priority > t.priority {
                        t.priority = e.priority;
                        t.witness = Ghost((j as int, o as int));
                    }
                    tasks.insert(ti, t);
                    proof {
                        assert(tasks@ =~= tasks_old.update(ti as int, tasks@[ti as int]));
                        assert(spec_change_cell(entries@[j as int], o as int) == (
                            wx as int,
                            wy as int,
                            wz as int,
                        ));
                        assert forall|t2: int|
                            0 <= t2 < tasks@.len() implies spec_task_witness(
                            entries@,
                            #[trigger] tasks@[t2],
                            tasks@[t2].witness@.0,
                            tasks@[t2].witness@.1,
                        ) by {
                            reveal(spec_task_witness);
                            if t2 != ti {
                                assert(tasks@[t2] == tasks_old[t2]);
                            } else {
                                assert(spec_task_witness(
                                    entries@,
                                    tasks_old[t2],
                                    tasks_old[t2].witness@.0,
                                    tasks_old[t2].witness@.1,
                                ));
                            }
                        }
                        assert(tasks@[ti as int].blocks@ == blocks_old.push((bx, by, bz)));
                        assert(tasks@[ti as int].blocks@.contains((bx, by, bz))) by {
                            assert(tasks@[ti as int].blocks@[blocks_old.len() as int] == (
                                bx,
                                by,
                                bz,
                            ));
                        }
                        assert forall|jj: int, oo: int|
                            #![trigger spec_change_cell(entries@[jj], oo)]
                            0 <= jj < entries@.len() && 0 <= oo < 27 && (jj < j || (jj == j && oo
                                < o + 1)) && i32::MIN <= spec_change_cell(entries@[jj], oo).0
                                <= i32::MAX && i32::MIN <= spec_change_cell(entries@[jj], oo).1
                                <= i32::MAX && i32::MIN <= spec_change_cell(entries@[jj], oo).2
                                <= i32::MAX implies exists|t2: int|
                                0 <= t2 < tasks@.len() && (#[trigger] tasks@[t2]).chunk_x
                                    == chunk_coord(spec_change_cell(entries@[jj], oo).0) as i32
                                    && tasks@[t2].chunk_y == chunk_coord(
                                    spec_change_cell(entries@[jj], oo).1,
                                ) as i32 && tasks@[t2].chunk_z == chunk_coord(
                                    spec_change_cell(entries@[jj], oo).2,
                                ) as i32 && tasks@[t2].blocks@.contains(
                                    (
                                        local_coord(spec_change_cell(entries@[jj], oo).0) as u32,
                                        local_coord(spec_change_cell(entries@[jj], oo).1) as u32,
                                        local_coord(spec_change_cell(entries@[jj], oo).2) as u32,
                                    ),
                                ) && tasks@[t2].priority >= entries@[jj].priority by {
                            if jj == j && oo == o {
                                assert(tasks@[ti as int].chunk_x == cx && tasks@[ti as int].chunk_y
                                    == cy && tasks@[ti as int].chunk_z == cz);
                                assert(tasks@[ti as int].priority >= e.priority);
                            } else {
                                let t0 = choose|t0: int|
                                    0 <= t0 < tasks_old.len() && (#[trigger] tasks_old[t0]).chunk_x
                                        == chunk_coord(spec_change_cell(entries@[jj], oo).0) as i32
                                        && tasks_old[t0].chunk_y == chunk_coord(
                                        spec_change_cell(entries@[jj], oo).1,
                                    ) as i32 && tasks_old[t0].chunk_z == chunk_coord(
                                        spec_change_cell(entries@[jj], oo).2,
                                    ) as i32 && tasks_old[t0].blocks@.contains(
                                        (
                                            local_coord(spec_change_cell(entries@[jj], oo).0)
                                                as u32,
                                            local_coord(spec_change_cell(entries@[jj], oo).1)
                                                as u32,
                                            local_coord(spec_change_cell(entries@[jj], oo).2)
                                                as u32,
                                        ),
                                    ) && tasks_old[t0].priority >= entries@[jj].priority;
                                if t0 == ti {
                                    crate::discovery::lemma_push_preserves_contains(
                                        blocks_old,
                                        (bx, by, bz),
                                        (
                                            local_coord(spec_change_cell(entries@[jj], oo).0)
                                                as u32,
                                            local_coord(spec_change_cell(entries@[jj], oo).1)
                                                as u32,
                                            local_coord(spec_change_cell(entries@[jj], oo).2)
                                                as u32,
                                        ),
                                    );
                                    assert(tasks@[ti as int].priority >= tasks_old[ti as int].priority);
                                } else {
                                    assert(tasks@[t0] == tasks_old[t0]);
                                }
                            }
                        }
                    }
                } else {
                    let mut blocks: Vec<(u32, u32, u32)> = Vec::new();
                    blocks.push((bx, by, bz));
                    let t = RemeshTask {
                        chunk_x: cx,
                        chunk_y: cy,
                        chunk_z: cz,
                        priority: e.priority,
                        blocks,
                        witness: Ghost((j as int, o as int)),
                    };
                    tasks.push(t);
                    proof {
                        assert(spec_change_cell(entries@[j as int], o as int) == (
                            wx as int,
                            wy as int,
                            wz as int,
                        ));
                        assert forall|t2: int|
                            0 <= t2 < tasks@.len() implies spec_task_witness(
                            entries@,
                            #[trigger] tasks@[t2],
                            tasks@[t2].witness@.0,
                            tasks@[t2].witness@.1,
                        ) by {
                            reveal(spec_task_witness);
                            if t2 < tasks@.len() - 1 {
                                assert(tasks@[t2] == tasks_old[t2]);
                            }
                        }
                        assert(tasks@[tasks@.len() - 1].blocks@.contains((bx, by, bz))) by {
                            assert(tasks@[tasks@.len() - 1].blocks@[0] == (bx, by, bz));
                        }
                        assert forall|jj: int, oo: int|
                            #![trigger spec_change_cell(entries@[jj], oo)]
                            0 <= jj < entries@.len() && 0 <= oo < 27 && (jj < j || (jj == j && oo
                                < o + 1)) && i32::MIN <= spec_change_cell(entries@[jj], oo).0
                                <= i32::MAX && i32::MIN <= spec_change_cell(entries@[jj], oo).1
                                <= i32::MAX && i32::MIN <= spec_change_cell(entries@[jj], oo).2
                                <= i32::MAX implies exists|t2: int|
                                0 <= t2 < tasks@.len() && (#[trigger] tasks@[t2]).chunk_x
                                    == chunk_coord(spec_change_cell(entries@[jj], oo).0) as i32
                                    && tasks@[t2].chunk_y == chunk_coord(
                                    spec_change_cell(entries@[jj], oo).1,
                                ) as i32 && tasks@[t2].chunk_z == chunk_coord(
                                    spec_change_cell(entries@[jj], oo).2,
                                ) as i32 && tasks@[t2].blocks@.contains(
                                    (
                                        local_coord(spec_change_cell(entries@[jj], oo).0) as u32,
                                        local_coord(spec_change_cell(entries@[jj], oo).1) as u32,
                                        local_coord(spec_change_cell(entries@[jj], oo).2) as u32,
                                    ),
                                ) && tasks@[t2].priority >= entries@[jj].priority by {
                            if jj == j && oo == o {
                                assert(tasks@[tasks@.len() - 1].chunk_x == cx);
                            } else {
                                let t0 = choose|t0: int|
                                    0 <= t0 < tasks_old.len() && (#[trigger] tasks_old[t0]).chunk_x
                                        == chunk_coord(spec_change_cell(entries@[jj], oo).0) as i32
                                        && tasks_old[t0].chunk_y == chunk_coord(
                                        spec_change_cell(entries@[jj], oo).1,
                                    ) as i32 && tasks_old[t0].chunk_z == chunk_coord(
                                        spec_change_cell(entries@[jj], oo).2,
                                    ) as i32 && tasks_old[t0].blocks@.contains(
                                        (
                                            local_coord(spec_change_cell(entries@[jj], oo).0)
                                                as u32,
                                            local_coord(spec_change_cell(entries@[jj], oo).1)
                                                as u32,
                                            local_coord(spec_change_cell(entries@[jj], oo).2)
                                                as u32,
                                        ),
                                    ) && tasks_old[t0].priority >= entries@[jj].priority;
                                assert(tasks@[t0] == tasks_old[t0]);
                            }
                        }
                    }
                }
            }
            o = o + 1;
        }
        j = j + 1;
    }
    tasks
}

impl ChunkLoading {
    /// Run one re-mesh task: recompute faces and ambient occlusion for
    /// exactly the listed coordinates and, if the chunk is on the GPU,
    /// enqueue a fresh upload at the group's priority.
    pub fn apply_remesh_task(&mut self, chunk_manager: &mut ChunkManager, task: &RemeshTask)
        requires
            old(self).wf(),
            old(chunk_manager).wf(),
            -2_000_000 <= task.chunk_x <= 2_000_000,
            -2_000_000 <= task.chunk_z <= 2_000_000,
            forall|j: int|
                0 <= j < task.blocks@.len() ==> ((#[trigger] task.blocks@[j]).0 < 16
                    && task.blocks@[j].1 < 16 && task.blocks@[j].2 < 16),
        ensures
            final(self).wf(),
            final(chunk_manager).wf(),
            final(self).chunk_column_pool == old(self).chunk_column_pool,
            final(self).render_distance == old(self).render_distance,
            final(self).uploads_per_frame == old(self).uploads_per_frame,
            final(self).expand_chunks == old(self).expand_chunks,
            final(chunk_manager).spec_mesh_update_frame(
                *old(chunk_manager),
                task.chunk_x,
                task.chunk_y,
                task.chunk_z,
            ),
            final(chunk_manager).same_world_blocks(*old(chunk_manager)),
            final(chunk_manager).spec_remeshed_prefix(
                *old(chunk_manager),
                task.chunk_x,
                task.chunk_y,
                task.chunk_z,
                task.blocks@,
                task.blocks@.len() as int,
            ),
            ({
                let uploaded = match old(chunk_manager).spec_chunk_at(
                    task.chunk_x,
                    task.chunk_y,
                    task.chunk_z,
                ) {
                    Some(c) => c.is_uploaded_to_gpu,
                    None => false,
                };
                if uploaded {
                    final(self).chunk_upload_priority_queue.spec_entries() == old(
                        self,
                    ).chunk_upload_priority_queue.spec_entries().push(
                        (task.priority, (task.chunk_x, task.chunk_y, task.chunk_z)),
                    )
                } else {
                    final(self).chunk_upload_priority_queue == old(
                        self,
                    ).chunk_upload_priority_queue
                }
            }),
    {
        chunk_manager.update_blocks(task.chunk_x, task.chunk_y, task.chunk_z, &task.blocks);
        let uploaded = match chunk_manager.get_chunk(task.chunk_x, task.chunk_y, task.chunk_z) {
            Some(c) => c.is_uploaded_to_gpu,
            None => false,
        };
        if uploaded {
            self.chunk_upload_priority_queue.push(
                task.priority,
                (task.chunk_x, task.chunk_y, task.chunk_z),
            );
        }
    }
}



/// Where a tree detected at `site` stands: the cell above which its
/// trunk grows, at the column's recorded surface height.
pub open spec fn spec_site_base(x: i32, z: i32, heights: Seq<u32>, site: (u32, u32)) -> (
    int,
    int,
    int,
) {
    (
        16 * x + site.0,
        heights[crate::column::height_index(site.0 as int, site.1 as int)] as int,
        16 * z + site.1,
    )
}

/// The tree block that the site placed at `k` leaves at a world cell,
/// if any.
pub open spec fn spec_site_block(
    x: i32,
    z: i32,
    heights: Seq<u32>,
    site: (u32, u32),
    x2: int,
    y2: int,
    z2: int,
) -> Option<crate::block::BlockID> {
    crate::terrain::spec_tree_block_offset(
        x2 - spec_site_base(x, z, heights, site).0,
        y2 - spec_site_base(x, z, heights, site).1,
        z2 - spec_site_base(x, z, heights, site).2,
    )
}

/// Place foliage on one newly qualifying column: mark it foliated, then
/// detect tree placements from the oversampled local noise grid and
/// grow each through ordinary block writes, which enqueue re-mesh work
/// through the normal change-list path like any other edit.  The
/// detected sites come back in placement order: every cell that the
/// `k`-th tree covers and no later tree overlaps holds that tree's
/// block afterwards (where its chunk is loaded), and cells no tree
/// covers are untouched.
#[verifier::rlimit(80)]
pub fn place_foliage(chunk_manager: &mut ChunkManager, x: i32, z: i32, tree_samples: &Vec<i64>)
    -> (sites: Vec<(u32, u32)>)
    requires
        old(chunk_manager).wf(),
        old(chunk_manager).spec_has_column(x, z),
        -2_000_000 <= x <= 2_000_000,
        -2_000_000 <= z <= 2_000_000,
        tree_samples@.len() == 324,
    ensures
        final(chunk_manager).wf(),
        final(chunk_manager).spec_coords() == old(chunk_manager).spec_coords(),
        final(chunk_manager).spec_columns().dom() == old(chunk_manager).spec_columns().dom(),
        forall|i: int|
            0 <= i < old(chunk_manager).spec_changelist().len() ==> final(chunk_manager).spec_changelist()[i] == old(chunk_manager).spec_changelist()[i],
        final(chunk_manager).spec_changelist().len() >= old(chunk_manager).spec_changelist().len(),
        final(chunk_manager).spec_column_at(x, z).has_foliage,
        forall|a: i32, b: i32|
            #[trigger] final(chunk_manager).spec_has_column(a, b) ==> final(chunk_manager)
                .spec_column_at(a, b).spec_heights() == old(chunk_manager).spec_column_at(
                a,
                b,
            ).spec_heights(),
        // the returned sites are exactly the strict local maxima
        forall|k: int|
            0 <= k < sites@.len() ==> (#[trigger] sites@[k]).0 < 16 && sites@[k].1 < 16
                && crate::terrain::spec_tree_max(
                tree_samples@,
                sites@[k].1 + 1,
                sites@[k].0 + 1,
            ),
        forall|a: u32, b: u32|
            a < 16 && b < 16 && crate::terrain::spec_tree_max(
                tree_samples@,
                b as int + 1,
                a as int + 1,
            ) ==> sites@.contains((a, b)),
        forall|k1: int, k2: int| 0 <= k1 < k2 < sites@.len() ==> sites@[k1] != sites@[k2],
        // each tree's cells hold its blocks where no later tree overlaps
        forall|k: int, x2: int, y2: int, z2: int|
            #![trigger sites@[k], final(chunk_manager).spec_block_at_world(x2, y2, z2)]
            0 <= k < sites@.len() && i32::MIN <= x2 <= i32::MAX && i32::MIN <= y2 <= i32::MAX
                && i32::MIN <= z2 <= i32::MAX && spec_site_block(
                x,
                z,
                old(chunk_manager).spec_column_at(x, z).spec_heights(),
                sites@[k],
                x2,
                y2,
                z2,
            ) is Some && (forall|k2: int|
                k < k2 < sites@.len() ==> (#[trigger] spec_site_block(
                    x,
                    z,
                    old(chunk_manager).spec_column_at(x, z).spec_heights(),
                    sites@[k2],
                    x2,
                    y2,
                    z2,
                )) is None) ==> final(chunk_manager).spec_block_at_world(x2, y2, z2) == (if old(
                chunk_manager,
            ).spec_block_at_world(x2, y2, z2) is Some {
                spec_site_block(
                    x,
                    z,
                    old(chunk_manager).spec_column_at(x, z).spec_heights(),
                    sites@[k],
                    x2,
                    y2,
                    z2,
                )
            } else {
                None
            }),
        // cells no tree covers are untouched
        forall|x2: int, y2: int, z2: int|
            #![trigger final(chunk_manager).spec_block_at_world(x2, y2, z2)]
            i32::MIN <= x2 <= i32::MAX && i32::MIN <= y2 <= i32::MAX && i32::MIN <= z2 <= i32::MAX
                && (forall|k: int|
                0 <= k < sites@.len() ==> (#[trigger] spec_site_block(
                    x,
                    z,
                    old(chunk_manager).spec_column_at(x, z).spec_heights(),
                    sites@[k],
                    x2,
                    y2,
                    z2,
                )) is None) ==> final(chunk_manager).spec_block_at_world(x2, y2, z2) == old(
                chunk_manager,
            ).spec_block_at_world(x2, y2, z2),
{
    let ghost h0 = old(chunk_manager).spec_column_at(x, z).spec_heights();
    chunk_manager.set_column_foliage(x, z, true);
    let placements = crate::terrain::compute_tree_placement_in_chunk(tree_samples);
    let mut i: usize = 0;
    while i < placements.len()
        invariant
            chunk_manager.wf(),
            old(chunk_manager).wf(),
            old(chunk_manager).spec_has_column(x, z),
            -2_000_000 <= x <= 2_000_000,
            -2_000_000 <= z <= 2_000_000,
            h0 == old(chunk_manager).spec_column_at(x, z).spec_heights(),
            forall|k: int|
                0 <= k < placements@.len() ==> (#[trigger] placements@[k]).0 < 16
                    && placements@[k].1 < 16,
            i <= placements@.len(),
            chunk_manager.spec_coords() == old(chunk_manager).spec_coords(),
            chunk_manager.spec_columns().dom() == old(chunk_manager).spec_columns().dom(),
            forall|j: int|
                0 <= j < old(chunk_manager).spec_changelist().len() ==> chunk_manager
                    .spec_changelist()[j] == old(chunk_manager).spec_changelist()[j],
            chunk_manager.spec_changelist().len() >= old(chunk_manager).spec_changelist().len(),
            chunk_manager.spec_has_column(x, z),
            chunk_manager.spec_column_at(x, z).has_foliage,
            forall|a: i32, b: i32|
                #[trigger] chunk_manager.spec_has_column(a, b) ==> chunk_manager.spec_column_at(
                    a,
                    b,
                ).spec_heights() == old(chunk_manager).spec_column_at(a, b).spec_heights(),
            forall|x2: int, y2: int, z2: int|
                #![trigger chunk_manager.spec_block_at_world(x2, y2, z2)]
                i32::MIN <= x2 <= i32::MAX && i32::MIN <= y2 <= i32::MAX && i32::MIN <= z2
                    <= i32::MAX ==> (chunk_manager.spec_block_at_world(x2, y2, z2) is Some) == (
                old(chunk_manager).spec_block_at_world(x2, y2, z2) is Some),
            forall|k: int, x2: int, y2: int, z2: int|
                #![trigger placements@[k], chunk_manager.spec_block_at_world(x2, y2, z2)]
                0 <= k < i && i32::MIN <= x2 <= i32::MAX && i32::MIN <= y2 <= i32::MAX
                    && i32::MIN <= z2 <= i32::MAX && spec_site_block(
                    x,
                    z,
                    h0,
                    placements@[k],
                    x2,
                    y2,
                    z2,
                ) is Some && (forall|k2: int|
                    k < k2 < i ==> (#[trigger] spec_site_block(
                        x,
                        z,
                        h0,
                        placements@[k2],
                        x2,
                        y2,
                        z2,
                    )) is None) ==> chunk_manager.spec_block_at_world(x2, y2, z2) == (if old(
                    chunk_manager,
                ).spec_block_at_world(x2, y2, z2) is Some {
                    spec_site_block(x, z, h0, placements@[k], x2, y2, z2)
                } else {
                    None
                }),
            forall|x2: int, y2: int, z2: int|
                #![trigger chunk_manager.spec_block_at_world(x2, y2, z2)]
                i32::MIN <= x2 <= i32::MAX && i32::MIN <= y2 <= i32::MAX && i32::MIN <= z2
                    <= i32::MAX && (forall|k: int|
                    0 <= k < i ==> (#[trigger] spec_site_block(
                        x,
                        z,
                        h0,
                        placements@[k],
                        x2,
                        y2,
                        z2,
                    )) is None) ==> chunk_manager.spec_block_at_world(x2, y2, z2) == old(
                    chunk_manager,
                ).spec_block_at_world(x2, y2, z2),
        decreases placements@.len() - i,
    {
        let (a, b) = placements[i];
        let h = match chunk_manager.get_column(x, z) {
            Some(col) => col.get_height(a, b),
            None => vstd::pervasive::unreached(),
        };
        let wx = 16 * x + a as i32;
        let wz = 16 * z + b as i32;
        proof {
            assert(chunk_manager.spec_column_at(x, z).spec_heights() == h0);
            assert(spec_site_base(x, z, h0, placements@[i as int]) == (
                wx as int,
                h as int,
                wz as int,
            ));
        }
        let ghost mc_pre = *chunk_manager;
        crate::terrain::place_tree(chunk_manager, wx, h as i32, wz);
        proof {
            let cur = *chunk_manager;
            assert(cur.spec_columns().dom() == old(chunk_manager).spec_columns().dom());
            assert(cur.spec_has_column(x, z)) by {
                assert(cur.spec_columns().dom().contains(
                    crate::chunk_manager::spec_column_key(x, z),
                ) == old(chunk_manager).spec_columns().dom().contains(
                    crate::chunk_manager::spec_column_key(x, z),
                ));
            }
            assert forall|a2: i32, b2: i32|
                #[trigger] cur.spec_has_column(a2, b2) implies cur.spec_column_at(
                a2,
                b2,
            ).spec_heights() == old(chunk_manager).spec_column_at(a2, b2).spec_heights() by {
                assert(mc_pre.spec_has_column(a2, b2));
                assert(mc_pre.spec_column_at(a2, b2).spec_heights() == old(
                    chunk_manager,
                ).spec_column_at(a2, b2).spec_heights());
            }
            assert forall|x2: int, y2: int, z2: int|
                #![trigger cur.spec_block_at_world(x2, y2, z2)]
                i32::MIN <= x2 <= i32::MAX && i32::MIN <= y2 <= i32::MAX && i32::MIN <= z2
                    <= i32::MAX implies (cur.spec_block_at_world(x2, y2, z2) is Some) == (old(
                chunk_manager,
            ).spec_block_at_world(x2, y2, z2) is Some) by {
                assert((mc_pre.spec_block_at_world(x2, y2, z2) is Some) == (old(
                    chunk_manager,
                ).spec_block_at_world(x2, y2, z2) is Some));
            }
            assert forall|x2: int, y2: int, z2: int|
                #![trigger cur.spec_block_at_world(x2, y2, z2)]
                i32::MIN <= x2 <= i32::MAX && i32::MIN <= y2 <= i32::MAX && i32::MIN <= z2
                    <= i32::MAX && (forall|k: int|
                    0 <= k < i + 1 ==> (#[trigger] spec_site_block(
                        x,
                        z,
                        h0,
                        placements@[k],
                        x2,
                        y2,
                        z2,
                    )) is None) implies cur.spec_block_at_world(x2, y2, z2) == old(
                chunk_manager,
            ).spec_block_at_world(x2, y2, z2) by {
                assert(spec_site_block(x, z, h0, placements@[i as int], x2, y2, z2) is None);
                assert(cur.spec_block_at_world(x2, y2, z2) == mc_pre.spec_block_at_world(
                    x2,
                    y2,
                    z2,
                ));
                assert(mc_pre.spec_block_at_world(x2, y2, z2) == old(
                    chunk_manager,
                ).spec_block_at_world(x2, y2, z2));
            }
            assert forall|k: int, x2: int, y2: int, z2: int|
                #![trigger placements@[k], cur.spec_block_at_world(x2, y2, z2)]
                0 <= k < i + 1 && i32::MIN <= x2 <= i32::MAX && i32::MIN <= y2 <= i32::MAX
                    && i32::MIN <= z2 <= i32::MAX && spec_site_block(
                    x,
                    z,
                    h0,
                    placements@[k],
                    x2,
                    y2,
                    z2,
                ) is Some && (forall|k2: int|
                    k < k2 < i + 1 ==> (#[trigger] spec_site_block(
                        x,
                        z,
                        h0,
                        placements@[k2],
                        x2,
                        y2,
                        z2,
                    )) is None) implies cur.spec_block_at_world(x2, y2, z2) == (if old(
                chunk_manager,
            ).spec_block_at_world(x2, y2, z2) is Some {
                spec_site_block(x, z, h0, placements@[k], x2, y2, z2)
            } else {
                None
            }) by {
                if k == i {
                    assert((mc_pre.spec_block_at_world(x2, y2, z2) is Some) == (old(
                        chunk_manager,
                    ).spec_block_at_world(x2, y2, z2) is Some));
                } else {
                    assert(spec_site_block(x, z, h0, placements@[i as int], x2, y2, z2)
                        is None);
                    assert(cur.spec_block_at_world(x2, y2, z2) == mc_pre.spec_block_at_world(
                        x2,
                        y2,
                        z2,
                    ));
                }
            }
        }
        i = i + 1;
    }
    placements
}


/// One draw call's worth of chunk data: where the chunk sits and the
/// GPU handle and vertex count to draw it with.
#[derive(Clone, Copy, PartialEq, Eq, Structural, Debug)]
pub struct RenderChunk {
    pub chunk_x: i32,
    pub chunk_y: i32,
    pub chunk_z: i32,
    pub vao: u32,
    pub vertices_drawn: u32,
}

/// Whether a chunk has anything to draw: it is on the GPU, holds at
/// least one block, and carries a live handle.
pub open spec fn spec_renderable(c: crate::chunk::Chunk) -> bool {
    c.is_uploaded_to_gpu && !c.spec_is_empty() && c.vao != 0
}

impl ChunkManager {
/// Collect the draw list: every loaded chunk that is uploaded,
/// non-empty and carries a live GPU handle, with its handle and vertex
/// count.  The caller issues the actual draw calls.
pub fn render_loaded_chunks(&self) -> (r: Vec<RenderChunk>)
    requires
        self.wf(),
    ensures
        forall|k: int|
            0 <= k < r@.len() ==> {
                let e = #[trigger] r@[k];
                match self.spec_chunk_at(e.chunk_x, e.chunk_y, e.chunk_z) {
                    Some(c) => spec_renderable(c) && e.vao == c.vao && e.vertices_drawn
                        == c.vertices_drawn,
                    None => false,
                }
            },
        forall|j: int, y: i32|
            #![trigger self.spec_column_at(self.spec_coords()[j].0, self.spec_coords()[j].1).spec_chunks()[y as int]]
            0 <= j < self.spec_coords().len() && 0 <= y < 16 && spec_renderable(
                self.spec_column_at(
                    self.spec_coords()[j].0,
                    self.spec_coords()[j].1,
                ).spec_chunks()[y as int],
            ) ==> exists|k: int|
                0 <= k < r@.len() && (#[trigger] r@[k]).chunk_x == self.spec_coords()[j].0
                    && r@[k].chunk_y == y && r@[k].chunk_z == self.spec_coords()[j].1,
{
    let chunk_manager = self;
    let coords = chunk_manager.loaded_coords();
    let mut r: Vec<RenderChunk> = Vec::new();
    let mut i: usize = 0;
    while i < coords.len()
        invariant
            chunk_manager.wf(),
            coords@ == chunk_manager.spec_coords(),
            i <= coords@.len(),
            forall|k: int|
                0 <= k < r@.len() ==> {
                    let e = #[trigger] r@[k];
                    match chunk_manager.spec_chunk_at(e.chunk_x, e.chunk_y, e.chunk_z) {
                        Some(c) => spec_renderable(c) && e.vao == c.vao && e.vertices_drawn
                            == c.vertices_drawn,
                        None => false,
                    }
                },
            forall|j: int, y: i32|
                #![trigger chunk_manager.spec_column_at(chunk_manager.spec_coords()[j].0, chunk_manager.spec_coords()[j].1).spec_chunks()[y as int]]
                0 <= j < i && 0 <= y < 16 && spec_renderable(
                    chunk_manager.spec_column_at(
                        chunk_manager.spec_coords()[j].0,
                        chunk_manager.spec_coords()[j].1,
                    ).spec_chunks()[y as int],
                ) ==> exists|k: int|
                    0 <= k < r@.len() && (#[trigger] r@[k]).chunk_x
                        == chunk_manager.spec_coords()[j].0 && r@[k].chunk_y == y && r@[k].chunk_z
                        == chunk_manager.spec_coords()[j].1,
        decreases coords@.len() - i,
    {
        let (a, b) = coords[i];
        let mut y: i32 = 0;
        while y < 16
            invariant
                chunk_manager.wf(),
                coords@ == chunk_manager.spec_coords(),
                i < coords@.len(),
                (a, b) == coords@[i as int],
                0 <= y <= 16,
                forall|k: int|
                    0 <= k < r@.len() ==> {
                        let e = #[trigger] r@[k];
                        match chunk_manager.spec_chunk_at(e.chunk_x, e.chunk_y, e.chunk_z) {
                            Some(c) => spec_renderable(c) && e.vao == c.vao && e.vertices_drawn
                                == c.vertices_drawn,
                            None => false,
                        }
                    },
                forall|j: int, y2: i32|
                    #![trigger chunk_manager.spec_column_at(chunk_manager.spec_coords()[j].0, chunk_manager.spec_coords()[j].1).spec_chunks()[y2 as int]]
                    0 <= j < coords@.len() && 0 <= y2 < 16 && (j < i || (j == i && y2 < y))
                        && spec_renderable(
                        chunk_manager.spec_column_at(
                            chunk_manager.spec_coords()[j].0,
                            chunk_manager.spec_coords()[j].1,
                        ).spec_chunks()[y2 as int],
                    ) ==> exists|k: int|
                        0 <= k < r@.len() && (#[trigger] r@[k]).chunk_x
                            == chunk_manager.spec_coords()[j].0 && r@[k].chunk_y == y2
                            && r@[k].chunk_z == chunk_manager.spec_coords()[j].1,
            decreases 16 - y,
        {
            proof {
                assert(chunk_manager.spec_has_column(coords@[i as int].0, coords@[i as int].1));
            }
            let ghost r_old = r@;
            match chunk_manager.get_chunk(a, y, b) {
                Some(c) => {
                    if c.is_uploaded_to_gpu && c.vao != 0 && !c.is_empty() {
                        let e = RenderChunk {
                            chunk_x: a,
                            chunk_y: y,
                            chunk_z: b,
                            vao: c.vao,
                            vertices_drawn: c.vertices_drawn,
                        };
                        r.push(e);
                        proof {
                            assert(r@[r@.len() - 1] == e);
                        }
                    }
                },
                None => {
                    proof {
                        assert(false);
                    }
                },
            }
            proof {
                assert forall|j: int, y2: i32|
                    #![trigger chunk_manager.spec_column_at(chunk_manager.spec_coords()[j].0, chunk_manager.spec_coords()[j].1).spec_chunks()[y2 as int]]
                    0 <= j < coords@.len() && 0 <= y2 < 16 && (j < i || (j == i && y2 < y + 1))
                        && spec_renderable(
                        chunk_manager.spec_column_at(
                            chunk_manager.spec_coords()[j].0,
                            chunk_manager.spec_coords()[j].1,
                        ).spec_chunks()[y2 as int],
                    ) implies exists|k: int|
                        0 <= k < r@.len() && (#[trigger] r@[k]).chunk_x
                            == chunk_manager.spec_coords()[j].0 && r@[k].chunk_y == y2
                            && r@[k].chunk_z == chunk_manager.spec_coords()[j].1 by {
                    if j == i && y2 == y {
                        assert(r@[r@.len() - 1].chunk_x == chunk_manager.spec_coords()[j].0
                            && r@[r@.len() - 1].chunk_y == y2 && r@[r@.len() - 1].chunk_z
                            == chunk_manager.spec_coords()[j].1);
                    } else {
                        let k = choose|k: int|
                            0 <= k < r_old.len() && (#[trigger] r_old[k]).chunk_x
                                == chunk_manager.spec_coords()[j].0 && r_old[k].chunk_y == y2
                                && r_old[k].chunk_z == chunk_manager.spec_coords()[j].1;
                        assert(r@[k] == r_old[k]);
                    }
                }
            }
            y = y + 1;
        }
        i = i + 1;
    }
    r
}

}

} // verus!
