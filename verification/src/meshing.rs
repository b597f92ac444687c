use vstd::prelude::*;
use crate::block::BlockID;
use crate::chunk::{block_index, face_offset, FaceSet};
use crate::chunk_manager::{column_key, spec_column_key, ChunkManager};
use crate::coords::{chunk_coord, local_coord};

verus! {

broadcast use vstd::std_specs::hash::group_hash_axioms;

/// The offset of the `i`-th cell of the 3x3x3 neighbourhood of a block,
/// in row-major order; index 13 is the centre itself.
pub open spec fn neighbor_offset(i: int) -> (int, int, int) {
    (i / 9 - 1, (i % 9) / 3 - 1, i % 3 - 1)
}

/// Distinct local coordinates occupy distinct slots of the flat block
/// array.
pub proof fn lemma_block_index_injective(
    x1: int,
    y1: int,
    z1: int,
    x2: int,
    y2: int,
    z2: int,
)
    requires
        0 <= x1 < 16,
        0 <= y1 < 16,
        0 <= z1 < 16,
        0 <= x2 < 16,
        0 <= y2 < 16,
        0 <= z2 < 16,
        block_index(x1, y1, z1) == block_index(x2, y2, z2),
    ensures
        x1 == x2 && y1 == y2 && z1 == z2,
{
    assert(0 <= 16 * z1 + x1 < 256);
    assert(0 <= 16 * z2 + x2 < 256);
}

/// A chunk coordinate and a local coordinate together pin the global
/// coordinate down.
pub proof fn lemma_global_coord_determined(g1: int, g2: int)
    requires
        chunk_coord(g1) == chunk_coord(g2),
        local_coord(g1) == local_coord(g2),
    ensures
        g1 == g2,
{
    crate::coords::lemma_coord_round_trip(g1);
    crate::coords::lemma_coord_round_trip(g2);
}

impl ChunkManager {
    /// A loaded, non-transparent block occupies the cell; an unloaded or
    /// out-of-world cell counts as see-through.
    pub open spec fn spec_opaque_at(self, x: int, y: int, z: int) -> bool {
        match self.spec_block_at_world(x, y, z) {
            Some(b) => !b.spec_is_transparent(),
            None => false,
        }
    }

    /// Occupancy as ambient occlusion sees it: leaves cast shade, and an
    /// unloaded cell casts none.
    pub open spec fn spec_ao_blocker_at(self, x: int, y: int, z: int) -> bool {
        match self.spec_block_at_world(x, y, z) {
            Some(b) => !b.spec_is_transparent_no_leaves(),
            None => false,
        }
    }

    /// Face `d` of the block at global coordinates must be rendered:
    /// the neighbouring cell behind that face is transparent or unknown.
    pub open spec fn spec_face_active(self, x: int, y: int, z: int, d: int) -> bool {
        !self.spec_opaque_at(
            x + face_offset(d).0,
            y + face_offset(d).1,
            z + face_offset(d).2,
        )
    }

    /// How many of the first `n` cells of the 3x3x3 neighbourhood around
    /// the block (the centre excluded) block ambient light.
    pub open spec fn spec_ao_count(self, x: int, y: int, z: int, n: int) -> int
        decreases n,
    {
        if n <= 0 {
            0
        } else {
            self.spec_ao_count(x, y, z, n - 1) + if n - 1 != 13 && self.spec_ao_blocker_at(
                x + neighbor_offset(n - 1).0,
                y + neighbor_offset(n - 1).1,
                z + neighbor_offset(n - 1).2,
            ) {
                1int
            } else {
                0int
            }
        }
    }

    /// The ambient-occlusion value of the block at global coordinates: a
    /// pure function of its 26-neighbourhood occupancy, unknown cells
    /// counting as empty.
    pub open spec fn spec_ao_of(self, x: int, y: int, z: int) -> int {
        self.spec_ao_count(x, y, z, 27)
    }

    /// The two states agree on every loaded block of the world.
    pub open spec fn same_world_blocks(self, o: ChunkManager) -> bool {
        forall|x: int, y: int, z: int|
            #[trigger] self.spec_block_at_world(x, y, z) == o.spec_block_at_world(x, y, z)
    }

    /// Face activity only reads blocks, so states with the same blocks
    /// activate the same faces.
    pub proof fn lemma_same_world_face(self, o: ChunkManager, x: int, y: int, z: int, d: int)
        requires
            self.same_world_blocks(o),
        ensures
            self.spec_face_active(x, y, z, d) == o.spec_face_active(x, y, z, d),
    {
    }

    /// Ambient occlusion only reads blocks, so states with the same
    /// blocks shade alike.
    pub proof fn lemma_same_world_ao(self, o: ChunkManager, x: int, y: int, z: int, n: int)
        requires
            self.same_world_blocks(o),
            n <= 27,
        ensures
            self.spec_ao_count(x, y, z, n) == o.spec_ao_count(x, y, z, n),
        decreases n,
    {
        if n > 0 {
            self.lemma_same_world_ao(o, x, y, z, n - 1);
        }
    }

    fn block_opaque_at(&self, x: i32, y: i32, z: i32) -> (r: bool)
        requires
            self.wf(),
        ensures
            r == self.spec_opaque_at(x as int, y as int, z as int),
    {
        match self.get_block(x, y, z) {
            Some(b) => !b.is_transparent(),
            None => false,
        }
    }

    fn block_ao_blocker_at(&self, x: i32, y: i32, z: i32) -> (r: bool)
        requires
            self.wf(),
        ensures
            r == self.spec_ao_blocker_at(x as int, y as int, z as int),
    {
        match self.get_block(x, y, z) {
            Some(b) => !b.is_transparent_no_leaves(),
            None => false,
        }
    }

    /// Compute which faces of the block at global coordinates border a
    /// transparent or unknown cell and so need rendering.
    pub fn get_active_faces_of_block(&self, x: i32, y: i32, z: i32) -> (r: FaceSet)
        requires
            self.wf(),
            -0x4000_0000 <= x <= 0x4000_0000,
            -0x4000_0000 <= y <= 0x4000_0000,
            -0x4000_0000 <= z <= 0x4000_0000,
        ensures
            forall|d: int|
                0 <= d < 6 ==> #[trigger] r.spec_face(d) == self.spec_face_active(
                    x as int,
                    y as int,
                    z as int,
                    d,
                ),
    {
        let right = !self.block_opaque_at(x + 1, y, z);
        let left = !self.block_opaque_at(x - 1, y, z);
        let top = !self.block_opaque_at(x, y + 1, z);
        let bottom = !self.block_opaque_at(x, y - 1, z);
        let front = !self.block_opaque_at(x, y, z + 1);
        let back = !self.block_opaque_at(x, y, z - 1);
        FaceSet { right, left, top, bottom, front, back }
    }

    /// Compute the ambient-occlusion value of the block at global
    /// coordinates from its 26 neighbours.
    pub fn compute_ao_of_block(&self, x: i32, y: i32, z: i32) -> (r: u8)
        requires
            self.wf(),
            -0x4000_0000 <= x <= 0x4000_0000,
            -0x4000_0000 <= y <= 0x4000_0000,
            -0x4000_0000 <= z <= 0x4000_0000,
        ensures
            r as int == self.spec_ao_of(x as int, y as int, z as int),
            r <= 26,
    {
        let mut count: u8 = 0;
        let mut i: u32 = 0;
        while i < 27
            invariant
                self.wf(),
                -0x4000_0000 <= x <= 0x4000_0000,
                -0x4000_0000 <= y <= 0x4000_0000,
                -0x4000_0000 <= z <= 0x4000_0000,
                i <= 27,
                i <= 13 ==> count <= i,
                i > 13 ==> count as int <= i - 1,
                count as int == self.spec_ao_count(x as int, y as int, z as int, i as int),
            decreases 27 - i,
        {
            if i != 13 {
                let dx = (i / 9) as i32 - 1;
                let dy = ((i % 9) / 3) as i32 - 1;
                let dz = (i % 3) as i32 - 1;
                if self.block_ao_blocker_at(x + dx, y + dy, z + dz) {
                    count = count + 1;
                }
            }
            i = i + 1;
        }
        count
    }
}


/// A block triple occurs among the first `n` entries of a work list.
pub open spec fn spec_listed_prefix(
    blocks: Seq<(u32, u32, u32)>,
    n: int,
    bx: u32,
    by: u32,
    bz: u32,
) -> bool {
    exists|j: int| 0 <= j < n && #[trigger] blocks[j] == (bx, by, bz)
}

/// Extending the prefix by one entry extends exactly what it lists.
pub proof fn lemma_listed_step(blocks: Seq<(u32, u32, u32)>, n: int, bx: u32, by: u32, bz: u32)
    requires
        0 <= n < blocks.len(),
    ensures
        spec_listed_prefix(blocks, n + 1, bx, by, bz) <==> (spec_listed_prefix(
            blocks,
            n,
            bx,
            by,
            bz,
        ) || blocks[n] == (bx, by, bz)),
{
    if spec_listed_prefix(blocks, n + 1, bx, by, bz) {
        let j = choose|j: int| 0 <= j < n + 1 && #[trigger] blocks[j] == (bx, by, bz);
        if j < n {
            assert(spec_listed_prefix(blocks, n, bx, by, bz));
        }
    }
    if spec_listed_prefix(blocks, n, bx, by, bz) {
        let j = choose|j: int| 0 <= j < n && #[trigger] blocks[j] == (bx, by, bz);
        assert(0 <= j < n + 1 && blocks[j] == (bx, by, bz));
    }
    if blocks[n] == (bx, by, bz) {
        assert(0 <= n < n + 1 && blocks[n] == (bx, by, bz));
    }
}

impl ChunkManager {
    /// A mesh update of the chunk at the given chunk coordinates changed
    /// nothing else: every other column and chunk is untouched, and the
    /// chunk itself kept its blocks, flags, heightmap share and GPU
    /// fields; only its mesh arrays may differ.
    pub open spec fn spec_mesh_update_frame(
        self,
        pre: ChunkManager,
        cx: i32,
        cy: i32,
        cz: i32,
    ) -> bool {
        &&& self.spec_coords() == pre.spec_coords()
        &&& self.spec_changelist() == pre.spec_changelist()
        &&& self.spec_columns().dom() == pre.spec_columns().dom()
        &&& forall|k: u64|
            pre.spec_columns().contains_key(k) && k != spec_column_key(cx, cz)
                ==> (#[trigger] self.spec_columns()[k]) == pre.spec_columns()[k]
        &&& (pre.spec_has_column(cx, cz) ==> {
            let c0 = pre.spec_column_at(cx, cz);
            let c1 = self.spec_column_at(cx, cz);
            &&& c1.spec_heights() == c0.spec_heights()
            &&& c1.has_foliage == c0.has_foliage
            &&& forall|i: int|
                0 <= i < 16 && i != cy ==> (#[trigger] c1.spec_chunks()[i]) == c0.spec_chunks()[i]
            &&& (0 <= cy < 16 ==> c1.spec_chunks()[cy as int].same_except_mesh(
                c0.spec_chunks()[cy as int],
            ))
        })
    }

    /// A state whose columns sit under the same keys as a well-formed
    /// one, all of them well formed, with the same coordinate list and
    /// change list, is well formed itself.
    pub proof fn lemma_wf_preserved(self, pre: ChunkManager)
        requires
            pre.wf(),
            self.spec_coords() == pre.spec_coords(),
            self.spec_changelist() == pre.spec_changelist(),
            self.spec_columns().dom() == pre.spec_columns().dom(),
            forall|k: u64|
                self.spec_columns().contains_key(k) ==> (#[trigger] self.spec_columns()[k]).wf(),
        ensures
            self.wf(),
    {
        assert forall|i: int| 0 <= i < self.spec_coords().len() implies self.spec_columns()
            .contains_key(
            spec_column_key((#[trigger] self.spec_coords()[i]).0, self.spec_coords()[i].1),
        ) by {
            let c = pre.spec_coords()[i];
            assert(pre.spec_columns().contains_key(spec_column_key(c.0, c.1)));
            assert(pre.spec_columns().dom().contains(spec_column_key(c.0, c.1)));
        }
        assert forall|k: u64| self.spec_columns().contains_key(k) implies exists|i: int|
            0 <= i < self.spec_coords().len() && spec_column_key(
                (#[trigger] self.spec_coords()[i]).0,
                self.spec_coords()[i].1,
            ) == k by {
            assert(self.spec_columns().dom().contains(k));
            assert(pre.spec_columns().contains_key(k));
            let i = choose|i: int|
                0 <= i < pre.spec_coords().len() && spec_column_key(
                    (#[trigger] pre.spec_coords()[i]).0,
                    pre.spec_coords()[i].1,
                ) == k;
            assert(0 <= i < self.spec_coords().len() && spec_column_key(
                self.spec_coords()[i].0,
                self.spec_coords()[i].1,
            ) == k);
        }
    }

    /// Write one block's freshly computed face set and ambient occlusion
    /// into its chunk, leaving everything else in the world alone.
    fn apply_mesh_update(
        &mut self,
        cx: i32,
        cy: i32,
        cz: i32,
        bx: u32,
        by: u32,
        bz: u32,
        f: FaceSet,
        v: u8,
    )
        requires
            old(self).wf(),
            old(self).spec_has_column(cx, cz),
            0 <= cy < 16,
            bx < 16,
            by < 16,
            bz < 16,
        ensures
            final(self).wf(),
            final(self).spec_mesh_update_frame(*old(self), cx, cy, cz),
            final(self).same_world_blocks(*old(self)),
            ({
                let c0 = old(self).spec_column_at(cx, cz).spec_chunks()[cy as int];
                let c1 = final(self).spec_column_at(cx, cz).spec_chunks()[cy as int];
                let bi = block_index(bx as int, by as int, bz as int);
                &&& forall|d: int| 0 <= d < 6 ==> c1.spec_faces()[6 * bi + d] == f.spec_face(d)
                &&& forall|j: int|
                    0 <= j < 24576 && !(6 * bi <= j < 6 * bi + 6) ==> c1.spec_faces()[j]
                        == c0.spec_faces()[j]
                &&& c1.spec_ao() == c0.spec_ao().update(bi, v)
            }),
    {
        let key = column_key(cx, cz);
        let mut col = match self.loaded_chunk_columns.remove(&key) {
            Some(c) => c,
            None => vstd::pervasive::unreached(),
        };
        let cyu = cy as usize;
        let mut chunk = col.chunks.remove(cyu);
        chunk.set_mesh_data(bx, by, bz, f, v);
        col.chunks.insert(cyu, chunk);
        proof {
            assert(col.chunks@ =~= old(self).spec_column_at(cx, cz).chunks@.update(
                cy as int,
                col.chunks@[cy as int],
            ));
        }
        self.loaded_chunk_columns.insert(key, col);
        proof {
            assert(self.spec_columns().dom() =~= old(self).spec_columns().dom());
            self.lemma_wf_preserved(*old(self));
            assert forall|x: int, y: int, z: int| #[trigger] self.spec_block_at_world(x, y, z)
                == old(self).spec_block_at_world(x, y, z) by {
                let kx = spec_column_key(chunk_coord(x) as i32, chunk_coord(z) as i32);
                if kx == key && 0 <= chunk_coord(y) < 16 && self.spec_columns().contains_key(kx) {
                    let cyq = chunk_coord(y);
                    if cyq == cy as int {
                        assert(self.spec_columns()[kx].spec_chunks()[cyq].spec_blocks() == old(
                            self,
                        ).spec_columns()[kx].spec_chunks()[cyq].spec_blocks());
                    } else {
                        assert(self.spec_columns()[kx].spec_chunks()[cyq] == old(
                            self,
                        ).spec_columns()[kx].spec_chunks()[cyq]);
                    }
                }
            }
        }
    }

    /// Recompute the active faces and ambient occlusion of a single
    /// block of an already loaded chunk; an air cell is left alone.
    pub fn update_block(
        &mut self,
        chunk_x: i32,
        chunk_y: i32,
        chunk_z: i32,
        block_x: u32,
        block_y: u32,
        block_z: u32,
    )
        requires
            old(self).wf(),
            old(self).spec_chunk_at(chunk_x, chunk_y, chunk_z) is Some,
            -2_000_000 <= chunk_x <= 2_000_000,
            -2_000_000 <= chunk_z <= 2_000_000,
            block_x < 16,
            block_y < 16,
            block_z < 16,
        ensures
            final(self).wf(),
            final(self).spec_mesh_update_frame(*old(self), chunk_x, chunk_y, chunk_z),
            final(self).same_world_blocks(*old(self)),
            ({
                let c0 = old(self).spec_column_at(chunk_x, chunk_z).spec_chunks()[chunk_y as int];
                let c1 = final(self).spec_column_at(chunk_x, chunk_z).spec_chunks()[chunk_y as int];
                let bi = block_index(block_x as int, block_y as int, block_z as int);
                let wx = 16 * (chunk_x as int) + block_x as int;
                let wy = 16 * (chunk_y as int) + block_y as int;
                let wz = 16 * (chunk_z as int) + block_z as int;
                if c0.spec_blocks()[bi] != BlockID::Air {
                    &&& forall|d: int|
                        0 <= d < 6 ==> c1.spec_faces()[6 * bi + d] == old(self).spec_face_active(
                            wx,
                            wy,
                            wz,
                            d,
                        )
                    &&& c1.spec_ao()[bi] as int == old(self).spec_ao_of(wx, wy, wz)
                    &&& forall|j: int|
                        0 <= j < 24576 && !(6 * bi <= j < 6 * bi + 6) ==> c1.spec_faces()[j]
                            == c0.spec_faces()[j]
                    &&& forall|j: int|
                        0 <= j < 4096 && j != bi ==> c1.spec_ao()[j] == c0.spec_ao()[j]
                } else {
                    &&& c1.spec_faces() == c0.spec_faces()
                    &&& c1.spec_ao() == c0.spec_ao()
                }
            }),
    {
        let b = match self.get_chunk(chunk_x, chunk_y, chunk_z) {
            Some(c) => c.get_block(block_x, block_y, block_z),
            None => vstd::pervasive::unreached(),
        };
        if b == BlockID::Air {
            return ;
        }
        let (world_x, world_y, world_z) = ChunkManager::get_global_coords(
            (chunk_x, chunk_y, chunk_z, block_x, block_y, block_z),
        );
        let f = self.get_active_faces_of_block(world_x, world_y, world_z);
        let v = self.compute_ao_of_block(world_x, world_y, world_z);
        self.apply_mesh_update(chunk_x, chunk_y, chunk_z, block_x, block_y, block_z, f, v);
        proof {
            let c1 = self.spec_column_at(chunk_x, chunk_z).spec_chunks()[chunk_y as int];
            let bi = block_index(block_x as int, block_y as int, block_z as int);
            let wx = 16 * (chunk_x as int) + block_x as int;
            let wy = 16 * (chunk_y as int) + block_y as int;
            let wz = 16 * (chunk_z as int) + block_z as int;
            assert forall|d: int| 0 <= d < 6 implies c1.spec_faces()[6 * bi + d] == old(
                self,
            ).spec_face_active(wx, wy, wz, d) by {
                assert(c1.spec_faces()[6 * bi + d] == f.spec_face(d));
                assert(f.spec_face(d) == old(self).spec_face_active(wx, wy, wz, d));
            }
        }
    }
}



impl ChunkManager {
    /// The mesh arrays of the chunk at the given chunk coordinates hold
    /// the values recomputed (against `pre`) for every listed block that
    /// holds a block, and `pre`'s values everywhere else.
    pub open spec fn spec_remeshed_prefix(
        self,
        pre: ChunkManager,
        cx: i32,
        cy: i32,
        cz: i32,
        blocks: Seq<(u32, u32, u32)>,
        n: int,
    ) -> bool {
        (0 <= cy < 16 && pre.spec_has_column(cx, cz)) ==> {
            let c0 = pre.spec_column_at(cx, cz).spec_chunks()[cy as int];
            let c1 = self.spec_column_at(cx, cz).spec_chunks()[cy as int];
            forall|bx: u32, by: u32, bz: u32|
                #![trigger block_index(bx as int, by as int, bz as int)]
                bx < 16 && by < 16 && bz < 16 ==> {
                    let bi = block_index(bx as int, by as int, bz as int);
                    let wx = 16 * (cx as int) + bx as int;
                    let wy = 16 * (cy as int) + by as int;
                    let wz = 16 * (cz as int) + bz as int;
                    if spec_listed_prefix(blocks, n, bx, by, bz) && c0.spec_blocks()[bi]
                        != BlockID::Air {
                        &&& forall|d: int|
                            0 <= d < 6 ==> (#[trigger] c1.spec_faces()[6 * bi + d])
                                == pre.spec_face_active(wx, wy, wz, d)
                        &&& c1.spec_ao()[bi] as int == pre.spec_ao_of(wx, wy, wz)
                    } else {
                        &&& forall|d: int|
                            0 <= d < 6 ==> (#[trigger] c1.spec_faces()[6 * bi + d])
                                == c0.spec_faces()[6 * bi + d]
                        &&& c1.spec_ao()[bi] == c0.spec_ao()[bi]
                    }
                }
        }
    }

    /// Two mesh updates of the same chunk in sequence still changed
    /// nothing outside it.
    pub proof fn lemma_frame_trans(
        self,
        mid: ChunkManager,
        pre: ChunkManager,
        cx: i32,
        cy: i32,
        cz: i32,
    )
        requires
            self.spec_mesh_update_frame(mid, cx, cy, cz),
            mid.spec_mesh_update_frame(pre, cx, cy, cz),
        ensures
            self.spec_mesh_update_frame(pre, cx, cy, cz),
    {
        assert forall|k: u64|
            pre.spec_columns().contains_key(k) && k != spec_column_key(cx, cz) implies (
        #[trigger] self.spec_columns()[k]) == pre.spec_columns()[k] by {
            assert(pre.spec_columns().dom().contains(k));
            assert(mid.spec_columns().contains_key(k));
            assert(mid.spec_columns()[k] == pre.spec_columns()[k]);
        }
        if pre.spec_has_column(cx, cz) {
            assert(mid.spec_columns().dom().contains(spec_column_key(cx, cz)));
        }
    }

    /// Agreement on the world's blocks is transitive.
    pub proof fn lemma_same_world_trans(self, mid: ChunkManager, pre: ChunkManager)
        requires
            self.same_world_blocks(mid),
            mid.same_world_blocks(pre),
        ensures
            self.same_world_blocks(pre),
    {
        assert forall|x: int, y: int, z: int| #[trigger] self.spec_block_at_world(x, y, z)
            == pre.spec_block_at_world(x, y, z) by {
            assert(self.spec_block_at_world(x, y, z) == mid.spec_block_at_world(x, y, z));
            assert(mid.spec_block_at_world(x, y, z) == pre.spec_block_at_world(x, y, z));
        }
    }

    /// Recompute active faces and ambient occlusion for each listed
    /// block of the chunk at the given chunk coordinates.  A missing
    /// column is simply skipped: the caller re-discovers such work on a
    /// later cycle.  Air cells keep their stale mesh entries, exactly as
    /// a full-chunk pass would leave them.
    pub fn update_blocks(
        &mut self,
        chunk_x: i32,
        chunk_y: i32,
        chunk_z: i32,
        blocks: &Vec<(u32, u32, u32)>,
    )
        requires
            old(self).wf(),
            -2_000_000 <= chunk_x <= 2_000_000,
            -2_000_000 <= chunk_z <= 2_000_000,
            forall|j: int|
                0 <= j < blocks@.len() ==> ((#[trigger] blocks@[j]).0 < 16 && blocks@[j].1 < 16
                    && blocks@[j].2 < 16),
        ensures
            final(self).wf(),
            final(self).spec_mesh_update_frame(*old(self), chunk_x, chunk_y, chunk_z),
            final(self).same_world_blocks(*old(self)),
            final(self).spec_remeshed_prefix(
                *old(self),
                chunk_x,
                chunk_y,
                chunk_z,
                blocks@,
                blocks@.len() as int,
            ),
    {
        match self.get_chunk(chunk_x, chunk_y, chunk_z) {
            Some(_) => {},
            None => {
                return ;
            },
        }
        let mut j: usize = 0;
        while j < blocks.len()
            invariant
                self.wf(),
                old(self).wf(),
                -2_000_000 <= chunk_x <= 2_000_000,
                -2_000_000 <= chunk_z <= 2_000_000,
                0 <= chunk_y < 16,
                old(self).spec_chunk_at(chunk_x, chunk_y, chunk_z) is Some,
                forall|jj: int|
                    0 <= jj < blocks@.len() ==> ((#[trigger] blocks@[jj]).0 < 16 && blocks@[jj].1
                        < 16 && blocks@[jj].2 < 16),
                j <= blocks@.len(),
                self.spec_mesh_update_frame(*old(self), chunk_x, chunk_y, chunk_z),
                self.same_world_blocks(*old(self)),
                self.spec_remeshed_prefix(
                    *old(self),
                    chunk_x,
                    chunk_y,
                    chunk_z,
                    blocks@,
                    j as int,
                ),
            decreases blocks@.len() - j,
        {
            let (bx, by, bz) = blocks[j];
            proof {
                assert(old(self).spec_columns().dom().contains(spec_column_key(chunk_x, chunk_z)));
                assert(self.spec_has_column(chunk_x, chunk_z));
            }
            let b = match self.get_chunk(chunk_x, chunk_y, chunk_z) {
                Some(c) => c.get_block(bx, by, bz),
                None => vstd::pervasive::unreached(),
            };
            let ghost pre = *old(self);
            let ghost cur = *self;
            let ghost c0 = pre.spec_column_at(chunk_x, chunk_z).spec_chunks()[chunk_y as int];
            let ghost bi = block_index(bx as int, by as int, bz as int);
            proof {
                // The chunk's blocks never change during re-meshing.
                assert(cur.spec_column_at(chunk_x, chunk_z).spec_chunks()[chunk_y as int]
                    .spec_blocks() == c0.spec_blocks());
            }
            if !(b == BlockID::Air) {
                let (world_x, world_y, world_z) = ChunkManager::get_global_coords(
                    (chunk_x, chunk_y, chunk_z, bx, by, bz),
                );
                let f = self.get_active_faces_of_block(world_x, world_y, world_z);
                let v = self.compute_ao_of_block(world_x, world_y, world_z);
                self.apply_mesh_update(chunk_x, chunk_y, chunk_z, bx, by, bz, f, v);
                proof {
                    self.lemma_frame_trans(cur, pre, chunk_x, chunk_y, chunk_z);
                    self.lemma_same_world_trans(cur, pre);
                    let c1 = self.spec_column_at(chunk_x, chunk_z).spec_chunks()[chunk_y as int];
                    let cm = cur.spec_column_at(chunk_x, chunk_z).spec_chunks()[chunk_y as int];
                    assert forall|bx2: u32, by2: u32, bz2: u32|
                        #![trigger block_index(bx2 as int, by2 as int, bz2 as int)]
                        bx2 < 16 && by2 < 16 && bz2 < 16 implies {
                        let bi2 = block_index(bx2 as int, by2 as int, bz2 as int);
                        let wx = 16 * (chunk_x as int) + bx2 as int;
                        let wy = 16 * (chunk_y as int) + by2 as int;
                        let wz = 16 * (chunk_z as int) + bz2 as int;
                        if spec_listed_prefix(blocks@, j + 1, bx2, by2, bz2) && c0.spec_blocks()[bi2]
                            != BlockID::Air {
                            &&& forall|d: int|
                                0 <= d < 6 ==> (#[trigger] c1.spec_faces()[6 * bi2 + d])
                                    == pre.spec_face_active(wx, wy, wz, d)
                            &&& c1.spec_ao()[bi2] as int == pre.spec_ao_of(wx, wy, wz)
                        } else {
                            &&& forall|d: int|
                                0 <= d < 6 ==> (#[trigger] c1.spec_faces()[6 * bi2 + d])
                                    == c0.spec_faces()[6 * bi2 + d]
                            &&& c1.spec_ao()[bi2] == c0.spec_ao()[bi2]
                        }
                    } by {
                        lemma_listed_step(blocks@, j as int, bx2, by2, bz2);
                        let bi2 = block_index(bx2 as int, by2 as int, bz2 as int);
                        let wx = 16 * (chunk_x as int) + bx2 as int;
                        let wy = 16 * (chunk_y as int) + by2 as int;
                        let wz = 16 * (chunk_z as int) + bz2 as int;
                        if bx2 == bx && by2 == by && bz2 == bz {
                            assert(wx == world_x as int && wy == world_y as int && wz == world_z
                                as int);
                            assert forall|d: int| 0 <= d < 6 implies (#[trigger] c1.spec_faces()[6
                                * bi2 + d]) == pre.spec_face_active(wx, wy, wz, d) by {
                                assert(c1.spec_faces()[6 * bi2 + d] == f.spec_face(d));
                                assert(f.spec_face(d) == cur.spec_face_active(wx, wy, wz, d));
                                cur.lemma_same_world_face(pre, wx, wy, wz, d);
                            }
                            assert(c1.spec_ao()[bi2] == v);
                            cur.lemma_same_world_ao(pre, wx, wy, wz, 27);
                        } else {
                            if bi2 == bi {
                                lemma_block_index_injective(
                                    bx2 as int,
                                    by2 as int,
                                    bz2 as int,
                                    bx as int,
                                    by as int,
                                    bz as int,
                                );
                            }
                            assert(bi2 != bi);
                            assert forall|d: int| 0 <= d < 6 implies (#[trigger] c1.spec_faces()[6
                                * bi2 + d]) == cm.spec_faces()[6 * bi2 + d] by {
                                assert(!(6 * bi <= 6 * bi2 + d < 6 * bi + 6));
                            }
                            assert(c1.spec_ao()[bi2] == cm.spec_ao()[bi2]);
                            assert(!(blocks@[j as int] == (bx2, by2, bz2)));
                        }
                    }
                }
            } else {
                proof {
                    let c1 = self.spec_column_at(chunk_x, chunk_z).spec_chunks()[chunk_y as int];
                    assert forall|bx2: u32, by2: u32, bz2: u32|
                        #![trigger block_index(bx2 as int, by2 as int, bz2 as int)]
                        bx2 < 16 && by2 < 16 && bz2 < 16 implies {
                        let bi2 = block_index(bx2 as int, by2 as int, bz2 as int);
                        let wx = 16 * (chunk_x as int) + bx2 as int;
                        let wy = 16 * (chunk_y as int) + by2 as int;
                        let wz = 16 * (chunk_z as int) + bz2 as int;
                        if spec_listed_prefix(blocks@, j + 1, bx2, by2, bz2) && c0.spec_blocks()[bi2]
                            != BlockID::Air {
                            &&& forall|d: int|
                                0 <= d < 6 ==> (#[trigger] c1.spec_faces()[6 * bi2 + d])
                                    == pre.spec_face_active(wx, wy, wz, d)
                            &&& c1.spec_ao()[bi2] as int == pre.spec_ao_of(wx, wy, wz)
                        } else {
                            &&& forall|d: int|
                                0 <= d < 6 ==> (#[trigger] c1.spec_faces()[6 * bi2 + d])
                                    == c0.spec_faces()[6 * bi2 + d]
                            &&& c1.spec_ao()[bi2] == c0.spec_ao()[bi2]
                        }
                    } by {
                        lemma_listed_step(blocks@, j as int, bx2, by2, bz2);
                        if bx2 == bx && by2 == by && bz2 == bz {
                            assert(c0.spec_blocks()[block_index(
                                bx2 as int,
                                by2 as int,
                                bz2 as int,
                            )] == BlockID::Air);
                        }
                    }
                }
            }
            j = j + 1;
        }
    }
}



impl ChunkManager {
    /// The chunk's stored mesh is up to date: for every cell that holds
    /// a block, the stored face bits and ambient occlusion are what a
    /// recomputation against the current world would produce.
    pub open spec fn spec_chunk_meshed(self, cx: i32, cy: i32, cz: i32) -> bool {
        self.spec_chunk_at(cx, cy, cz) is Some ==> {
            let c = self.spec_column_at(cx, cz).spec_chunks()[cy as int];
            forall|bx: u32, by: u32, bz: u32|
                #![trigger block_index(bx as int, by as int, bz as int)]
                bx < 16 && by < 16 && bz < 16 && c.spec_blocks()[block_index(
                    bx as int,
                    by as int,
                    bz as int,
                )] != BlockID::Air ==> {
                    let bi = block_index(bx as int, by as int, bz as int);
                    let wx = 16 * (cx as int) + bx as int;
                    let wy = 16 * (cy as int) + by as int;
                    let wz = 16 * (cz as int) + bz as int;
                    &&& forall|d: int|
                        0 <= d < 6 ==> (#[trigger] c.spec_faces()[6 * bi + d])
                            == self.spec_face_active(wx, wy, wz, d)
                    &&& c.spec_ao()[bi] as int == self.spec_ao_of(wx, wy, wz)
                }
        }
    }

    /// Face symmetry at a chunk boundary.  For two horizontally adjacent
    /// loaded chunks, both with their mesh up to date, the +x face bit
    /// stored on the boundary of the left chunk is set exactly when the
    /// facing cell of the right chunk is transparent, and the -x face
    /// bit of the right chunk exactly when the left cell is transparent:
    /// the two sides never disagree about the shared boundary.
    pub proof fn lemma_face_symmetry(self, cx: i32, cy: i32, cz: i32, by: u32, bz: u32)
        requires
            self.wf(),
            -2_000_000 <= cx <= 2_000_000,
            -2_000_000 <= cz <= 2_000_000,
            0 <= cy < 16,
            by < 16,
            bz < 16,
            self.spec_chunk_at(cx, cy, cz) is Some,
            self.spec_chunk_at((cx + 1) as i32, cy, cz) is Some,
            self.spec_chunk_meshed(cx, cy, cz),
            self.spec_chunk_meshed((cx + 1) as i32, cy, cz),
        ensures
            ({
                let a = self.spec_column_at(cx, cz).spec_chunks()[cy as int];
                let b = self.spec_column_at((cx + 1) as i32, cz).spec_chunks()[cy as int];
                let bia = block_index(15, by as int, bz as int);
                let bib = block_index(0, by as int, bz as int);
                &&& (a.spec_blocks()[bia] != BlockID::Air ==> a.spec_faces()[6 * bia + 0]
                    == b.spec_blocks()[bib].spec_is_transparent())
                &&& (b.spec_blocks()[bib] != BlockID::Air ==> b.spec_faces()[6 * bib + 1]
                    == a.spec_blocks()[bia].spec_is_transparent())
            }),
    {
        let a = self.spec_column_at(cx, cz).spec_chunks()[cy as int];
        let b = self.spec_column_at((cx + 1) as i32, cz).spec_chunks()[cy as int];
        let bia = block_index(15, by as int, bz as int);
        let bib = block_index(0, by as int, bz as int);
        let wxa = 16 * (cx as int) + 15;
        let wxb = 16 * ((cx + 1) as int);
        let wy = 16 * (cy as int) + by as int;
        let wz = 16 * (cz as int) + bz as int;
        crate::coords::lemma_compose_coords(cx as int, 15);
        crate::coords::lemma_compose_coords((cx + 1) as int, 0);
        crate::coords::lemma_compose_coords(cy as int, by as int);
        crate::coords::lemma_compose_coords(cz as int, bz as int);
        assert(wxb == wxa + 1);
        assert(self.spec_block_at_world(wxb, wy, wz) == Some(b.spec_blocks()[bib]));
        assert(self.spec_block_at_world(wxa, wy, wz) == Some(a.spec_blocks()[bia]));
        if a.spec_blocks()[bia] != BlockID::Air {
            assert(a.spec_faces()[6 * bia + 0] == self.spec_face_active(wxa, wy, wz, 0));
            assert(self.spec_face_active(wxa, wy, wz, 0) == !self.spec_opaque_at(
                wxa + 1,
                wy,
                wz,
            ));
        }
        if b.spec_blocks()[bib] != BlockID::Air {
            assert(b.spec_faces()[6 * bib + 1] == self.spec_face_active(wxb, wy, wz, 1));
            assert(self.spec_face_active(wxb, wy, wz, 1) == !self.spec_opaque_at(
                wxb - 1,
                wy,
                wz,
            ));
        }
    }

    /// Re-running the targeted re-mesh of an unchanged coordinate set
    /// produces identical face and ambient-occlusion output: the second
    /// pass writes exactly the values the first pass already wrote, so
    /// the mesh arrays of the chunk do not change at all.
    pub proof fn lemma_remesh_idempotent(
        m0: ChunkManager,
        m1: ChunkManager,
        m2: ChunkManager,
        cx: i32,
        cy: i32,
        cz: i32,
        blocks: Seq<(u32, u32, u32)>,
    )
        requires
            m0.wf(),
            m1.wf(),
            m2.wf(),
            m1.spec_mesh_update_frame(m0, cx, cy, cz),
            m1.same_world_blocks(m0),
            m1.spec_remeshed_prefix(m0, cx, cy, cz, blocks, blocks.len() as int),
            m2.spec_mesh_update_frame(m1, cx, cy, cz),
            m2.same_world_blocks(m1),
            m2.spec_remeshed_prefix(m1, cx, cy, cz, blocks, blocks.len() as int),
        ensures
            (0 <= cy < 16 && m0.spec_has_column(cx, cz)) ==> {
                let c1 = m1.spec_column_at(cx, cz).spec_chunks()[cy as int];
                let c2 = m2.spec_column_at(cx, cz).spec_chunks()[cy as int];
                c2.spec_faces() == c1.spec_faces() && c2.spec_ao() == c1.spec_ao()
            },
    {
        if 0 <= cy < 16 && m0.spec_has_column(cx, cz) {
            let key = spec_column_key(cx, cz);
            assert(m1.spec_columns().dom().contains(key));
            let c0 = m0.spec_column_at(cx, cz).spec_chunks()[cy as int];
            let c1 = m1.spec_column_at(cx, cz).spec_chunks()[cy as int];
            let c2 = m2.spec_column_at(cx, cz).spec_chunks()[cy as int];
            assert(m0.spec_columns()[key].wf());
            assert(m1.spec_columns()[key].wf());
            assert(m2.spec_columns()[key].wf());
            assert(c0.wf() && c1.wf() && c2.wf());
            assert(c1.spec_blocks() == c0.spec_blocks());
            assert(c2.spec_blocks() == c1.spec_blocks());
            assert forall|bx: u32, by: u32, bz: u32|
                #![trigger block_index(bx as int, by as int, bz as int)]
                bx < 16 && by < 16 && bz < 16 implies {
                let bi = block_index(bx as int, by as int, bz as int);
                &&& forall|d: int|
                    0 <= d < 6 ==> (#[trigger] c2.spec_faces()[6 * bi + d]) == c1.spec_faces()[6
                        * bi + d]
                &&& c2.spec_ao()[bi] == c1.spec_ao()[bi]
            } by {
                let bi = block_index(bx as int, by as int, bz as int);
                let wx = 16 * (cx as int) + bx as int;
                let wy = 16 * (cy as int) + by as int;
                let wz = 16 * (cz as int) + bz as int;
                if spec_listed_prefix(blocks, blocks.len() as int, bx, by, bz) && c0.spec_blocks()[bi]
                    != BlockID::Air {
                    m1.lemma_same_world_ao(m0, wx, wy, wz, 27);
                    assert(c2.spec_ao()[bi] as int == m1.spec_ao_of(wx, wy, wz));
                    assert(c1.spec_ao()[bi] as int == m0.spec_ao_of(wx, wy, wz));
                    assert forall|d: int| 0 <= d < 6 implies (#[trigger] c2.spec_faces()[6 * bi
                        + d]) == c1.spec_faces()[6 * bi + d] by {
                        m1.lemma_same_world_face(m0, wx, wy, wz, d);
                        assert(c2.spec_faces()[6 * bi + d] == m1.spec_face_active(wx, wy, wz, d));
                        assert(c1.spec_faces()[6 * bi + d] == m0.spec_face_active(wx, wy, wz, d));
                    }
                } else {
                    assert(c2.spec_ao()[bi] == c1.spec_ao()[bi]);
                }
            }
            assert forall|j: int| 0 <= j < 24576 implies c2.spec_faces()[j] == c1.spec_faces()[j]
                by {
                let bi = j / 6;
                let d = j % 6;
                vstd::arithmetic::div_mod::lemma_fundamental_div_mod(j, 6);
                let byc = bi / 256;
                let rem = bi % 256;
                vstd::arithmetic::div_mod::lemma_fundamental_div_mod(bi, 256);
                let bzc = rem / 16;
                let bxc = rem % 16;
                vstd::arithmetic::div_mod::lemma_fundamental_div_mod(rem, 16);
                assert(block_index(bxc, byc, bzc) == bi);
                assert(0 <= bxc < 16 && 0 <= byc < 16 && 0 <= bzc < 16);
                let bxu = bxc as u32;
                let byu = byc as u32;
                let bzu = bzc as u32;
                assert(block_index(bxu as int, byu as int, bzu as int) == bi);
                assert(c2.spec_faces()[6 * bi + d] == c1.spec_faces()[6 * bi + d]);
            }
            assert forall|j: int| 0 <= j < 4096 implies c2.spec_ao()[j] == c1.spec_ao()[j] by {
                let byc = j / 256;
                let rem = j % 256;
                vstd::arithmetic::div_mod::lemma_fundamental_div_mod(j, 256);
                let bzc = rem / 16;
                let bxc = rem % 16;
                vstd::arithmetic::div_mod::lemma_fundamental_div_mod(rem, 16);
                assert(block_index(bxc as u32 as int, byc as u32 as int, bzc as u32 as int) == j);
                assert(c2.spec_ao()[j] == c1.spec_ao()[j]);
            }
            assert(c2.spec_faces() =~= c1.spec_faces());
            assert(c2.spec_ao() =~= c1.spec_ao());
        }
    }
}



impl ChunkManager {
    /// Set the pipeline flags and GPU fields of one loaded chunk,
    /// leaving its arrays and everything else in the world alone.
    pub fn set_chunk_gpu_state(
        &mut self,
        x: i32,
        y: i32,
        z: i32,
        generated: bool,
        uploaded: bool,
        vao: u32,
        vertices_drawn: u32,
    )
        requires
            old(self).wf(),
            old(self).spec_chunk_at(x, y, z) is Some,
        ensures
            final(self).wf(),
            final(self).spec_coords() == old(self).spec_coords(),
            final(self).spec_changelist() == old(self).spec_changelist(),
            final(self).spec_columns().dom() == old(self).spec_columns().dom(),
            final(self).same_world_blocks(*old(self)),
            forall|k: u64|
                old(self).spec_columns().contains_key(k) && k != spec_column_key(x, z)
                    ==> (#[trigger] final(self).spec_columns()[k]) == old(self).spec_columns()[k],
            final(self).spec_column_at(x, z).spec_heights() == old(self).spec_column_at(
                x,
                z,
            ).spec_heights(),
            final(self).spec_column_at(x, z).has_foliage == old(self).spec_column_at(
                x,
                z,
            ).has_foliage,
            forall|i: int|
                0 <= i < 16 && i != y ==> (#[trigger] final(self).spec_column_at(
                    x,
                    z,
                ).spec_chunks()[i]) == old(self).spec_column_at(x, z).spec_chunks()[i],
            ({
                let c0 = old(self).spec_column_at(x, z).spec_chunks()[y as int];
                let c1 = final(self).spec_column_at(x, z).spec_chunks()[y as int];
                &&& c1.same_arrays(c0)
                &&& c1.is_generated == generated
                &&& c1.is_uploaded_to_gpu == uploaded
                &&& c1.vao == vao
                &&& c1.vertices_drawn == vertices_drawn
            }),
    {
        let key = column_key(x, z);
        let mut col = match self.loaded_chunk_columns.remove(&key) {
            Some(c) => c,
            None => vstd::pervasive::unreached(),
        };
        let cyu = y as usize;
        let mut chunk = col.chunks.remove(cyu);
        chunk.is_generated = generated;
        chunk.is_uploaded_to_gpu = uploaded;
        chunk.vao = vao;
        chunk.vertices_drawn = vertices_drawn;
        col.chunks.insert(cyu, chunk);
        proof {
            assert(col.chunks@ =~= old(self).spec_column_at(x, z).chunks@.update(
                y as int,
                col.chunks@[y as int],
            ));
        }
        self.loaded_chunk_columns.insert(key, col);
        proof {
            assert(self.spec_columns().dom() =~= old(self).spec_columns().dom());
            self.lemma_wf_preserved(*old(self));
            assert forall|x2: int, y2: int, z2: int| #[trigger] self.spec_block_at_world(
                x2,
                y2,
                z2,
            ) == old(self).spec_block_at_world(x2, y2, z2) by {
                let kx = spec_column_key(chunk_coord(x2) as i32, chunk_coord(z2) as i32);
                if kx == key && 0 <= chunk_coord(y2) < 16 && self.spec_columns().contains_key(kx) {
                    let cyq = chunk_coord(y2);
                    if cyq == y as int {
                        assert(self.spec_columns()[kx].spec_chunks()[cyq].spec_blocks() == old(
                            self,
                        ).spec_columns()[kx].spec_chunks()[cyq].spec_blocks());
                    } else {
                        assert(self.spec_columns()[kx].spec_chunks()[cyq] == old(
                            self,
                        ).spec_columns()[kx].spec_chunks()[cyq]);
                    }
                }
            }
        }
    }
}



impl ChunkManager {
    /// Mark a loaded column's foliage flag, leaving everything else in
    /// the world alone.
    pub fn set_column_foliage(&mut self, x: i32, z: i32, value: bool)
        requires
            old(self).wf(),
            old(self).spec_has_column(x, z),
        ensures
            final(self).wf(),
            final(self).spec_coords() == old(self).spec_coords(),
            final(self).spec_changelist() == old(self).spec_changelist(),
            final(self).spec_columns().dom() == old(self).spec_columns().dom(),
            final(self).same_world_blocks(*old(self)),
            forall|k: u64|
                old(self).spec_columns().contains_key(k) && k != spec_column_key(x, z)
                    ==> (#[trigger] final(self).spec_columns()[k]) == old(self).spec_columns()[k],
            final(self).spec_column_at(x, z).spec_chunks() == old(self).spec_column_at(
                x,
                z,
            ).spec_chunks(),
            final(self).spec_column_at(x, z).spec_heights() == old(self).spec_column_at(
                x,
                z,
            ).spec_heights(),
            final(self).spec_column_at(x, z).has_foliage == value,
    {
        let key = column_key(x, z);
        let mut col = match self.loaded_chunk_columns.remove(&key) {
            Some(c) => c,
            None => vstd::pervasive::unreached(),
        };
        col.has_foliage = value;
        self.loaded_chunk_columns.insert(key, col);
        proof {
            assert(self.spec_columns().dom() =~= old(self).spec_columns().dom());
            self.lemma_wf_preserved(*old(self));
            assert forall|x2: int, y2: int, z2: int| #[trigger] self.spec_block_at_world(
                x2,
                y2,
                z2,
            ) == old(self).spec_block_at_world(x2, y2, z2) by {
                let kx = spec_column_key(chunk_coord(x2) as i32, chunk_coord(z2) as i32);
                if kx == key && 0 <= chunk_coord(y2) < 16 && self.spec_columns().contains_key(kx) {
                    assert(self.spec_columns()[kx].spec_chunks() == old(
                        self,
                    ).spec_columns()[kx].spec_chunks());
                }
            }
        }
    }
}


} // verus!
