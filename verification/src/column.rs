use vstd::prelude::*;
use crate::block::BlockID;
use crate::chunk::Chunk;

verus! {

/// Position of a horizontal coordinate pair inside a column's heightmap,
/// which is indexed `z` first as the block arrays are.
pub open spec fn height_index(x: int, z: int) -> int {
    z * 16 + x
}

/// A vertical stack of sixteen chunks sharing horizontal coordinates,
/// spanning the full world height of 256 blocks.  The column owns the
/// heightmap (highest solid block per horizontal position) and the flag
/// that records whether foliage has been placed.
pub struct ChunkColumn {
    pub chunks: Vec<Chunk>,
    pub highest_blocks: Vec<u32>,
    pub has_foliage: bool,
}

impl ChunkColumn {
    pub open spec fn spec_chunks(self) -> Seq<Chunk> {
        self.chunks@
    }

    pub open spec fn spec_heights(self) -> Seq<u32> {
        self.highest_blocks@
    }

    /// Sixteen well-formed chunks and one heightmap entry per horizontal
    /// position, each below the world height.
    pub open spec fn wf(self) -> bool {
        &&& self.spec_chunks().len() == 16
        &&& forall|i: int| 0 <= i < 16 ==> (#[trigger] self.spec_chunks()[i]).wf()
        &&& self.spec_heights().len() == 256
        &&& forall|i: int| 0 <= i < 256 ==> (#[trigger] self.spec_heights()[i]) < 256
    }

    /// The block at column-local coordinates, `y` spanning the full
    /// column height.
    pub open spec fn spec_block_at(self, x: int, y: int, z: int) -> BlockID {
        self.spec_chunks()[y / 16].spec_block_at(x, y % 16, z)
    }

    /// A column of empty chunks with a zeroed heightmap and no foliage.
    pub fn new() -> (c: ChunkColumn)
        ensures
            c.wf(),
            forall|i: int|
                0 <= i < 16 ==> (#[trigger] c.spec_chunks()[i]).spec_blocks() == Seq::new(
                    4096,
                    |j: int| BlockID::Air,
                ),
            forall|i: int|
                0 <= i < 16 ==> !(#[trigger] c.spec_chunks()[i]).is_generated
                    && !c.spec_chunks()[i].is_uploaded_to_gpu,
            forall|i: int| 0 <= i < 256 ==> (#[trigger] c.spec_heights()[i]) == 0,
            !c.has_foliage,
    {
        let mut chunks: Vec<Chunk> = Vec::new();
        let mut i: usize = 0;
        while i < 16
            invariant
                i <= 16,
                chunks@.len() == i,
                forall|j: int|
                    0 <= j < i ==> (#[trigger] chunks@[j]).wf() && chunks@[j].spec_blocks()
                        == Seq::new(4096, |k: int| BlockID::Air) && !chunks@[j].is_generated
                        && !chunks@[j].is_uploaded_to_gpu,
            decreases 16 - i,
        {
            chunks.push(Chunk::new());
            i = i + 1;
        }
        ChunkColumn { chunks, highest_blocks: vec![0u32; 256], has_foliage: false }
    }

    /// A column whose sixteen chunks are all filled with one block.
    pub fn full_of_block(b: BlockID) -> (c: ChunkColumn)
        ensures
            c.wf(),
            forall|i: int|
                0 <= i < 16 ==> (#[trigger] c.spec_chunks()[i]).spec_blocks() == Seq::new(
                    4096,
                    |j: int| b,
                ),
            !c.has_foliage,
    {
        let mut chunks: Vec<Chunk> = Vec::new();
        let mut i: usize = 0;
        while i < 16
            invariant
                i <= 16,
                chunks@.len() == i,
                forall|j: int|
                    0 <= j < i ==> (#[trigger] chunks@[j]).wf() && chunks@[j].spec_blocks()
                        == Seq::new(4096, |k: int| b),
            decreases 16 - i,
        {
            chunks.push(Chunk::full_of_block(b));
            i = i + 1;
        }
        ChunkColumn { chunks, highest_blocks: vec![0u32; 256], has_foliage: false }
    }

    pub fn get_chunk(&self, y: usize) -> (c: &Chunk)
        requires
            self.wf(),
            y < 16,
        ensures
            *c == self.spec_chunks()[y as int],
    {
        &self.chunks[y]
    }

    /// Read a block anywhere in the column.
    pub fn get_block(&self, x: u32, y: u32, z: u32) -> (b: BlockID)
        requires
            self.wf(),
            x < 16,
            y < 256,
            z < 16,
        ensures
            b == self.spec_block_at(x as int, y as int, z as int),
    {
        let chunk_y = (y / 16) as usize;
        self.chunks[chunk_y].get_block(x, y % 16, z)
    }

    /// Write a block anywhere in the column, recording a new highest
    /// solid block in the heightmap when a solid block lands above the
    /// current one.  This is the terrain-synthesis write path; the
    /// heightmap is how the grass layer later finds the surface.
    pub fn set_block(&mut self, x: u32, y: u32, z: u32, b: BlockID)
        requires
            old(self).wf(),
            x < 16,
            y < 256,
            z < 16,
        ensures
            final(self).wf(),
            forall|i: int|
                0 <= i < 16 && i != y as int / 16 ==> final(self).spec_chunks()[i] == old(
                    self,
                ).spec_chunks()[i],
            final(self).spec_chunks()[y as int / 16].spec_blocks() == old(self).spec_chunks()[y
                as int / 16].spec_blocks().update(
                crate::chunk::block_index(x as int, y as int % 16, z as int),
                b,
            ),
            final(self).spec_chunks()[y as int / 16].same_except_blocks(
                old(self).spec_chunks()[y as int / 16],
            ),
            final(self).spec_heights() == (if b != BlockID::Air && y >= old(
                self,
            ).spec_heights()[height_index(x as int, z as int)] {
                old(self).spec_heights().update(height_index(x as int, z as int), y)
            } else {
                old(self).spec_heights()
            }),
            final(self).has_foliage == old(self).has_foliage,
    {
        let chunk_y = (y / 16) as usize;
        let mut chunk = self.chunks.remove(chunk_y);
        chunk.set_block(x, y % 16, z, b);
        self.chunks.insert(chunk_y, chunk);
        proof {
            assert(self.chunks@ =~= old(self).chunks@.update(
                chunk_y as int,
                self.chunks@[chunk_y as int],
            ));
        }
        if !(b == BlockID::Air) {
            let hi = (z * 16 + x) as usize;
            let cur = self.highest_blocks[hi];
            if y >= cur {
                self.highest_blocks.set(hi, y);
            }
        }
    }


    /// Record a surface height directly; terrain synthesis derives the
    /// heightmap itself.
    pub fn set_height(&mut self, x: u32, z: u32, h: u32)
        requires
            old(self).wf(),
            x < 16,
            z < 16,
            h < 256,
        ensures
            final(self).wf(),
            final(self).spec_heights() == old(self).spec_heights().update(
                height_index(x as int, z as int),
                h,
            ),
            final(self).spec_chunks() == old(self).spec_chunks(),
            forall|x2: u32, y2: u32, z2: u32|
                x2 < 16 && y2 < 256 && z2 < 16 ==> #[trigger] final(self).spec_block_at(
                    x2 as int,
                    y2 as int,
                    z2 as int,
                ) == old(self).spec_block_at(x2 as int, y2 as int, z2 as int),
            final(self).has_foliage == old(self).has_foliage,
    {
        self.highest_blocks.set((z * 16 + x) as usize, h);
    }

    /// Write a block without touching the heightmap, as the layer
    /// passes and foliage placement do.
    pub fn set_block_in_chunk(&mut self, x: u32, y: u32, z: u32, b: BlockID)
        requires
            old(self).wf(),
            x < 16,
            y < 256,
            z < 16,
        ensures
            final(self).wf(),
            forall|i: int|
                0 <= i < 16 && i != y as int / 16 ==> final(self).spec_chunks()[i] == old(
                    self,
                ).spec_chunks()[i],
            final(self).spec_chunks()[y as int / 16].same_except_blocks(
                old(self).spec_chunks()[y as int / 16],
            ),
            forall|x2: u32, y2: u32, z2: u32|
                x2 < 16 && y2 < 256 && z2 < 16 ==> #[trigger] final(self).spec_block_at(
                    x2 as int,
                    y2 as int,
                    z2 as int,
                ) == (if x2 == x && y2 == y && z2 == z {
                    b
                } else {
                    old(self).spec_block_at(x2 as int, y2 as int, z2 as int)
                }),
            final(self).spec_heights() == old(self).spec_heights(),
            final(self).has_foliage == old(self).has_foliage,
    {
        let chunk_y = (y / 16) as usize;
        let mut chunk = self.chunks.remove(chunk_y);
        chunk.set_block(x, y % 16, z, b);
        self.chunks.insert(chunk_y, chunk);
        proof {
            assert(self.chunks@ =~= old(self).chunks@.update(
                chunk_y as int,
                self.chunks@[chunk_y as int],
            ));
            assert forall|x2: u32, y2: u32, z2: u32|
                x2 < 16 && y2 < 256 && z2 < 16 implies #[trigger] self.spec_block_at(
                x2 as int,
                y2 as int,
                z2 as int,
            ) == (if x2 == x && y2 == y && z2 == z {
                b
            } else {
                old(self).spec_block_at(x2 as int, y2 as int, z2 as int)
            }) by {
                if y2 as int / 16 == y as int / 16 {
                    if x2 == x && y2 == y && z2 == z {
                    } else {
                        let bi2 = crate::chunk::block_index(
                            x2 as int,
                            y2 as int % 16,
                            z2 as int,
                        );
                        let bi = crate::chunk::block_index(x as int, y as int % 16, z as int);
                        if bi2 == bi {
                            crate::meshing::lemma_block_index_injective(
                                x2 as int,
                                y2 as int % 16,
                                z2 as int,
                                x as int,
                                y as int % 16,
                                z as int,
                            );
                            assert(y2 as int == 16 * (y2 as int / 16) + y2 as int % 16);
                            assert(y as int == 16 * (y as int / 16) + y as int % 16);
                            assert(false);
                        }
                    }
                }
            }
        }
    }

    /// The recorded height of the highest solid block at a horizontal
    /// position.
    pub fn get_height(&self, x: u32, z: u32) -> (h: u32)
        requires
            self.wf(),
            x < 16,
            z < 16,
        ensures
            h == self.spec_heights()[height_index(x as int, z as int)],
            h < 256,
    {
        self.highest_blocks[(z * 16 + x) as usize]
    }
}

} // verus!
