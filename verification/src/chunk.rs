use vstd::prelude::*;
use crate::block::BlockID;

verus! {

/// The set of active faces of one block, in the fixed order
/// right (+x), left (-x), top (+y), bottom (-y), front (+z), back (-z).
/// A face is active when it borders a transparent or unknown cell and so
/// must be rendered.
#[derive(Clone, Copy, PartialEq, Eq, Structural, Debug)]
pub struct FaceSet {
    pub right: bool,
    pub left: bool,
    pub top: bool,
    pub bottom: bool,
    pub front: bool,
    pub back: bool,
}

impl FaceSet {
    /// The face in direction `d`, following the storage order.
    pub open spec fn spec_face(self, d: int) -> bool {
        if d == 0 {
            self.right
        } else if d == 1 {
            self.left
        } else if d == 2 {
            self.top
        } else if d == 3 {
            self.bottom
        } else if d == 4 {
            self.front
        } else {
            self.back
        }
    }
}

/// The offset of the neighbouring cell behind face `d` of a block.
pub open spec fn face_offset(d: int) -> (int, int, int) {
    if d == 0 {
        (1int, 0int, 0int)
    } else if d == 1 {
        (-1int, 0int, 0int)
    } else if d == 2 {
        (0int, 1int, 0int)
    } else if d == 3 {
        (0int, -1int, 0int)
    } else if d == 4 {
        (0int, 0int, 1int)
    } else {
        (0int, 0int, -1int)
    }
}

/// Position of local coordinates inside a chunk's flat block array.
pub open spec fn block_index(x: int, y: int, z: int) -> int {
    y * 256 + z * 16 + x
}

/// A cubic chunk of side 16: the unit of generation, meshing and upload.
///
/// Blocks, face visibility and ambient occlusion are flat arrays indexed
/// by [`block_index`]; the remaining fields track the chunk's progress
/// through the pipeline and its GPU-side resources.
pub struct Chunk {
    pub blocks: Vec<BlockID>,
    pub active_faces: Vec<bool>,
    pub ao: Vec<u8>,
    pub is_generated: bool,
    pub is_uploaded_to_gpu: bool,
    pub vao: u32,
    pub vertices_drawn: u32,
}

impl Chunk {
    pub open spec fn spec_blocks(self) -> Seq<BlockID> {
        self.blocks@
    }

    pub open spec fn spec_faces(self) -> Seq<bool> {
        self.active_faces@
    }

    pub open spec fn spec_ao(self) -> Seq<u8> {
        self.ao@
    }

    /// The arrays have their fixed sizes: 4096 blocks, six face bits and
    /// one ambient-occlusion value per block.
    pub open spec fn wf(self) -> bool {
        &&& self.spec_blocks().len() == 4096
        &&& self.spec_faces().len() == 24576
        &&& self.spec_ao().len() == 4096
    }

    /// The block at local coordinates.
    pub open spec fn spec_block_at(self, x: int, y: int, z: int) -> BlockID {
        self.spec_blocks()[block_index(x, y, z)]
    }

    /// The two chunks hold the same blocks, faces and shading; only the
    /// pipeline flags and GPU fields may differ.
    pub open spec fn same_arrays(self, o: Chunk) -> bool {
        &&& self.spec_blocks() == o.spec_blocks()
        &&& self.spec_faces() == o.spec_faces()
        &&& self.spec_ao() == o.spec_ao()
    }

    /// The two chunks differ at most in their block array.
    pub open spec fn same_except_blocks(self, o: Chunk) -> bool {
        &&& self.spec_faces() == o.spec_faces()
        &&& self.spec_ao() == o.spec_ao()
        &&& self.is_generated == o.is_generated
        &&& self.is_uploaded_to_gpu == o.is_uploaded_to_gpu
        &&& self.vao == o.vao
        &&& self.vertices_drawn == o.vertices_drawn
    }

    /// The two chunks differ at most in face bits and ambient occlusion.
    pub open spec fn same_except_mesh(self, o: Chunk) -> bool {
        &&& self.spec_blocks() == o.spec_blocks()
        &&& self.is_generated == o.is_generated
        &&& self.is_uploaded_to_gpu == o.is_uploaded_to_gpu
        &&& self.vao == o.vao
        &&& self.vertices_drawn == o.vertices_drawn
    }

    /// A chunk filled with one kind of block, not yet generated or
    /// uploaded.
    pub fn full_of_block(b: BlockID) -> (c: Chunk)
        ensures
            c.wf(),
            c.spec_blocks() == Seq::new(4096, |i: int| b),
            c.spec_faces() == Seq::new(24576, |i: int| false),
            c.spec_ao() == Seq::new(4096, |i: int| 0u8),
            !c.is_generated,
            !c.is_uploaded_to_gpu,
            c.vao == 0,
            c.vertices_drawn == 0,
    {
        Chunk {
            blocks: vec![b; 4096],
            active_faces: vec![false; 24576],
            ao: vec![0u8; 4096],
            is_generated: false,
            is_uploaded_to_gpu: false,
            vao: 0,
            vertices_drawn: 0,
        }
    }

    /// An empty (all-air) chunk.
    pub fn new() -> (c: Chunk)
        ensures
            c.wf(),
            c.spec_blocks() == Seq::new(4096, |i: int| BlockID::Air),
            c.spec_faces() == Seq::new(24576, |i: int| false),
            c.spec_ao() == Seq::new(4096, |i: int| 0u8),
            !c.is_generated,
            !c.is_uploaded_to_gpu,
            c.vao == 0,
            c.vertices_drawn == 0,
    {
        Chunk::full_of_block(BlockID::Air)
    }

    /// Return a chunk to its initial all-air state, dropping any meshing
    /// and GPU progress; called when a pooled column is reused.
    pub fn reset(&mut self)
        ensures
            final(self).wf(),
            final(self).spec_blocks() == Seq::new(4096, |i: int| BlockID::Air),
            final(self).spec_faces() == Seq::new(24576, |i: int| false),
            final(self).spec_ao() == Seq::new(4096, |i: int| 0u8),
            !final(self).is_generated,
            !final(self).is_uploaded_to_gpu,
            final(self).vao == 0,
            final(self).vertices_drawn == 0,
    {
        *self = Chunk::new();
    }

    pub fn get_block(&self, x: u32, y: u32, z: u32) -> (b: BlockID)
        requires
            self.wf(),
            x < 16,
            y < 16,
            z < 16,
        ensures
            b == self.spec_block_at(x as int, y as int, z as int),
    {
        let i = (y * 16 * 16 + z * 16 + x) as usize;
        self.blocks[i]
    }

    /// Replace one block.  The mesh arrays are left alone: re-meshing is
    /// driven separately, through the change list.
    pub fn set_block(&mut self, x: u32, y: u32, z: u32, b: BlockID)
        requires
            old(self).wf(),
            x < 16,
            y < 16,
            z < 16,
        ensures
            final(self).wf(),
            final(self).spec_blocks() == old(self).spec_blocks().update(
                block_index(x as int, y as int, z as int),
                b,
            ),
            final(self).same_except_blocks(*old(self)),
    {
        let i = (y * 16 * 16 + z * 16 + x) as usize;
        self.blocks.set(i, b);
    }

    /// Whether no cell of the chunk holds a block.
    pub open spec fn spec_is_empty(self) -> bool {
        forall|i: int| 0 <= i < 4096 ==> self.spec_blocks()[i] == BlockID::Air
    }

    pub fn is_empty(&self) -> (r: bool)
        requires
            self.wf(),
        ensures
            r == self.spec_is_empty(),
    {
        let mut i: usize = 0;
        while i < 4096
            invariant
                self.wf(),
                i <= 4096,
                forall|j: int| 0 <= j < i ==> self.spec_blocks()[j] == BlockID::Air,
            decreases 4096 - i,
        {
            if !(self.blocks[i] == BlockID::Air) {
                assert(self.spec_blocks()[i as int] != BlockID::Air);
                return false;
            }
            i = i + 1;
        }
        true
    }

    /// The stored face bit of direction `d` of the block at the given
    /// local coordinates.
    pub fn get_active_face(&self, x: u32, y: u32, z: u32, d: u32) -> (r: bool)
        requires
            self.wf(),
            x < 16,
            y < 16,
            z < 16,
            d < 6,
        ensures
            r == self.spec_faces()[6 * block_index(x as int, y as int, z as int) + d],
    {
        let i = (6 * (y * 16 * 16 + z * 16 + x) + d) as usize;
        self.active_faces[i]
    }

    /// The stored ambient-occlusion value of the block at the given local
    /// coordinates.
    pub fn get_ao(&self, x: u32, y: u32, z: u32) -> (r: u8)
        requires
            self.wf(),
            x < 16,
            y < 16,
            z < 16,
        ensures
            r == self.spec_ao()[block_index(x as int, y as int, z as int)],
    {
        let i = (y * 16 * 16 + z * 16 + x) as usize;
        self.ao[i]
    }

    /// Store the freshly computed face set and ambient occlusion of one
    /// block, leaving every other entry alone.
    pub fn set_mesh_data(&mut self, x: u32, y: u32, z: u32, f: FaceSet, v: u8)
        requires
            old(self).wf(),
            x < 16,
            y < 16,
            z < 16,
        ensures
            final(self).wf(),
            final(self).same_except_mesh(*old(self)),
            forall|d: int|
                0 <= d < 6 ==> final(self).spec_faces()[6 * block_index(
                    x as int,
                    y as int,
                    z as int,
                ) + d] == f.spec_face(d),
            forall|j: int|
                0 <= j < 24576 && !(6 * block_index(x as int, y as int, z as int) <= j < 6
                    * block_index(x as int, y as int, z as int) + 6) ==> final(self).spec_faces()[j]
                    == old(self).spec_faces()[j],
            final(self).spec_ao() == old(self).spec_ao().update(
                block_index(x as int, y as int, z as int),
                v,
            ),
    {
        let i = (y * 16 * 16 + z * 16 + x) as usize;
        self.active_faces.set(6 * i, f.right);
        self.active_faces.set(6 * i + 1, f.left);
        self.active_faces.set(6 * i + 2, f.top);
        self.active_faces.set(6 * i + 3, f.bottom);
        self.active_faces.set(6 * i + 4, f.front);
        self.active_faces.set(6 * i + 5, f.back);
        self.ao.set(i, v);
    }

    /// Release the chunk's GPU resources; the world data itself stays.
    pub fn unload_from_gpu(&mut self)
        ensures
            final(self).wf() == old(self).wf(),
            final(self).same_arrays(*old(self)),
            final(self).is_generated == old(self).is_generated,
            !final(self).is_uploaded_to_gpu,
            final(self).vao == 0,
            final(self).vertices_drawn == 0,
    {
        self.is_uploaded_to_gpu = false;
        self.vao = 0;
        self.vertices_drawn = 0;
    }
}

} // verus!
