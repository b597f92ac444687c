use vstd::prelude::*;

verus! {

/// The kinds of block a world cell can hold.
#[derive(Clone, Copy, PartialEq, Eq, Structural, Debug)]
pub enum BlockID {
    Air,
    Stone,
    GrassBlock,
    Dirt,
    Bedrock,
    Cobblestone,
    OakLog,
    OakLeaves,
}

impl BlockID {
    /// Air is the absence of any block.
    pub open spec fn spec_is_air(self) -> bool {
        self == BlockID::Air
    }

    pub fn is_air(self) -> (r: bool)
        ensures
            r == self.spec_is_air(),
    {
        self == BlockID::Air
    }

    /// A transparent block does not hide the faces of its neighbours.
    /// Leaf canopies let neighbouring faces show through.
    pub open spec fn spec_is_transparent(self) -> bool {
        self == BlockID::Air || self == BlockID::OakLeaves
    }

    pub fn is_transparent(self) -> (r: bool)
        ensures
            r == self.spec_is_transparent(),
    {
        self == BlockID::Air || self == BlockID::OakLeaves
    }

    /// Transparency as used for ambient occlusion, where leaves do cast
    /// shade: only air is see-through.
    pub open spec fn spec_is_transparent_no_leaves(self) -> bool {
        self == BlockID::Air
    }

    pub fn is_transparent_no_leaves(self) -> (r: bool)
        ensures
            r == self.spec_is_transparent_no_leaves(),
    {
        self == BlockID::Air
    }
}

} // verus!
