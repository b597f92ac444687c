use vstd::prelude::*;

verus! {

/// An opaque handle to one compiled shader stage.  Compiling GPU
/// shaders is a collaborator's job; the world model only carries the
/// handle it was given.
#[derive(Clone, Copy, PartialEq, Eq, Structural, Debug)]
pub struct ShaderPart {
    pub id: u32,
}

impl ShaderPart {
    pub fn from_id(id: u32) -> (r: ShaderPart)
        ensures
            r.id == id,
    {
        ShaderPart { id }
    }
}

/// An opaque handle to a linked shader program.
#[derive(Clone, Copy, PartialEq, Eq, Structural, Debug)]
pub struct ShaderProgram {
    pub id: u32,
}

impl ShaderProgram {
    pub fn from_id(id: u32) -> (r: ShaderProgram)
        ensures
            r.id == id,
    {
        ShaderProgram { id }
    }
}

} // verus!
