//! Generational handles: an index into a slot array plus the generation the
//! slot had when the handle was made, so handles to removed entries go stale.

use vstd::prelude::*;

verus! {

/// A generational handle: slot index plus slot generation.
#[derive(Debug, Clone, Copy, PartialEq, Eq, Structural, Hash)]
pub struct Handle {
    index: u32,
    generation: u32,
}

/// Handle to a rigid body in the physics world.
pub type BodyHandle = Handle;

/// Handle to a mesh in the renderer's resource cache.
pub type MeshHandle = Handle;

/// Handle to a texture in the renderer's resource cache.
pub type TextureHandle = Handle;

/// Handle to a material in the renderer's resource cache.
pub type MaterialHandle = Handle;

impl Handle {
    /// The slot index.
    pub closed spec fn spec_index(self) -> u32 {
        self.index
    }

    /// The slot generation.
    pub closed spec fn spec_generation(self) -> u32 {
        self.generation
    }

    /// A handle is determined by its index and generation.
    pub proof fn lemma_fields_determine(a: Handle, b: Handle)
        requires
            a.spec_index() == b.spec_index(),
            a.spec_generation() == b.spec_generation(),
        ensures
            a == b,
    {
    }

    /// A handle for slot `index` at `generation`.
    pub fn new(index: u32, generation: u32) -> (h: Self)
        ensures
            h.spec_index() == index,
            h.spec_generation() == generation,
    {
        Handle { index, generation }
    }

    /// The slot index.
    pub fn index(&self) -> (i: u32)
        ensures
            i == self.spec_index(),
    {
        self.index
    }

    /// The slot generation.
    pub fn generation(&self) -> (g: u32)
        ensures
            g == self.spec_generation(),
    {
        self.generation
    }
}

} // verus!
