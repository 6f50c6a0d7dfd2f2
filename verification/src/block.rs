//! Block-type properties the lighting engine reads: opacity and emission.
//!
//! These are externally supplied, per-type facts; they never change at
//! runtime for a given type.

use vstd::prelude::*;

verus! {

/// Highest light level a block can store or emit.
pub const MAX_LIGHT_LEVEL: u8 = 15;

/// The per-type facts the engine consumes: whether the type blocks light,
/// and at which level it emits (0 meaning non-emitting).
#[derive(Clone, Copy, PartialEq, Eq, Structural, Debug)]
pub struct Block {
    pub opaque: bool,
    pub emission: u8,
}

impl Block {
    /// A block type is well formed when its emission level is a light level.
    pub open spec fn wf(self) -> bool {
        self.emission <= MAX_LIGHT_LEVEL
    }

    /// The non-opaque, non-emitting sentinel used for unloaded space.
    pub open spec fn spec_air() -> Block {
        Block { opaque: false, emission: 0 }
    }

    /// Builds a block type from its two properties.
    pub fn new(opaque: bool, emission: u8) -> (b: Block)
        requires
            emission <= MAX_LIGHT_LEVEL,
        ensures
            b == (Block { opaque, emission }),
            b.wf(),
    {
        Block { opaque, emission }
    }

    /// The air-equivalent sentinel block type.
    pub fn air() -> (b: Block)
        ensures
            b == Block::spec_air(),
            b.wf(),
    {
        Block { opaque: false, emission: 0 }
    }
}

} // verus!
