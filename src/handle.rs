//! Stable handles to tiles: a slot index paired with the slot's generation.
use vstd::prelude::*;

verus! {

/// Refers to a tile by slot and generation. A handle whose generation no longer
/// matches its slot is stale and resolves to nothing.
#[derive(Clone, Copy, Debug, PartialEq, Eq, Hash, Structural)]
pub struct TileHandle {
    pub index: u32,
    pub generation: u32,
}

impl TileHandle {
    pub fn new(index: u32, generation: u32) -> (h: TileHandle)
        ensures
            h.index == index,
            h.generation == generation,
    {
        TileHandle { index, generation }
    }
}

} // verus!
