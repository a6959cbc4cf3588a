//! What every block knows of itself.
use vstd::prelude::*;

verus! {

/// The level, number and disk of a block.
#[derive(Debug, Clone, Copy, PartialEq, Eq, Structural)]
pub struct ShadowdBlockCore {
    pub layer: u8,
    pub pos: u64,
    pub disk_id: usize,
}

} // verus!
