//! Errors of the streaming core.

use vstd::prelude::*;

verus! {

/// What can go wrong while a terrain is set up or streamed.
#[derive(Debug, PartialEq, Eq)]
pub enum TerrainError {
    /// A load needs a slot, every slot is taken and none can be evicted.
    /// The caller has to reduce its demand before asking again.
    AtlasExhausted,
    /// The loader gave up on a node; the payload is the loader's reason.
    LoadFailed(String),
    /// The terrain was described by a configuration that cannot be used.
    InvalidConfiguration,
}

} // verus!
