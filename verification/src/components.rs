//! Shared state shell: the phases the hosting application steps through while
//! it loads assets, builds the world, and then serves path queries.

use vstd::prelude::*;

verus! {

/// The hosting application's coarse phase.
#[derive(Clone, Copy, PartialEq, Eq, Structural, Hash, Debug)]
pub enum GameState {
    AssetLoading,
    WorldBuilding,
    Playing,
}

} // verus!
