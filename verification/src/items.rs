//! Collectables, as far as the core reads them.

use vstd::prelude::*;

verus! {

/// Whether a collectable is still to be picked up.
#[derive(Debug, PartialEq, Eq, Clone, Copy, Structural)]
pub enum CollectableState {
    Base,
    Consumed,
}

} // verus!
