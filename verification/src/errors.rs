//! The errors the store surfaces to its callers.

use vstd::prelude::*;

verus! {

/// Everything that can go wrong while mutating a store.
///
/// Duplicate changes are not an error: import skips them silently and
/// reports how many it skipped.
#[derive(Clone, Copy, Debug, PartialEq, Eq, Structural)]
pub enum LoroError {
    /// An attempt was made to move a version-vector entry backward.
    CausalityViolation,
    /// The same container identifier was requested with two different
    /// container types.
    ContainerTypeConflict,
    /// An imported batch references operations that are neither present
    /// locally nor contained in the batch itself.
    MissingDependency,
}

} // verus!
