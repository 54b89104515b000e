//! Error values surfaced by the engine.

use vstd::prelude::*;

verus! {

/// Failures the engine reports.
#[derive(Debug, Clone, Copy, PartialEq, Eq, Structural)]
pub enum CraftError {
    /// The catalog handed to the engine at startup is missing a referenced
    /// pool or holds an out-of-range id, weight or quality.
    StartupDataError,
    /// An incremental update found the recipe index in a state it cannot
    /// reach: an insertion hit an existing recipe, or a removal found none.
    /// The verified updates prove their insertions new and their removals
    /// present, so no operation of this crate returns it; the variant
    /// stands for completeness of the error taxonomy.
    InvariantViolation,
    /// A caller passed an out-of-range item id.
    InvalidArgument,
}

} // verus!
