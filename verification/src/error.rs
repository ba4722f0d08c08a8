//! The ways in which an input can be unfit.

use vstd::prelude::*;

verus! {

/// Why an input was turned down.
#[derive(Debug, Clone, Copy, PartialEq, Eq, Structural)]
pub enum InvalidInput {
    /// A selection did not name exactly five materials.
    SelectionSize,
    /// A selection named a material that the catalog does not hold.
    UnknownMaterial,
    /// More entries were asked for than the catalog holds.
    CatalogTooSmall,
    /// A tier was to be added under a name that another tier carries.
    DuplicateTier,
}

} // verus!
