//! The conditions that end an analysis.

use vstd::prelude::*;

verus! {

/// Why an analysis was abandoned. Each of these invalidates the whole
/// structure: no window is scored and no quality factor exists.
#[derive(Clone, Copy, Debug, PartialEq, Eq, Structural)]
pub enum Fatal {
    /// More atoms than a single structure may hold.
    TooManyAtoms,
    /// The grid over the atoms would have more cells than allowed.
    TooManyCells,
    /// Some grid cell would hold more atoms than it has room for.
    CellOverflow,
    /// The residue number fell from one atom to the next within a chain.
    ResidueDecrease,
}

} // verus!
