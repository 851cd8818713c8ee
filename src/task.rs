//! What an alignment run computes.
use vstd::prelude::*;

verus! {

/// What to compute.
#[derive(Debug, Clone, Copy, Default, PartialEq, Eq)]
pub enum AlignTask {
    /// Edit distance and end locations.
    #[default]
    Distance,
    /// Edit distance, end locations and start locations.
    Loc,
    /// Edit distance, end and start locations, and the alignment path.
    Path,
}

} // verus!
