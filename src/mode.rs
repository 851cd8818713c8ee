//! How gaps before and after the query are charged.
use vstd::prelude::*;

verus! {

/// Alignment method.
#[derive(Debug, Clone, Copy, Default, PartialEq, Eq)]
pub enum AlignMode {
    /// Global: both ends of query and target are aligned; every gap costs.
    #[default]
    NW,
    /// Prefix: the query must align from the start of the target; a gap after it is free.
    SHW,
    /// Infix: the query may align anywhere in the target; gaps before and after it are free.
    HW,
}

} // verus!
