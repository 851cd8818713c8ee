//! Errors reported by the alignment engine.
use vstd::prelude::*;

verus! {

/// What can go wrong in an alignment run.
#[derive(Debug, Clone, Copy, PartialEq, Eq)]
pub enum AlignError {
    /// Trace capture and a stop position were both requested in one DP call.
    InvalidConfiguration,
    /// A sequence is too long for the engine's integer widths.
    NotRepresentable,
    /// A character that the alphabet does not hold was looked up.
    SymbolNotInAlphabet,
}

} // verus!
