//! Alignment configuration.
use vstd::prelude::*;
use crate::equal::EqualityPair;
use crate::mode::AlignMode;
use crate::task::AlignTask;

verus! {

/// Alignment configuration.
#[derive(Debug, Clone, Default)]
pub struct AlignConfig {
    /// Largest edit distance of interest; `None` starts at the word size and doubles
    /// until a solution is found.
    pub k: Option<usize>,
    /// Alignment method.
    pub mode: AlignMode,
    /// What to compute.
    pub task: AlignTask,
    /// Extra pairs of characters to treat as equal.
    pub added_equalities: Vec<EqualityPair>,
}

} // verus!
