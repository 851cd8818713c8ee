//! Bit-parallel banded edit-distance alignment of a query against a target.
//!
//! The engine sweeps the target column by column, each column held as a stack of
//! 64-row blocks of vertical deltas, and keeps only the band of blocks that can still
//! lie on an alignment within the error threshold.

pub mod align;
pub mod alphabet;
pub mod block;
pub mod cigar;
pub mod config;
pub mod dp;
pub mod dst;
pub mod equal;
pub mod error;
pub mod mode;
pub mod peq;
pub mod task;

pub use align::Alignment;
pub use config::AlignConfig;
