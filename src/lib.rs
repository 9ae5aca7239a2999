//! Canonical forms and invariant descriptors of pitch-class sets.
//!
//! A pitch-class set is held as a `Vec<i8>`: an ordered sequence of integers
//! read as residues modulo 12. The operations are grouped in three traits,
//! all implemented for [`PcSet`]; their contracts are stated over the
//! mathematical model in [`pitch`], [`order`], [`canon`] and [`census`].
use vstd::prelude::*;

pub mod pitch;
pub mod order;
pub mod canon;
pub mod fundamentals;
pub mod operations;
pub mod census;
pub mod analysis;
pub mod laws;

pub use fundamentals::Fundamentals;
pub use operations::SetOperations;
pub use analysis::SetAnalysis;

verus! {

/// A pitch-class set: an ordered sequence of integers read modulo 12.
pub type PcSet = Vec<i8>;

/// Counts of unordered pairs by interval class 1 to 6 (slot `c - 1` for class `c`).
pub type IcVec = [usize; 6];

/// Counts of ordered pairs by the residue of their sum, 0 to 11.
pub type IVec = [usize; 12];

} // verus!
