//! A small collection of verified puzzle solvers.
//!
//! The centrepiece is `labyrinth`: a maze-pathfinding engine that computes
//! shortest move counts between cells of a rectangular grid whose passages
//! are blocked per-cell by a four-bit wall mask. Around it stand several
//! smaller solvers: an instruction optimiser for a rotary alphabet machine,
//! an expression-size searcher, binary-search-tree traversals, a territory
//! expansion model, and exact integer circle fitting.

use vstd::prelude::*;

pub mod bst;
pub mod chamber;
pub mod labyrinth;
pub mod rings;
pub mod text;
pub mod total;
pub mod towers;

verus! {

/// Errors the engine reports to its callers.
#[derive(Clone, Copy, Debug, PartialEq, Eq, Structural)]
pub enum EngineError {
    /// Malformed input: wrong row length or an invalid wall-mask digit.
    InputFormat,
    /// A start or goal coordinate lies outside the grid bounds.
    OutOfRange,
    /// A broken internal invariant, such as the two search strategies
    /// disagreeing on a path length.
    InternalInconsistency,
}

} // verus!
