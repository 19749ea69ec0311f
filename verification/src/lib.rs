//! A grid-based path-search engine for rectangular tile maps.
//!
//! A [`grid::Grid`] holds a dense, row-major array of [`node::Node`] cells
//! together with a flat list of traversability connections between cell ids.
//! Paths are found by a depth-first search whose exact expansion order is part
//! of the contract, and a [`grid::CachedGrid`] memoizes recent results in a
//! bounded first-in-first-out cache.
use vstd::prelude::*;

pub mod grid;
pub mod node;
pub mod pos;
pub mod search;

use crate::pos::Pos;

verus! {

/// The capability of solving a path query: implementors answer a
/// `start -> target` search with an ordered sequence of positions.
pub trait PathSolver {
    fn solve(&self, start: Pos, target: Pos) -> Option<Vec<Pos>>;
}

} // verus!
