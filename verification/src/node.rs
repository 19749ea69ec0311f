//! A single grid cell and the connection record between two cells.
use vstd::prelude::*;

use crate::pos::{spec_pos_score, Pos};

verus! {

/// A single grid cell: a stable identity (its row-major index), its position,
/// a per-cell traversal weight, and a legacy per-node adjacency list (the grid
/// keeps connectivity in a flat edge list, so this list stays empty).
#[derive(Clone, Debug)]
pub struct Node {
    pub id: u32,
    pub position: Pos,
    pub connections: Vec<u32>,
    pub cost: u64,
}

/// A traversability relation between two node ids. Equality is unordered:
/// `NodeConnection(a, b)` and `NodeConnection(b, a)` denote the same edge.
#[derive(Clone, Copy, Debug)]
pub struct NodeConnection(pub u32, pub u32);

/// Unordered-pair equality of two connections.
pub open spec fn conn_eq(a: NodeConnection, b: NodeConnection) -> bool {
    (a.0 == b.0 && a.1 == b.1) || (a.0 == b.1 && a.1 == b.0)
}

impl PartialEq for NodeConnection {
    fn eq(&self, other: &Self) -> (r: bool) {
        (self.0 == other.0 && self.1 == other.1) || (self.0 == other.1 && self.1 == other.0)
    }
}

impl vstd::std_specs::cmp::PartialEqSpecImpl for NodeConnection {
    open spec fn obeys_eq_spec() -> bool {
        true
    }

    open spec fn eq_spec(&self, other: &Self) -> bool {
        conn_eq(*self, *other)
    }
}

impl Node {
    /// A fresh cell with the given identity and position, no connections and
    /// zero traversal cost.
    pub fn new(id: u32, position: Pos) -> (r: Node)
        ensures
            r.id == id,
            r.position == position,
            r.connections@.len() == 0,
            r.cost == 0,
    {
        Node { id, position, connections: Vec::new(), cost: 0 }
    }

    /// The heuristic score of a pair of cells: the positional score of their
    /// positions plus both traversal costs.
    pub fn score(node_a: &Node, node_b: &Node) -> (r: u64)
        requires
            spec_pos_score(node_a.position, node_b.position) + node_a.cost + node_b.cost
                <= u64::MAX,
        ensures
            r as int == spec_pos_score(node_a.position, node_b.position) + node_a.cost
                + node_b.cost,
    {
        Pos::score(&node_a.position, &node_b.position) + node_a.cost + node_b.cost
    }
}

} // verus!
