//! Nodes of a contraction hierarchy.

use vstd::prelude::*;

verus! {

/// A node with its level in the hierarchy.
#[derive(Debug, Clone, Copy, PartialEq, Eq)]
pub struct Node {
    pub id: u32,
    pub ch_level: u32,
}

impl Node {
    pub fn new(id: u32, ch_level: u32) -> (node: Node)
        ensures
            node.id == id,
            node.ch_level == ch_level,
    {
        Node { id, ch_level }
    }
}

} // verus!
