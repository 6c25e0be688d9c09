//! Routes through the graph.

use super::edge::Cost;
use crate::utils::MyVec;
use vstd::prelude::*;

verus! {

/// A route: the nodes it visits, the edges between them, and what it
/// costs in every dimension.
#[derive(Debug, Clone)]
pub struct Path {
    pub nodes: MyVec<u32>,
    pub edges: MyVec<u32>,
    pub total_dimension_costs: MyVec<Cost>,
}

impl Path {
    /// The part of the route at the node positions `start..end`: these
    /// nodes and the edges between them. The costs of the part are left
    /// for the caller to add up.
    pub fn get_subpath(&self, start: u32, end: u32) -> (part: (MyVec<u32>, MyVec<u32>))
        requires
            start <= end <= self.nodes@.len(),
            end > 0 ==> start <= end - 1 <= self.edges@.len(),
            end == 0 ==> start <= self.edges@.len(),
        ensures
            part.0@ == self.nodes@.subrange(start as int, end as int),
            part.1@ == self.edges@.subrange(
                start as int,
                if end > 0 {
                    end - 1
                } else {
                    0
                },
            ),
    {
        let mut stop: u32 = end;
        if stop > 0 {
            stop -= 1;
        }
        let nodes = copy_range(&self.nodes.0, start as usize, end as usize);
        let edges = copy_range(&self.edges.0, start as usize, stop as usize);
        (MyVec(nodes), MyVec(edges))
    }

    /// Where the route starts and where it ends.
    pub fn ends(&self) -> (ends: Option<(u32, u32)>)
        ensures
            ends == (if self.nodes@.len() > 0 {
                Some((self.nodes@[0], self.nodes@.last()))
            } else {
                None
            }),
    {
        let n: usize = self.nodes.0.len();
        if n == 0 {
            None
        } else {
            Some((self.nodes.0[0], self.nodes.0[n - 1]))
        }
    }
}

/// A copy of the items at the positions `from..to`.
fn copy_range(items: &Vec<u32>, from: usize, to: usize) -> (copy: Vec<u32>)
    requires
        from <= to <= items@.len(),
    ensures
        copy@ == items@.subrange(from as int, to as int),
{
    let mut copy: Vec<u32> = Vec::new();
    let mut i: usize = from;
    while i < to
        invariant
            from <= i <= to <= items@.len(),
            copy@ == items@.subrange(from as int, i as int),
        decreases to - i,
    {
        copy.push(items[i]);
        assert(copy@ =~= items@.subrange(from as int, i as int + 1));
        i += 1;
    }
    copy
}

} // verus!
