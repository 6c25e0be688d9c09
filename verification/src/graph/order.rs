//! The orders in which nodes and edges are laid out.

use super::edge::{Edge, EdgeDirection};
use super::node::Node;
use vstd::prelude::*;

verus! {

/// `after` is `before` sorted by `key` such that items with equal keys keep
/// their order: `after[i]` is `before[perm[i]]`, `perm` names every position
/// of `before` once, keys rise along `after`, and among equal keys
/// positions rise too.
pub open spec fn stable_sort_by<T>(
    before: Seq<T>,
    after: Seq<T>,
    key: spec_fn(T) -> int,
    perm: Seq<int>,
) -> bool {
    &&& after.len() == before.len()
    &&& perm.len() == before.len()
    &&& perm.no_duplicates()
    &&& forall|i: int| 0 <= i < perm.len() ==> 0 <= #[trigger] perm[i] < before.len()
    &&& forall|j: int| 0 <= j < before.len() ==> #[trigger] perm.contains(j)
    &&& forall|i: int| 0 <= i < after.len() ==> #[trigger] after[i] == before[perm[i]]
    &&& forall|i: int, j: int|
        0 <= i <= j < after.len() ==> key(#[trigger] after[i]) <= key(#[trigger] after[j])
    &&& forall|i: int, j: int|
        0 <= i < j < after.len() && key(after[i]) == key(after[j]) ==> #[trigger] perm[i]
            < #[trigger] perm[j]
}

/// Nodes are ranked by their level.
pub open spec fn level_key() -> spec_fn(Node) -> int {
    |n: Node| n.ch_level as int
}

/// The orders in which edges are laid out.
#[derive(Debug, Clone, Copy, PartialEq, Eq)]
pub enum EdgeOrder {
    /// By the node an edge is filed under; under one node, far ends of
    /// higher level first.
    Filed(EdgeDirection),
    /// By id.
    ById,
}

/// The level of node `id`.
pub open spec fn level_of(nodes: Seq<Node>, id: u32) -> int {
    nodes[id as int].ch_level as int
}

/// The number by which an order ranks an edge.
pub open spec fn edge_rank(e: Edge, nodes: Seq<Node>, order: EdgeOrder) -> int {
    match order {
        EdgeOrder::Filed(EdgeDirection::Out) => e.source_id * 0x1_0000_0000 + (u32::MAX - level_of(
            nodes,
            e.target_id,
        )),
        EdgeOrder::Filed(EdgeDirection::In) => e.target_id * 0x1_0000_0000 + (u32::MAX - level_of(
            nodes,
            e.source_id,
        )),
        EdgeOrder::ById => e.id as int,
    }
}

/// Edges are ranked by `edge_rank`.
pub open spec fn edge_key(nodes: Seq<Node>, order: EdgeOrder) -> spec_fn(Edge) -> int {
    |e: Edge| edge_rank(e, nodes, order)
}

/// What an order needs to rank `e`: its ends are nodes.
pub open spec fn rankable(e: Edge, nodes: Seq<Node>, order: EdgeOrder) -> bool {
    order is Filed ==> e.source_id < nodes.len() && e.target_id < nodes.len()
}

/// The number by which `order` ranks `e`.
pub fn rank_of(e: &Edge, nodes: &Vec<Node>, order: EdgeOrder) -> (rank: u64)
    requires
        rankable(*e, nodes@, order),
    ensures
        rank == edge_rank(*e, nodes@, order),
{
    match order {
        EdgeOrder::Filed(EdgeDirection::Out) => {
            let level: u32 = nodes[e.target_id as usize].ch_level;
            (e.source_id as u64) * 0x1_0000_0000 + ((u32::MAX - level) as u64)
        },
        EdgeOrder::Filed(EdgeDirection::In) => {
            let level: u32 = nodes[e.source_id as usize].ch_level;
            (e.target_id as u64) * 0x1_0000_0000 + ((u32::MAX - level) as u64)
        },
        EdgeOrder::ById => e.id as u64,
    }
}

/// `slice::sort_by_key` on nodes with their level as key: the nodes are
/// rearranged in place, by rising level, and nodes of one level keep their
/// order, as the standard library promises of its stable sort.
#[verifier::external_body]
pub(crate) fn sort_nodes(nodes: &mut Vec<Node>)
    ensures
        exists|perm: Seq<int>| stable_sort_by(old(nodes)@, final(nodes)@, level_key(), perm),
{
    nodes.sort_by_key(|n| n.ch_level)
}

/// `slice::sort_by_key` on edges with `rank_of` as key: the edges are
/// rearranged in place, by rising rank, and edges of one rank keep their
/// order, as the standard library promises of its stable sort.
#[verifier::external_body]
pub(crate) fn sort_edges(edges: &mut Vec<Edge>, nodes: &Vec<Node>, order: EdgeOrder)
    requires
        forall|i: int| 0 <= i < old(edges)@.len() ==> rankable(#[trigger] old(edges)@[i], nodes@, order),
    ensures
        exists|perm: Seq<int>|
            stable_sort_by(old(edges)@, final(edges)@, edge_key(nodes@, order), perm),
{
    edges.sort_by_key(|e| rank_of(e, nodes, order))
}

/// Edges sorted in the order of a direction come node by node, and under one
/// node with falling level of the far end.
pub proof fn lemma_filed_order(edges: Seq<Edge>, nodes: Seq<Node>, dir: EdgeDirection)
    requires
        forall|i: int, j: int|
            0 <= i <= j < edges.len() ==> edge_rank(#[trigger] edges[i], nodes, EdgeOrder::Filed(dir))
                <= edge_rank(#[trigger] edges[j], nodes, EdgeOrder::Filed(dir)),
    ensures
        super::edge::filed_in_order(edges, dir),
        forall|i: int, j: int|
            0 <= i <= j < edges.len() && super::edge::near_end(#[trigger] edges[i], dir)
                == super::edge::near_end(#[trigger] edges[j], dir) ==> level_of(
                nodes,
                super::edge::far_end(edges[i], dir),
            ) >= level_of(nodes, super::edge::far_end(edges[j], dir)),
{
    assert forall|i: int, j: int| 0 <= i <= j < edges.len() implies super::edge::near_end(
        #[trigger] edges[i],
        dir,
    ) <= super::edge::near_end(#[trigger] edges[j], dir) && (super::edge::near_end(edges[i], dir)
        == super::edge::near_end(edges[j], dir) ==> level_of(
        nodes,
        super::edge::far_end(edges[i], dir),
    ) >= level_of(nodes, super::edge::far_end(edges[j], dir))) by {
        assert(edge_rank(edges[i], nodes, EdgeOrder::Filed(dir)) <= edge_rank(
            edges[j],
            nodes,
            EdgeOrder::Filed(dir),
        ));
    }
}

/// What holds of every item before a sort holds of every item after it.
pub proof fn lemma_sort_keeps<T>(
    before: Seq<T>,
    after: Seq<T>,
    key: spec_fn(T) -> int,
    perm: Seq<int>,
    holds: spec_fn(T) -> bool,
)
    requires
        stable_sort_by(before, after, key, perm),
        forall|i: int| 0 <= i < before.len() ==> holds(#[trigger] before[i]),
    ensures
        forall|i: int| 0 <= i < after.len() ==> holds(#[trigger] after[i]),
{
    assert forall|i: int| 0 <= i < after.len() implies holds(#[trigger] after[i]) by {
        assert(after[i] == before[perm[i]]);
    }
}

/// Every item from before a sort is there after it.
pub proof fn lemma_sort_contains<T>(
    before: Seq<T>,
    after: Seq<T>,
    key: spec_fn(T) -> int,
    perm: Seq<int>,
    j: int,
)
    requires
        stable_sort_by(before, after, key, perm),
        0 <= j < before.len(),
    ensures
        exists|i: int| 0 <= i < after.len() && after[i] == before[j],
{
    assert(perm.contains(j));
    let i = choose|i: int| 0 <= i < perm.len() && perm[i] == j;
    assert(after[i] == before[perm[i]]);
}

/// The ids of `edges` are the numbers below their count, each once.
pub open spec fn ids_dense(edges: Seq<Edge>) -> bool {
    &&& forall|i: int| 0 <= i < edges.len() ==> (#[trigger] edges[i]).id < edges.len()
    &&& forall|i: int, j: int|
        0 <= i < edges.len() && 0 <= j < edges.len() && i != j ==> (#[trigger] edges[i]).id != (
        #[trigger] edges[j]).id
}

/// Every edge stands at the position that its id names.
pub open spec fn ids_are_positions(edges: Seq<Edge>) -> bool {
    forall|i: int| 0 <= i < edges.len() ==> (#[trigger] edges[i]).id == i
}

/// A sort leaves the ids as they are.
pub proof fn lemma_sort_keeps_dense(
    before: Seq<Edge>,
    after: Seq<Edge>,
    key: spec_fn(Edge) -> int,
    perm: Seq<int>,
)
    requires
        stable_sort_by(before, after, key, perm),
        ids_dense(before),
    ensures
        ids_dense(after),
{
    assert forall|i: int| 0 <= i < after.len() implies (#[trigger] after[i]).id < after.len() by {
        assert(after[i] == before[perm[i]]);
    }
    assert forall|i: int, j: int|
        0 <= i < after.len() && 0 <= j < after.len() && i != j implies (#[trigger] after[i]).id != (
    #[trigger] after[j]).id by {
        assert(after[i] == before[perm[i]]);
        assert(after[j] == before[perm[j]]);
        assert(perm[i] != perm[j]);
    }
}

} // verus!
