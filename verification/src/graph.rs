//! A contracted road graph: nodes with hierarchy levels, edges with
//! shortcuts, and the half edges of every node packed for the search.

pub mod dijkstra;
pub mod edge;
pub mod file;
pub mod node;
pub mod order;
pub mod path;

pub use edge::{Cost, Edge, EdgeDirection, GraphEdges, HalfEdge, HalfEdgeIter};
pub use node::Node;
pub use path::Path;

use crate::utils::MyVec;
use order::{
    edge_key, ids_are_positions, ids_dense, level_key, rankable, sort_edges, sort_nodes,
    stable_sort_by, EdgeOrder,
};
use std::collections::HashMap;
use vstd::prelude::*;

verus! {

/// The edges that shortcut `e` stands for, shortcuts among them unpacked in
/// turn, at most `budget` levels deep.
///
/// `None` where `e` or an edge it leads to does not exist, where a shortcut
/// does not start where its first part starts, end where its second part
/// ends, or its parts do not meet, and where the budget runs out.
pub open spec fn unpacked(edges: Seq<Edge>, e: u32, budget: nat) -> Option<Seq<u32>>
    decreases budget,
{
    if e >= edges.len() {
        None
    } else {
        match edges[e as int].replaced_edges {
            None => Some(seq![e]),
            Some((e1, e2)) => {
                if budget == 0 || !shortcut_fits(edges, e, e1, e2) {
                    None
                } else {
                    match (unpacked(edges, e1, (budget - 1) as nat), unpacked(edges, e2, (budget - 1) as nat)) {
                        (Some(first), Some(second)) => Some(first + second),
                        _ => None,
                    }
                }
            },
        }
    }
}

/// Shortcut `e` and its two parts exist, and the parts lead from the start
/// of `e` over a common node to its end.
pub open spec fn shortcut_fits(edges: Seq<Edge>, e: u32, e1: u32, e2: u32) -> bool {
    &&& e < edges.len()
    &&& e1 < edges.len()
    &&& e2 < edges.len()
    &&& edges[e1 as int].source_id == edges[e as int].source_id
    &&& edges[e2 as int].target_id == edges[e as int].target_id
    &&& edges[e1 as int].target_id == edges[e2 as int].source_id
}

/// `path` is a chain of edges that exist and are no shortcuts, each ending
/// where the next starts, from `source` to `target`.
pub open spec fn is_chain(edges: Seq<Edge>, path: Seq<u32>, source: u32, target: u32) -> bool {
    &&& path.len() >= 1
    &&& forall|i: int|
        0 <= i < path.len() ==> (#[trigger] path[i]) < edges.len() && edges[path[i] as int].replaced_edges is None
    &&& edges[path[0] as int].source_id == source
    &&& edges[path.last() as int].target_id == target
    &&& forall|i: int|
        0 <= i < path.len() - 1 ==> edges[#[trigger] path[i] as int].target_id == edges[path[i + 1] as int].source_id
}

/// Two chains that meet make one chain.
pub proof fn lemma_chain_concat(
    edges: Seq<Edge>,
    first: Seq<u32>,
    second: Seq<u32>,
    source: u32,
    via: u32,
    target: u32,
)
    requires
        is_chain(edges, first, source, via),
        is_chain(edges, second, via, target),
    ensures
        is_chain(edges, first + second, source, target),
{
    let path = first + second;
    assert forall|i: int| 0 <= i < path.len() implies (#[trigger] path[i]) < edges.len()
        && edges[path[i] as int].replaced_edges is None by {
        if i < first.len() {
            assert(path[i] == first[i]);
        } else {
            assert(path[i] == second[i - first.len()]);
        }
    }
    assert forall|i: int| 0 <= i < path.len() - 1 implies edges[#[trigger] path[i] as int].target_id
        == edges[path[i + 1] as int].source_id by {
        if i < first.len() - 1 {
            assert(path[i] == first[i] && path[i + 1] == first[i + 1]);
        } else if i == first.len() - 1 {
            assert(path[i] == first.last() && path[i + 1] == second[0]);
        } else {
            assert(path[i] == second[i - first.len()] && path[i + 1] == second[i - first.len() + 1]);
        }
    }
    assert(path[0] == first[0]);
    assert(path.last() == second.last());
}

/// What unpacking yields is a chain from the start of the edge to its end.
pub proof fn lemma_unpacked_is_chain(edges: Seq<Edge>, e: u32, budget: nat)
    requires
        unpacked(edges, e, budget) is Some,
    ensures
        is_chain(
            edges,
            unpacked(edges, e, budget).unwrap(),
            edges[e as int].source_id,
            edges[e as int].target_id,
        ),
    decreases budget,
{
    match edges[e as int].replaced_edges {
        None => {
            let path = seq![e];
            assert(path[0] == e);
        },
        Some((e1, e2)) => {
            lemma_unpacked_is_chain(edges, e1, (budget - 1) as nat);
            lemma_unpacked_is_chain(edges, e2, (budget - 1) as nat);
            lemma_chain_concat(
                edges,
                unpacked(edges, e1, (budget - 1) as nat).unwrap(),
                unpacked(edges, e2, (budget - 1) as nat).unwrap(),
                edges[e as int].source_id,
                edges[e1 as int].target_id,
                edges[e as int].target_id,
            );
        },
    }
}

/// Where unpacking succeeds, a larger budget yields the same.
pub proof fn lemma_unpacked_budget(edges: Seq<Edge>, e: u32, budget: nat, more: nat)
    requires
        unpacked(edges, e, budget) is Some,
        budget <= more,
    ensures
        unpacked(edges, e, more) == unpacked(edges, e, budget),
    decreases budget,
{
    match edges[e as int].replaced_edges {
        None => {},
        Some((e1, e2)) => {
            lemma_unpacked_budget(edges, e1, (budget - 1) as nat, (more - 1) as nat);
            lemma_unpacked_budget(edges, e2, (budget - 1) as nat, (more - 1) as nat);
        },
    }
}

/// The nodes in the order given, each with its position as its id.
pub open spec fn renumbered(ranked: Seq<Node>) -> Seq<Node> {
    Seq::new(ranked.len(), |i: int| Node { id: i as u32, ch_level: ranked[i].ch_level })
}

/// For every id that a node of `ranked` has, the position of the last node
/// that has it.
pub open spec fn id_map_of(ranked: Seq<Node>) -> Map<u32, u32>
    decreases ranked.len(),
{
    if ranked.len() == 0 {
        Map::empty()
    } else {
        id_map_of(ranked.drop_last()).insert(ranked.last().id, (ranked.len() - 1) as u32)
    }
}

/// The ids that `id_map_of` knows are those of the nodes, and it maps them
/// to positions.
pub proof fn lemma_id_map(ranked: Seq<Node>, x: u32)
    ensures
        id_map_of(ranked).contains_key(x) <==> exists|i: int| 0 <= i < ranked.len() && ranked[i].id == x,
        id_map_of(ranked).contains_key(x) ==> id_map_of(ranked)[x] < ranked.len(),
    decreases ranked.len(),
{
    if ranked.len() > 0 {
        let rest = ranked.drop_last();
        lemma_id_map(rest, x);
        if exists|i: int| 0 <= i < ranked.len() && ranked[i].id == x {
            let i = choose|i: int| 0 <= i < ranked.len() && ranked[i].id == x;
            if i < rest.len() {
                assert(rest[i].id == x);
            }
        }
        if id_map_of(rest).contains_key(x) {
            let i = choose|i: int| 0 <= i < rest.len() && rest[i].id == x;
            assert(ranked[i].id == x);
        }
        if ranked.last().id == x {
            assert(ranked[ranked.len() - 1].id == x);
        }
    }
}

/// `e` with the ids of its ends replaced as `ids` says.
pub open spec fn relabelled(e: Edge, ids: Map<u32, u32>) -> Edge {
    Edge { source_id: ids[e.source_id], target_id: ids[e.target_id], ..e }
}

/// All of `edges`, relabelled.
pub open spec fn relabelled_all(edges: Seq<Edge>, ids: Map<u32, u32>) -> Seq<Edge> {
    Seq::new(edges.len(), |i: int| relabelled(edges[i], ids))
}

/// Some node has id `x`.
pub open spec fn is_node_id(nodes: Seq<Node>, x: u32) -> bool {
    exists|i: int| 0 <= i < nodes.len() && nodes[i].id == x
}

/// Both ends of `e` are nodes below `n`, and `e` has `dim` costs.
pub open spec fn edge_fits(n: int, dim: int) -> spec_fn(Edge) -> bool {
    |e: Edge| e.source_id < n && e.target_id < n && e.edge_costs@.len() == dim
}

/// Sorting the nodes neither loses nor adds an id.
pub proof fn lemma_ranked_ids(nodes: Seq<Node>, ranked: Seq<Node>, perm: Seq<int>, x: u32)
    requires
        stable_sort_by(nodes, ranked, level_key(), perm),
        is_node_id(nodes, x),
    ensures
        is_node_id(ranked, x),
{
    let j = choose|j: int| 0 <= j < nodes.len() && nodes[j].id == x;
    assert(perm.contains(j));
    let i = choose|i: int| 0 <= i < perm.len() && perm[i] == j;
    assert(ranked[i] == nodes[perm[i]]);
}

/// Every shortcut fits its parts, and `height` ranks every shortcut above
/// its parts, with ranks below the number of edges. Such a ranking exists
/// exactly where no shortcut stands, directly or over others, for itself.
pub open spec fn shortcuts_ranked(edges: Seq<Edge>, height: Seq<nat>) -> bool {
    &&& height.len() == edges.len()
    &&& forall|e: int| 0 <= e < edges.len() ==> (#[trigger] height[e]) < edges.len()
    &&& forall|e: int|
        0 <= e < edges.len() ==> match (#[trigger] edges[e]).replaced_edges {
            None => true,
            Some((e1, e2)) => {
                &&& shortcut_fits(edges, e as u32, e1, e2)
                &&& height[e1 as int] < height[e]
                &&& height[e2 as int] < height[e]
            },
        }
}

/// Where the shortcuts fit and can be ranked, every edge can be unpacked
/// within any budget that reaches its rank.
pub proof fn lemma_unpack_succeeds(edges: Seq<Edge>, height: Seq<nat>, e: u32, budget: nat)
    requires
        shortcuts_ranked(edges, height),
        e < edges.len(),
        height[e as int] <= budget,
    ensures
        unpacked(edges, e, budget) is Some,
    decreases budget,
{
    match edges[e as int].replaced_edges {
        None => {},
        Some((e1, e2)) => {
            assert(height[e as int] < edges.len());
            lemma_unpack_succeeds(edges, height, e1, (budget - 1) as nat);
            lemma_unpack_succeeds(edges, height, e2, (budget - 1) as nat);
        },
    }
}

/// Edges sorted by id whose ids are the numbers below their count, each
/// once, stand at the positions their ids name.
pub proof fn lemma_ids_are_positions(edges: Seq<Edge>)
    requires
        ids_dense(edges),
        forall|a: int, b: int| 0 <= a <= b < edges.len() ==> (#[trigger] edges[a]).id <= (#[trigger] edges[b]).id,
    ensures
        ids_are_positions(edges),
{
    assert forall|i: int| 0 <= i < edges.len() implies (#[trigger] edges[i]).id == i by {
        lemma_ids_rise(edges, i);
        lemma_ids_stay_below(edges, i);
    }
}

/// Ids that rise strictly are no smaller than their position.
proof fn lemma_ids_rise(edges: Seq<Edge>, i: int)
    requires
        ids_dense(edges),
        forall|a: int, b: int| 0 <= a <= b < edges.len() ==> (#[trigger] edges[a]).id <= (#[trigger] edges[b]).id,
        0 <= i < edges.len(),
    ensures
        edges[i].id >= i,
    decreases i,
{
    if i > 0 {
        lemma_ids_rise(edges, i - 1);
        assert(edges[i - 1].id <= edges[i].id);
        assert(edges[i - 1].id != edges[i].id);
    }
}

/// Ids that rise strictly below a bound leave room for those behind them.
proof fn lemma_ids_stay_below(edges: Seq<Edge>, i: int)
    requires
        ids_dense(edges),
        forall|a: int, b: int| 0 <= a <= b < edges.len() ==> (#[trigger] edges[a]).id <= (#[trigger] edges[b]).id,
        0 <= i < edges.len(),
    ensures
        edges[i].id <= i,
    decreases edges.len() - i,
{
    if i < edges.len() - 1 {
        lemma_ids_stay_below(edges, i + 1);
        assert(edges[i].id <= edges[i + 1].id);
        assert(edges[i].id != edges[i + 1].id);
    }
}

/// A graph in which every node knows its incoming and outgoing edges.
#[derive(Debug)]
pub struct Graph {
    pub nodes: MyVec<Node>,
    pub edges: MyVec<Edge>,
    pub dim: u32,
    pub edges_in: GraphEdges,
    pub edges_out: GraphEdges,
}

impl Graph {
    /// The packed half edges of one direction.
    pub open spec fn half_edges(&self, dir: EdgeDirection) -> &GraphEdges {
        match dir {
            EdgeDirection::In => &self.edges_in,
            EdgeDirection::Out => &self.edges_out,
        }
    }

    /// The edges that `edge` stands for.
    pub open spec fn unpacked(&self, edge: u32) -> Option<Seq<u32>> {
        unpacked(self.edges@, edge, self.edges@.len())
    }

    /// The packed half edges have a range of slots for every node.
    pub open spec fn wf(&self) -> bool {
        &&& self.half_edges(EdgeDirection::In).wf(self.dim as nat)
        &&& self.half_edges(EdgeDirection::Out).wf(self.dim as nat)
        &&& self.half_edges(EdgeDirection::In).node_count() == self.nodes@.len()
        &&& self.half_edges(EdgeDirection::Out).node_count() == self.nodes@.len()
    }

    /// This graph is what `new` makes of `nodes` and `edges`.
    ///
    /// `ranked` are the nodes sorted by level; each gets its position as its
    /// id, and the edges are relabelled to match. The outgoing half edges
    /// hold the relabelled edges sorted by source and then by falling level
    /// of the target (`out_order`), the incoming ones the same edges sorted
    /// by target and then by falling level of the source (`in_order`). At
    /// last the edges are sorted by id. Each sort is stable and starts from
    /// the order the one before has left.
    pub open spec fn built_from(
        &self,
        nodes: Seq<Node>,
        edges: Seq<Edge>,
        ranked: Seq<Node>,
        out_order: Seq<Edge>,
        in_order: Seq<Edge>,
    ) -> bool {
        let n = nodes.len() as int;
        let mapped = relabelled_all(edges, id_map_of(ranked));
        let out = EdgeOrder::Filed(EdgeDirection::Out);
        let inc = EdgeOrder::Filed(EdgeDirection::In);
        &&& exists|p: Seq<int>| stable_sort_by(nodes, ranked, level_key(), p)
        &&& self.nodes@ == renumbered(ranked)
        &&& exists|p: Seq<int>| stable_sort_by(mapped, out_order, edge_key(self.nodes@, out), p)
        &&& self.edges_out.packs(out_order, n, self.dim as nat, EdgeDirection::Out)
        &&& exists|p: Seq<int>| stable_sort_by(out_order, in_order, edge_key(self.nodes@, inc), p)
        &&& self.edges_in.packs(in_order, n, self.dim as nat, EdgeDirection::In)
        &&& exists|p: Seq<int>|
            stable_sort_by(in_order, self.edges@, edge_key(self.nodes@, EdgeOrder::ById), p)
        &&& self.dim == (if edges.len() > 0 {
            edges[0].edge_costs@.len()
        } else {
            0
        })
    }

    /// The half edges of every node lead to nodes of the graph and come
    /// with falling level of the node they lead to, so that a search that
    /// only climbs may stop at the first half edge that leads down.
    pub open spec fn levels_fall(&self, dir: EdgeDirection) -> bool {
        let packed = self.half_edges(dir);
        &&& forall|s: int|
            0 <= s < packed.target_ids().len() ==> (#[trigger] packed.target_ids()[s]) < self.nodes@.len()
        &&& forall|v: int, s: int, t: int|
            #[trigger] packed.holds_slot(v, s) && #[trigger] packed.holds_slot(v, t) && s <= t
                ==> order::level_of(self.nodes@, packed.target_ids()[s]) >= order::level_of(
                self.nodes@,
                packed.target_ids()[t],
            )
    }

    /// The graph is laid out for the search in both directions.
    pub open spec fn searchable(&self) -> bool {
        &&& self.wf()
        &&& self.levels_fall(EdgeDirection::In)
        &&& self.levels_fall(EdgeDirection::Out)
    }

    /// Edges packed in the order of a direction come with falling levels.
    pub proof fn lemma_levels_fall(&self, order: Seq<Edge>, dir: EdgeDirection)
        requires
            self.half_edges(dir).packs(order, self.nodes@.len() as int, self.dim as nat, dir),
            forall|i: int, j: int|
                0 <= i <= j < order.len() ==> order::edge_rank(
                    #[trigger] order[i],
                    self.nodes@,
                    EdgeOrder::Filed(dir),
                ) <= order::edge_rank(#[trigger] order[j], self.nodes@, EdgeOrder::Filed(dir)),
            forall|i: int|
                0 <= i < order.len() ==> (#[trigger] order[i]).source_id < self.nodes@.len()
                    && order[i].target_id < self.nodes@.len(),
        ensures
            self.levels_fall(dir),
    {
        let packed = self.half_edges(dir);
        let n = self.nodes@.len() as int;
        order::lemma_filed_order(order, self.nodes@, dir);
        assert forall|s: int| 0 <= s < packed.target_ids().len() implies (
        #[trigger] packed.target_ids()[s]) < n by {
            assert(packed.target_ids()[s] == edge::far_end(order[s], dir));
        }
        assert forall|v: int, s: int, t: int|
            #[trigger] packed.holds_slot(v, s) && #[trigger] packed.holds_slot(v, t) && s
                <= t implies order::level_of(self.nodes@, packed.target_ids()[s]) >= order::level_of(
            self.nodes@,
            packed.target_ids()[t],
        ) by {
            assert(packed.offsets()[v + 1] <= packed.offsets()[n]);
            packed.lemma_slots_of_node(order, n, self.dim as nat, dir, s, v);
            packed.lemma_slots_of_node(order, n, self.dim as nat, dir, t, v);
            assert(packed.target_ids()[s] == edge::far_end(order[s], dir));
            assert(packed.target_ids()[t] == edge::far_end(order[t], dir));
        }
    }

    /// Every half edge of direction `dir` names an edge of the graph, filed
    /// under the right node, with its far end and its costs.
    pub open spec fn consistent(&self, dir: EdgeDirection) -> bool {
        let packed = self.half_edges(dir);
        forall|v: int, s: int| #[trigger]
            packed.holds_slot(v, s) ==> {
                let e = packed.edge_ids()[s];
                &&& e < self.edges@.len()
                &&& self.edges@[e as int].id == e
                &&& edge::near_end(self.edges@[e as int], dir) == v
                &&& edge::far_end(self.edges@[e as int], dir) == packed.target_ids()[s]
                &&& packed.costs_of(s, self.dim as nat) == self.edges@[e as int].edge_costs@
            }
    }

    /// Where the edges stand at the positions of their ids, half edges
    /// packed from the same edges name them rightly.
    pub proof fn lemma_consistent(&self, order: Seq<Edge>, dir: EdgeDirection)
        requires
            self.half_edges(dir).packs(order, self.nodes@.len() as int, self.dim as nat, dir),
            edge::filed_in_order(order, dir),
            ids_are_positions(self.edges@),
            forall|s: int|
                0 <= s < order.len() ==> exists|t: int|
                    0 <= t < self.edges@.len() && self.edges@[t] == #[trigger] order[s],
        ensures
            self.consistent(dir),
    {
        let packed = self.half_edges(dir);
        let n = self.nodes@.len() as int;
        assert forall|v: int, s: int| #[trigger] packed.holds_slot(v, s) implies {
            let e = packed.edge_ids()[s];
            &&& e < self.edges@.len()
            &&& self.edges@[e as int].id == e
            &&& edge::near_end(self.edges@[e as int], dir) == v
            &&& edge::far_end(self.edges@[e as int], dir) == packed.target_ids()[s]
            &&& packed.costs_of(s, self.dim as nat) == self.edges@[e as int].edge_costs@
        } by {
            assert(packed.offsets()[v + 1] <= packed.offsets()[n]);
            packed.lemma_slots_of_node(order, n, self.dim as nat, dir, s, v);
            let t = choose|t: int| 0 <= t < self.edges@.len() && self.edges@[t] == order[s];
            assert(self.edges@[t].id == t);
            assert(packed.edge_ids()[s] == order[s].id);
            assert(packed.target_ids()[s] == edge::far_end(order[s], dir));
            assert(packed.costs_of(s, self.dim as nat) == order[s].edge_costs@);
        }
    }

    /// Lays out a graph: ranks the nodes by level, renames them by rank, and
    /// packs the half edges of both directions.
    pub fn new(nodes: Vec<Node>, edges: Vec<Edge>) -> (graph: Graph)
        requires
            nodes@.len() < u32::MAX,
            edges@.len() <= u32::MAX,
            forall|i: int|
                0 <= i < edges@.len() ==> (#[trigger] edges@[i]).edge_costs@.len()
                    == edges@[0].edge_costs@.len(),
            edges@.len() > 0 ==> edges@[0].edge_costs@.len() <= u32::MAX && edges@.len()
                * edges@[0].edge_costs@.len() <= usize::MAX,
            forall|i: int|
                0 <= i < edges@.len() ==> is_node_id(nodes@, (#[trigger] edges@[i]).source_id)
                    && is_node_id(nodes@, edges@[i].target_id),
        ensures
            graph.searchable(),
            exists|ranked: Seq<Node>, out_order: Seq<Edge>, in_order: Seq<Edge>|
                graph.built_from(nodes@, edges@, ranked, out_order, in_order),
            ids_dense(edges@) ==> ids_are_positions(graph.edges@) && graph.consistent(EdgeDirection::Out)
                && graph.consistent(EdgeDirection::In),
    {
        broadcast use vstd::std_specs::hash::group_hash_axioms;

        let ghost given_nodes = nodes@;
        let ghost given_edges = edges@;
        let mut nodes = MyVec(nodes);
        let mut edges = MyVec(edges);
        let n: usize = nodes.0.len();
        let edge_count: usize = edges.0.len();
        let dim: u32 = if edge_count > 0 {
            edges.0[0].edge_costs.len() as u32
        } else {
            0
        };
        sort_nodes(&mut nodes.0);
        let ghost ranked = nodes@;
        let ghost p0 = choose|p: Seq<int>| stable_sort_by(given_nodes, ranked, level_key(), p);
        let mut id_map: HashMap<u32, u32> = HashMap::new();
        let mut i: usize = 0;
        while i < n
            invariant
                i <= n,
                n == ranked.len(),
                n < u32::MAX,
                nodes@.len() == n,
                forall|j: int| 0 <= j < i ==> #[trigger] nodes@[j] == renumbered(ranked)[j],
                forall|j: int| i <= j < n ==> #[trigger] nodes@[j] == ranked[j],
                id_map@ == id_map_of(ranked.subrange(0, i as int)),
            decreases n - i,
        {
            let node: Node = nodes.0[i];
            proof {
                assert(ranked.subrange(0, i as int + 1).drop_last() =~= ranked.subrange(0, i as int));
                assert(ranked.subrange(0, i as int + 1).last() == ranked[i as int]);
            }
            id_map.insert(node.id, i as u32);
            nodes.0[i] = Node { id: i as u32, ch_level: node.ch_level };
            i += 1;
        }
        proof {
            assert(ranked.subrange(0, n as int) =~= ranked);
            assert(nodes@ =~= renumbered(ranked));
        }
        let ghost ids = id_map_of(ranked);
        let ghost mapped = relabelled_all(given_edges, ids);
        let mut i: usize = 0;
        while i < edge_count
            invariant
                i <= edge_count,
                edge_count == given_edges.len(),
                edges@.len() == edge_count,
                id_map@ == ids,
                ids == id_map_of(ranked),
                stable_sort_by(given_nodes, ranked, level_key(), p0),
                forall|j: int|
                    0 <= j < given_edges.len() ==> is_node_id(
                        given_nodes,
                        (#[trigger] given_edges[j]).source_id,
                    ) && is_node_id(given_nodes, given_edges[j].target_id),
                forall|j: int| 0 <= j < i ==> #[trigger] edges@[j] == relabelled(given_edges[j], ids),
                forall|j: int| i <= j < edge_count ==> #[trigger] edges@[j] == given_edges[j],
            decreases edge_count - i,
        {
            let source_id: u32 = edges.0[i].source_id;
            let target_id: u32 = edges.0[i].target_id;
            proof {
                assert(edges@[i as int] == given_edges[i as int]);
                lemma_ranked_ids(given_nodes, ranked, p0, source_id);
                lemma_ranked_ids(given_nodes, ranked, p0, target_id);
                lemma_id_map(ranked, source_id);
                lemma_id_map(ranked, target_id);
            }
            let new_source: u32 = *id_map.get(&source_id).unwrap();
            let new_target: u32 = *id_map.get(&target_id).unwrap();
            edges.0[i].source_id = new_source;
            edges.0[i].target_id = new_target;
            i += 1;
        }
        proof {
            assert(edges@ =~= mapped);
            assert forall|j: int| 0 <= j < mapped.len() implies edge_fits(n as int, dim as int)(
                #[trigger] mapped[j],
            ) by {
                lemma_ranked_ids(given_nodes, ranked, p0, given_edges[j].source_id);
                lemma_ranked_ids(given_nodes, ranked, p0, given_edges[j].target_id);
                lemma_id_map(ranked, given_edges[j].source_id);
                lemma_id_map(ranked, given_edges[j].target_id);
            }
        }
        let out = EdgeOrder::Filed(EdgeDirection::Out);
        let inc = EdgeOrder::Filed(EdgeDirection::In);
        sort_edges(&mut edges.0, &nodes.0, out);
        let ghost out_order = edges@;
        proof {
            let p1 = choose|p: Seq<int>| stable_sort_by(mapped, out_order, edge_key(nodes@, out), p);
            order::lemma_sort_keeps(mapped, out_order, edge_key(nodes@, out), p1, edge_fits(n as int, dim as int));
            assert forall|j: int| 0 <= j < out_order.len() implies edge_fits(n as int, dim as int)(
                #[trigger] out_order[j],
            ) by {}
        }
        let edges_out = GraphEdges::new(n, edges.0.as_slice(), dim as usize, EdgeDirection::Out);
        sort_edges(&mut edges.0, &nodes.0, inc);
        let ghost in_order = edges@;
        proof {
            let p2 = choose|p: Seq<int>| stable_sort_by(out_order, in_order, edge_key(nodes@, inc), p);
            order::lemma_sort_keeps(out_order, in_order, edge_key(nodes@, inc), p2, edge_fits(n as int, dim as int));
            assert forall|j: int| 0 <= j < in_order.len() implies edge_fits(n as int, dim as int)(
                #[trigger] in_order[j],
            ) by {}
        }
        let edges_in = GraphEdges::new(n, edges.0.as_slice(), dim as usize, EdgeDirection::In);
        sort_edges(&mut edges.0, &nodes.0, EdgeOrder::ById);
        let ghost by_id = edges@;
        let ghost p3 = choose|p: Seq<int>|
            stable_sort_by(in_order, by_id, edge_key(nodes@, EdgeOrder::ById), p);
        let graph = Graph { nodes, edges, dim, edges_in, edges_out };
        proof {
            let nn = given_nodes.len() as int;
            assert(stable_sort_by(given_nodes, ranked, level_key(), p0));
            assert(graph.nodes@ == renumbered(ranked));
            assert(exists|p: Seq<int>| stable_sort_by(mapped, out_order, edge_key(graph.nodes@, out), p));
            assert(graph.edges_out.packs(out_order, nn, graph.dim as nat, EdgeDirection::Out));
            assert(exists|p: Seq<int>| stable_sort_by(out_order, in_order, edge_key(graph.nodes@, inc), p));
            assert(graph.edges_in.packs(in_order, nn, graph.dim as nat, EdgeDirection::In));
            assert(stable_sort_by(in_order, graph.edges@, edge_key(graph.nodes@, EdgeOrder::ById), p3));
            assert(graph.dim == (if given_edges.len() > 0 {
                given_edges[0].edge_costs@.len()
            } else {
                0
            }));
            assert(graph.built_from(given_nodes, given_edges, ranked, out_order, in_order));
            let p1 = choose|p: Seq<int>| stable_sort_by(mapped, out_order, edge_key(graph.nodes@, out), p);
            let p2 = choose|p: Seq<int>| stable_sort_by(out_order, in_order, edge_key(graph.nodes@, inc), p);
            assert forall|i: int| 0 <= i < out_order.len() implies (#[trigger] out_order[i]).source_id
                < nn && out_order[i].target_id < nn by {
                assert(edge_fits(nn, dim as int)(out_order[i]));
            }
            assert forall|i: int| 0 <= i < in_order.len() implies (#[trigger] in_order[i]).source_id
                < nn && in_order[i].target_id < nn by {
                assert(edge_fits(nn, dim as int)(in_order[i]));
            }
            assert forall|i: int, j: int| 0 <= i <= j < out_order.len() implies order::edge_rank(
                #[trigger] out_order[i],
                graph.nodes@,
                out,
            ) <= order::edge_rank(#[trigger] out_order[j], graph.nodes@, out) by {
                assert(edge_key(graph.nodes@, out)(out_order[i]) <= edge_key(graph.nodes@, out)(
                    out_order[j],
                ));
            }
            assert forall|i: int, j: int| 0 <= i <= j < in_order.len() implies order::edge_rank(
                #[trigger] in_order[i],
                graph.nodes@,
                inc,
            ) <= order::edge_rank(#[trigger] in_order[j], graph.nodes@, inc) by {
                assert(edge_key(graph.nodes@, inc)(in_order[i]) <= edge_key(graph.nodes@, inc)(
                    in_order[j],
                ));
            }
            graph.lemma_levels_fall(out_order, EdgeDirection::Out);
            graph.lemma_levels_fall(in_order, EdgeDirection::In);
            if ids_dense(given_edges) {
                let by_key = edge_key(graph.nodes@, EdgeOrder::ById);
                assert(ids_dense(mapped)) by {
                    assert forall|i: int| 0 <= i < mapped.len() implies (#[trigger] mapped[i]).id
                        == given_edges[i].id by {}
                }
                order::lemma_sort_keeps_dense(mapped, out_order, edge_key(graph.nodes@, out), p1);
                order::lemma_sort_keeps_dense(out_order, in_order, edge_key(graph.nodes@, inc), p2);
                order::lemma_sort_keeps_dense(in_order, graph.edges@, by_key, p3);
                assert forall|a: int, b: int| 0 <= a <= b < graph.edges@.len() implies (
                #[trigger] graph.edges@[a]).id <= (#[trigger] graph.edges@[b]).id by {
                    assert(by_key(graph.edges@[a]) <= by_key(graph.edges@[b]));
                }
                lemma_ids_are_positions(graph.edges@);
                assert forall|s: int| 0 <= s < in_order.len() implies exists|t: int|
                    0 <= t < graph.edges@.len() && graph.edges@[t] == #[trigger] in_order[s] by {
                    order::lemma_sort_contains(in_order, graph.edges@, by_key, p3, s);
                }
                assert forall|s: int| 0 <= s < out_order.len() implies exists|t: int|
                    0 <= t < graph.edges@.len() && graph.edges@[t] == #[trigger] out_order[s] by {
                    order::lemma_sort_contains(out_order, in_order, edge_key(graph.nodes@, inc), p2, s);
                    let a = choose|a: int| 0 <= a < in_order.len() && in_order[a] == out_order[s];
                    order::lemma_sort_contains(in_order, graph.edges@, by_key, p3, a);
                }
                order::lemma_filed_order(out_order, graph.nodes@, EdgeDirection::Out);
                order::lemma_filed_order(in_order, graph.nodes@, EdgeDirection::In);
                graph.lemma_consistent(out_order, EdgeDirection::Out);
                graph.lemma_consistent(in_order, EdgeDirection::In);
            }
        }
        graph
    }

    /// The half edges at `node_id` in direction `dir`.
    pub fn edges_of(&self, node_id: u32, dir: EdgeDirection) -> (iter: HalfEdgeIter<'_>)
        requires
            self.wf(),
            node_id < self.nodes@.len(),
        ensures
            iter.wf(),
            iter.edges() == self.half_edges(dir),
            iter.dimension() == self.dim,
            iter.position() == self.half_edges(dir).offsets()[node_id as int],
            iter.end() == self.half_edges(dir).offsets()[node_id + 1],
    {
        match dir {
            EdgeDirection::In => self.edges_in.get_edges_for_node(node_id, self.dim as usize),
            EdgeDirection::Out => self.edges_out.get_edges_for_node(node_id, self.dim as usize),
        }
    }

    /// Replaces `edge`, if it is a shortcut, by the two edges it stands for,
    /// and these in turn, until no shortcut is left.
    ///
    /// `None` where the plain edges cannot be told: an edge does not
    /// exist, a shortcut and its parts do not fit, or shortcuts are nested
    /// deeper than there are edges, as only shortcuts that stand for
    /// themselves are.
    pub fn unpack_edge(&self, edge: u32) -> (res: Option<Vec<u32>>)
        ensures
            match res {
                Some(path) => self.unpacked(edge) == Some(path@),
                None => self.unpacked(edge) is None,
            },
    {
        self.unpack_within(edge, self.edges.0.len())
    }

    /// Unpacks `edge` at most `budget` levels deep.
    pub fn unpack_within(&self, edge: u32, budget: usize) -> (res: Option<Vec<u32>>)
        ensures
            match res {
                Some(path) => unpacked(self.edges@, edge, budget as nat) == Some(path@),
                None => unpacked(self.edges@, edge, budget as nat) is None,
            },
        decreases budget,
    {
        let count: usize = self.edges.0.len();
        if edge as usize >= count {
            return None;
        }
        match self.edges.0[edge as usize].replaced_edges {
            None => {
                let mut path: Vec<u32> = Vec::new();
                path.push(edge);
                assert(path@ =~= seq![edge]);
                Some(path)
            },
            Some((edge1, edge2)) => {
                if budget == 0 || edge1 as usize >= count || edge2 as usize >= count {
                    return None;
                }
                if self.edges.0[edge1 as usize].source_id != self.edges.0[edge as usize].source_id {
                    return None;
                }
                if self.edges.0[edge2 as usize].target_id != self.edges.0[edge as usize].target_id {
                    return None;
                }
                if self.edges.0[edge1 as usize].target_id != self.edges.0[edge2 as usize].source_id {
                    return None;
                }
                let first = self.unpack_within(edge1, budget - 1);
                let second = self.unpack_within(edge2, budget - 1);
                match (first, second) {
                    (Some(mut first), Some(mut second)) => {
                        first.append(&mut second);
                        Some(first)
                    },
                    _ => None,
                }
            },
        }
    }

    /// Where the shortcuts fit and can be ranked, every edge of the graph
    /// unpacks.
    pub proof fn lemma_unpack_edge_succeeds(&self, height: Seq<nat>, edge: u32)
        requires
            shortcuts_ranked(self.edges@, height),
            edge < self.edges@.len(),
        ensures
            self.unpacked(edge) is Some,
    {
        lemma_unpack_succeeds(self.edges@, height, edge, self.edges@.len());
    }

    /// A shortcut unpacks to what its first part unpacks to, followed by
    /// what its second part unpacks to, and that is a chain of plain
    /// edges from the start of the shortcut to its end.
    pub proof fn lemma_unpack_shortcut(&self, edge: u32, edge1: u32, edge2: u32)
        requires
            edge < self.edges@.len(),
            self.edges@[edge as int].replaced_edges == Some((edge1, edge2)),
            self.unpacked(edge) is Some,
        ensures
            self.unpacked(edge1) is Some,
            self.unpacked(edge2) is Some,
            self.unpacked(edge).unwrap() == self.unpacked(edge1).unwrap() + self.unpacked(edge2).unwrap(),
            is_chain(
                self.edges@,
                self.unpacked(edge).unwrap(),
                self.edges@[edge as int].source_id,
                self.edges@[edge as int].target_id,
            ),
            self.edges@[edge1 as int].target_id == self.edges@[edge2 as int].source_id,
    {
        let edges = self.edges@;
        let n = edges.len();
        lemma_unpacked_budget(edges, edge1, (n - 1) as nat, n);
        lemma_unpacked_budget(edges, edge2, (n - 1) as nat, n);
        lemma_unpacked_is_chain(edges, edge, n);
    }
}

} // verus!
