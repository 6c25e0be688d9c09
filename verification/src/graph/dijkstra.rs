//! The bookkeeping of the search from both ends of a route: which edge led
//! to a node, which nodes were touched, and how the route is read off when
//! both searches have met. The costs by which the search decides are the
//! caller's.

use super::edge::{far_end, near_end, Edge, EdgeDirection, HalfEdge, HalfEdgeIter};
use super::order::level_of;
use super::Graph;
use crate::utils::MyVec;
use vstd::prelude::*;

verus! {

/// The edges that lead from where the forward search began to `node`, in
/// the order they are travelled, following at most `budget` edges back.
///
/// `None` where an edge or a node named does not exist or the budget runs
/// out, as it does where the edges go round in a circle.
pub open spec fn edges_to(
    previous: Seq<Option<u32>>,
    edges: Seq<Edge>,
    node: u32,
    budget: nat,
) -> Option<Seq<u32>>
    decreases budget,
{
    if node >= previous.len() {
        None
    } else {
        match previous[node as int] {
            None => Some(Seq::empty()),
            Some(e) => {
                if budget == 0 || e >= edges.len() {
                    None
                } else {
                    match edges_to(previous, edges, edges[e as int].source_id, (budget - 1) as nat) {
                        Some(path) => Some(path.push(e)),
                        None => None,
                    }
                }
            },
        }
    }
}

/// The edges that lead from `node` to where the backward search began, in
/// the order they are travelled, following at most `budget` edges on.
pub open spec fn edges_from(
    previous: Seq<Option<u32>>,
    edges: Seq<Edge>,
    node: u32,
    budget: nat,
) -> Option<Seq<u32>>
    decreases budget,
{
    if node >= previous.len() {
        None
    } else {
        match previous[node as int] {
            None => Some(Seq::empty()),
            Some(e) => {
                if budget == 0 || e >= edges.len() {
                    None
                } else {
                    match edges_from(previous, edges, edges[e as int].target_id, (budget - 1) as nat) {
                        Some(path) => Some(seq![e] + path),
                        None => None,
                    }
                }
            },
        }
    }
}

/// `path` leads over edges of the graph, each ending where the next
/// starts, from `from` to `to`.
pub open spec fn connects(edges: Seq<Edge>, path: Seq<u32>, from: u32, to: u32) -> bool {
    &&& path.len() >= 1
    &&& forall|i: int| 0 <= i < path.len() ==> (#[trigger] path[i]) < edges.len()
    &&& edges[path[0] as int].source_id == from
    &&& edges[path.last() as int].target_id == to
    &&& forall|i: int|
        0 <= i < path.len() - 1 ==> edges[#[trigger] path[i] as int].target_id == edges[path[i + 1] as int].source_id
}

/// Every node that `previous` names an edge for is where that edge ends,
/// seen in direction `dir`.
pub open spec fn ends_fit(previous: Seq<Option<u32>>, edges: Seq<Edge>, dir: EdgeDirection) -> bool {
    forall|v: int|
        0 <= v < previous.len() ==> match #[trigger] previous[v] {
            None => true,
            Some(e) => e < edges.len() && far_end(edges[e as int], dir) == v,
        }
}

/// The edges by which the forward search has come to a node lead there,
/// from a node that the search has not reached by an edge.
pub proof fn lemma_edges_to_connect(previous: Seq<Option<u32>>, edges: Seq<Edge>, node: u32, budget: nat)
    requires
        ends_fit(previous, edges, EdgeDirection::Out),
        edges_to(previous, edges, node, budget) is Some,
    ensures
        ({
            let path = edges_to(previous, edges, node, budget).unwrap();
            if path.len() == 0 {
                previous[node as int] is None
            } else {
                let start = edges[path[0] as int].source_id;
                &&& connects(edges, path, start, node)
                &&& start < previous.len()
                &&& previous[start as int] is None
            }
        }),
    decreases budget,
{
    match previous[node as int] {
        None => {},
        Some(e) => {
            let from = edges[e as int].source_id;
            let rest = edges_to(previous, edges, from, (budget - 1) as nat).unwrap();
            lemma_edges_to_connect(previous, edges, from, (budget - 1) as nat);
            let path = rest.push(e);
            assert(path.last() == e);
            if rest.len() == 0 {
                assert(path[0] == e);
            } else {
                assert(path[0] == rest[0]);
                assert forall|i: int| 0 <= i < path.len() implies (#[trigger] path[i]) < edges.len() by {
                    if i < rest.len() {
                        assert(path[i] == rest[i]);
                    }
                }
                assert forall|i: int| 0 <= i < path.len() - 1 implies edges[#[trigger] path[i] as int].target_id
                    == edges[path[i + 1] as int].source_id by {
                    assert(path[i] == rest[i]);
                    if i < rest.len() - 1 {
                        assert(path[i + 1] == rest[i + 1]);
                    } else {
                        assert(path[i] == rest.last());
                    }
                }
            }
        },
    }
}

/// The edges by which the backward search has come to a node lead from
/// there, to a node that the search has not reached by an edge.
pub proof fn lemma_edges_from_connect(previous: Seq<Option<u32>>, edges: Seq<Edge>, node: u32, budget: nat)
    requires
        ends_fit(previous, edges, EdgeDirection::In),
        edges_from(previous, edges, node, budget) is Some,
    ensures
        ({
            let path = edges_from(previous, edges, node, budget).unwrap();
            if path.len() == 0 {
                previous[node as int] is None
            } else {
                let end = edges[path.last() as int].target_id;
                &&& connects(edges, path, node, end)
                &&& end < previous.len()
                &&& previous[end as int] is None
            }
        }),
    decreases budget,
{
    match previous[node as int] {
        None => {},
        Some(e) => {
            let to = edges[e as int].target_id;
            let rest = edges_from(previous, edges, to, (budget - 1) as nat).unwrap();
            lemma_edges_from_connect(previous, edges, to, (budget - 1) as nat);
            let path = seq![e] + rest;
            assert(path[0] == e);
            if rest.len() == 0 {
                assert(path.last() == e);
            } else {
                assert(path.last() == rest.last());
                assert forall|i: int| 0 <= i < path.len() implies (#[trigger] path[i]) < edges.len() by {
                    if i > 0 {
                        assert(path[i] == rest[i - 1]);
                    }
                }
                assert forall|i: int| 0 <= i < path.len() - 1 implies edges[#[trigger] path[i] as int].target_id
                    == edges[path[i + 1] as int].source_id by {
                    assert(path[i + 1] == rest[i]);
                    if i > 0 {
                        assert(path[i] == rest[i - 1]);
                    }
                }
            }
        },
    }
}

/// `height` ranks every node that `previous` names an edge for above the
/// node at the near end of that edge, with ranks below the number of
/// nodes. Such a ranking exists exactly where the edges named do not lead
/// round in a circle.
pub open spec fn leads_back(
    previous: Seq<Option<u32>>,
    edges: Seq<Edge>,
    dir: EdgeDirection,
    height: Seq<nat>,
) -> bool {
    &&& height.len() == previous.len()
    &&& forall|v: int| 0 <= v < previous.len() ==> (#[trigger] height[v]) < previous.len()
    &&& forall|v: int|
        0 <= v < previous.len() ==> match #[trigger] previous[v] {
            None => true,
            Some(e) => {
                &&& e < edges.len()
                &&& near_end(edges[e as int], dir) < previous.len()
                &&& height[near_end(edges[e as int], dir) as int] < height[v]
            },
        }
}

/// Where the edges of the forward search do not lead round in a circle,
/// the way to every node can be read off.
pub proof fn lemma_edges_to_succeeds(
    previous: Seq<Option<u32>>,
    edges: Seq<Edge>,
    height: Seq<nat>,
    node: u32,
    budget: nat,
)
    requires
        leads_back(previous, edges, EdgeDirection::Out, height),
        node < previous.len(),
        height[node as int] <= budget,
    ensures
        edges_to(previous, edges, node, budget) is Some,
    decreases budget,
{
    match previous[node as int] {
        None => {},
        Some(e) => {
            lemma_edges_to_succeeds(previous, edges, height, edges[e as int].source_id, (budget - 1) as nat);
        },
    }
}

/// Where the edges of the backward search do not lead round in a circle,
/// the way from every node can be read off.
pub proof fn lemma_edges_from_succeeds(
    previous: Seq<Option<u32>>,
    edges: Seq<Edge>,
    height: Seq<nat>,
    node: u32,
    budget: nat,
)
    requires
        leads_back(previous, edges, EdgeDirection::In, height),
        node < previous.len(),
        height[node as int] <= budget,
    ensures
        edges_from(previous, edges, node, budget) is Some,
    decreases budget,
{
    match previous[node as int] {
        None => {},
        Some(e) => {
            lemma_edges_from_succeeds(previous, edges, height, edges[e as int].target_id, (budget - 1) as nat);
        },
    }
}

/// The plain edges of `path`, every shortcut unpacked.
pub open spec fn unpacked_path(edges: Seq<Edge>, path: Seq<u32>) -> Option<Seq<u32>>
    decreases path.len(),
{
    if path.len() == 0 {
        Some(Seq::empty())
    } else {
        match (unpacked_path(edges, path.drop_last()), super::unpacked(edges, path.last(), edges.len())) {
            (Some(before), Some(last)) => Some(before + last),
            _ => None,
        }
    }
}

/// The edges of all `legs`, one leg after the other.
pub open spec fn joined(legs: Seq<Seq<u32>>) -> Seq<u32>
    decreases legs.len(),
{
    if legs.len() == 0 {
        Seq::empty()
    } else {
        joined(legs.drop_last()) + legs.last()
    }
}

/// A route as the search has found it: the legs between the stops asked
/// for, each a list of edges that may be shortcuts.
#[derive(Debug, Clone)]
pub struct HalfPath {
    pub edges: MyVec<MyVec<u32>>,
}

/// The legs of a route as sequences.
pub open spec fn legs_of(edges: Seq<MyVec<u32>>) -> Seq<Seq<u32>> {
    Seq::new(edges.len(), |i: int| edges[i]@)
}

/// What the search keeps for every node apart from costs: the edge by
/// which each search has reached it, and a journal of the nodes touched,
/// so that only those are cleared before the next search.
#[derive(Debug, Clone)]
pub struct Dijkstra<'a> {
    pub graph: &'a Graph,
    touched_nodes: MyVec<u32>,
    found_best_b: bool,
    found_best_f: bool,
    previous_f: MyVec<Option<u32>>,
    previous_b: MyVec<Option<u32>>,
}

impl<'a> Dijkstra<'a> {
    /// The graph searched.
    pub closed spec fn searched(&self) -> &'a Graph {
        self.graph
    }

    /// The nodes touched since the search was prepared.
    pub closed spec fn touched(&self) -> Seq<u32> {
        self.touched_nodes@
    }

    /// For every node, the edge by which the search in direction `dir`
    /// has reached it.
    pub closed spec fn previous(&self, dir: EdgeDirection) -> Seq<Option<u32>> {
        match dir {
            EdgeDirection::Out => self.previous_f@,
            EdgeDirection::In => self.previous_b@,
        }
    }

    /// Whether the search in direction `dir` has gone past the best
    /// route known.
    pub closed spec fn found_best(&self, dir: EdgeDirection) -> bool {
        match dir {
            EdgeDirection::Out => self.found_best_f,
            EdgeDirection::In => self.found_best_b,
        }
    }

    /// Every node that the search in direction `dir` has reached was
    /// reached by an edge of the graph that ends there, seen from the search.
    pub open spec fn reached_by_edges(&self, dir: EdgeDirection) -> bool {
        forall|v: int|
            0 <= v < self.previous(dir).len() ==> match #[trigger] self.previous(dir)[v] {
                None => true,
                Some(e) => e < self.searched().edges@.len() && far_end(
                    self.searched().edges@[e as int],
                    dir,
                ) == v,
            }
    }

    /// There is an entry for every node, the journal names nodes, every
    /// node reached by an edge is in the journal, and the edge ends there.
    pub open spec fn wf(&self) -> bool {
        let n = self.searched().nodes@.len();
        &&& self.reached_by_edges(EdgeDirection::Out)
        &&& self.reached_by_edges(EdgeDirection::In)
        &&& n <= u32::MAX
        &&& self.previous(EdgeDirection::Out).len() == n
        &&& self.previous(EdgeDirection::In).len() == n
        &&& forall|i: int| 0 <= i < self.touched().len() ==> (#[trigger] self.touched()[i]) < n
        &&& forall|v: u32|
            #![trigger self.previous(EdgeDirection::Out)[v as int]]
            #![trigger self.previous(EdgeDirection::In)[v as int]]
            v < n && (self.previous(EdgeDirection::Out)[v as int] is Some || self.previous(
                EdgeDirection::In,
            )[v as int] is Some) ==> self.touched().contains(v)
    }

    /// No node has been reached.
    pub open spec fn cleared(&self) -> bool {
        &&& forall|v: int|
            0 <= v < self.previous(EdgeDirection::Out).len() ==> (#[trigger] self.previous(
                EdgeDirection::Out,
            )[v]) is None
        &&& forall|v: int|
            0 <= v < self.previous(EdgeDirection::In).len() ==> (#[trigger] self.previous(
                EdgeDirection::In,
            )[v]) is None
    }

    pub fn new(graph: &'a Graph) -> (dijkstra: Dijkstra<'a>)
        requires
            graph.nodes@.len() <= u32::MAX,
        ensures
            dijkstra.wf(),
            dijkstra.searched() == graph,
            dijkstra.cleared(),
            dijkstra.touched() == Seq::<u32>::empty(),
            !dijkstra.found_best(EdgeDirection::Out),
            !dijkstra.found_best(EdgeDirection::In),
    {
        let num_of_nodes: usize = graph.nodes.0.len();
        let mut previous_f: Vec<Option<u32>> = Vec::new();
        let mut previous_b: Vec<Option<u32>> = Vec::new();
        let mut i: usize = 0;
        while i < num_of_nodes
            invariant
                i <= num_of_nodes,
                previous_f@.len() == i,
                previous_b@.len() == i,
                forall|v: int| 0 <= v < i ==> (#[trigger] previous_f@[v]) is None,
                forall|v: int| 0 <= v < i ==> (#[trigger] previous_b@[v]) is None,
            decreases num_of_nodes - i,
        {
            previous_f.push(None);
            previous_b.push(None);
            i += 1;
        }
        Dijkstra {
            graph,
            touched_nodes: MyVec(Vec::new()),
            found_best_b: false,
            found_best_f: false,
            previous_f: MyVec(previous_f),
            previous_b: MyVec(previous_b),
        }
    }

    /// The nodes touched since the search was prepared.
    pub fn touched_nodes(&self) -> (touched: &Vec<u32>)
        ensures
            touched@ == self.touched(),
    {
        &self.touched_nodes.0
    }

    /// Clears what the last search has left, at the touched nodes only, and
    /// starts the journal anew with both ends of the route.
    pub fn prepare(&mut self, source: u32, target: u32)
        requires
            old(self).wf(),
            source < old(self).searched().nodes@.len(),
            target < old(self).searched().nodes@.len(),
        ensures
            final(self).wf(),
            final(self).searched() == old(self).searched(),
            final(self).cleared(),
            final(self).touched() == seq![source, target],
            !final(self).found_best(EdgeDirection::Out),
            !final(self).found_best(EdgeDirection::In),
    {
        let count: usize = self.touched_nodes.0.len();
        let ghost n = self.graph.nodes@.len();
        let ghost out = EdgeDirection::Out;
        let ghost inc = EdgeDirection::In;
        proof {
            assert forall|v: u32|
                #![trigger self.previous(out)[v as int]]
                #![trigger self.previous(inc)[v as int]]
                v < n && (self.previous(out)[v as int] is Some || self.previous(inc)[v as int] is Some) implies exists|
                j: int,
            | 0 <= j < count && self.touched()[j] == v by {
                assert(self.touched().contains(v));
            }
        }
        let mut i: usize = 0;
        while i < count
            invariant
                i <= count,
                count == self.touched().len(),
                self.touched() == old(self).touched(),
                self.graph == old(self).graph,
                n == self.graph.nodes@.len(),
                n <= u32::MAX,
                out == EdgeDirection::Out,
                inc == EdgeDirection::In,
                self.previous(out).len() == n,
                self.previous(inc).len() == n,
                forall|j: int| 0 <= j < count ==> (#[trigger] self.touched()[j]) < n,
                forall|v: u32|
                    #![trigger self.previous(out)[v as int]]
                    #![trigger self.previous(inc)[v as int]]
                    v < n && (self.previous(out)[v as int] is Some || self.previous(inc)[v as int] is Some)
                        ==> exists|j: int| i <= j < count && self.touched()[j] == v,
            decreases count - i,
        {
            assert(self.touched()[i as int] < n);
            let node_id: usize = self.touched_nodes.0[i] as usize;
            let ghost before_f = self.previous(out);
            let ghost before_b = self.previous(inc);
            self.previous_f.0[node_id] = None;
            self.previous_b.0[node_id] = None;
            proof {
                assert forall|v: u32|
                    #![trigger self.previous(out)[v as int]]
                    #![trigger self.previous(inc)[v as int]]
                    v < n && (self.previous(out)[v as int] is Some || self.previous(inc)[v as int] is Some) implies exists|
                    j: int,
                | i + 1 <= j < count && self.touched()[j] == v by {
                    assert(v != node_id);
                    assert(before_f[v as int] is Some || before_b[v as int] is Some);
                    let j = choose|j: int| i <= j < count && self.touched()[j] == v;
                    assert(j != i);
                }
            }
            i += 1;
        }
        proof {
            assert forall|v: int| 0 <= v < n implies (#[trigger] self.previous(out)[v]) is None by {
                if self.previous(out)[v] is Some {
                    assert(self.previous(out)[(v as u32) as int] is Some);
                }
            }
            assert forall|v: int| 0 <= v < n implies (#[trigger] self.previous(inc)[v]) is None by {
                if self.previous(inc)[v] is Some {
                    assert(self.previous(inc)[(v as u32) as int] is Some);
                }
            }
        }
        self.touched_nodes.0.clear();
        self.found_best_b = false;
        self.found_best_f = false;
        self.touched_nodes.0.push(source);
        self.touched_nodes.0.push(target);
        proof {
            assert(self.touched_nodes@ =~= seq![source, target]);
        }
    }

    /// Notes that the search in direction `dir` has reached `node` by
    /// `edge`.
    pub fn reach(&mut self, node: u32, dir: EdgeDirection, edge: u32)
        requires
            old(self).wf(),
            node < old(self).searched().nodes@.len(),
            edge < old(self).searched().edges@.len(),
            far_end(old(self).searched().edges@[edge as int], dir) == node,
        ensures
            final(self).wf(),
            final(self).searched() == old(self).searched(),
            final(self).previous(dir) == old(self).previous(dir).update(node as int, Some(edge)),
            forall|other: EdgeDirection|
                other != dir ==> final(self).previous(other) == old(self).previous(other),
            final(self).touched() == old(self).touched().push(node),
            final(self).found_best(EdgeDirection::Out) == old(self).found_best(EdgeDirection::Out),
            final(self).found_best(EdgeDirection::In) == old(self).found_best(EdgeDirection::In),
    {
        match dir {
            EdgeDirection::Out => {
                self.previous_f.0[node as usize] = Some(edge);
            },
            EdgeDirection::In => {
                self.previous_b.0[node as usize] = Some(edge);
            },
        }
        self.touched_nodes.0.push(node);
        proof {
            let n = self.graph.nodes@.len();
            assert(self.reached_by_edges(EdgeDirection::Out)) by {
                assert forall|v: int| 0 <= v < self.previous(EdgeDirection::Out).len() implies match #[trigger] self.previous(
                    EdgeDirection::Out,
                )[v] {
                    None => true,
                    Some(e) => e < self.searched().edges@.len() && far_end(
                        self.searched().edges@[e as int],
                        EdgeDirection::Out,
                    ) == v,
                } by {
                    if !(dir == EdgeDirection::Out && v == node) {
                        assert(self.previous(EdgeDirection::Out)[v] == old(self).previous(
                            EdgeDirection::Out,
                        )[v]);
                    }
                }
            }
            assert(self.reached_by_edges(EdgeDirection::In)) by {
                assert forall|v: int| 0 <= v < self.previous(EdgeDirection::In).len() implies match #[trigger] self.previous(
                    EdgeDirection::In,
                )[v] {
                    None => true,
                    Some(e) => e < self.searched().edges@.len() && far_end(
                        self.searched().edges@[e as int],
                        EdgeDirection::In,
                    ) == v,
                } by {
                    if !(dir == EdgeDirection::In && v == node) {
                        assert(self.previous(EdgeDirection::In)[v] == old(self).previous(
                            EdgeDirection::In,
                        )[v]);
                    }
                }
            }
            assert forall|v: u32|
                #![trigger self.previous(EdgeDirection::Out)[v as int]]
                #![trigger self.previous(EdgeDirection::In)[v as int]]
                v < n && (self.previous(EdgeDirection::Out)[v as int] is Some || self.previous(
                    EdgeDirection::In,
                )[v as int] is Some) implies self.touched().contains(v) by {
                if v == node {
                    assert(self.touched()[self.touched().len() - 1] == node);
                } else {
                    assert(old(self).touched().contains(v));
                    let j = choose|j: int|
                        0 <= j < old(self).touched().len() && old(self).touched()[j] == v;
                    assert(self.touched()[j] == v);
                }
            }
        }
    }

    /// Notes that the search in direction `dir` has gone past the best
    /// route known.
    pub fn finish(&mut self, dir: EdgeDirection)
        ensures
            final(self).searched() == old(self).searched(),
            final(self).touched() == old(self).touched(),
            final(self).previous(EdgeDirection::Out) == old(self).previous(EdgeDirection::Out),
            final(self).previous(EdgeDirection::In) == old(self).previous(EdgeDirection::In),
            final(self).found_best(dir),
            forall|other: EdgeDirection|
                other != dir ==> final(self).found_best(other) == old(self).found_best(other),
    {
        match dir {
            EdgeDirection::Out => {
                self.found_best_f = true;
            },
            EdgeDirection::In => {
                self.found_best_b = true;
            },
        }
    }

    /// Whether both searches have gone past the best route known, so that
    /// no candidate need be looked at any more.
    pub fn is_done(&self) -> (done: bool)
        ensures
            done == (self.found_best(EdgeDirection::Out) && self.found_best(EdgeDirection::In)),
    {
        self.found_best_f && self.found_best_b
    }

    /// The edge by which the search in direction `dir` has reached `node`.
    pub fn previous_edge(&self, node: u32, dir: EdgeDirection) -> (edge: Option<u32>)
        requires
            node < self.previous(dir).len(),
        ensures
            edge == self.previous(dir)[node as int],
    {
        match dir {
            EdgeDirection::Out => self.previous_f.0[node as usize],
            EdgeDirection::In => self.previous_b.0[node as usize],
        }
    }

    /// The next half edge of the walk that leads from `node_id` to a node
    /// of no lower level, if the next one does.
    ///
    /// Since half edges come with falling level, `None` means that no half
    /// edge still to come leads to a node of the level of `node_id` or
    /// above.
    pub fn next_upward<'b>(
        &self,
        node_id: u32,
        direction: EdgeDirection,
        edges: &mut HalfEdgeIter<'b>,
    ) -> (next: Option<HalfEdge<'b>>)
        requires
            self.searched().searchable(),
            old(edges).wf(),
            node_id < self.searched().nodes@.len(),
            old(edges).edges() == self.searched().half_edges(direction),
            old(edges).dimension() == self.searched().dim,
            old(edges).edges().holds_slot(node_id as int, old(edges).position()) || old(edges).position() >= old(edges).end(),
            old(edges).end() == old(edges).edges().offsets()[node_id + 1],
        ensures
            final(edges).wf(),
            final(edges).edges() == old(edges).edges(),
            final(edges).dimension() == old(edges).dimension(),
            final(edges).end() == old(edges).end(),
            final(edges).edges().holds_slot(node_id as int, final(edges).position()) || final(edges).position() >= final(edges).end(),
            match next {
                Some(half) => {
                    let s = old(edges).position();
                    &&& s < old(edges).end()
                    &&& final(edges).position() == s + 1
                    &&& half.edge_id == old(edges).edges().edge_ids()[s]
                    &&& half.target_id == old(edges).edges().target_ids()[s]
                    &&& half.edge_costs@ == old(edges).edges().costs_of(s, old(edges).dimension() as nat)
                    &&& half.target_id < self.searched().nodes@.len()
                    &&& level_of(self.searched().nodes@, half.target_id) >= level_of(
                        self.searched().nodes@,
                        node_id,
                    )
                    &&& self.searched().consistent(direction) ==> {
                        &&& half.edge_id < self.searched().edges@.len()
                        &&& near_end(self.searched().edges@[half.edge_id as int], direction) == node_id
                        &&& far_end(self.searched().edges@[half.edge_id as int], direction)
                            == half.target_id
                        &&& half.edge_costs@ == self.searched().edges@[half.edge_id as int].edge_costs@
                    }
                },
                None => forall|s: int|
                    old(edges).position() <= s < old(edges).end() ==> level_of(
                        self.searched().nodes@,
                        #[trigger] old(edges).edges().target_ids()[s],
                    ) < level_of(self.searched().nodes@, node_id),
            },
    {
        let ghost packed = edges.edges();
        let ghost start = edges.position();
        let ghost dir = direction;
        match edges.next() {
            None => None,
            Some(half_edge) => {
                proof {
                    assert(self.graph.levels_fall(dir));
                    assert(packed.target_ids()[start] < self.graph.nodes@.len());
                    assert(packed.holds_slot(node_id as int, start));
                }
                let own: u32 = self.graph.nodes.0[node_id as usize].ch_level;
                let other: u32 = self.graph.nodes.0[half_edge.target_id as usize].ch_level;
                if own > other {
                    proof {
                        assert forall|s: int| start <= s < edges.end() implies level_of(
                            self.graph.nodes@,
                            #[trigger] packed.target_ids()[s],
                        ) < level_of(self.graph.nodes@, node_id) by {
                            assert(packed.holds_slot(node_id as int, start));
                            assert(packed.holds_slot(node_id as int, s));
                        }
                    }
                    None
                } else {
                    Some(half_edge)
                }
            },
        }
    }

    /// The route that both searches have found over the node `connector`
    /// where they met: the edges by which the forward search has come,
    /// then the edges by which the backward search has come.
    ///
    /// `None` where the edges noted do not lead back to a start.
    pub fn make_edge_path(&self, connector: u32) -> (path: Option<MyVec<u32>>)
        requires
            self.wf(),
        ensures
            ({
                let budget = self.searched().nodes@.len();
                let edges = self.searched().edges@;
                let back = edges_to(self.previous(EdgeDirection::Out), edges, connector, budget);
                let forth = edges_from(self.previous(EdgeDirection::In), edges, connector, budget);
                match path {
                    Some(path) => back is Some && forth is Some && path@ == back.unwrap()
                        + forth.unwrap(),
                    None => back is None || forth is None,
                }
            }),
    {
        let n: usize = self.graph.nodes.0.len();
        let edge_count: usize = self.graph.edges.0.len();
        if connector as usize >= n {
            return None;
        }
        let ghost all = self.graph.edges@;
        // backwards
        let mut reversed: Vec<u32> = Vec::new();
        let mut node: u32 = connector;
        let mut budget: usize = n;
        loop
            invariant
                self.wf(),
                n == self.graph.nodes@.len(),
                edge_count == self.graph.edges@.len(),
                all == self.graph.edges@,
                node < n,
                budget <= n,
                reversed@.len() == n - budget,
                edges_to(self.previous_f@, all, connector, n as nat) == match edges_to(
                    self.previous_f@,
                    all,
                    node,
                    budget as nat,
                ) {
                    Some(front) => Some(front + reversed@.reverse()),
                    None => None,
                },
            ensures
                edges_to(self.previous_f@, all, connector, n as nat) == Some(reversed@.reverse()),
            decreases budget,
        {
            match self.previous_f.0[node as usize] {
                None => {
                    assert(Seq::<u32>::empty() + reversed@.reverse() =~= reversed@.reverse());
                    break ;
                },
                Some(edge_id) => {
                    if budget == 0 {
                        return None;
                    }
                    assert(self.reached_by_edges(EdgeDirection::Out));
                    assert(self.previous(EdgeDirection::Out)[node as int] == Some(edge_id));
                    let from: u32 = self.graph.edges.0[edge_id as usize].source_id;
                    if from as usize >= n {
                        return None;
                    }
                    proof {
                        let rest = edges_to(self.previous_f@, all, from, (budget - 1) as nat);
                        if rest is Some {
                            assert(rest.unwrap().push(edge_id) + reversed@.reverse() =~= rest.unwrap()
                                + reversed@.push(edge_id).reverse());
                        }
                    }
                    reversed.push(edge_id);
                    node = from;
                    budget -= 1;
                },
            }
        }
        let mut edges: Vec<u32> = Vec::new();
        let mut i: usize = reversed.len();
        while i > 0
            invariant
                i <= reversed@.len(),
                edges@ == reversed@.reverse().subrange(0, reversed@.len() - i),
            decreases i,
        {
            i -= 1;
            edges.push(reversed[i]);
            assert(edges@ =~= reversed@.reverse().subrange(0, reversed@.len() - i));
        }
        proof {
            assert(edges@ =~= reversed@.reverse());
        }
        let ghost back = edges@;
        assert(edges@.subrange(0, back.len() as int) =~= back);
        assert(edges@.subrange(back.len() as int, edges@.len() as int) =~= Seq::<u32>::empty());
        // forwards
        let mut node: u32 = connector;
        let mut budget: usize = n;
        loop
            invariant
                self.wf(),
                n == self.graph.nodes@.len(),
                edge_count == self.graph.edges@.len(),
                all == self.graph.edges@,
                node < n,
                budget <= n,
                edges@.len() == back.len() + (n - budget),
                edges@.subrange(0, back.len() as int) == back,
                edges_from(self.previous_b@, all, connector, n as nat) == match edges_from(
                    self.previous_b@,
                    all,
                    node,
                    budget as nat,
                ) {
                    Some(tail) => Some(edges@.subrange(back.len() as int, edges@.len() as int) + tail),
                    None => None,
                },
            ensures
                edges@.subrange(0, back.len() as int) == back,
                edges_from(self.previous_b@, all, connector, n as nat) == Some(
                    edges@.subrange(back.len() as int, edges@.len() as int),
                ),
            decreases budget,
        {
            match self.previous_b.0[node as usize] {
                None => {
                    let ghost forth = edges@.subrange(back.len() as int, edges@.len() as int);
                    assert(forth + Seq::<u32>::empty() =~= forth);
                    break ;
                },
                Some(edge_id) => {
                    if budget == 0 {
                        return None;
                    }
                    assert(self.reached_by_edges(EdgeDirection::In));
                    assert(self.previous(EdgeDirection::In)[node as int] == Some(edge_id));
                    let to: u32 = self.graph.edges.0[edge_id as usize].target_id;
                    if to as usize >= n {
                        return None;
                    }
                    let ghost before = edges@;
                    edges.push(edge_id);
                    proof {
                        let rest = edges_from(self.previous_b@, all, to, (budget - 1) as nat);
                        let done = before.subrange(back.len() as int, before.len() as int);
                        assert(edges@.subrange(back.len() as int, edges@.len() as int) =~= done.push(
                            edge_id,
                        ));
                        if rest is Some {
                            assert(done + (seq![edge_id] + rest.unwrap()) =~= done.push(edge_id)
                                + rest.unwrap());
                        }
                        assert(edges@.subrange(0, back.len() as int) =~= before.subrange(
                            0,
                            back.len() as int,
                        ));
                    }
                    node = to;
                    budget -= 1;
                },
            }
        }
        proof {
            let forth = edges@.subrange(back.len() as int, edges@.len() as int);
            assert(edges@ =~= back + forth);
            assert(self.previous(EdgeDirection::Out) == self.previous_f@);
            assert(self.previous(EdgeDirection::In) == self.previous_b@);
        }
        Some(MyVec(edges))
    }
    /// Where neither search has edges that lead round in a circle, the
    /// route over every node can be read off.
    pub proof fn lemma_edge_path_succeeds(&self, forward: Seq<nat>, backward: Seq<nat>, connector: u32)
        requires
            self.wf(),
            connector < self.searched().nodes@.len(),
            leads_back(
                self.previous(EdgeDirection::Out),
                self.searched().edges@,
                EdgeDirection::Out,
                forward,
            ),
            leads_back(
                self.previous(EdgeDirection::In),
                self.searched().edges@,
                EdgeDirection::In,
                backward,
            ),
        ensures
            edges_to(
                self.previous(EdgeDirection::Out),
                self.searched().edges@,
                connector,
                self.searched().nodes@.len(),
            ) is Some,
            edges_from(
                self.previous(EdgeDirection::In),
                self.searched().edges@,
                connector,
                self.searched().nodes@.len(),
            ) is Some,
    {
        let n = self.searched().nodes@.len();
        lemma_edges_to_succeeds(
            self.previous(EdgeDirection::Out),
            self.searched().edges@,
            forward,
            connector,
            n,
        );
        lemma_edges_from_succeeds(
            self.previous(EdgeDirection::In),
            self.searched().edges@,
            backward,
            connector,
            n,
        );
    }

    /// The route over a meeting node is one: its forward part leads to the
    /// node and its backward part leads on from there.
    pub proof fn lemma_route_connects(&self, connector: u32)
        requires
            self.wf(),
            edges_to(
                self.previous(EdgeDirection::Out),
                self.searched().edges@,
                connector,
                self.searched().nodes@.len(),
            ) is Some,
            edges_from(
                self.previous(EdgeDirection::In),
                self.searched().edges@,
                connector,
                self.searched().nodes@.len(),
            ) is Some,
        ensures
            ({
                let edges = self.searched().edges@;
                let n = self.searched().nodes@.len();
                let back = edges_to(self.previous(EdgeDirection::Out), edges, connector, n).unwrap();
                let forth = edges_from(self.previous(EdgeDirection::In), edges, connector, n).unwrap();
                &&& back.len() > 0 ==> connects(edges, back, edges[back[0] as int].source_id, connector)
                &&& forth.len() > 0 ==> connects(
                    edges,
                    forth,
                    connector,
                    edges[forth.last() as int].target_id,
                )
                &&& back.len() > 0 && forth.len() > 0 ==> connects(
                    edges,
                    back + forth,
                    edges[back[0] as int].source_id,
                    edges[forth.last() as int].target_id,
                )
            }),
    {
        let edges = self.searched().edges@;
        let n = self.searched().nodes@.len();
        assert(ends_fit(self.previous(EdgeDirection::Out), edges, EdgeDirection::Out)) by {
            assert(self.reached_by_edges(EdgeDirection::Out));
        }
        assert(ends_fit(self.previous(EdgeDirection::In), edges, EdgeDirection::In)) by {
            assert(self.reached_by_edges(EdgeDirection::In));
        }
        lemma_edges_to_connect(self.previous(EdgeDirection::Out), edges, connector, n);
        lemma_edges_from_connect(self.previous(EdgeDirection::In), edges, connector, n);
        let back = edges_to(self.previous(EdgeDirection::Out), edges, connector, n).unwrap();
        let forth = edges_from(self.previous(EdgeDirection::In), edges, connector, n).unwrap();
        if back.len() > 0 && forth.len() > 0 {
            let path = back + forth;
            assert(path[0] == back[0]);
            assert(path.last() == forth.last());
            assert forall|i: int| 0 <= i < path.len() implies (#[trigger] path[i]) < edges.len() by {
                if i < back.len() {
                    assert(path[i] == back[i]);
                } else {
                    assert(path[i] == forth[i - back.len()]);
                }
            }
            assert forall|i: int| 0 <= i < path.len() - 1 implies edges[#[trigger] path[i] as int].target_id
                == edges[path[i + 1] as int].source_id by {
                if i < back.len() - 1 {
                    assert(path[i] == back[i] && path[i + 1] == back[i + 1]);
                } else if i == back.len() - 1 {
                    assert(path[i] == back.last() && path[i + 1] == forth[0]);
                } else {
                    assert(path[i] == forth[i - back.len()] && path[i + 1] == forth[i - back.len() + 1]);
                }
            }
        }
    }
}

/// `nodes` holds, for every edge of `edges`, the node it starts from.
pub open spec fn starts_of(all: Seq<Edge>, edges: Seq<u32>, nodes: Seq<u32>) -> bool {
    &&& nodes.len() == edges.len()
    &&& forall|i: int|
        0 <= i < edges.len() ==> (#[trigger] edges[i]) < all.len() && nodes[i] == all[edges[i] as int].source_id
}

/// The route of `result` in plain edges, and the nodes along it: every
/// shortcut is unpacked, and every edge contributes the node it starts
/// from; `last`, where the route ends, closes the list.
///
/// `None` where an edge cannot be unpacked.
pub fn find_shortest_path(graph: &Graph, result: &HalfPath, last: u32) -> (path: Option<
    (Vec<u32>, Vec<u32>),
>)
    ensures
        match path {
            Some((nodes, edges)) => {
                &&& unpacked_path(graph.edges@, joined(legs_of(result.edges@))) == Some(edges@)
                &&& starts_of(graph.edges@, edges@, nodes@.drop_last())
                &&& nodes@.len() == edges@.len() + 1
                &&& nodes@.last() == last
            },
            None => unpacked_path(graph.edges@, joined(legs_of(result.edges@))) is None,
        },
{
    let ghost legs = legs_of(result.edges@);
    let ghost all = graph.edges@;
    let mut edges: Vec<u32> = Vec::new();
    let mut nodes: Vec<u32> = Vec::new();
    let mut l: usize = 0;
    proof {
        assert(joined(legs.subrange(0, 0)) =~= Seq::<u32>::empty());
    }
    while l < result.edges.0.len()
        invariant
            l <= legs.len(),
            legs == legs_of(result.edges@),
            legs.len() == result.edges@.len(),
            all == graph.edges@,
            unpacked_path(all, joined(legs.subrange(0, l as int))) == Some(edges@),
            starts_of(all, edges@, nodes@),
        decreases legs.len() - l,
    {
        let leg: &Vec<u32> = &result.edges.0[l].0;
        let ghost done = joined(legs.subrange(0, l as int));
        let mut k: usize = 0;
        proof {
            assert(legs[l as int] == leg@);
            assert(done + leg@.subrange(0, 0) =~= done);
        }
        while k < leg.len()
            invariant
                l < legs.len(),
                legs == legs_of(result.edges@),
                legs[l as int] == leg@,
                done == joined(legs.subrange(0, l as int)),
                all == graph.edges@,
                k <= leg@.len(),
                unpacked_path(all, done + leg@.subrange(0, k as int)) == Some(edges@),
                starts_of(all, edges@, nodes@),
            decreases leg@.len() - k,
        {
            let ghost so_far = done + leg@.subrange(0, k as int);
            let ghost next = done + leg@.subrange(0, k as int + 1);
            proof {
                assert(next.drop_last() =~= so_far);
                assert(next.last() == leg@[k as int]);
            }
            match graph.unpack_edge(leg[k]) {
                None => {
                    proof {
                        assert(unpacked_path(all, next) is None);
                        lemma_joined_prefix(legs, l as int, k as int + 1);
                        assert(next == joined(legs.subrange(0, l as int)) + legs[l as int].subrange(
                            0,
                            k as int + 1,
                        ));
                        lemma_unpacked_prefix(all, next, joined(legs));
                        assert(unpacked_path(all, joined(legs)) is None);
                    }
                    return None;
                },
                Some(plain) => {
                    proof {
                        super::lemma_unpacked_is_chain(all, leg@[k as int], all.len());
                    }
                    let ghost before = edges@;
                    let mut j: usize = 0;
                    proof {
                        assert(before + plain@.subrange(0, 0) =~= before);
                    }
                    while j < plain.len()
                        invariant
                            all == graph.edges@,
                            j <= plain@.len(),
                            edges@ == before + plain@.subrange(0, j as int),
                            forall|i: int|
                                0 <= i < plain@.len() ==> (#[trigger] plain@[i]) < all.len(),
                            starts_of(all, edges@, nodes@),
                        decreases plain@.len() - j,
                    {
                        let e: u32 = plain[j];
                        let ghost edges_before = edges@;
                        let ghost nodes_before = nodes@;
                        nodes.push(graph.edges.0[e as usize].source_id);
                        edges.push(e);
                        proof {
                            assert(edges@ =~= before + plain@.subrange(0, j as int + 1));
                            assert forall|i: int| 0 <= i < edges@.len() implies (#[trigger] edges@[i])
                                < all.len() && nodes@[i] == all[edges@[i] as int].source_id by {
                                if i < edges_before.len() {
                                    assert(edges@[i] == edges_before[i]);
                                    assert(nodes@[i] == nodes_before[i]);
                                }
                            }
                        }
                        j += 1;
                    }
                    proof {
                        assert(plain@.subrange(0, plain@.len() as int) =~= plain@);
                    }
                },
            }
            k += 1;
        }
        proof {
            assert(leg@.subrange(0, leg@.len() as int) =~= leg@);
            assert(legs.subrange(0, l as int + 1).drop_last() =~= legs.subrange(0, l as int));
            assert(legs.subrange(0, l as int + 1).last() == leg@);
        }
        l += 1;
    }
    proof {
        assert(legs.subrange(0, legs.len() as int) =~= legs);
    }
    let ghost starts = nodes@;
    nodes.push(last);
    proof {
        assert(nodes@.drop_last() =~= starts);
    }
    Some((nodes, edges))
}

/// A route whose beginning cannot be unpacked cannot be unpacked.
pub proof fn lemma_unpacked_prefix(edges: Seq<Edge>, prefix: Seq<u32>, path: Seq<u32>)
    requires
        prefix.len() <= path.len(),
        path.subrange(0, prefix.len() as int) == prefix,
        unpacked_path(edges, prefix) is None,
    ensures
        unpacked_path(edges, path) is None,
    decreases path.len(),
{
    if prefix.len() < path.len() {
        assert(path.drop_last().subrange(0, prefix.len() as int) =~= prefix);
        lemma_unpacked_prefix(edges, prefix, path.drop_last());
    } else {
        assert(path =~= prefix);
    }
}

/// The first legs of a route, and a beginning of the next, are a beginning
/// of the route.
pub proof fn lemma_joined_prefix(legs: Seq<Seq<u32>>, l: int, k: int)
    requires
        0 <= l < legs.len(),
        0 <= k <= legs[l].len(),
    ensures
        (joined(legs.subrange(0, l)) + legs[l].subrange(0, k)).len() <= joined(legs).len(),
        joined(legs).subrange(0, (joined(legs.subrange(0, l)) + legs[l].subrange(0, k)).len() as int)
            == joined(legs.subrange(0, l)) + legs[l].subrange(0, k),
    decreases legs.len(),
{
    let front = joined(legs.subrange(0, l)) + legs[l].subrange(0, k);
    if l == legs.len() - 1 {
        assert(legs.drop_last() =~= legs.subrange(0, l));
        assert(joined(legs).subrange(0, front.len() as int) =~= front);
    } else {
        let rest = legs.drop_last();
        assert(rest.subrange(0, l) =~= legs.subrange(0, l));
        assert(rest[l] == legs[l]);
        lemma_joined_prefix(rest, l, k);
        assert(joined(legs).subrange(0, front.len() as int) =~= joined(rest).subrange(
            0,
            front.len() as int,
        ));
    }
}

} // verus!
