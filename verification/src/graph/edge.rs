//! Edges, and the packed adjacency arrays that the search walks.

use crate::utils::MyVec;
use vstd::prelude::*;
use vstd::slice::slice_subrange;

verus! {

/// One cost value, kept as the 64 bits in which it is stored. The graph
/// stores and hands on costs; it never calculates with them.
pub type Cost = u64;

/// A directed edge with one cost per dimension. An edge that stands for two
/// consecutive edges, a shortcut, names them in `replaced_edges`.
#[derive(Debug)]
pub struct Edge {
    pub id: u32,
    pub source_id: u32,
    pub target_id: u32,
    pub edge_costs: Vec<Cost>,
    pub replaced_edges: Option<(u32, u32)>,
}

impl Edge {
    pub fn new(
        id: u32,
        source_id: u32,
        target_id: u32,
        edge_costs: Vec<Cost>,
        replaced_edges: Option<(u32, u32)>,
    ) -> (edge: Edge)
        ensures
            edge.id == id,
            edge.source_id == source_id,
            edge.target_id == target_id,
            edge.edge_costs == edge_costs,
            edge.replaced_edges == replaced_edges,
    {
        Edge { id, source_id, target_id, edge_costs, replaced_edges }
    }
}

/// An edge as seen from one of its ends: the edge, the node at its other
/// end, and its costs.
#[derive(Debug)]
pub struct HalfEdge<'a> {
    pub edge_id: u32,
    pub target_id: u32,
    pub edge_costs: &'a [Cost],
}

impl<'a> HalfEdge<'a> {
    pub fn new(edge_id: u32, target_id: u32, edge_costs: &'a [Cost]) -> (half: HalfEdge<'a>)
        ensures
            half.edge_id == edge_id,
            half.target_id == target_id,
            half.edge_costs@ == edge_costs@,
    {
        HalfEdge { edge_id, target_id, edge_costs }
    }
}

/// Whether edges are seen from their target (`In`) or their source (`Out`).
#[derive(Debug, PartialEq, Eq, Copy, Clone)]
pub enum EdgeDirection {
    In,
    Out,
}

/// The node under which a direction files an edge.
pub open spec fn near_end(e: Edge, dir: EdgeDirection) -> u32 {
    match dir {
        EdgeDirection::In => e.target_id,
        EdgeDirection::Out => e.source_id,
    }
}

/// The node at the other end.
pub open spec fn far_end(e: Edge, dir: EdgeDirection) -> u32 {
    match dir {
        EdgeDirection::In => e.source_id,
        EdgeDirection::Out => e.target_id,
    }
}

/// How many of `edges` are filed under a node below `bound`.
pub open spec fn filed_below(edges: Seq<Edge>, dir: EdgeDirection, bound: int) -> nat
    decreases edges.len(),
{
    if edges.len() == 0 {
        0
    } else {
        filed_below(edges.drop_last(), dir, bound) + if near_end(edges.last(), dir) < bound {
            1nat
        } else {
            0nat
        }
    }
}

/// How many of `edges` are filed under node `v`.
pub open spec fn filed_at(edges: Seq<Edge>, dir: EdgeDirection, v: int) -> nat
    decreases edges.len(),
{
    if edges.len() == 0 {
        0
    } else {
        filed_at(edges.drop_last(), dir, v) + if near_end(edges.last(), dir) == v {
            1nat
        } else {
            0nat
        }
    }
}

/// Counting below a bound goes node by node, and never beyond the number of
/// edges.
pub proof fn lemma_filed_step(edges: Seq<Edge>, dir: EdgeDirection, v: int)
    ensures
        filed_below(edges, dir, v + 1) == filed_below(edges, dir, v) + filed_at(edges, dir, v),
        filed_below(edges, dir, v) <= edges.len(),
        filed_at(edges, dir, v) <= edges.len(),
        v <= 0 ==> filed_below(edges, dir, v) == 0,
    decreases edges.len(),
{
    if edges.len() > 0 {
        lemma_filed_step(edges.drop_last(), dir, v);
    }
}

/// Where every edge is filed under a node below `bound`, all are counted.
pub proof fn lemma_filed_all(edges: Seq<Edge>, dir: EdgeDirection, bound: int)
    requires
        forall|i: int| 0 <= i < edges.len() ==> near_end(#[trigger] edges[i], dir) < bound,
    ensures
        filed_below(edges, dir, bound) == edges.len(),
    decreases edges.len(),
{
    if edges.len() > 0 {
        let rest = edges.drop_last();
        assert forall|i: int| 0 <= i < rest.len() implies near_end(#[trigger] rest[i], dir) < bound by {
            assert(rest[i] == edges[i]);
        }
        lemma_filed_all(rest, dir, bound);
        assert(edges.last() == edges[edges.len() - 1]);
    }
}

/// Counts rise with the bound.
pub proof fn lemma_filed_monotone(edges: Seq<Edge>, dir: EdgeDirection, a: int, b: int)
    requires
        a <= b,
    ensures
        filed_below(edges, dir, a) <= filed_below(edges, dir, b),
    decreases edges.len(),
{
    if edges.len() > 0 {
        lemma_filed_monotone(edges.drop_last(), dir, a, b);
    }
}

/// One more edge raises the count of its node by one and no other.
pub proof fn lemma_filed_push(edges: Seq<Edge>, e: Edge, dir: EdgeDirection, v: int)
    ensures
        filed_at(edges.push(e), dir, v) == filed_at(edges, dir, v) + if near_end(e, dir) == v {
            1nat
        } else {
            0nat
        },
{
    assert(edges.push(e).drop_last() =~= edges);
    assert(edges.push(e).last() == e);
}

/// `edges` are in the order of the nodes they are filed under.
pub open spec fn filed_in_order(edges: Seq<Edge>, dir: EdgeDirection) -> bool {
    forall|i: int, j: int|
        0 <= i <= j < edges.len() ==> near_end(#[trigger] edges[i], dir) <= near_end(
            #[trigger] edges[j],
            dir,
        )
}

/// Where edges are in the order of their nodes, the edges filed under a
/// node below `bound` are the first so many.
pub proof fn lemma_filed_prefix(edges: Seq<Edge>, dir: EdgeDirection, bound: int, s: int)
    requires
        filed_in_order(edges, dir),
        0 <= s < edges.len(),
    ensures
        near_end(edges[s], dir) < bound <==> s < filed_below(edges, dir, bound),
    decreases edges.len(),
{
    let n = edges.len() as int;
    let rest = edges.drop_last();
    let last = edges.last();
    assert(last == edges[n - 1]);
    assert(filed_in_order(rest, dir)) by {
        assert forall|i: int, j: int| 0 <= i <= j < rest.len() implies near_end(
            #[trigger] rest[i],
            dir,
        ) <= near_end(#[trigger] rest[j], dir) by {
            assert(rest[i] == edges[i] && rest[j] == edges[j]);
        }
    }
    lemma_filed_step(rest, dir, bound);
    if near_end(last, dir) < bound {
        assert forall|i: int| 0 <= i < rest.len() implies near_end(#[trigger] rest[i], dir) < bound by {
            assert(rest[i] == edges[i]);
            assert(near_end(edges[i], dir) <= near_end(edges[n - 1], dir));
        }
        lemma_filed_all(rest, dir, bound);
        assert(near_end(edges[s], dir) <= near_end(edges[n - 1], dir));
    } else {
        if s < n - 1 {
            lemma_filed_prefix(rest, dir, bound, s);
            assert(rest[s] == edges[s]);
        }
    }
}

/// The half edges of all nodes in one direction, packed into parallel
/// arrays: slot `s` holds an edge, the node at its far end, and its costs at
/// `s * dim ..`. The slots of node `v` are `offset[v] .. offset[v + 1]`.
#[derive(Debug)]
pub struct GraphEdges {
    offset: MyVec<u32>,
    edge_id: MyVec<u32>,
    target_id: MyVec<u32>,
    costs: MyVec<Cost>,
}

impl GraphEdges {
    /// Where the slots of each node start; one entry more than nodes.
    pub closed spec fn offsets(&self) -> Seq<u32> {
        self.offset@
    }

    /// The edge in each slot.
    pub closed spec fn edge_ids(&self) -> Seq<u32> {
        self.edge_id@
    }

    /// The far end of the edge in each slot.
    pub closed spec fn target_ids(&self) -> Seq<u32> {
        self.target_id@
    }

    /// The costs of all slots, one after the other.
    pub closed spec fn cost_words(&self) -> Seq<Cost> {
        self.costs@
    }

    /// The costs of slot `s`.
    pub open spec fn costs_of(&self, s: int, dim: nat) -> Seq<Cost> {
        self.cost_words().subrange(s * dim, (s + 1) * dim)
    }

    /// The arrays fit together: offsets rise from slot to slot up to the
    /// number of slots, and every slot has a far end and `dim` costs.
    pub open spec fn wf(&self, dim: nat) -> bool {
        &&& self.offsets().len() >= 1
        &&& forall|i: int, j: int|
            0 <= i <= j < self.offsets().len() ==> self.offsets()[i] <= self.offsets()[j]
        &&& self.offsets().last() == self.edge_ids().len()
        &&& self.target_ids().len() == self.edge_ids().len()
        &&& self.cost_words().len() == self.edge_ids().len() * dim
    }

    /// These arrays hold `edges` slot by slot in the order given, filed in
    /// direction `dir` under `node_count` nodes.
    pub open spec fn packs(&self, edges: Seq<Edge>, node_count: int, dim: nat, dir: EdgeDirection) -> bool {
        &&& self.wf(dim)
        &&& self.node_count() == node_count
        &&& self.edge_ids().len() == edges.len()
        &&& forall|v: int|
            0 <= v <= node_count ==> #[trigger] self.offsets()[v] == filed_below(edges, dir, v)
        &&& forall|s: int| 0 <= s < edges.len() ==> #[trigger] self.edge_ids()[s] == edges[s].id
        &&& forall|s: int|
            0 <= s < edges.len() ==> #[trigger] self.target_ids()[s] == far_end(edges[s], dir)
        &&& forall|s: int|
            0 <= s < edges.len() ==> #[trigger] self.costs_of(s, dim) == edges[s].edge_costs@
    }

    /// Packs the half edges of `edges` in direction `dir`, in the order
    /// given. For the slots of a node to be its half edges, the edges must
    /// come in the order of the nodes they are filed under.
    pub fn new(node_count: usize, edges: &[Edge], dim: usize, dir: EdgeDirection) -> (me: Self)
        requires
            node_count < usize::MAX,
            edges@.len() <= u32::MAX,
            edges@.len() * dim <= usize::MAX,
            forall|i: int| 0 <= i < edges@.len() ==> near_end(#[trigger] edges@[i], dir) < node_count,
            forall|i: int| 0 <= i < edges@.len() ==> (#[trigger] edges@[i]).edge_costs@.len() == dim,
        ensures
            me.packs(edges@, node_count as int, dim as nat, dir),
    {
        let edge_count: usize = edges.len();
        let mut offset: Vec<u32> = Vec::new();
        let mut v: usize = 0;
        while v < node_count + 1
            invariant
                v <= node_count + 1,
                node_count < usize::MAX,
                offset@.len() == v,
                forall|j: int| 0 <= j < v ==> offset@[j] == 0,
            decreases node_count + 1 - v,
        {
            offset.push(0);
            v += 1;
        }
        let mut me = Self {
            offset: MyVec(offset),
            edge_id: MyVec(Vec::with_capacity(edge_count)),
            target_id: MyVec(Vec::with_capacity(edge_count)),
            costs: MyVec(Vec::new()),
        };
        let mut i: usize = 0;
        while i < edge_count
            invariant
                i <= edge_count,
                edge_count == edges@.len(),
                edges@.len() <= u32::MAX,
                edges@.len() * dim <= usize::MAX,
                forall|j: int| 0 <= j < edges@.len() ==> near_end(#[trigger] edges@[j], dir) < node_count,
                forall|j: int| 0 <= j < edges@.len() ==> (#[trigger] edges@[j]).edge_costs@.len() == dim,
                me.offset@.len() == node_count + 1,
                me.offset@[0] == 0,
                forall|w: int|
                    0 <= w < node_count ==> #[trigger] me.offset@[w + 1] == filed_at(
                        edges@.subrange(0, i as int),
                        dir,
                        w,
                    ),
                me.edge_id@.len() == i,
                me.target_id@.len() == i,
                me.costs@.len() == i * dim,
                forall|s: int| 0 <= s < i ==> #[trigger] me.edge_id@[s] == edges@[s].id,
                forall|s: int| 0 <= s < i ==> #[trigger] me.target_id@[s] == far_end(edges@[s], dir),
                forall|s: int|
                    0 <= s < i ==> #[trigger] me.costs@.subrange(s * dim, (s + 1) * dim)
                        == edges@[s].edge_costs@,
            decreases edge_count - i,
        {
            let e: &Edge = &edges[i];
            let ghost seen = edges@.subrange(0, i as int);
            let ghost before = me;
            proof {
                assert(edges@.subrange(0, i as int + 1) =~= seen.push(*e));
                assert forall|w: int| 0 <= w < node_count implies filed_at(seen.push(*e), dir, w)
                    == filed_at(seen, dir, w) + if near_end(*e, dir) == w {
                    1nat
                } else {
                    0nat
                } by {
                    lemma_filed_push(seen, *e, dir, w);
                }
                lemma_filed_step(seen, dir, near_end(*e, dir) as int);
                lemma_slot_fits(i as int, edge_count as int, dim as int);
            }
            match dir {
                EdgeDirection::In => me.add_edge_in(e),
                EdgeDirection::Out => me.add_edge_out(e),
            }
            proof {
                assert forall|s: int| 0 <= s < i + 1 implies #[trigger] me.costs@.subrange(
                    s * dim,
                    (s + 1) * dim,
                ) == edges@[s].edge_costs@ by {
                    lemma_slot_fits(s, i as int + 1, dim as int);
                    lemma_slot_fits(i as int, i as int + 1, dim as int);
                    assert(before.costs@.len() == i * dim);
                    assert(me.costs@.len() == i * dim + dim);
                    if s < i {
                        lemma_slot_fits(s, i as int, dim as int);
                        assert(before.costs@.subrange(s * dim, (s + 1) * dim) == edges@[s].edge_costs@);
                        assert(me.costs@.subrange(s * dim, (s + 1) * dim) =~= before.costs@.subrange(
                            s * dim,
                            (s + 1) * dim,
                        ));
                    } else {
                        assert(me.costs@.subrange(s * dim, (s + 1) * dim) =~= e.edge_costs@);
                    }
                }
            }
            i += 1;
        }
        proof {
            assert(edges@.subrange(0, edge_count as int) =~= edges@);
            lemma_filed_step(edges@, dir, 0);
            assert forall|w: int| 1 <= w <= node_count implies #[trigger] me.offset@[w] == filed_at(
                edges@,
                dir,
                w - 1,
            ) by {
                assert(me.offset@[(w - 1) + 1] == filed_at(edges@, dir, w - 1));
            }
        }
        let mut index: usize = 1;
        while index < me.offset.0.len()
            invariant
                1 <= index <= node_count + 1,
                me.offset@.len() == node_count + 1,
                edges@.len() <= u32::MAX,
                forall|w: int| 0 <= w < index ==> #[trigger] me.offset@[w] == filed_below(edges@, dir, w),
                forall|w: int|
                    index <= w <= node_count ==> #[trigger] me.offset@[w] == filed_at(edges@, dir, w - 1),
                me.edge_id@.len() == edge_count,
                me.target_id@.len() == edge_count,
                me.costs@.len() == edge_count * dim,
                edge_count == edges@.len(),
                forall|s: int| 0 <= s < edge_count ==> #[trigger] me.edge_id@[s] == edges@[s].id,
                forall|s: int|
                    0 <= s < edge_count ==> #[trigger] me.target_id@[s] == far_end(edges@[s], dir),
                forall|s: int|
                    0 <= s < edge_count ==> #[trigger] me.costs@.subrange(s * dim, (s + 1) * dim)
                        == edges@[s].edge_costs@,
            decreases node_count + 1 - index,
        {
            proof {
                lemma_filed_step(edges@, dir, index as int - 1);
                lemma_filed_step(edges@, dir, index as int);
            }
            let below: u32 = me.offset.0[index - 1];
            let here: u32 = me.offset.0[index];
            me.offset.0[index] = here + below;
            index += 1;
        }
        proof {
            lemma_filed_all(edges@, dir, node_count as int);
            assert forall|a: int, b: int| 0 <= a <= b < me.offsets().len() implies me.offsets()[a]
                <= me.offsets()[b] by {
                lemma_filed_monotone(edges@, dir, a, b);
            }
        }
        me
    }

    /// Files `e` under its target.
    fn add_edge_in(&mut self, e: &Edge)
        requires
            e.target_id + 1 < old(self).offset@.len(),
            old(self).offset@[e.target_id + 1] < u32::MAX,
        ensures
            final(self).offset@ == old(self).offset@.update(
                e.target_id + 1,
                (old(self).offset@[e.target_id + 1] + 1) as u32,
            ),
            final(self).edge_id@ == old(self).edge_id@.push(e.id),
            final(self).target_id@ == old(self).target_id@.push(e.source_id),
            final(self).costs@ == old(self).costs@ + e.edge_costs@,
    {
        let bound: usize = self.offset.0.len();
        assert(e.target_id + 1 < bound);
        let slot: usize = e.target_id as usize + 1;
        let count: u32 = self.offset.0[slot];
        self.offset.0[slot] = count + 1;
        self.edge_id.0.push(e.id);
        self.target_id.0.push(e.source_id);
        self.costs.0.extend_from_slice(e.edge_costs.as_slice());
        assert(self.costs@ =~= old(self).costs@ + e.edge_costs@);
    }

    /// Files `e` under its source.
    fn add_edge_out(&mut self, e: &Edge)
        requires
            e.source_id + 1 < old(self).offset@.len(),
            old(self).offset@[e.source_id + 1] < u32::MAX,
        ensures
            final(self).offset@ == old(self).offset@.update(
                e.source_id + 1,
                (old(self).offset@[e.source_id + 1] + 1) as u32,
            ),
            final(self).edge_id@ == old(self).edge_id@.push(e.id),
            final(self).target_id@ == old(self).target_id@.push(e.target_id),
            final(self).costs@ == old(self).costs@ + e.edge_costs@,
    {
        let bound: usize = self.offset.0.len();
        assert(e.source_id + 1 < bound);
        let slot: usize = e.source_id as usize + 1;
        let count: u32 = self.offset.0[slot];
        self.offset.0[slot] = count + 1;
        self.edge_id.0.push(e.id);
        self.target_id.0.push(e.target_id);
        self.costs.0.extend_from_slice(e.edge_costs.as_slice());
        assert(self.costs@ =~= old(self).costs@ + e.edge_costs@);
    }

    /// Where the edges packed are in the order of their nodes, the slots of
    /// a node hold exactly the edges filed under it.
    pub proof fn lemma_slots_of_node(
        &self,
        edges: Seq<Edge>,
        node_count: int,
        dim: nat,
        dir: EdgeDirection,
        s: int,
        v: int,
    )
        requires
            self.packs(edges, node_count, dim, dir),
            filed_in_order(edges, dir),
            0 <= s < edges.len(),
            0 <= v < node_count,
        ensures
            self.offsets()[v] <= s < self.offsets()[v + 1] <==> near_end(edges[s], dir) == v,
    {
        lemma_filed_prefix(edges, dir, v, s);
        lemma_filed_prefix(edges, dir, v + 1, s);
    }

    /// Slot `s` is one of the slots of node `v`.
    pub open spec fn holds_slot(&self, v: int, s: int) -> bool {
        &&& 0 <= v < self.node_count()
        &&& self.offsets()[v] <= s < self.offsets()[v + 1]
    }

    /// Number of nodes.
    pub open spec fn node_count(&self) -> int {
        self.offsets().len() - 1
    }

    /// The slots of a node, from its first to behind its last.
    pub fn get_edges_for_node(&self, node_id: u32, dim: usize) -> (iter: HalfEdgeIter<'_>)
        requires
            self.wf(dim as nat),
            node_id < self.node_count(),
        ensures
            iter.wf(),
            iter.edges() == self,
            iter.dimension() == dim,
            iter.position() == self.offsets()[node_id as int],
            iter.end() == self.offsets()[node_id + 1],
    {
        let bound: usize = self.offset.0.len();
        assert(node_id + 1 < bound);
        let cur: usize = self.offset.0[node_id as usize] as usize;
        let stop: usize = self.offset.0[node_id as usize + 1] as usize;
        assert(self.offset@[node_id + 1] <= self.offset@[self.offset@.len() - 1]);
        HalfEdgeIter { graph_edges: self, dim, cur, stop }
    }
}

/// Walks the slots of one node.
pub struct HalfEdgeIter<'a> {
    graph_edges: &'a GraphEdges,
    dim: usize,
    cur: usize,
    stop: usize,
}

impl<'a> HalfEdgeIter<'a> {
    /// The arrays walked.
    pub closed spec fn edges(&self) -> &'a GraphEdges {
        self.graph_edges
    }

    /// Number of costs per slot.
    pub closed spec fn dimension(&self) -> usize {
        self.dim
    }

    /// The slot handed out next.
    pub closed spec fn position(&self) -> int {
        self.cur as int
    }

    /// The slot at which the walk ends.
    pub closed spec fn end(&self) -> int {
        self.stop as int
    }

    /// The walk stays within the arrays.
    pub open spec fn wf(&self) -> bool {
        &&& self.edges().wf(self.dimension() as nat)
        &&& self.end() <= self.edges().edge_ids().len()
    }

    /// Hands out the next slot of the node, if one is left.
    pub fn next(&mut self) -> (item: Option<HalfEdge<'a>>)
        requires
            old(self).wf(),
        ensures
            final(self).wf(),
            final(self).edges() == old(self).edges(),
            final(self).dimension() == old(self).dimension(),
            final(self).end() == old(self).end(),
            match item {
                None => old(self).position() >= old(self).end() && final(self).position() == old(
                    self,
                ).position(),
                Some(half) => {
                    let s = old(self).position();
                    &&& s < old(self).end()
                    &&& final(self).position() == s + 1
                    &&& half.edge_id == old(self).edges().edge_ids()[s]
                    &&& half.target_id == old(self).edges().target_ids()[s]
                    &&& half.edge_costs@ == old(self).edges().costs_of(s, old(self).dimension() as nat)
                },
            },
    {
        if self.cur >= self.stop {
            None
        } else {
            let ge: &'a GraphEdges = self.graph_edges;
            let count: usize = ge.edge_id.0.len();
            let total: usize = ge.costs.0.len();
            proof {
                lemma_slot_fits(self.cur as int, count as int, self.dim as int);
                assert(total == count * self.dim);
                assert((self.cur + 1) * self.dim <= usize::MAX);
            }
            let edge_id: u32 = ge.edge_id.0[self.cur];
            let target_id: u32 = ge.target_id.0[self.cur];
            let costs: &'a [Cost] = slice_subrange(
                ge.costs.0.as_slice(),
                self.cur * self.dim,
                (self.cur + 1) * self.dim,
            );
            let halfedge = HalfEdge::new(edge_id, target_id, costs);
            self.cur += 1;
            Some(halfedge)
        }
    }
}

/// The costs of a slot lie within the costs of all slots.
pub proof fn lemma_slot_fits(s: int, count: int, dim: int)
    requires
        0 <= s < count,
        0 <= dim,
    ensures
        0 <= s * dim <= (s + 1) * dim <= count * dim,
        (s + 1) * dim == s * dim + dim,
{
    assert(0 <= s * dim <= (s + 1) * dim <= count * dim && (s + 1) * dim == s * dim + dim)
        by (nonlinear_arith)
        requires
            0 <= s < count,
            0 <= dim,
    ;
}

} // verus!
