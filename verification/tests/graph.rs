use pref_polys::graph::{Edge, EdgeDirection, Graph, GraphEdges, Node};

fn bits(costs: &[f64]) -> Vec<u64> {
    costs.iter().map(|c| c.to_bits()).collect()
}

/// Four nodes; ids are given out of order and are renamed by level.
/// Levels: node 10 -> 2, node 11 -> 0, node 12 -> 1, node 13 -> 3.
/// After ranking: 11 -> 0, 12 -> 1, 10 -> 2, 13 -> 3.
fn sample_graph() -> Graph {
    let nodes = vec![
        Node::new(10, 2),
        Node::new(11, 0),
        Node::new(12, 1),
        Node::new(13, 3),
    ];
    let edges = vec![
        Edge::new(0, 11, 12, bits(&[1., 2.]), None),
        Edge::new(1, 12, 10, bits(&[3., 4.]), None),
        Edge::new(2, 11, 10, bits(&[4., 6.]), Some((0, 1))),
        Edge::new(3, 10, 13, bits(&[5., 5.]), None),
        Edge::new(4, 11, 13, bits(&[9., 11.]), Some((2, 3))),
        Edge::new(5, 13, 11, bits(&[7., 7.]), None),
    ];
    Graph::new(nodes, edges)
}

fn half_edges(graph: &Graph, node: u32, dir: EdgeDirection) -> Vec<(u32, u32, Vec<u64>)> {
    let mut iter = graph.edges_of(node, dir);
    let mut found = Vec::new();
    while let Some(half) = iter.next() {
        found.push((half.edge_id, half.target_id, half.edge_costs.to_vec()));
    }
    found
}

#[test]
fn nodes_are_ranked_by_level() {
    let graph = sample_graph();
    let nodes: Vec<(u32, u32)> = graph.nodes.0.iter().map(|n| (n.id, n.ch_level)).collect();
    assert_eq!(nodes, vec![(0, 0), (1, 1), (2, 2), (3, 3)]);
    assert_eq!(graph.dim, 2);
}

#[test]
fn edges_are_relabelled_and_sorted_by_id() {
    let graph = sample_graph();
    let ends: Vec<(u32, u32, u32)> = graph
        .edges
        .0
        .iter()
        .map(|e| (e.id, e.source_id, e.target_id))
        .collect();
    assert_eq!(
        ends,
        vec![(0, 0, 1), (1, 1, 2), (2, 0, 2), (3, 2, 3), (4, 0, 3), (5, 3, 0)]
    );
    assert_eq!(graph.edges.0[2].replaced_edges, Some((0, 1)));
    assert_eq!(graph.edges.0[4].edge_costs, bits(&[9., 11.]));
}

#[test]
fn outgoing_half_edges_come_highest_target_first() {
    let graph = sample_graph();
    assert_eq!(
        half_edges(&graph, 0, EdgeDirection::Out),
        vec![
            (4, 3, bits(&[9., 11.])),
            (2, 2, bits(&[4., 6.])),
            (0, 1, bits(&[1., 2.])),
        ]
    );
    assert_eq!(
        half_edges(&graph, 1, EdgeDirection::Out),
        vec![(1, 2, bits(&[3., 4.]))]
    );
    assert_eq!(
        half_edges(&graph, 3, EdgeDirection::Out),
        vec![(5, 0, bits(&[7., 7.]))]
    );
}

#[test]
fn incoming_half_edges_come_highest_source_first() {
    let graph = sample_graph();
    assert_eq!(
        half_edges(&graph, 3, EdgeDirection::In),
        vec![(3, 2, bits(&[5., 5.])), (4, 0, bits(&[9., 11.]))]
    );
    assert_eq!(
        half_edges(&graph, 2, EdgeDirection::In),
        vec![(1, 1, bits(&[3., 4.])), (2, 0, bits(&[4., 6.]))]
    );
    assert_eq!(half_edges(&graph, 1, EdgeDirection::In), vec![(0, 0, bits(&[1., 2.]))]);
}

#[test]
fn test_graph_structure() {
    let graph = sample_graph();

    for n in &graph.nodes.0 {
        let mut out = graph.edges_of(n.id, EdgeDirection::Out);
        while let Some(e) = out.next() {
            let edge = &graph.edges.0[e.edge_id as usize];
            assert_eq!(n.id, edge.source_id);
            assert_eq!(edge.target_id, e.target_id);
            assert_eq!(e.edge_costs, &edge.edge_costs[..]);
        }

        let mut inc = graph.edges_of(n.id, EdgeDirection::In);
        while let Some(e) = inc.next() {
            let edge = &graph.edges.0[e.edge_id as usize];
            assert_eq!(n.id, edge.target_id);
            assert_eq!(edge.source_id, e.target_id);
            assert_eq!(e.edge_costs, &edge.edge_costs[..]);
        }
    }
}

#[test]
fn unpacking_a_shortcut_joins_its_parts() {
    let graph = sample_graph();
    assert_eq!(graph.unpack_edge(0), Some(vec![0]));
    assert_eq!(graph.unpack_edge(2), Some(vec![0, 1]));
    assert_eq!(graph.unpack_edge(4), Some(vec![0, 1, 3]));
    let first = graph.unpack_edge(2).unwrap();
    let second = graph.unpack_edge(3).unwrap();
    let mut joined = first.clone();
    joined.extend(second.iter());
    assert_eq!(graph.unpack_edge(4), Some(joined.clone()));
    // the nodes along the unpacked edges are contiguous
    for pair in joined.windows(2) {
        assert_eq!(
            graph.edges.0[pair[0] as usize].target_id,
            graph.edges.0[pair[1] as usize].source_id
        );
    }
    assert_eq!(graph.edges.0[joined[0] as usize].source_id, graph.edges.0[4].source_id);
    assert_eq!(
        graph.edges.0[*joined.last().unwrap() as usize].target_id,
        graph.edges.0[4].target_id
    );
}

#[test]
fn unpacking_refuses_what_does_not_fit() {
    let nodes = vec![Node::new(0, 0), Node::new(1, 1), Node::new(2, 2)];
    let edges = vec![
        Edge::new(0, 0, 1, bits(&[1.]), None),
        Edge::new(1, 1, 2, bits(&[1.]), None),
        // parts in the wrong order: they do not meet
        Edge::new(2, 0, 2, bits(&[2.]), Some((1, 0))),
        // stands for itself
        Edge::new(3, 0, 1, bits(&[2.]), Some((3, 0))),
        // names an edge that does not exist
        Edge::new(4, 0, 2, bits(&[2.]), Some((0, 9))),
        // ends elsewhere than its second part
        Edge::new(5, 0, 1, bits(&[2.]), Some((0, 1))),
    ];
    let graph = Graph::new(nodes, edges);
    assert_eq!(graph.unpack_edge(2), None);
    assert_eq!(graph.unpack_edge(3), None);
    assert_eq!(graph.unpack_edge(4), None);
    assert_eq!(graph.unpack_edge(5), None);
    assert_eq!(graph.unpack_edge(6), None);
    assert_eq!(graph.unpack_within(0, 0), Some(vec![0]));
}

#[test]
fn packed_edges_count_per_node() {
    let edges = vec![
        Edge::new(7, 0, 2, bits(&[1.]), None),
        Edge::new(8, 0, 1, bits(&[2.]), None),
        Edge::new(9, 2, 1, bits(&[3.]), None),
    ];
    let packed = GraphEdges::new(3, &edges, 1, EdgeDirection::Out);
    let mut first = packed.get_edges_for_node(0, 1);
    let a = first.next().unwrap();
    assert_eq!((a.edge_id, a.target_id, a.edge_costs.to_vec()), (7, 2, bits(&[1.])));
    let b = first.next().unwrap();
    assert_eq!((b.edge_id, b.target_id), (8, 1));
    assert!(first.next().is_none());
    assert!(packed.get_edges_for_node(1, 1).next().is_none());
    let c = packed.get_edges_for_node(2, 1).next().unwrap();
    assert_eq!((c.edge_id, c.target_id, c.edge_costs.to_vec()), (9, 1, bits(&[3.])));
}

#[test]
fn empty_graph_has_no_dimension() {
    let graph = Graph::new(vec![], vec![]);
    assert_eq!(graph.dim, 0);
    assert!(graph.nodes.0.is_empty());
    assert!(graph.edges.0.is_empty());
}
