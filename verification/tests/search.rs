use pref_polys::graph::dijkstra::{find_shortest_path, Dijkstra, HalfPath};
use pref_polys::graph::{Edge, EdgeDirection, Graph, Node, Path};
use pref_polys::utils::MyVec;

fn ch_graph() -> Graph {
    // 0 --e0--> 1 --e1--> 2 --e3--> 3, shortcut e2 = (e0, e1), shortcut e4 = (e2, e3)
    let nodes = vec![
        Node::new(0, 0),
        Node::new(1, 1),
        Node::new(2, 2),
        Node::new(3, 3),
    ];
    let edges = vec![
        Edge::new(0, 0, 1, vec![1], None),
        Edge::new(1, 1, 2, vec![1], None),
        Edge::new(2, 0, 2, vec![2], Some((0, 1))),
        Edge::new(3, 2, 3, vec![1], None),
        Edge::new(4, 0, 3, vec![3], Some((2, 3))),
        Edge::new(5, 3, 1, vec![1], None),
    ];
    Graph::new(nodes, edges)
}

#[test]
fn fresh_search_has_touched_nothing() {
    let graph = ch_graph();
    let dijkstra = Dijkstra::new(&graph);
    assert!(dijkstra.touched_nodes().is_empty());
    for node in 0..4 {
        assert_eq!(dijkstra.previous_edge(node, EdgeDirection::Out), None);
        assert_eq!(dijkstra.previous_edge(node, EdgeDirection::In), None);
    }
    assert!(!dijkstra.is_done());
}

#[test]
fn prepare_clears_what_was_reached() {
    let graph = ch_graph();
    let mut dijkstra = Dijkstra::new(&graph);
    dijkstra.prepare(0, 3);
    assert_eq!(dijkstra.touched_nodes(), &vec![0, 3]);
    dijkstra.reach(1, EdgeDirection::Out, 0);
    dijkstra.reach(2, EdgeDirection::In, 3);
    dijkstra.finish(EdgeDirection::Out);
    assert!(!dijkstra.is_done());
    dijkstra.finish(EdgeDirection::In);
    assert!(dijkstra.is_done());
    assert_eq!(dijkstra.touched_nodes(), &vec![0, 3, 1, 2]);
    assert_eq!(dijkstra.previous_edge(1, EdgeDirection::Out), Some(0));
    assert_eq!(dijkstra.previous_edge(2, EdgeDirection::In), Some(3));
    dijkstra.prepare(2, 1);
    assert_eq!(dijkstra.touched_nodes(), &vec![2, 1]);
    for node in 0..4 {
        assert_eq!(dijkstra.previous_edge(node, EdgeDirection::Out), None);
        assert_eq!(dijkstra.previous_edge(node, EdgeDirection::In), None);
    }
    assert!(!dijkstra.is_done());
}

#[test]
fn route_is_read_off_over_the_meeting_node() {
    let graph = ch_graph();
    let mut dijkstra = Dijkstra::new(&graph);
    dijkstra.prepare(0, 3);
    // forward search: 0 -e0-> 1 -e1-> 2; backward search: 2 -e3-> 3
    dijkstra.reach(1, EdgeDirection::Out, 0);
    dijkstra.reach(2, EdgeDirection::Out, 1);
    dijkstra.reach(2, EdgeDirection::In, 3);
    assert_eq!(dijkstra.make_edge_path(2).map(|p| p.0), Some(vec![0, 1, 3]));
    assert_eq!(dijkstra.make_edge_path(1).map(|p| p.0), Some(vec![0]));
    assert_eq!(dijkstra.make_edge_path(0).map(|p| p.0), Some(vec![]));
    assert_eq!(dijkstra.make_edge_path(9).map(|p| p.0), None);
}

#[test]
fn route_that_goes_round_in_a_circle_is_refused() {
    let graph = ch_graph();
    let mut dijkstra = Dijkstra::new(&graph);
    dijkstra.prepare(0, 3);
    // 1 reached from 3 by e5, 3 reached from 2 by e3, 2 reached from 1 by e1
    dijkstra.reach(1, EdgeDirection::Out, 5);
    dijkstra.reach(3, EdgeDirection::Out, 3);
    dijkstra.reach(2, EdgeDirection::Out, 1);
    assert_eq!(dijkstra.make_edge_path(2).map(|p| p.0), None);
    // backwards, the same edges lead on and on
    dijkstra.prepare(0, 3);
    dijkstra.reach(3, EdgeDirection::In, 5);
    dijkstra.reach(1, EdgeDirection::In, 1);
    dijkstra.reach(2, EdgeDirection::In, 3);
    assert_eq!(dijkstra.make_edge_path(3).map(|p| p.0), None);
}

#[test]
fn climbing_stops_at_the_first_edge_that_leads_down() {
    let graph = ch_graph();
    let dijkstra = Dijkstra::new(&graph);
    // out of node 0 (level 0): targets 3, 2, 1, all above
    let mut edges = graph.edges_of(0, EdgeDirection::Out);
    let mut seen = Vec::new();
    while let Some(half) = dijkstra.next_upward(0, EdgeDirection::Out, &mut edges) {
        seen.push((half.edge_id, half.target_id));
    }
    assert_eq!(seen, vec![(4, 3), (2, 2), (0, 1)]);
    // out of node 3 (level 3): only edge leads down to node 1
    let mut edges = graph.edges_of(3, EdgeDirection::Out);
    assert!(dijkstra.next_upward(3, EdgeDirection::Out, &mut edges).is_none());
    // into node 2 (level 2): sources 1 and 0 are below
    let mut edges = graph.edges_of(2, EdgeDirection::In);
    assert!(dijkstra.next_upward(2, EdgeDirection::In, &mut edges).is_none());
    // into node 1 (level 1): source 3 is above, source 0 below
    let mut edges = graph.edges_of(1, EdgeDirection::In);
    let first = dijkstra.next_upward(1, EdgeDirection::In, &mut edges).unwrap();
    assert_eq!((first.edge_id, first.target_id), (5, 3));
    assert!(dijkstra.next_upward(1, EdgeDirection::In, &mut edges).is_none());
}

#[test]
fn shortest_path_is_unpacked_with_its_nodes() {
    let graph = ch_graph();
    let result = HalfPath {
        edges: MyVec(vec![MyVec(vec![4]), MyVec(vec![5])]),
    };
    let (nodes, edges) = find_shortest_path(&graph, &result, 1).unwrap();
    assert_eq!(edges, vec![0, 1, 3, 5]);
    assert_eq!(nodes, vec![0, 1, 2, 3, 1]);
    let empty = HalfPath { edges: MyVec(vec![]) };
    assert_eq!(find_shortest_path(&graph, &empty, 2), Some((vec![2], vec![])));
    let broken = HalfPath {
        edges: MyVec(vec![MyVec(vec![0, 17])]),
    };
    assert_eq!(find_shortest_path(&graph, &broken, 1), None);
}

#[test]
fn subpath_keeps_nodes_and_the_edges_between() {
    let path = Path {
        nodes: MyVec(vec![10, 11, 12, 13, 14]),
        edges: MyVec(vec![0, 1, 2, 3]),
        total_dimension_costs: MyVec(vec![]),
    };
    let (nodes, edges) = path.get_subpath(1, 4);
    assert_eq!(nodes.0, vec![11, 12, 13]);
    assert_eq!(edges.0, vec![1, 2]);
    let (nodes, edges) = path.get_subpath(0, 5);
    assert_eq!(nodes.0, vec![10, 11, 12, 13, 14]);
    assert_eq!(edges.0, vec![0, 1, 2, 3]);
    let (nodes, edges) = path.get_subpath(0, 0);
    assert!(nodes.0.is_empty() && edges.0.is_empty());
    assert_eq!(path.ends(), Some((10, 14)));
    let none = Path {
        nodes: MyVec(vec![]),
        edges: MyVec(vec![]),
        total_dimension_costs: MyVec(vec![]),
    };
    assert_eq!(none.ends(), None);
}
