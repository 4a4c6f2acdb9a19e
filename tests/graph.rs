use gossip_sim::graph::Graph;

fn sorted(mut v: Vec<usize>) -> Vec<usize> {
    v.sort();
    v
}

#[test]
fn add_edge_links_both_ends() {
    let mut graph = Graph::new();
    graph.add_edge(1, 2);
    assert_eq!(graph.neighbors(1), vec![2]);
    assert_eq!(graph.neighbors(2), vec![1]);
    assert_eq!(graph.node_count(), 2);
}

#[test]
fn add_edge_is_idempotent() {
    let mut once = Graph::new();
    once.add_edge(3, 4);
    once.add_edge(3, 5);
    let mut twice = Graph::new();
    twice.add_edge(3, 4);
    twice.add_edge(3, 4);
    twice.add_edge(3, 5);
    for u in [3usize, 4, 5, 6] {
        assert_eq!(sorted(once.neighbors(u)), sorted(twice.neighbors(u)));
    }
    assert_eq!(sorted(once.nodes()), sorted(twice.nodes()));
}

#[test]
fn neighbors_are_symmetric() {
    let mut graph = Graph::new();
    let edges = [(1usize, 2usize), (2, 3), (3, 1), (4, 4), (5, 1), (2, 1)];
    for (u, v) in edges {
        graph.add_edge(u, v);
    }
    for u in graph.nodes() {
        for v in graph.neighbors(u) {
            assert!(graph.neighbors(v).contains(&u));
        }
    }
}

#[test]
fn unknown_node_has_no_neighbors() {
    let mut graph = Graph::new();
    graph.add_edge(1, 2);
    assert!(graph.neighbors(9).is_empty());
    assert!(Graph::new().neighbors(0).is_empty());
}

#[test]
fn nodes_lists_each_endpoint_once() {
    let mut graph = Graph::new();
    graph.add_edge(1, 2);
    graph.add_edge(2, 3);
    graph.add_edge(3, 1);
    assert_eq!(sorted(graph.nodes()), vec![1, 2, 3]);
    assert_eq!(graph.node_count(), 3);
    assert!(Graph::new().nodes().is_empty());
}

#[test]
fn neighbors_collapse_multi_edges() {
    let mut graph = Graph::new();
    graph.add_edge(1, 2);
    graph.add_edge(2, 1);
    graph.add_edge(1, 3);
    assert_eq!(sorted(graph.neighbors(1)), vec![2, 3]);
    assert_eq!(graph.neighbors(2), vec![1]);
}
