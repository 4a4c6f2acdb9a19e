use gossip_sim::graph::Graph;
use gossip_sim::simulate::get_random_node;
use gossip_sim::simulate::simulate_spread;

#[test]
fn test_simple_spread() {
    let mut graph = Graph::new();
    graph.add_edge(1, 2);
    graph.add_edge(2, 3);
    graph.add_edge(3, 4);

    let spread = simulate_spread(&graph, 1, 4);
    assert_eq!(spread, vec![1, 2, 3, 4]);
}

#[test]
fn test_spread_stops_when_disconnected() {
    let mut graph = Graph::new();
    graph.add_edge(1, 2);
    graph.add_edge(3, 4);

    let spread = simulate_spread(&graph, 1, 3);
    assert_eq!(spread, vec![1, 2]);
}

#[test]
fn zero_steps_give_only_the_seed() {
    let mut graph = Graph::new();
    graph.add_edge(1, 2);
    graph.add_edge(2, 3);
    assert_eq!(simulate_spread(&graph, 1, 0), vec![1]);
    assert_eq!(simulate_spread(&graph, 7, 0), vec![1]);
    assert_eq!(simulate_spread(&Graph::new(), 0, 0), vec![1]);
}

#[test]
fn unknown_seed_stops_after_the_seed() {
    let mut graph = Graph::new();
    graph.add_edge(1, 2);
    assert_eq!(simulate_spread(&graph, 42, 5), vec![1]);
}

#[test]
fn step_budget_cuts_the_log() {
    let mut graph = Graph::new();
    graph.add_edge(1, 2);
    graph.add_edge(2, 3);
    graph.add_edge(3, 4);
    assert_eq!(simulate_spread(&graph, 1, 2), vec![1, 2, 3]);
}

#[test]
fn wavefront_counts_each_node_once() {
    // A star around 0 plus a triangle 1-2-3 and a tail 3-4.
    let mut graph = Graph::new();
    graph.add_edge(0, 1);
    graph.add_edge(0, 2);
    graph.add_edge(0, 3);
    graph.add_edge(1, 2);
    graph.add_edge(2, 3);
    graph.add_edge(3, 4);
    assert_eq!(simulate_spread(&graph, 0, 10), vec![1, 4, 5]);
    assert_eq!(simulate_spread(&graph, 4, 10), vec![1, 2, 4, 5]);
}

#[test]
fn self_loop_reaches_nobody_new() {
    let mut graph = Graph::new();
    graph.add_edge(5, 5);
    assert_eq!(simulate_spread(&graph, 5, 3), vec![1]);
}

#[test]
fn log_is_non_decreasing_and_bounded() {
    let mut graph = Graph::new();
    for i in 0..20usize {
        graph.add_edge(i, (i * 7 + 3) % 20);
        graph.add_edge(i, i / 2);
    }
    for seed in 0..20usize {
        for max_steps in 0..6usize {
            let log = simulate_spread(&graph, seed, max_steps);
            assert!(!log.is_empty());
            assert!(log.len() <= max_steps + 1);
            assert_eq!(log[0], 1);
            for w in log.windows(2) {
                assert!(w[0] <= w[1]);
            }
        }
    }
}

#[test]
fn random_node_is_known() {
    let mut graph = Graph::new();
    graph.add_edge(10, 20);
    graph.add_edge(30, 40);
    for _ in 0..20 {
        let n = get_random_node(&graph);
        assert!(graph.nodes().contains(&n));
    }
}
