use gossip_sim::analyze::find_top_spreaders;
use gossip_sim::analyze::rank_spreaders;
use gossip_sim::graph::Graph;
use gossip_sim::simulate::simulate_spread;

fn sample_graph() -> Graph {
    // A path 0-1-2-3-4 and a separate edge 10-11.
    let mut graph = Graph::new();
    graph.add_edge(0, 1);
    graph.add_edge(1, 2);
    graph.add_edge(2, 3);
    graph.add_edge(3, 4);
    graph.add_edge(10, 11);
    graph
}

#[test]
fn ranking_orders_by_reach() {
    let graph = sample_graph();
    let ranked = rank_spreaders(&graph, &vec![10, 0, 2, 99], 2);
    assert_eq!(ranked, vec![(2, 5), (0, 3), (10, 2), (99, 1)]);
}

#[test]
fn ranking_keeps_equal_reaches_in_input_order() {
    let graph = sample_graph();
    let ranked = rank_spreaders(&graph, &vec![11, 10, 4, 0], 1);
    assert_eq!(ranked, vec![(11, 2), (10, 2), (4, 2), (0, 2)]);
}

#[test]
fn ranking_of_no_candidates_is_empty() {
    let graph = sample_graph();
    assert!(rank_spreaders(&graph, &vec![], 3).is_empty());
}

#[test]
fn top_spreaders_are_distinct_sorted_and_bounded() {
    let graph = sample_graph();
    for trials in 0..4usize {
        let top = find_top_spreaders(&graph, trials, 2);
        assert_eq!(top.len(), trials);
        for i in 0..top.len() {
            for j in (i + 1)..top.len() {
                assert_ne!(top[i].0, top[j].0);
                assert!(top[i].1 >= top[j].1);
            }
            let log = simulate_spread(&graph, top[i].0, 2);
            assert_eq!(top[i].1, *log.last().unwrap());
            assert!(graph.nodes().contains(&top[i].0));
        }
    }
}

#[test]
fn too_many_trials_take_every_node_once() {
    let graph = sample_graph();
    let top = find_top_spreaders(&graph, 50, 10);
    let mut ids: Vec<usize> = top.iter().map(|p| p.0).collect();
    ids.sort();
    assert_eq!(ids, vec![0, 1, 2, 3, 4, 10, 11]);
    assert_eq!(top[0].1, 5);
    assert_eq!(top[top.len() - 1].1, 2);
}

#[test]
fn empty_graph_has_no_spreaders() {
    assert!(find_top_spreaders(&Graph::new(), 5, 3).is_empty());
}
