use gossip_sim::edge_list::parse_edge_list;
use gossip_sim::edge_list::parse_node_id;
use gossip_sim::graph::Graph;
use gossip_sim::simulate::simulate_spread;

fn chars(s: &str) -> Vec<char> {
    s.chars().collect()
}

fn id(s: &str) -> Option<usize> {
    parse_node_id(&chars(s))
}

#[test]
fn reads_one_edge_per_line() {
    assert_eq!(parse_edge_list(&chars("1 2\n2 3\n")), Ok(vec![(1, 2), (2, 3)]));
    assert_eq!(parse_edge_list(&chars("4 5")), Ok(vec![(4, 5)]));
    assert_eq!(parse_edge_list(&chars("")), Ok(vec![]));
}

#[test]
fn skips_lines_without_two_tokens() {
    let text = "1\n1 2 3\n\n   \n4 5\na b c\n";
    assert_eq!(parse_edge_list(&chars(text)), Ok(vec![(4, 5)]));
}

#[test]
fn accepts_any_white_space_between_ids() {
    let text = "  7\t8 \r\n9\u{a0}10\n11\u{3000}12";
    assert_eq!(parse_edge_list(&chars(text)), Ok(vec![(7, 8), (9, 10), (11, 12)]));
}

#[test]
fn reports_first_line_with_a_bad_id() {
    assert_eq!(parse_edge_list(&chars("1 2\nx 3\n4 y\n")), Err(2));
    assert_eq!(parse_edge_list(&chars("a b\nc d")), Err(1));
    assert_eq!(parse_edge_list(&chars("1 2\n\n3 -4")), Err(3));
}

#[test]
fn reads_ids_as_unsigned_parse_does() {
    assert_eq!(id("0"), Some(0));
    assert_eq!(id("007"), Some(7));
    assert_eq!(id("+5"), Some(5));
    assert_eq!(id("4096"), Some(4096));
    assert_eq!(id(""), None);
    assert_eq!(id("+"), None);
    assert_eq!(id("++1"), None);
    assert_eq!(id("-5"), None);
    assert_eq!(id("1x"), None);
    assert_eq!(id(&usize::MAX.to_string()), Some(usize::MAX));
    assert_eq!(id(&format!("{}0", usize::MAX)), None);
}

#[test]
fn ids_agree_with_std_parse() {
    let samples = [
        "0", "1", "12", "+3", "-3", "", "+", "x", "1_000", "99999999999999999999", "18446744073709551615",
        "18446744073709551616", "4294967296", "00000000000000000000001", " 1", "٣",
    ];
    for s in samples {
        assert_eq!(id(s), s.parse::<usize>().ok(), "{:?}", s);
    }
}

#[test]
fn builds_the_graph_of_an_edge_list() {
    let graph = Graph::from_edge_list(&chars("1 2\n2 3\n3 4\n# a comment line\n")).unwrap();
    assert_eq!(graph.node_count(), 4);
    assert_eq!(simulate_spread(&graph, 1, 4), vec![1, 2, 3, 4]);
    assert!(Graph::from_edge_list(&chars("1 2\n2 three\n")).is_err());
}

#[test]
fn from_edges_adds_each_pair() {
    let graph = Graph::from_edges(&vec![(1, 2), (3, 4), (1, 2)]);
    assert_eq!(graph.node_count(), 4);
    assert_eq!(simulate_spread(&graph, 1, 3), vec![1, 2]);
}
