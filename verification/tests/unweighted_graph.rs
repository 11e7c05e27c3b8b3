use graph_rs::{Graph, GraphReverse, HashGraph};

#[test]
fn create_unweighted() {
    let mut graph: HashGraph = HashGraph::new();
    graph.add_nodes((0..10).collect()).unwrap();
    graph.add_edge(&0, &1).unwrap();

    let weight = *graph.get_weight(&0, &1).unwrap();
    assert_eq!(weight, ());
}

#[test]
fn reverse() {
    let mut graph: HashGraph<i32, ()> = HashGraph::new();

    graph.add_nodes((0..2).collect()).unwrap();
    graph.add_edge_with(&0, &1, 15).unwrap();

    let graph_r = graph.into_reverse();

    assert_eq!(graph_r.num_nodes(), 2, "Number of nodes should stay the same");
    assert_eq!(graph_r.num_edges(), 1, "Number of edges should stay the same");

    assert!(graph_r.contains_edge(&1, &0), "This should now exist");
    assert!(!graph_r.contains_edge(&0, &1), "This should not exist");
    assert_eq!(graph_r.get_weight(&1, &0), Some(&15), "Weight should remain");
}

#[test]
fn weighted_directed_reversal() {
    let mut graph: HashGraph<usize, ()> = HashGraph::new();
    graph.add_nodes((0..2).collect()).unwrap();
    graph.add_edge_with(&0, &1, 15).unwrap();

    let reversed = graph.into_reverse();
    assert!(reversed.contains_edge(&1, &0));
    assert_eq!(reversed.get_weight(&1, &0), Some(&15));
    assert!(!reversed.contains_edge(&0, &1));
}

#[test]
fn reversal_involution() {
    let mut graph: HashGraph<usize, ()> = HashGraph::new();
    graph.add_nodes((0..4).collect()).unwrap();
    graph.add_edge_with(&0, &1, 10).unwrap();
    graph.add_edge_with(&1, &2, 20).unwrap();
    graph.add_edge_with(&3, &0, 30).unwrap();

    let mut original_edges = graph.edges();
    let twice = graph.clone().into_reverse().into_reverse();
    assert_eq!(twice.num_nodes(), 3 + 1);
    assert_eq!(twice.num_edges(), 3);
    let mut twice_edges = twice.edges();
    original_edges.sort();
    twice_edges.sort();
    assert_eq!(original_edges, twice_edges);
}

#[test]
fn as_reverse_keeps_the_original() {
    let mut graph: HashGraph<usize, u32> = HashGraph::new();
    graph.add_node_with(0, 1).unwrap();
    graph.add_node_with(1, 2).unwrap();
    graph.add_edge_with(&0, &1, 5).unwrap();

    let reversed = graph.as_reverse();
    assert!(reversed.contains_edge(&1, &0));
    assert!(!reversed.contains_edge(&0, &1));
    assert!(graph.contains_edge(&0, &1));
    assert!(!graph.contains_edge(&1, &0));
}
