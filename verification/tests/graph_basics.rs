use graph_rs::{Graph, HashGraph, Node};

#[test]
fn is_key_works() {
    let n: Node = Node::new(1, ());

    assert!(n.is_id(&1))
}

#[test]
#[allow(non_snake_case)]
fn create_HashGraph() {
    let mut g: HashGraph = HashGraph::new();
    assert_eq!(g.num_edges(), 0);
    assert_eq!(g.num_nodes(), 0);

    g.add_node_with(0, ()).unwrap();
    assert_eq!(g.num_nodes(), 1);
}

#[test]
fn add_range_of_ids() {
    let mut g: HashGraph = HashGraph::new();

    g.add_nodes_with((0..10).collect(), ()).unwrap();
    assert_eq!(g.num_nodes(), 10);
}

#[test]
fn set_weight() {
    let mut g: HashGraph<f64> = HashGraph::new();

    g.add_nodes_with((0..10).collect(), ()).unwrap();
    assert!(!g.contains_edge(&1, &2));
    assert!(g.add_edge_with(&1, &2, 10.0).is_ok());
    assert!(g.contains_edge(&1, &2));
    assert_eq!(g.get_weight(&1, &2).unwrap(), &10.0);
    assert!(g.get_weight(&4, &5).is_none());
    assert_eq!(*g.get_weight(&1, &2).unwrap(), 10.0)
}

#[test]
fn change_value() {
    let mut g: HashGraph<f64, i32> = HashGraph::new();
    g.add_nodes_with((0..10).collect(), 10).unwrap();
    assert_eq!(*g.get(&3).unwrap(), 10);
    *g.get_mut(&3).unwrap() = 15;
    assert_eq!(*g.get(&3).unwrap(), 15);
}

#[test]
fn get_adjacent() {
    let mut g: HashGraph = HashGraph::new();

    g.add_nodes_with((0..10).collect(), ()).unwrap();
    g.add_edge(&0, &1).unwrap();
    g.add_edge(&0, &3).unwrap();
    g.add_edge(&0, &7).unwrap();
    let mut v = g.get_adjacent(&0);
    v.sort();

    assert_eq!(v, vec![1, 3, 7]);
}

#[derive(Clone, Copy)]
struct Wrapper<T>(T);

#[test]
#[allow(non_snake_case)]
fn cloned_HashGraphs_independent() {
    let mut g: HashGraph<f64, Wrapper<usize>> = HashGraph::new();

    g.add_nodes_with((0..10).collect(), Wrapper(5)).unwrap();
    g.add_edge_with(&3, &5, 10.0).unwrap();
    let g_prime = g.clone();
    g.add_edge_with(&5, &7, 11.0).unwrap();
    assert_eq!(g_prime.get_weight(&3, &5), g.get_weight(&3, &5));
}

#[test]
fn node_accessors() {
    let mut n: Node<u32> = Node::new(7, 21);
    assert_eq!(*n.get_id(), 7);
    assert_eq!(*n.get_value(), 21);
    *n.get_value_mut() = 42;
    assert_eq!(n.value, 42);
    let (id, value) = n.into_tuple();
    assert_eq!((id, value), (7, 42));
}

#[test]
fn node_insertion_errors() {
    let mut g: HashGraph<(), u32> = HashGraph::new();
    g.add_node_with(4, 1).unwrap();
    let err = g.add_node_with(4, 2).unwrap_err();
    assert!(matches!(err, graph_rs::GraphError::IdExists));
    assert_eq!(g.num_nodes(), 1);
    assert_eq!(*g.get(&4).unwrap(), 1);
}

#[test]
fn edge_insertion_errors() {
    let mut g: HashGraph<usize> = HashGraph::new();
    g.add_nodes_with(vec![0, 1], ()).unwrap();
    let missing = g.add_edge_with(&0, &9, 3).unwrap_err();
    assert!(matches!(missing, graph_rs::GraphError::IdDoesNotExist));
    let missing2 = g.add_edge_with(&9, &0, 3).unwrap_err();
    assert!(matches!(missing2, graph_rs::GraphError::IdDoesNotExist));
    g.add_edge_with(&0, &1, 3).unwrap();
    let dup = g.add_edge_with(&0, &1, 5).unwrap_err();
    assert!(matches!(dup, graph_rs::GraphError::EdgeAlreadyExists));
    assert_eq!(g.num_edges(), 1);
    assert_eq!(g.get_weight(&0, &1), Some(&3));
    // the opposite direction is a distinct stored edge
    g.add_edge_with(&1, &0, 7).unwrap();
    assert_eq!(g.num_edges(), 2);
}

#[test]
fn counters_track_successful_insertions() {
    let mut g: HashGraph<usize> = HashGraph::new();
    g.add_nodes_with(vec![0, 1, 2], ()).unwrap();
    let _ = g.add_node_with(1, ());
    g.add_edge_with(&0, &1, 4).unwrap();
    g.add_edge_with(&1, &2, 5).unwrap();
    let _ = g.add_edge_with(&0, &1, 6);
    assert_eq!(g.num_nodes(), 3);
    assert_eq!(g.num_edges(), 2);
    assert_eq!(g.nodes().len(), 3);
    assert_eq!(g.edges().len(), 2);
}

#[test]
fn take_nodes_and_disassemble() {
    let mut g: HashGraph<usize, u32> = HashGraph::new();
    g.add_node_with(0, 10).unwrap();
    g.add_node_with(1, 20).unwrap();
    g.add_edge_with(&0, &1, 9).unwrap();
    let (nodes, edges) = g.disassemble();
    let ids: Vec<usize> = nodes.iter().map(|n| *n.get_id()).collect();
    assert_eq!(ids, vec![0, 1]);
    assert_eq!(edges, vec![(0, 1, 9)]);

    let mut g2: HashGraph<(), u32> = HashGraph::new();
    g2.add_node_with(5, 50).unwrap();
    let taken = g2.take_nodes();
    assert_eq!(taken.len(), 1);
    assert_eq!(taken[0].value, 50);
}

#[test]
fn unwrap_optional_payloads() {
    let mut g: HashGraph<usize, Option<u32>> = HashGraph::new();
    g.add_node_with(0, Some(1)).unwrap();
    g.add_node_with(1, Some(2)).unwrap();
    g.add_edge_with(&0, &1, 8).unwrap();
    let unwrapped = g.unwrap().unwrap();
    assert_eq!(*unwrapped.get(&0).unwrap(), 1);
    assert_eq!(*unwrapped.get(&1).unwrap(), 2);
    assert_eq!(unwrapped.get_weight(&0, &1), Some(&8));

    let mut partial: HashGraph<usize, Option<u32>> = HashGraph::new();
    partial.add_node_with(0, Some(1)).unwrap();
    partial.add_node_with(1, None).unwrap();
    assert!(partial.unwrap().is_none());
}
