use graph_rs::{Graph, GraphTools, HashGraph};

#[test]
fn small_test() {
    let mut map = HashGraph::<f64, ()>::new();

    let point_ids = map.add_nodes_auto_id(vec![(), (), ()]).unwrap();

    assert_eq!(point_ids, vec![0, 1, 2]);
}

#[test]
fn auto_id_probes_past_taken_ids() {
    let mut g: HashGraph<(), u32> = HashGraph::new();
    g.add_node_with(0, 1).unwrap();
    g.add_node_with(1, 2).unwrap();
    g.add_node_with(5, 3).unwrap();
    // the probe starts at the reported count and walks to the next free id
    let id = g.add_node_auto_id(4).unwrap();
    assert_eq!(id, 3);
    assert_eq!(*g.get(&3).unwrap(), 4);
    let ids = g.add_nodes_auto_id(vec![7, 8]).unwrap();
    assert_eq!(ids, vec![4, 6]);
    assert_eq!(*g.get(&4).unwrap(), 7);
    assert_eq!(*g.get(&6).unwrap(), 8);
}
