use graph_rs::directed::Undirected;
use graph_rs::pathing::{PathFinder, StatelessPathFinder};
use graph_rs::{Graph, HashGraph};

#[test]
fn small_path() {
    let mut undirected = Undirected::from(HashGraph::<(), ()>::new());

    undirected.add_nodes((0..10).collect()).unwrap();
    let _ = undirected.add_edge(&0, &1);
    let _ = undirected.add_edge(&0, &2);
    let _ = undirected.add_edge(&2, &3);
    let _ = undirected.add_edge(&1, &4);
    let _ = undirected.add_edge(&3, &4);

    let pathfinder = StatelessPathFinder::new(undirected);

    let path: Option<(Vec<usize>, usize)> = pathfinder.find_path(&0, &4);
    if let Some((path, weight)) = path {
        assert_eq!(path, vec![0, 1, 4]);
        assert_eq!(weight, 2);
    } else {
        panic!("There is a path between the two points")
    }
}

#[test]
fn unreachable_target() {
    let mut undirected = Undirected::from(HashGraph::<(), ()>::new());
    undirected.add_nodes((0..3).collect()).unwrap();
    let _ = undirected.add_edge(&0, &1);
    // node 2 stays isolated
    let pathfinder = StatelessPathFinder::new(undirected);
    let path: Option<(Vec<usize>, usize)> = pathfinder.find_path(&0, &2);
    assert!(path.is_none());
}

#[test]
fn trivial_path_to_self() {
    let mut graph: HashGraph<(), ()> = HashGraph::new();
    graph.add_nodes((0..2).collect()).unwrap();
    let pathfinder = StatelessPathFinder::new(graph);
    let path: Option<(Vec<usize>, usize)> = pathfinder.find_path(&1, &1);
    assert_eq!(path, Some((vec![1], 0)));
}

#[test]
fn weighted_path_prefers_lighter_route() {
    let mut graph: HashGraph<usize, ()> = HashGraph::new();
    graph.add_nodes((0..4).collect()).unwrap();
    graph.add_edge_with(&0, &3, 10).unwrap();
    graph.add_edge_with(&0, &1, 2).unwrap();
    graph.add_edge_with(&1, &2, 3).unwrap();
    graph.add_edge_with(&2, &3, 4).unwrap();

    let pathfinder = StatelessPathFinder::new(graph);
    let path: Option<(Vec<usize>, usize)> = pathfinder.find_path(&0, &3);
    assert_eq!(path, Some((vec![0, 1, 2, 3], 9)));
}

#[test]
fn directed_edges_block_the_way_back() {
    let mut graph: HashGraph<(), ()> = HashGraph::new();
    graph.add_nodes((0..2).collect()).unwrap();
    graph.add_edge(&0, &1).unwrap();
    let pathfinder = StatelessPathFinder::new(graph);
    let forward: Option<(Vec<usize>, usize)> = pathfinder.find_path(&0, &1);
    assert_eq!(forward, Some((vec![0, 1], 1)));
    let backward: Option<(Vec<usize>, usize)> = pathfinder.find_path(&1, &0);
    assert!(backward.is_none());
}
