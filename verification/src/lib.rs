use vstd::prelude::*;

mod graph;
mod mapvec;
mod node;

pub mod directed;
pub mod pathing;

pub use crate::graph::{
    compare_vectors_for_element_equality, contains_id, edge_pairs, lemma_reverse_involution,
    nodes_from_ids, reversed_edges, seq_edge_weight, seq_has_edge, seq_ids, Graph, GraphError,
    GraphResult, GraphReverse, GraphTools, HashGraph,
};
pub use crate::node::Node;

verus! {

} // verus!
