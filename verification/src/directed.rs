use vstd::prelude::*;

use crate::graph::{
    contains_id, edge_pairs, seq_edge_weight, seq_has_edge, Graph, GraphError, GraphResult,
    HashGraph,
};
use crate::graph::hash_graph::{lemma_edge_pairs_push, lemma_edges_push, lemma_weight_at_index};
use crate::mapvec::{pair_set_contains, pair_set_insert, pair_set_model, pair_set_new};
use crate::node::Node;

verus! {

/// A view marking its backend's edges as directional. Every operation
/// forwards to the backend unchanged; the type only documents intent.
pub struct Directed<G: Graph>(pub G);

impl<G: Graph> Directed<G> {
    pub fn new_from(graph: G) -> (r: Self)
        ensures
            r.0 == graph,
    {
        Directed(graph)
    }
}

impl<G: Graph> From<G> for Directed<G> {
    fn from(g: G) -> (r: Self)
        ensures
            r.0 == g,
    {
        Directed::new_from(g)
    }
}

impl<G: Graph> vstd::std_specs::convert::FromSpecImpl<G> for Directed<G> {
    open spec fn obeys_from_spec() -> bool {
        true
    }

    open spec fn from_spec(g: G) -> Self {
        Directed(g)
    }
}

/// A directed view over a fresh hash-backed store.
pub fn new_hashed_directed<W: Copy, T>() -> (r: Directed<HashGraph<W, T>>)
    ensures
        r.0.wf(),
        r.0.spec_nodes() == Seq::<Node<T>>::empty(),
        r.0.spec_edges() == Seq::<(usize, usize, W)>::empty(),
        r.0.spec_num_nodes() == 0,
        r.0.spec_num_edges() == 0,
        forall|x: usize, y: usize| !(#[trigger] r.0.has_edge(x, y)),
{
    Directed(HashGraph::new())
}

impl<G: Graph> Graph for Directed<G> {
    type Weight = G::Weight;

    type Value = G::Value;

    open spec fn wf(&self) -> bool {
        self.0.wf()
    }

    open spec fn spec_nodes(&self) -> Seq<Node<G::Value>> {
        self.0.spec_nodes()
    }

    open spec fn has_edge(&self, u: usize, v: usize) -> bool {
        self.0.has_edge(u, v)
    }

    open spec fn edge_weight(&self, u: usize, v: usize) -> G::Weight {
        self.0.edge_weight(u, v)
    }

    open spec fn spec_edges(&self) -> Seq<(usize, usize, G::Weight)> {
        self.0.spec_edges()
    }

    open spec fn spec_num_nodes(&self) -> int {
        self.0.spec_num_nodes()
    }

    open spec fn spec_num_edges(&self) -> int {
        self.0.spec_num_edges()
    }

    proof fn wf_facts(&self) {
        self.0.wf_facts();
    }

    fn get_node(&self, id: &usize) -> (r: Option<&Node<G::Value>>) {
        self.0.get_node(id)
    }

    fn get_node_mut(&mut self, id: &usize) -> (r: Option<&mut Node<G::Value>>) {
        self.0.get_node_mut(id)
    }

    fn add_node_with(&mut self, id: usize, value: G::Value) -> (r: GraphResult) {
        self.0.add_node_with(id, value)
    }

    fn contains_node(&self, id: &usize) -> (r: bool) {
        self.0.contains_node(id)
    }

    fn add_edge_with(&mut self, u: &usize, v: &usize, weight: G::Weight) -> (r: GraphResult) {
        self.0.add_edge_with(u, v, weight)
    }

    fn contains_edge(&self, u: &usize, v: &usize) -> (r: bool) {
        self.0.contains_edge(u, v)
    }

    fn get_weight(&self, u: &usize, v: &usize) -> (r: Option<&G::Weight>) {
        self.0.get_weight(u, v)
    }

    fn get_adjacent(&self, node: &usize) -> (r: Vec<usize>) {
        self.0.get_adjacent(node)
    }

    fn nodes(&self) -> (r: Vec<&Node<G::Value>>) {
        self.0.nodes()
    }

    fn edges(&self) -> (r: Vec<(usize, usize, G::Weight)>) {
        self.0.edges()
    }

    fn num_nodes(&self) -> (r: usize) {
        self.0.num_nodes()
    }

    fn num_edges(&self) -> (r: usize) {
        self.0.num_edges()
    }

    fn take_nodes(self) -> (r: Vec<Node<G::Value>>) {
        self.0.take_nodes()
    }
}

/// The logical edges an undirected view enumerates over a stored edge
/// sequence: of each unordered pair, the first stored orientation is kept
/// and a later reverse orientation is suppressed.
pub open spec fn undirected_edges<W>(es: Seq<(usize, usize, W)>) -> Seq<(usize, usize, W)>
    decreases es.len(),
{
    if es.len() == 0 {
        Seq::empty()
    } else {
        let prefix = undirected_edges(es.drop_last());
        let e = es.last();
        if exists|j: int|
            0 <= j < es.len() - 1 && (#[trigger] es[j]).0 == e.1 && es[j].1 == e.0 {
            prefix
        } else {
            prefix.push(e)
        }
    }
}

/// What the logical edge enumeration keeps, over a duplicate-free stored
/// sequence: a subsequence of the stored triples, one orientation per
/// unordered pair, covering every stored pair in one of its orientations.
pub proof fn lemma_undirected_edges_props<W>(es: Seq<(usize, usize, W)>)
    requires
        edge_pairs(es).no_duplicates(),
    ensures
        edge_pairs(undirected_edges(es)).no_duplicates(),
        forall|i: int|
            0 <= i < undirected_edges(es).len() ==> es.contains(#[trigger] undirected_edges(es)[i]),
        forall|x: usize, y: usize|
            #[trigger] seq_has_edge(undirected_edges(es), x, y) ==> seq_has_edge(es, x, y),
        forall|x: usize, y: usize|
            #[trigger] seq_has_edge(es, x, y) ==> seq_has_edge(undirected_edges(es), x, y)
                || seq_has_edge(undirected_edges(es), y, x),
        forall|x: usize, y: usize|
            #[trigger] seq_has_edge(undirected_edges(es), x, y) ==> seq_edge_weight(
                undirected_edges(es),
                x,
                y,
            ) == seq_edge_weight(es, x, y),
    decreases es.len(),
{
    let kept = undirected_edges(es);
    if es.len() == 0 {
        assert(edge_pairs(kept) =~= Seq::<(usize, usize)>::empty());
    } else {
        let es0 = es.drop_last();
        let e = es.last();
        assert(edge_pairs(es0) =~= edge_pairs(es).drop_last());
        assert(edge_pairs(es).drop_last().no_duplicates()) by {
            assert forall|i: int, j: int|
                0 <= i < j < edge_pairs(es0).len() implies edge_pairs(es)[i] != edge_pairs(
                es,
            )[j] by {}
        }
        lemma_undirected_edges_props(es0);
        let kept0 = undirected_edges(es0);
        assert forall|i: int| 0 <= i < kept0.len() implies es.contains(#[trigger] kept0[i]) by {
            let j = choose|j: int| 0 <= j < es0.len() && es0[j] == kept0[i];
            assert(es[j] == kept0[i]);
        }
        assert forall|x: usize, y: usize| #[trigger] seq_has_edge(es0, x, y) implies seq_has_edge(
            es,
            x,
            y,
        ) by {
            let j = choose|j: int| 0 <= j < es0.len() && edge_pairs(es0)[j] == (x, y);
            assert(edge_pairs(es)[j] == (x, y));
        }
        if exists|j: int| 0 <= j < es.len() - 1 && (#[trigger] es[j]).0 == e.1 && es[j].1 == e.0 {
            // the reverse orientation was stored earlier, so the last edge is suppressed
            assert(kept == kept0);
            let j = choose|j: int|
                0 <= j < es.len() - 1 && (#[trigger] es[j]).0 == e.1 && es[j].1 == e.0;
            assert(edge_pairs(es0)[j] == (e.1, e.0));
            assert(seq_has_edge(es0, e.1, e.0));
            assert forall|x: usize, y: usize| #[trigger] seq_has_edge(es, x, y) implies
                seq_has_edge(kept, x, y) || seq_has_edge(kept, y, x) by {
                let i = choose|i: int| 0 <= i < es.len() && edge_pairs(es)[i] == (x, y);
                if i < es.len() - 1 {
                    assert(edge_pairs(es0)[i] == (x, y));
                    assert(seq_has_edge(es0, x, y));
                } else {
                    // (x, y) is the suppressed last pair; its reverse is covered
                    assert((x, y) == (e.0, e.1));
                    assert(seq_has_edge(kept0, e.1, e.0) || seq_has_edge(kept0, e.0, e.1));
                }
            }
            assert forall|x: usize, y: usize| #[trigger] seq_has_edge(kept, x, y) implies
                seq_has_edge(es, x, y) && seq_edge_weight(kept, x, y) == seq_edge_weight(
                es,
                x,
                y,
            ) by {
                assert(seq_has_edge(es0, x, y));
                lemma_prefix_weight(es, x, y);
                assert(seq_edge_weight(kept, x, y) == seq_edge_weight(es0, x, y));
            }
        } else {
            assert(kept == kept0.push(e));
            lemma_edge_pairs_push(kept0, e);
            if seq_has_edge(kept0, e.0, e.1) {
                assert(seq_has_edge(es0, e.0, e.1));
                let j = choose|j: int| 0 <= j < es0.len() && edge_pairs(es0)[j] == (e.0, e.1);
                assert(edge_pairs(es)[j] == edge_pairs(es)[es.len() - 1]);
                assert(false);
            }
            lemma_edges_push(kept0, e);
            assert forall|i: int| 0 <= i < kept.len() implies es.contains(#[trigger] kept[i]) by {
                if i < kept0.len() {
                    assert(es.contains(kept0[i]));
                } else {
                    assert(kept[i] == e);
                    assert(es[es.len() - 1] == e);
                }
            }
            assert forall|x: usize, y: usize| #[trigger] seq_has_edge(es, x, y) implies
                seq_has_edge(kept, x, y) || seq_has_edge(kept, y, x) by {
                let i = choose|i: int| 0 <= i < es.len() && edge_pairs(es)[i] == (x, y);
                if i < es.len() - 1 {
                    assert(edge_pairs(es0)[i] == (x, y));
                    assert(seq_has_edge(es0, x, y));
                    assert(seq_has_edge(kept0, x, y) || seq_has_edge(kept0, y, x));
                } else {
                    assert((x, y) == (e.0, e.1));
                    assert(seq_has_edge(kept, e.0, e.1));
                }
            }
            assert forall|x: usize, y: usize| #[trigger] seq_has_edge(kept, x, y) implies
                seq_has_edge(es, x, y) && seq_edge_weight(kept, x, y) == seq_edge_weight(
                es,
                x,
                y,
            ) by {
                if seq_has_edge(kept0, x, y) {
                    assert(seq_has_edge(es0, x, y));
                    lemma_prefix_weight(es, x, y);
                    assert(seq_edge_weight(kept, x, y) == seq_edge_weight(kept0, x, y));
                } else {
                    assert((x, y) == (e.0, e.1));
                    assert(es[es.len() - 1] == e);
                    lemma_weight_at_index(es, es.len() - 1);
                    assert(seq_edge_weight(kept, x, y) == e.2);
                }
            }
        }
    }
}

/// Looking a pair up in a duplicate-free sequence finds the same weight as
/// in any extension that keeps the pairs duplicate-free.
proof fn lemma_prefix_weight<W>(es: Seq<(usize, usize, W)>, x: usize, y: usize)
    requires
        edge_pairs(es).no_duplicates(),
        es.len() > 0,
        seq_has_edge(es.drop_last(), x, y),
    ensures
        seq_has_edge(es, x, y),
        seq_edge_weight(es.drop_last(), x, y) == seq_edge_weight(es, x, y),
{
    let es0 = es.drop_last();
    assert(edge_pairs(es0) =~= edge_pairs(es).drop_last());
    assert(edge_pairs(es0).no_duplicates()) by {
        assert forall|i: int, j: int|
            0 <= i < j < edge_pairs(es0).len() implies edge_pairs(es)[i] != edge_pairs(es)[j] by {}
    }
    let j = choose|j: int| 0 <= j < es0.len() && edge_pairs(es0)[j] == (x, y);
    assert(es0[j] == es[j]);
    assert(es0[j].0 == x && es0[j].1 == y);
    lemma_weight_at_index(es0, j);
    lemma_weight_at_index(es, j);
}

/// Inserting a fresh logical edge stores both orientations and adds exactly
/// one triple, the given orientation, to the logical enumeration.
pub proof fn lemma_undirected_edges_double_push<W>(
    es: Seq<(usize, usize, W)>,
    u: usize,
    v: usize,
    w: W,
)
    requires
        !seq_has_edge(es, u, v),
        !seq_has_edge(es, v, u),
        u != v,
    ensures
        undirected_edges(es.push((u, v, w)).push((v, u, w))) == undirected_edges(es).push(
            (u, v, w),
        ),
{
    let s1 = es.push((u, v, w));
    let s2 = s1.push((v, u, w));
    assert(s2.drop_last() =~= s1);
    assert(s1.drop_last() =~= es);
    assert(s2.last() == (v, u, w));
    assert(s2[es.len() as int] == (u, v, w));
    assert(exists|j: int|
        0 <= j < s2.len() - 1 && (#[trigger] s2[j]).0 == u && s2[j].1 == v);
    assert(undirected_edges(s2) == undirected_edges(s1));
    assert(s1.last() == (u, v, w));
    assert(!exists|j: int| 0 <= j < s1.len() - 1 && (#[trigger] s1[j]).0 == v && s1[j].1 == u) by {
        if exists|j: int| 0 <= j < s1.len() - 1 && (#[trigger] s1[j]).0 == v && s1[j].1 == u {
            let j = choose|j: int| 0 <= j < s1.len() - 1 && (#[trigger] s1[j]).0 == v && s1[j].1
                == u;
            assert(edge_pairs(es)[j] == (v, u));
            assert(seq_has_edge(es, v, u));
        }
    }
    assert(undirected_edges(s1) == undirected_edges(es).push((u, v, w)));
}

/// Undirected symmetry: when inserting the logical edge between `u` and `v`
/// succeeds over stored edges `es`, both stored orientations carry the given
/// weight, and the logical enumeration gains exactly one triple for the
/// unordered pair, which it did not hold before.
pub proof fn lemma_undirected_symmetry<W>(es: Seq<(usize, usize, W)>, u: usize, v: usize, w: W)
    requires
        edge_pairs(es).no_duplicates(),
        !seq_has_edge(es, u, v),
        !seq_has_edge(es, v, u),
        u != v,
    ensures
        ({
            let es2 = es.push((u, v, w)).push((v, u, w));
            &&& seq_has_edge(es2, u, v) && seq_edge_weight(es2, u, v) == w
            &&& seq_has_edge(es2, v, u) && seq_edge_weight(es2, v, u) == w
            &&& undirected_edges(es2) == undirected_edges(es).push((u, v, w))
            &&& !seq_has_edge(undirected_edges(es), u, v)
            &&& !seq_has_edge(undirected_edges(es), v, u)
        }),
{
    let s1 = es.push((u, v, w));
    let s2 = s1.push((v, u, w));
    lemma_edges_push(es, (u, v, w));
    assert(!seq_has_edge(s1, v, u)) by {
        if seq_has_edge(s1, v, u) {
            assert(seq_has_edge(es, v, u) || (v == u && u == v));
        }
    }
    lemma_edges_push(s1, (v, u, w));
    lemma_undirected_edges_double_push(es, u, v, w);
    lemma_undirected_edges_props(es);
}

/// A view reinterpreting its backend's stored directed edges as undirected
/// logical edges: inserting a logical edge stores both directions with the
/// same weight, and enumeration reports one triple per unordered pair.
pub struct Undirected<G: Graph>(pub G);

impl<G: Graph> Undirected<G> {
    pub fn new_from(graph: G) -> (r: Self)
        ensures
            r.0 == graph,
    {
        Self(graph)
    }
}

impl<G: Graph> From<G> for Undirected<G> {
    fn from(g: G) -> (r: Self)
        ensures
            r.0 == g,
    {
        Undirected::new_from(g)
    }
}

impl<G: Graph> vstd::std_specs::convert::FromSpecImpl<G> for Undirected<G> {
    open spec fn obeys_from_spec() -> bool {
        true
    }

    open spec fn from_spec(g: G) -> Self {
        Undirected(g)
    }
}

/// An undirected view over a fresh hash-backed store.
pub fn new_hashed_undirected<W: Copy, T>() -> (r: Undirected<HashGraph<W, T>>)
    ensures
        r.0.wf(),
        r.0.spec_nodes() == Seq::<Node<T>>::empty(),
        r.0.spec_edges() == Seq::<(usize, usize, W)>::empty(),
        r.0.spec_num_nodes() == 0,
        r.0.spec_num_edges() == 0,
        forall|x: usize, y: usize| !(#[trigger] r.0.has_edge(x, y)),
{
    Undirected(HashGraph::new())
}

impl<W: Copy, T> Graph for Undirected<HashGraph<W, T>> {
    type Weight = W;

    type Value = T;

    open spec fn wf(&self) -> bool {
        self.0.wf()
    }

    open spec fn spec_nodes(&self) -> Seq<Node<T>> {
        self.0.spec_nodes()
    }

    open spec fn has_edge(&self, u: usize, v: usize) -> bool {
        self.0.has_edge(u, v)
    }

    open spec fn edge_weight(&self, u: usize, v: usize) -> W {
        self.0.edge_weight(u, v)
    }

    open spec fn spec_edges(&self) -> Seq<(usize, usize, W)> {
        undirected_edges(self.0.spec_edges())
    }

    /// Reports the backing store's stored-edge count rather than its node
    /// count; a caller that wants the node count asks the backend itself.
    open spec fn spec_num_nodes(&self) -> int {
        self.0.spec_num_edges()
    }

    open spec fn spec_num_edges(&self) -> int {
        self.0.spec_num_edges() / 2
    }

    proof fn wf_facts(&self) {
        self.0.wf_facts();
        lemma_undirected_edges_props(self.0.spec_edges());
        let kept = undirected_edges(self.0.spec_edges());
        assert forall|i: int| 0 <= i < kept.len() implies self.has_edge(
            (#[trigger] kept[i]).0,
            kept[i].1,
        ) && self.edge_weight(kept[i].0, kept[i].1) == kept[i].2 by {
            let j = choose|j: int|
                0 <= j < self.0.spec_edges().len() && self.0.spec_edges()[j] == kept[i];
            lemma_weight_at_index(self.0.spec_edges(), j);
            lemma_weight_at_index(kept, i);
        }
    }

    fn get_node(&self, id: &usize) -> (r: Option<&Node<T>>) {
        self.0.get_node(id)
    }

    fn get_node_mut(&mut self, id: &usize) -> (r: Option<&mut Node<T>>) {
        self.0.get_node_mut(id)
    }

    fn add_node_with(&mut self, id: usize, value: T) -> (r: GraphResult) {
        self.0.add_node_with(id, value)
    }

    fn contains_node(&self, id: &usize) -> (r: bool) {
        self.0.contains_node(id)
    }

    fn add_edge_with(&mut self, u: &usize, v: &usize, weight: W) -> (r: GraphResult)
        ensures
            r is Ok <==> (contains_id(old(self).spec_nodes(), *u) && contains_id(
                old(self).spec_nodes(),
                *v,
            ) && !old(self).has_edge(*u, *v) && !old(self).has_edge(*v, *u) && *u != *v),
            r is Ok ==> final(self).has_edge(*v, *u) && final(self).edge_weight(*v, *u) == weight
                && final(self).0.spec_edges() == old(self).0.spec_edges().push(
                (*u, *v, weight),
            ).push((*v, *u, weight)),
            (r is Err && r->Err_0 is IdDoesNotExist) ==> *final(self) == *old(self),
            (r is Err && r->Err_0 is EdgeAlreadyExists) ==> ((old(self).has_edge(*u, *v)
                && *final(self) == *old(self)) || (!old(self).has_edge(*u, *v) && (old(
                self,
            ).has_edge(*v, *u) || *u
                == *v) && final(self).0.spec_edges() == old(self).0.spec_edges().push(
                (*u, *v, weight),
            ) && final(self).0.spec_nodes() == old(self).0.spec_nodes())),
    {
        proof {
            self.0.wf_facts();
        }
        let res = self.0.add_edge_with(u, v, weight);
        match res {
            Err(e) => {
                proof {
                    lemma_undirected_edges_props(self.0.spec_edges());
                }
                Err(e)
            },
            Ok(()) => {
                let ghost mid = self.0;
                let ghost es0 = old(self).0.spec_edges();
                let res2 = self.0.add_edge_with(v, u, weight);
                proof {
                    mid.wf_facts();
                    self.0.wf_facts();
                    lemma_edges_push(es0, (*u, *v, weight));
                    assert(mid.spec_edges() == es0.push((*u, *v, weight)));
                    if res2 is Ok {
                        assert(*u != *v) by {
                            if *u == *v {
                                assert(seq_has_edge(mid.spec_edges(), *v, *u));
                                assert(mid.has_edge(*v, *u));
                            }
                        }
                        assert(!old(self).has_edge(*v, *u)) by {
                            if old(self).has_edge(*v, *u) {
                                assert(seq_has_edge(mid.spec_edges(), *v, *u));
                                assert(mid.has_edge(*v, *u));
                            }
                        }
                        lemma_undirected_edges_double_push(es0, *u, *v, weight);
                        lemma_undirected_edges_props(es0);
                        assert(self.0.spec_edges() == es0.push((*u, *v, weight)).push(
                            (*v, *u, weight),
                        ));
                        assert(self.spec_edges() == undirected_edges(es0).push((*u, *v, weight)));
                        assert((es0.len() as int + 2) / 2 == es0.len() as int / 2 + 1);
                        assert(mid.has_edge(*u, *v) && mid.edge_weight(*u, *v) == weight);
                        assert(!seq_has_edge(mid.spec_edges(), *v, *u));
                        lemma_edges_push(mid.spec_edges(), (*v, *u, weight));
                        assert(seq_has_edge(mid.spec_edges(), *u, *v));
                        assert(seq_has_edge(self.0.spec_edges(), *u, *v));
                        assert(self.0.has_edge(*u, *v) && self.0.edge_weight(*u, *v) == weight);
                        assert forall|x: usize, y: usize| old(self).has_edge(x, y) implies
                            #[trigger] self.has_edge(x, y) && self.edge_weight(x, y) == old(
                            self,
                        ).edge_weight(x, y) by {
                            assert(seq_has_edge(es0, x, y));
                            assert(seq_has_edge(mid.spec_edges(), x, y));
                            assert(seq_has_edge(self.0.spec_edges(), x, y));
                            assert(seq_edge_weight(self.0.spec_edges(), x, y) == seq_edge_weight(
                                es0,
                                x,
                                y,
                            ));
                        }
                        assert forall|x: usize, y: usize| #[trigger] self.has_edge(x, y) implies
                            old(self).has_edge(x, y) || (x == *u && y == *v) || (x == *v && y
                            == *u) by {
                            assert(seq_has_edge(self.0.spec_edges(), x, y));
                            if !(x == *v && y == *u) {
                                assert(seq_has_edge(mid.spec_edges(), x, y));
                                if !(x == *u && y == *v) {
                                    assert(seq_has_edge(es0, x, y));
                                }
                            }
                        }
                    } else {
                        assert(res2 is Err && res2->Err_0 is EdgeAlreadyExists);
                        assert(mid.has_edge(*v, *u));
                        assert(seq_has_edge(mid.spec_edges(), *v, *u));
                        assert(old(self).has_edge(*v, *u) || *u == *v) by {
                            if !seq_has_edge(es0, *v, *u) {
                                assert(*v == *u);
                            }
                        }
                    }
                }
                res2
            },
        }
    }

    fn contains_edge(&self, u: &usize, v: &usize) -> (r: bool) {
        self.0.contains_edge(u, v)
    }

    fn get_weight(&self, u: &usize, v: &usize) -> (r: Option<&W>) {
        self.0.get_weight(u, v)
    }

    fn get_adjacent(&self, node: &usize) -> (r: Vec<usize>) {
        self.0.get_adjacent(node)
    }

    fn nodes(&self) -> (r: Vec<&Node<T>>) {
        self.0.nodes()
    }

    #[verifier::loop_isolation(false)]
    fn edges(&self) -> (r: Vec<(usize, usize, W)>) {
        proof {
            self.0.wf_facts();
        }
        let backend_edges = self.0.edges();
        let mut seen = pair_set_new();
        let mut out: Vec<(usize, usize, W)> = Vec::new();
        let ghost es = self.0.spec_edges();
        proof {
            assert(es.take(0) =~= Seq::<(usize, usize, W)>::empty());
            assert(undirected_edges(es.take(0)) =~= Seq::<(usize, usize, W)>::empty());
        }
        for i in 0..backend_edges.len()
            invariant
                out@ == undirected_edges(es.take(i as int)),
                forall|a: usize, b: usize|
                    #[trigger] pair_set_model(seen).contains((a, b)) <==> seq_has_edge(
                        undirected_edges(es.take(i as int)),
                        a,
                        b,
                    ),
        {
            let (u, v, w) = backend_edges[i];
            let ghost pre = es.take(i as int);
            let ghost cur = es.take(i as int + 1);
            proof {
                assert(cur =~= pre.push((u, v, w)));
                assert(cur.drop_last() =~= pre);
                assert(edge_pairs(pre) =~= edge_pairs(es).take(i as int));
                assert(edge_pairs(pre).no_duplicates()) by {
                    assert forall|a: int, b: int|
                        0 <= a < b < edge_pairs(pre).len() implies edge_pairs(es)[a] != edge_pairs(
                        es,
                    )[b] by {}
                }
                lemma_undirected_edges_props(pre);
                // the spec suppression test and the seen-set test agree
                assert((exists|j: int|
                    0 <= j < cur.len() - 1 && (#[trigger] cur[j]).0 == v && cur[j].1 == u)
                    <==> seq_has_edge(undirected_edges(pre), v, u)) by {
                    if exists|j: int|
                        0 <= j < cur.len() - 1 && (#[trigger] cur[j]).0 == v && cur[j].1 == u {
                        let j = choose|j: int|
                            0 <= j < cur.len() - 1 && (#[trigger] cur[j]).0 == v && cur[j].1 == u;
                        assert(edge_pairs(pre)[j] == (v, u));
                        assert(seq_has_edge(pre, v, u));
                        if !seq_has_edge(undirected_edges(pre), v, u) {
                            assert(seq_has_edge(undirected_edges(pre), u, v));
                            assert(seq_has_edge(pre, u, v));
                            let m = choose|m: int|
                                0 <= m < pre.len() && edge_pairs(pre)[m] == (u, v);
                            assert(edge_pairs(es)[m] == (u, v));
                            assert(edge_pairs(es)[i as int] == (u, v));
                            assert(false);
                        }
                    }
                    if seq_has_edge(undirected_edges(pre), v, u) {
                        assert(seq_has_edge(pre, v, u));
                        let j = choose|j: int|
                            0 <= j < pre.len() && edge_pairs(pre)[j] == (v, u);
                        assert(cur[j].0 == v && cur[j].1 == u);
                    }
                }
            }
            if !pair_set_contains(&seen, (v, u)) {
                out.push((u, v, w));
                pair_set_insert(&mut seen, (u, v));
                proof {
                    assert(out@ == undirected_edges(pre).push((u, v, w)));
                    assert(out@ == undirected_edges(cur));
                    lemma_edge_pairs_push(undirected_edges(pre), (u, v, w));
                    assert forall|a: usize, b: usize|
                        #[trigger] pair_set_model(seen).contains((a, b)) <==> seq_has_edge(
                            undirected_edges(cur),
                            a,
                            b,
                        ) by {
                        if pair_set_model(seen).contains((a, b)) {
                            if (a, b) == (u, v) {
                                assert(edge_pairs(undirected_edges(cur))[undirected_edges(
                                    pre,
                                ).len() as int] == (u, v));
                            } else {
                                assert(seq_has_edge(undirected_edges(pre), a, b));
                                let j = choose|j: int|
                                    0 <= j < undirected_edges(pre).len() && edge_pairs(
                                        undirected_edges(pre),
                                    )[j] == (a, b);
                                assert(edge_pairs(undirected_edges(cur))[j] == (a, b));
                            }
                        }
                        if seq_has_edge(undirected_edges(cur), a, b) {
                            let j = choose|j: int|
                                0 <= j < undirected_edges(cur).len() && edge_pairs(
                                    undirected_edges(cur),
                                )[j] == (a, b);
                            if j < undirected_edges(pre).len() {
                                assert(edge_pairs(undirected_edges(pre))[j] == (a, b));
                            } else {
                                assert((a, b) == (u, v));
                            }
                        }
                    }
                }
            } else {
                proof {
                    assert(out@ == undirected_edges(cur));
                }
            }
        }
        proof {
            assert(es.take(es.len() as int) =~= es);
        }
        out
    }

    fn num_nodes(&self) -> (r: usize) {
        self.0.num_edges()
    }

    fn num_edges(&self) -> (r: usize) {
        self.0.num_edges() / 2
    }

    fn take_nodes(self) -> (r: Vec<Node<T>>) {
        self.0.take_nodes()
    }
}

impl<W: Copy, T: Default> Undirected<HashGraph<W, T>> {
    /// Adds one node per id, each carrying a freshly produced default
    /// payload, and stops at the first id that is already present.
    pub fn add_nodes(&mut self, ids: Vec<usize>) -> (r: GraphResult)
        requires
            old(self).wf(),
        ensures
            final(self).wf(),
            final(self).0.spec_edges() == old(self).0.spec_edges(),
            (match r {
                Ok(()) => {
                    &&& final(self).spec_nodes().len() == old(self).spec_nodes().len()
                        + ids@.len()
                    &&& forall|i: int|
                        0 <= i < old(self).spec_nodes().len() ==> #[trigger] final(self).spec_nodes()[i] == old(self).spec_nodes()[i]
                    &&& forall|j: int|
                        0 <= j < ids@.len() ==> (#[trigger] final(self).spec_nodes()[old(
                            self,
                        ).spec_nodes().len() + j]).id == ids@[j]
                    &&& ids@.no_duplicates()
                    &&& forall|k: int|
                        0 <= k < ids@.len() ==> !contains_id(
                            old(self).spec_nodes(),
                            #[trigger] ids@[k],
                        )
                },
                Err(GraphError::IdExists) => exists|k: int|
                    {
                        &&& 0 <= k < ids@.len()
                        &&& final(self).spec_nodes().len() == old(self).spec_nodes().len() + k
                        &&& forall|j: int|
                            0 <= j < k ==> (#[trigger] final(self).spec_nodes()[old(
                                self,
                            ).spec_nodes().len() + j]).id == ids@[j]
                        &&& contains_id(final(self).spec_nodes(), ids@[k])
                    },
                Err(_) => false,
            }),
            (ids@.no_duplicates() && forall|k: int|
                0 <= k < ids@.len() ==> !contains_id(old(self).spec_nodes(), #[trigger] ids@[k]))
                ==> r is Ok,
    {
        self.0.add_nodes(ids)
    }

    /// Adds one node under `id` with a freshly produced default payload.
    pub fn add_node(&mut self, id: usize) -> (r: GraphResult)
        requires
            old(self).wf(),
        ensures
            final(self).wf(),
            final(self).0.spec_edges() == old(self).0.spec_edges(),
            r is Ok <==> !contains_id(old(self).spec_nodes(), id),
            (match r {
                Ok(()) => {
                    &&& final(self).spec_nodes().len() == old(self).spec_nodes().len() + 1
                    &&& forall|i: int|
                        0 <= i < old(self).spec_nodes().len() ==> #[trigger] final(self).spec_nodes()[i] == old(self).spec_nodes()[i]
                    &&& final(self).spec_nodes().last().id == id
                },
                Err(GraphError::IdExists) => *final(self) == *old(self),
                Err(_) => false,
            }),
    {
        self.0.add_node(id)
    }
}

impl<W: Copy + Default, T> Undirected<HashGraph<W, T>> {
    /// Adds the logical edge between `u` and `v` carrying a freshly produced
    /// default weight in both stored directions.
    pub fn add_edge(&mut self, u: &usize, v: &usize) -> (r: GraphResult)
        requires
            old(self).wf(),
        ensures
            final(self).wf(),
            r is Ok <==> (contains_id(old(self).spec_nodes(), *u) && contains_id(
                old(self).spec_nodes(),
                *v,
            ) && !old(self).has_edge(*u, *v) && !old(self).has_edge(*v, *u) && *u != *v),
            r is Ok ==> final(self).has_edge(*u, *v) && final(self).has_edge(*v, *u) && final(self).edge_weight(*u, *v) == final(self).edge_weight(*v, *u) && call_ensures(
                W::default,
                (),
                final(self).edge_weight(*u, *v),
            ),
    {
        self.add_edge_with(u, v, W::default())
    }
}

} // verus!
