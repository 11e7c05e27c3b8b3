use vstd::prelude::*;

use crate::graph::{
    contains_id, edge_index, edge_pairs, id_index, node_with_id, seq_edge_weight, seq_has_edge,
    reversed_edges, seq_ids, Graph, GraphError, GraphResult, GraphReverse,
};
use crate::node::Node;

verus! {

broadcast use vstd::seq_lib::group_seq_properties;

/// The canonical storage backend: nodes and directed weighted edges in
/// insertion order, together with the two reported counters.
pub struct HashGraph<W = (), T = ()> {
    nodes: Vec<Node<T>>,
    edges: Vec<(usize, usize, W)>,
    num_nodes: usize,
    num_edges: usize,
}

/// The ids of a pushed node sequence are the pushed ids.
pub broadcast proof fn lemma_seq_ids_push<V>(ns: Seq<Node<V>>, n: Node<V>)
    ensures
        #[trigger] seq_ids(ns.push(n)) == seq_ids(ns).push(n.id),
{
    assert(seq_ids(ns.push(n)) =~= seq_ids(ns).push(n.id));
}

/// Updating one node updates one id.
pub broadcast proof fn lemma_seq_ids_update<V>(ns: Seq<Node<V>>, i: int, n: Node<V>)
    requires
        0 <= i < ns.len(),
    ensures
        #[trigger] seq_ids(ns.update(i, n)) == seq_ids(ns).update(i, n.id),
{
    assert(seq_ids(ns.update(i, n)) =~= seq_ids(ns).update(i, n.id));
}

/// Replacing a node by one carrying the same id keeps the id sequence.
pub broadcast proof fn lemma_seq_ids_update_same_id<V>(ns: Seq<Node<V>>, i: int, n: Node<V>)
    requires
        0 <= i < ns.len(),
        n.id == ns[i].id,
    ensures
        #[trigger] seq_ids(ns.update(i, n)) == seq_ids(ns),
{
    assert(seq_ids(ns.update(i, n)) =~= seq_ids(ns));
}

/// The pairs of a pushed edge sequence are the pushed pair.
pub broadcast proof fn lemma_edge_pairs_push<W>(es: Seq<(usize, usize, W)>, e: (usize, usize, W))
    ensures
        #[trigger] edge_pairs(es.push(e)) == edge_pairs(es).push((e.0, e.1)),
{
    assert(edge_pairs(es.push(e)) =~= edge_pairs(es).push((e.0, e.1)));
}

/// How pushing a fresh edge onto a duplicate-free edge sequence changes the
/// stored-edge relation and its weights.
pub proof fn lemma_edges_push<W>(es: Seq<(usize, usize, W)>, e: (usize, usize, W))
    requires
        edge_pairs(es).no_duplicates(),
        !seq_has_edge(es, e.0, e.1),
    ensures
        edge_pairs(es.push(e)).no_duplicates(),
        seq_has_edge(es.push(e), e.0, e.1),
        seq_edge_weight(es.push(e), e.0, e.1) == e.2,
        forall|x: usize, y: usize|
            #[trigger] seq_has_edge(es, x, y) ==> seq_has_edge(es.push(e), x, y)
                && seq_edge_weight(es.push(e), x, y) == seq_edge_weight(es, x, y),
        forall|x: usize, y: usize|
            #[trigger] seq_has_edge(es.push(e), x, y) ==> seq_has_edge(es, x, y) || (x == e.0 && y
                == e.1),
{
    broadcast use lemma_edge_pairs_push;

    let post = es.push(e);
    assert(edge_pairs(post).no_duplicates());
    assert(edge_pairs(post)[es.len() as int] == (e.0, e.1));
    assert(seq_has_edge(post, e.0, e.1));
    lemma_weight_at_index(post, es.len() as int);
    assert forall|x: usize, y: usize| #[trigger] seq_has_edge(es, x, y) implies seq_has_edge(
        post,
        x,
        y,
    ) && seq_edge_weight(post, x, y) == seq_edge_weight(es, x, y) by {
        let i = choose|i: int| 0 <= i < es.len() && edge_pairs(es)[i] == (x, y);
        assert(edge_pairs(post)[i] == (x, y));
        assert(es[i].0 == x && es[i].1 == y);
        lemma_weight_at_index(es, i);
        lemma_weight_at_index(post, i);
    }
    assert forall|x: usize, y: usize| #[trigger] seq_has_edge(post, x, y) implies seq_has_edge(
        es,
        x,
        y,
    ) || (x == e.0 && y == e.1) by {
        let i = choose|i: int| 0 <= i < post.len() && edge_pairs(post)[i] == (x, y);
        if i < es.len() {
            assert(edge_pairs(es)[i] == (x, y));
        }
    }
}

/// On a duplicate-free edge sequence, the weight looked up for the pair at
/// index `i` is the weight stored at index `i`.
pub proof fn lemma_weight_at_index<W>(es: Seq<(usize, usize, W)>, i: int)
    requires
        edge_pairs(es).no_duplicates(),
        0 <= i < es.len(),
    ensures
        seq_has_edge(es, es[i].0, es[i].1),
        seq_edge_weight(es, es[i].0, es[i].1) == es[i].2,
        edge_index(es, es[i].0, es[i].1) == i,
{
    assert(edge_pairs(es)[i] == (es[i].0, es[i].1));
    let j = edge_index(es, es[i].0, es[i].1);
    assert(0 <= j < es.len() && es[j].0 == es[i].0 && es[j].1 == es[i].1);
    assert(edge_pairs(es)[j] == edge_pairs(es)[i]);
}

/// On a node sequence with distinct ids, the node looked up for the id at
/// index `i` is the node at index `i`.
pub proof fn lemma_node_at_index<V>(ns: Seq<Node<V>>, i: int)
    requires
        seq_ids(ns).no_duplicates(),
        0 <= i < ns.len(),
    ensures
        contains_id(ns, ns[i].id),
        id_index(ns, ns[i].id) == i,
        node_with_id(ns, ns[i].id) == ns[i],
{
    assert(seq_ids(ns)[i] == ns[i].id);
    let j = id_index(ns, ns[i].id);
    assert(0 <= j < ns.len() && ns[j].id == ns[i].id);
    assert(seq_ids(ns)[j] == seq_ids(ns)[i]);
}

impl<W: Copy, T> HashGraph<W, T> {
    /// The index of the node carrying `id`, if any.
    fn find_node_index(&self, id: &usize) -> (r: Option<usize>)
        ensures
            (match r {
                Some(i) => i < self.nodes@.len() && self.nodes@[i as int].id == *id,
                None => !contains_id(self.nodes@, *id),
            }),
    {
        for i in 0..self.nodes.len()
            invariant
                forall|j: int| 0 <= j < i ==> (#[trigger] self.nodes@[j]).id != *id,
        {
            if self.nodes[i].is_id(id) {
                return Some(i);
            }
        }
        proof {
            assert forall|k: int| 0 <= k < seq_ids(self.nodes@).len() implies seq_ids(self.nodes@)[k]
                != *id by {
                assert(seq_ids(self.nodes@)[k] == self.nodes@[k].id);
            }
        }
        None
    }

    /// The index of the stored edge from `u` to `v`, if any.
    fn find_edge_index(&self, u: &usize, v: &usize) -> (r: Option<usize>)
        ensures
            (match r {
                Some(i) => i < self.edges@.len() && self.edges@[i as int].0 == *u
                    && self.edges@[i as int].1 == *v,
                None => !seq_has_edge(self.edges@, *u, *v),
            }),
    {
        for i in 0..self.edges.len()
            invariant
                forall|j: int|
                    0 <= j < i ==> !((#[trigger] self.edges@[j]).0 == *u && self.edges@[j].1 == *v),
        {
            if self.edges[i].0 == *u && self.edges[i].1 == *v {
                return Some(i);
            }
        }
        proof {
            assert forall|k: int| 0 <= k < edge_pairs(self.edges@).len() implies edge_pairs(
                self.edges@,
            )[k] != (*u, *v) by {
                assert(edge_pairs(self.edges@)[k] == (self.edges@[k].0, self.edges@[k].1));
            }
        }
        None
    }
}

impl<W: Copy, T> Graph for HashGraph<W, T> {
    type Weight = W;

    type Value = T;

    closed spec fn wf(&self) -> bool {
        &&& self.num_nodes == self.nodes@.len()
        &&& self.num_edges == self.edges@.len()
        &&& seq_ids(self.nodes@).no_duplicates()
        &&& edge_pairs(self.edges@).no_duplicates()
        &&& forall|i: int|
            0 <= i < self.edges@.len() ==> contains_id(
                self.nodes@,
                (#[trigger] self.edges@[i]).0,
            ) && contains_id(self.nodes@, self.edges@[i].1)
    }

    closed spec fn spec_nodes(&self) -> Seq<Node<T>> {
        self.nodes@
    }

    closed spec fn has_edge(&self, u: usize, v: usize) -> bool {
        seq_has_edge(self.edges@, u, v)
    }

    closed spec fn edge_weight(&self, u: usize, v: usize) -> W {
        seq_edge_weight(self.edges@, u, v)
    }

    closed spec fn spec_edges(&self) -> Seq<(usize, usize, W)> {
        self.edges@
    }

    closed spec fn spec_num_nodes(&self) -> int {
        self.num_nodes as int
    }

    closed spec fn spec_num_edges(&self) -> int {
        self.num_edges as int
    }

    proof fn wf_facts(&self)
        ensures
            forall|u: usize, v: usize|
                #[trigger] self.has_edge(u, v) == seq_has_edge(self.spec_edges(), u, v),
            forall|u: usize, v: usize|
                self.has_edge(u, v) ==> #[trigger] self.edge_weight(u, v) == seq_edge_weight(
                    self.spec_edges(),
                    u,
                    v,
                ),
            self.spec_num_nodes() == self.spec_nodes().len(),
            self.spec_num_edges() == self.spec_edges().len(),
    {
        let es = self.edges@;
        assert forall|u: usize, v: usize| #[trigger] self.has_edge(u, v) implies contains_id(
            self.spec_nodes(),
            u,
        ) && contains_id(self.spec_nodes(), v) by {
            let i = choose|i: int| 0 <= i < es.len() && edge_pairs(es)[i] == (u, v);
            assert(es[i].0 == u && es[i].1 == v);
        }
        assert forall|i: int| 0 <= i < es.len() implies self.has_edge(
            (#[trigger] es[i]).0,
            es[i].1,
        ) && self.edge_weight(es[i].0, es[i].1) == es[i].2 by {
            lemma_weight_at_index(es, i);
        }
    }

    fn get_node(&self, id: &usize) -> (r: Option<&Node<T>>) {
        match self.find_node_index(id) {
            None => None,
            Some(i) => {
                proof {
                    lemma_node_at_index(self.nodes@, i as int);
                }
                Some(&self.nodes[i])
            },
        }
    }

    fn get_node_mut(&mut self, id: &usize) -> (r: Option<&mut Node<T>>) {
        broadcast use lemma_seq_ids_update, lemma_seq_ids_update_same_id;

        match self.find_node_index(id) {
            None => None,
            Some(i) => {
                proof {
                    lemma_node_at_index(self.nodes@, i as int);
                }
                Some(&mut self.nodes[i])
            },
        }
    }

    fn add_node_with(&mut self, id: usize, value: T) -> (r: GraphResult)
        ensures
            r is Ok <==> !contains_id(old(self).spec_nodes(), id),
            r is Ok ==> final(self).spec_num_nodes() == old(self).spec_num_nodes() + 1,
            r is Err ==> *final(self) == *old(self),
    {
        broadcast use lemma_seq_ids_push;

        let n = Node::new(id, value);
        if self.find_node_index(n.get_id()).is_some() {
            proof {
                let i = choose|i: int| 0 <= i < self.nodes@.len() && self.nodes@[i].id == id;
                assert(seq_ids(self.nodes@)[i] == id);
            }
            return Err(GraphError::IdExists);
        }
        self.nodes.push(n);
        proof {
            assert(self.nodes@.len() <= usize::MAX) by {
                vstd::std_specs::vec::axiom_spec_len(&self.nodes);
            }
        }
        self.num_nodes = self.num_nodes + 1;
        Ok(())
    }

    fn contains_node(&self, id: &usize) -> (r: bool) {
        match self.find_node_index(id) {
            Some(i) => {
                proof {
                    assert(seq_ids(self.nodes@)[i as int] == *id);
                }
                true
            },
            None => false,
        }
    }

    fn add_edge_with(&mut self, u: &usize, v: &usize, weight: W) -> (r: GraphResult)
        ensures
            r is Ok <==> (contains_id(old(self).spec_nodes(), *u) && contains_id(
                old(self).spec_nodes(),
                *v,
            ) && !old(self).has_edge(*u, *v)),
            r is Ok ==> final(self).spec_num_nodes() == old(self).spec_num_nodes(),
            r is Ok ==> forall|x: usize, y: usize|
                #[trigger] final(self).has_edge(x, y) ==> old(self).has_edge(x, y) || (x == *u && y
                    == *v),
            r is Err ==> *final(self) == *old(self),
            (r is Err && r->Err_0 is EdgeAlreadyExists) ==> old(self).has_edge(*u, *v),
    {
        if !self.contains_node(u) {
            return Err(GraphError::IdDoesNotExist);
        } else if !self.contains_node(v) {
            return Err(GraphError::IdDoesNotExist);
        }
        if self.find_edge_index(u, v).is_some() {
            proof {
                let i = choose|i: int|
                    0 <= i < self.edges@.len() && self.edges@[i].0 == *u && self.edges@[i].1 == *v;
                assert(edge_pairs(self.edges@)[i] == (*u, *v));
            }
            return Err(GraphError::EdgeAlreadyExists);
        }
        proof {
            lemma_edges_push(self.edges@, (*u, *v, weight));
        }
        self.edges.push((*u, *v, weight));
        proof {
            assert(self.edges@.len() <= usize::MAX) by {
                vstd::std_specs::vec::axiom_spec_len(&self.edges);
            }
        }
        self.num_edges = self.num_edges + 1;
        Ok(())
    }

    fn contains_edge(&self, u: &usize, v: &usize) -> (r: bool) {
        if !self.contains_node(u) || !self.contains_node(v) {
            proof {
                if self.has_edge(*u, *v) {
                    self.wf_facts();
                }
            }
            return false;
        }
        match self.find_edge_index(u, v) {
            Some(i) => {
                proof {
                    assert(edge_pairs(self.edges@)[i as int] == (*u, *v));
                }
                true
            },
            None => false,
        }
    }

    fn get_weight(&self, u: &usize, v: &usize) -> (r: Option<&W>) {
        match self.find_edge_index(u, v) {
            None => None,
            Some(i) => {
                proof {
                    lemma_weight_at_index(self.edges@, i as int);
                }
                Some(&self.edges[i].2)
            },
        }
    }

    fn get_adjacent(&self, node: &usize) -> (r: Vec<usize>) {
        let mut out: Vec<usize> = Vec::new();
        for i in 0..self.edges.len()
            invariant
                self.wf(),
                out@.no_duplicates(),
                forall|v: usize|
                    out@.contains(v) <==> exists|j: int|
                        0 <= j < i && (#[trigger] self.edges@[j]).0 == *node && self.edges@[j].1
                            == v,
        {
            let (a, b, _) = self.edges[i];
            if a == *node {
                proof {
                    if out@.contains(b) {
                        let j = choose|j: int|
                            0 <= j < i && (#[trigger] self.edges@[j]).0 == *node
                                && self.edges@[j].1 == b;
                        assert(edge_pairs(self.edges@)[j] == (*node, b));
                        assert(edge_pairs(self.edges@)[i as int] == (*node, b));
                        assert(false);
                    }
                }
                out.push(b);
            }
        }
        proof {
            assert forall|v: usize| out@.contains(v) <==> #[trigger] self.has_edge(*node, v) by {
                if out@.contains(v) {
                    let j = choose|j: int|
                        0 <= j < self.edges@.len() && (#[trigger] self.edges@[j]).0 == *node
                            && self.edges@[j].1 == v;
                    assert(edge_pairs(self.edges@)[j] == (*node, v));
                }
                if self.has_edge(*node, v) {
                    let j = choose|j: int|
                        0 <= j < self.edges@.len() && edge_pairs(self.edges@)[j] == (*node, v);
                    assert(self.edges@[j].0 == *node && self.edges@[j].1 == v);
                }
            }
        }
        out
    }

    fn nodes(&self) -> (r: Vec<&Node<T>>) {
        let mut out: Vec<&Node<T>> = Vec::new();
        for i in 0..self.nodes.len()
            invariant
                out@.len() == i,
                forall|j: int| 0 <= j < i ==> *#[trigger] out@[j] == self.nodes@[j],
        {
            out.push(&self.nodes[i]);
        }
        out
    }

    fn edges(&self) -> (r: Vec<(usize, usize, W)>) {
        let mut out: Vec<(usize, usize, W)> = Vec::new();
        for i in 0..self.edges.len()
            invariant
                out@.len() == i,
                forall|j: int| 0 <= j < i ==> #[trigger] out@[j] == self.edges@[j],
        {
            out.push(self.edges[i]);
        }
        proof {
            assert(out@ =~= self.edges@);
        }
        out
    }

    fn num_nodes(&self) -> (r: usize) {
        self.num_nodes
    }

    fn num_edges(&self) -> (r: usize) {
        self.num_edges
    }

    fn take_nodes(self) -> (r: Vec<Node<T>>) {
        self.nodes
    }
}

impl<W: Copy, T> Default for HashGraph<W, T> {
    /// The empty graph.
    fn default() -> (r: Self)
        ensures
            r.wf(),
            r.spec_nodes() == Seq::<Node<T>>::empty(),
            r.spec_edges() == Seq::<(usize, usize, W)>::empty(),
            r.spec_num_nodes() == 0,
            r.spec_num_edges() == 0,
            forall|x: usize, y: usize| !(#[trigger] r.has_edge(x, y)),
    {
        let r = HashGraph { nodes: Vec::new(), edges: Vec::new(), num_nodes: 0, num_edges: 0 };
        proof {
            assert(seq_ids(r.nodes@) =~= Seq::<usize>::empty());
            assert(edge_pairs(r.edges@) =~= Seq::<(usize, usize)>::empty());
        }
        r
    }
}

impl<W: Copy, T> HashGraph<W, T> {
    /// The empty graph.
    pub fn new() -> (r: Self)
        ensures
            r.wf(),
            r.spec_nodes() == Seq::<Node<T>>::empty(),
            r.spec_edges() == Seq::<(usize, usize, W)>::empty(),
            r.spec_num_nodes() == 0,
            r.spec_num_edges() == 0,
            forall|x: usize, y: usize| !(#[trigger] r.has_edge(x, y)),
    {
        Self::default()
    }
}

/// The ids of a concatenation are the concatenated ids.
pub broadcast proof fn lemma_seq_ids_concat<V>(a: Seq<Node<V>>, b: Seq<Node<V>>)
    ensures
        #[trigger] seq_ids(a + b) == seq_ids(a) + seq_ids(b),
{
    assert(seq_ids(a + b) =~= seq_ids(a) + seq_ids(b));
}

/// A concatenation contains exactly what either part contains.
pub broadcast proof fn lemma_contains_add<A>(a: Seq<A>, b: Seq<A>, x: A)
    ensures
        #[trigger] (a + b).contains(x) <==> a.contains(x) || b.contains(x),
{
    if (a + b).contains(x) {
        let i = choose|i: int| 0 <= i < (a + b).len() && (a + b)[i] == x;
        if i < a.len() {
            assert(a[i] == x);
        } else {
            assert(b[i - a.len()] == x);
        }
    }
    if a.contains(x) {
        let i = choose|i: int| 0 <= i < a.len() && a[i] == x;
        assert((a + b)[i] == x);
    }
    if b.contains(x) {
        let i = choose|i: int| 0 <= i < b.len() && b[i] == x;
        assert((a + b)[a.len() + i] == x);
    }
}

/// The nodes built from an id sequence and one shared payload.
pub open spec fn nodes_from_ids<T>(ids: Seq<usize>, value: T) -> Seq<Node<T>> {
    ids.map_values(|i: usize| Node { id: i, value })
}

/// The ids of `nodes_from_ids` are the given ids.
pub broadcast proof fn lemma_nodes_from_ids_ids<T>(ids: Seq<usize>, value: T)
    ensures
        #[trigger] seq_ids(nodes_from_ids(ids, value)) == ids,
{
    assert(seq_ids(nodes_from_ids(ids, value)) =~= ids);
}

/// Reversing a duplicate-free edge sequence flips the stored-edge relation
/// and carries each weight over.
pub proof fn lemma_reversed_edges_rel<W>(es: Seq<(usize, usize, W)>)
    requires
        edge_pairs(es).no_duplicates(),
    ensures
        edge_pairs(reversed_edges(es)).no_duplicates(),
        forall|x: usize, y: usize|
            #[trigger] seq_has_edge(reversed_edges(es), x, y) <==> seq_has_edge(es, y, x),
        forall|x: usize, y: usize|
            #[trigger] seq_has_edge(es, y, x) ==> seq_edge_weight(reversed_edges(es), x, y)
                == seq_edge_weight(es, y, x),
{
    let rs = reversed_edges(es);
    assert forall|i: int, j: int|
        0 <= i < rs.len() && 0 <= j < rs.len() && i != j implies edge_pairs(rs)[i] != edge_pairs(
        rs,
    )[j] by {
        assert(edge_pairs(rs)[i] == (es[i].1, es[i].0));
        assert(edge_pairs(rs)[j] == (es[j].1, es[j].0));
        assert(edge_pairs(es)[i] == (es[i].0, es[i].1));
        assert(edge_pairs(es)[j] == (es[j].0, es[j].1));
    }
    assert forall|x: usize, y: usize| #[trigger] seq_has_edge(rs, x, y) implies seq_has_edge(
        es,
        y,
        x,
    ) by {
        let i = choose|i: int| 0 <= i < rs.len() && edge_pairs(rs)[i] == (x, y);
        assert(edge_pairs(rs)[i] == (es[i].1, es[i].0));
        assert(edge_pairs(es)[i] == (es[i].0, es[i].1));
        assert(edge_pairs(es)[i] == (y, x));
    }
    assert forall|x: usize, y: usize| #[trigger] seq_has_edge(es, y, x) implies seq_has_edge(
        rs,
        x,
        y,
    ) && seq_edge_weight(rs, x, y) == seq_edge_weight(es, y, x) by {
        let i = choose|i: int| 0 <= i < es.len() && edge_pairs(es)[i] == (y, x);
        assert(es[i].0 == y && es[i].1 == x);
        assert(edge_pairs(rs)[i] == (x, y));
        lemma_weight_at_index(es, i);
        lemma_weight_at_index(rs, i);
        assert(rs[i].2 == es[i].2);
    }
}

/// Counter consistency: in a well-formed backend the reported node count is
/// the number of stored nodes and the reported edge count the number of
/// stored edges, at all times.
pub proof fn lemma_counters_consistent<W: Copy, T>(g: &HashGraph<W, T>)
    requires
        g.wf(),
    ensures
        g.spec_num_nodes() == g.spec_nodes().len(),
        g.spec_num_edges() == g.spec_edges().len(),
{
}

impl<W: Copy, T: Copy> HashGraph<W, T> {
    /// Adds one node per id, all carrying the shared payload `value`, and
    /// stops at the first id that is already present.
    pub fn add_nodes_with(&mut self, ids: Vec<usize>, value: T) -> (r: GraphResult)
        requires
            old(self).wf(),
        ensures
            final(self).wf(),
            final(self).spec_edges() == old(self).spec_edges(),
            forall|x: usize, y: usize|
                #[trigger] final(self).has_edge(x, y) == old(self).has_edge(x, y),
            forall|x: usize, y: usize|
                old(self).has_edge(x, y) ==> #[trigger] final(self).edge_weight(x, y) == old(
                    self,
                ).edge_weight(x, y),
            final(self).spec_num_edges() == old(self).spec_num_edges(),
            (match r {
                Ok(()) => {
                    &&& final(self).spec_nodes() == old(self).spec_nodes() + nodes_from_ids(
                        ids@,
                        value,
                    )
                    &&& ids@.no_duplicates()
                    &&& forall|k: int|
                        0 <= k < ids@.len() ==> !contains_id(
                            old(self).spec_nodes(),
                            #[trigger] ids@[k],
                        )
                },
                Err(GraphError::IdExists) => exists|k: int|
                    {
                        &&& 0 <= k < ids@.len()
                        &&& final(self).spec_nodes() == old(self).spec_nodes() + nodes_from_ids(
                            #[trigger] ids@.take(k),
                            value,
                        )
                        &&& contains_id(final(self).spec_nodes(), ids@[k])
                    },
                Err(_) => false,
            }),
            (ids@.no_duplicates() && forall|k: int|
                0 <= k < ids@.len() ==> !contains_id(old(self).spec_nodes(), #[trigger] ids@[k]))
                ==> r is Ok,
    {
        broadcast use lemma_seq_ids_concat, lemma_contains_add, lemma_nodes_from_ids_ids;

        for idx in 0..ids.len()
            invariant
                self.wf(),
                self.spec_nodes() == old(self).spec_nodes() + nodes_from_ids(
                    ids@.take(idx as int),
                    value,
                ),
                forall|j: int|
                    0 <= j < idx ==> !contains_id(
                        old(self).spec_nodes() + nodes_from_ids(ids@.take(j), value),
                        #[trigger] ids@[j],
                    ),
                self.spec_edges() == old(self).spec_edges(),
                forall|x: usize, y: usize|
                    #[trigger] self.has_edge(x, y) == old(self).has_edge(x, y),
                forall|x: usize, y: usize|
                    old(self).has_edge(x, y) ==> #[trigger] self.edge_weight(x, y) == old(
                        self,
                    ).edge_weight(x, y),
                self.spec_num_edges() == old(self).spec_num_edges(),
        {
            let ghost pre = self.spec_nodes();
            match self.add_node_with(ids[idx], value) {
                Ok(()) => {
                    proof {
                        assert(ids@.take(idx as int + 1) =~= ids@.take(idx as int).push(
                            ids@[idx as int],
                        ));
                        assert(nodes_from_ids(ids@.take(idx as int + 1), value) =~= nodes_from_ids(
                            ids@.take(idx as int),
                            value,
                        ).push(Node { id: ids@[idx as int], value }));
                        assert(self.spec_nodes() =~= old(self).spec_nodes() + nodes_from_ids(
                            ids@.take(idx as int + 1),
                            value,
                        ));
                    }
                },
                Err(e) => {
                    proof {
                        let k = idx as int;
                        let prefix = nodes_from_ids(ids@.take(k), value);
                        assert(contains_id(self.spec_nodes(), ids@[k]));
                        lemma_seq_ids_concat(old(self).spec_nodes(), prefix);
                        lemma_contains_add(seq_ids(old(self).spec_nodes()), seq_ids(prefix), ids@[k]);
                        assert(seq_ids(old(self).spec_nodes()).contains(ids@[k]) || seq_ids(
                            prefix,
                        ).contains(ids@[k]));
                        assert(!(ids@.no_duplicates() && forall|k2: int|
                            0 <= k2 < ids@.len() ==> !contains_id(
                                old(self).spec_nodes(),
                                #[trigger] ids@[k2],
                            ))) by {
                            if forall|k2: int|
                                0 <= k2 < ids@.len() ==> !contains_id(
                                    old(self).spec_nodes(),
                                    #[trigger] ids@[k2],
                                ) {
                                assert(seq_ids(prefix).contains(ids@[k]));
                                assert(ids@.take(k).contains(ids@[k]));
                                let j = choose|j: int|
                                    0 <= j < k && ids@.take(k)[j] == ids@[k];
                                assert(ids@[j] == ids@[k]);
                            }
                        }
                    }
                    return Err(e);
                },
            }
        }
        proof {
            assert(ids@.take(ids@.len() as int) =~= ids@);
            assert forall|k: int| 0 <= k < ids@.len() implies !contains_id(
                old(self).spec_nodes(),
                #[trigger] ids@[k],
            ) by {
                let prefix = nodes_from_ids(ids@.take(k), value);
                assert(!contains_id(old(self).spec_nodes() + prefix, ids@[k]));
                lemma_seq_ids_concat(old(self).spec_nodes(), prefix);
                lemma_contains_add(seq_ids(old(self).spec_nodes()), seq_ids(prefix), ids@[k]);
            }
            assert forall|i: int, j: int|
                0 <= i < ids@.len() && 0 <= j < ids@.len() && i != j implies ids@[i] != ids@[j] by {
                let (lo, hi) = if i < j {
                    (i, j)
                } else {
                    (j, i)
                };
                let prefix = nodes_from_ids(ids@.take(hi), value);
                assert(!contains_id(old(self).spec_nodes() + prefix, ids@[hi]));
                lemma_seq_ids_concat(old(self).spec_nodes(), prefix);
                lemma_contains_add(seq_ids(old(self).spec_nodes()), seq_ids(prefix), ids@[hi]);
                assert(ids@.take(hi)[lo] == ids@[lo]);
                if ids@[lo] == ids@[hi] {
                    assert(seq_ids(prefix).contains(ids@[hi]));
                }
            }
        }
        Ok(())
    }
}

impl<W: Copy, T> HashGraph<W, T> {
    /// Consumes the backend, yielding its node sequence and its flattened
    /// (source, target, weight) edge list.
    pub fn disassemble(self) -> (r: (Vec<Node<T>>, Vec<(usize, usize, W)>))
        ensures
            r.0@ == self.spec_nodes(),
            r.1@ == self.spec_edges(),
    {
        let HashGraph { nodes, edges, num_nodes: _, num_edges: _ } = self;
        (nodes, edges)
    }
}

impl<W: Copy, T> GraphReverse for HashGraph<W, T> {
    fn into_reverse(self) -> (r: Self)
        ensures
            r.spec_nodes() == self.spec_nodes(),
            r.spec_edges() == reversed_edges(self.spec_edges()),
            r.spec_num_nodes() == self.spec_num_nodes(),
            r.spec_num_edges() == self.spec_num_edges(),
            forall|x: usize, y: usize|
                #[trigger] r.has_edge(x, y) <==> self.has_edge(y, x),
            forall|x: usize, y: usize|
                #[trigger] self.has_edge(y, x) ==> r.edge_weight(x, y) == self.edge_weight(y, x),
    {
        let ghost orig = self;
        let mut output = Self::new();
        let (mut nodes, edges) = self.disassemble();
        proof {
            assert(orig.spec_nodes().skip(0) =~= orig.spec_nodes());
            assert(orig.spec_nodes().take(0) =~= Seq::<Node<T>>::empty());
        }
        while nodes.len() > 0
            invariant
                output.wf(),
                nodes@.len() <= orig.spec_nodes().len(),
                nodes@ == orig.spec_nodes().skip(
                    orig.spec_nodes().len() - nodes@.len(),
                ),
                output.spec_nodes() == orig.spec_nodes().take(
                    orig.spec_nodes().len() - nodes@.len(),
                ),
                output.spec_edges() == Seq::<(usize, usize, W)>::empty(),
                seq_ids(orig.spec_nodes()).no_duplicates(),
            decreases nodes@.len(),
        {
            let ghost k = orig.spec_nodes().len() - nodes@.len();
            let node = nodes.remove(0);
            proof {
                assert(node == orig.spec_nodes()[k]);
                assert(nodes@ =~= orig.spec_nodes().skip(k + 1));
                if contains_id(output.spec_nodes(), node.id) {
                    let j = choose|j: int|
                        0 <= j < output.spec_nodes().len() && output.spec_nodes()[j].id == node.id;
                    assert(seq_ids(orig.spec_nodes())[j] == seq_ids(orig.spec_nodes())[k]);
                    assert(false);
                }
            }
            let res = output.add_node_with(node.id, node.value);
            proof {
                assert(res is Ok);
                assert(output.spec_nodes() =~= orig.spec_nodes().take(k + 1));
            }
        }
        proof {
            assert(output.spec_nodes() =~= orig.spec_nodes());
            lemma_reversed_edges_rel(orig.spec_edges());
            orig.wf_facts();
            assert(reversed_edges(orig.spec_edges()).take(0) =~= Seq::<(usize, usize, W)>::empty());
        }
        for i in 0..edges.len()
            invariant
                output.wf(),
                edges@ == orig.spec_edges(),
                output.spec_nodes() == orig.spec_nodes(),
                output.spec_edges() == reversed_edges(orig.spec_edges()).take(i as int),
                edge_pairs(orig.spec_edges()).no_duplicates(),
                forall|j: int|
                    0 <= j < orig.spec_edges().len() ==> contains_id(
                        orig.spec_nodes(),
                        (#[trigger] orig.spec_edges()[j]).0,
                    ) && contains_id(orig.spec_nodes(), orig.spec_edges()[j].1),
        {
            let (u, v, w) = edges[i];
            proof {
                if output.has_edge(v, u) {
                    let rev = reversed_edges(orig.spec_edges());
                    let j = choose|j: int|
                        0 <= j < i && edge_pairs(rev.take(i as int))[j] == (v, u);
                    assert(rev.take(i as int)[j] == rev[j]);
                    assert(edge_pairs(orig.spec_edges())[j] == (orig.spec_edges()[j].0,
                    orig.spec_edges()[j].1));
                    assert(orig.spec_edges()[j].1 == v && orig.spec_edges()[j].0 == u);
                    assert(edge_pairs(orig.spec_edges())[i as int] == (u, v));
                    assert(false);
                }
            }
            let res = output.add_edge_with(&v, &u, w);
            proof {
                assert(res is Ok);
                assert(output.spec_edges() =~= reversed_edges(orig.spec_edges()).take(i as int + 1));
            }
        }
        proof {
            assert(output.spec_edges() =~= reversed_edges(orig.spec_edges()));
        }
        output
    }
}

impl<W: Copy, T: Copy> Clone for HashGraph<W, T> {
    /// A faithful copy: the clone carries the same nodes, edges, weights and
    /// counters, and shares no storage with the original, so later mutation
    /// of either side leaves the other untouched.
    fn clone(&self) -> (r: Self)
        ensures
            r.spec_nodes() == self.spec_nodes(),
            r.spec_edges() == self.spec_edges(),
            r.spec_num_nodes() == self.spec_num_nodes(),
            r.spec_num_edges() == self.spec_num_edges(),
            forall|x: usize, y: usize| #[trigger] r.has_edge(x, y) == self.has_edge(x, y),
            forall|x: usize, y: usize|
                #[trigger] r.edge_weight(x, y) == self.edge_weight(x, y),
            self.wf() ==> r.wf(),
    {
        let mut nodes: Vec<Node<T>> = Vec::new();
        let mut edges: Vec<(usize, usize, W)> = Vec::new();
        for i in 0..self.nodes.len()
            invariant
                nodes@.len() == i,
                forall|j: int| 0 <= j < i ==> #[trigger] nodes@[j] == self.nodes@[j],
        {
            let n = &self.nodes[i];
            nodes.push(Node { id: n.id, value: n.value });
        }
        for i in 0..self.edges.len()
            invariant
                edges@.len() == i,
                forall|j: int| 0 <= j < i ==> #[trigger] edges@[j] == self.edges@[j],
        {
            edges.push(self.edges[i]);
        }
        proof {
            assert(nodes@ =~= self.nodes@);
            assert(edges@ =~= self.edges@);
        }
        HashGraph { nodes, edges, num_nodes: self.num_nodes, num_edges: self.num_edges }
    }
}

impl<W: Copy, T: Copy> HashGraph<W, T> {
    /// The reverse of this backend, leaving the original in place.
    pub fn as_reverse(&self) -> (r: Self)
        requires
            self.wf(),
        ensures
            r.wf(),
            r.spec_nodes() == self.spec_nodes(),
            r.spec_edges() == reversed_edges(self.spec_edges()),
            r.spec_num_nodes() == self.spec_num_nodes(),
            r.spec_num_edges() == self.spec_num_edges(),
            forall|x: usize, y: usize|
                #[trigger] r.has_edge(x, y) <==> self.has_edge(y, x),
            forall|x: usize, y: usize|
                #[trigger] self.has_edge(y, x) ==> r.edge_weight(x, y) == self.edge_weight(y, x),
    {
        let copy = self.clone();
        let r = copy.into_reverse();
        proof {
            assert forall|x: usize, y: usize| #[trigger] self.has_edge(y, x) implies r.edge_weight(
                x,
                y,
            ) == self.edge_weight(y, x) by {
                assert(copy.has_edge(y, x));
            }
        }
        r
    }
}

impl<W: Copy, T: Default> HashGraph<W, T> {
    /// Adds one node per id, each carrying a freshly produced default
    /// payload, and stops at the first id that is already present.
    pub fn add_nodes(&mut self, ids: Vec<usize>) -> (r: GraphResult)
        requires
            old(self).wf(),
        ensures
            final(self).wf(),
            final(self).spec_edges() == old(self).spec_edges(),
            forall|x: usize, y: usize|
                #[trigger] final(self).has_edge(x, y) == old(self).has_edge(x, y),
            forall|x: usize, y: usize|
                old(self).has_edge(x, y) ==> #[trigger] final(self).edge_weight(x, y) == old(
                    self,
                ).edge_weight(x, y),
            final(self).spec_num_edges() == old(self).spec_num_edges(),
            forall|i: int|
                0 <= i < old(self).spec_nodes().len() ==> #[trigger] final(self).spec_nodes()[i]
                    == old(self).spec_nodes()[i],
            (match r {
                Ok(()) => {
                    &&& final(self).spec_nodes().len() == old(self).spec_nodes().len()
                        + ids@.len()
                    &&& forall|j: int|
                        0 <= j < ids@.len() ==> (#[trigger] final(self).spec_nodes()[old(
                            self,
                        ).spec_nodes().len() + j]).id == ids@[j] && call_ensures(
                            T::default,
                            (),
                            final(self).spec_nodes()[old(self).spec_nodes().len() + j].value,
                        )
                    &&& ids@.no_duplicates()
                    &&& forall|k: int|
                        0 <= k < ids@.len() ==> !contains_id(
                            old(self).spec_nodes(),
                            #[trigger] ids@[k],
                        )
                },
                Err(GraphError::IdExists) => exists|k: int|
                    {
                        &&& 0 <= k < ids@.len()
                        &&& final(self).spec_nodes().len() == old(self).spec_nodes().len() + k
                        &&& forall|j: int|
                            0 <= j < k ==> (#[trigger] final(self).spec_nodes()[old(
                                self,
                            ).spec_nodes().len() + j]).id == ids@[j]
                        &&& contains_id(final(self).spec_nodes(), ids@[k])
                    },
                Err(_) => false,
            }),
            (ids@.no_duplicates() && forall|k: int|
                0 <= k < ids@.len() ==> !contains_id(old(self).spec_nodes(), #[trigger] ids@[k]))
                ==> r is Ok,
    {
        let ghost n0 = old(self).spec_nodes().len() as int;
        proof {
            assert(seq_ids(self.spec_nodes()) =~= seq_ids(old(self).spec_nodes()) + ids@.take(0));
        }
        for idx in 0..ids.len()
            invariant
                self.wf(),
                self.spec_nodes().len() == n0 + idx,
                seq_ids(self.spec_nodes()) == seq_ids(old(self).spec_nodes()) + ids@.take(
                    idx as int,
                ),
                forall|i: int|
                    0 <= i < n0 ==> #[trigger] self.spec_nodes()[i] == old(self).spec_nodes()[i],
                forall|j: int|
                    0 <= j < idx ==> (#[trigger] self.spec_nodes()[n0 + j]).id == ids@[j]
                        && call_ensures(T::default, (), self.spec_nodes()[n0 + j].value),
                forall|k: int|
                    0 <= k < idx ==> !contains_id(old(self).spec_nodes(), #[trigger] ids@[k]),
                forall|i: int, j: int| 0 <= i < j < idx ==> ids@[i] != ids@[j],
                self.spec_edges() == old(self).spec_edges(),
                forall|x: usize, y: usize|
                    #[trigger] self.has_edge(x, y) == old(self).has_edge(x, y),
                forall|x: usize, y: usize|
                    old(self).has_edge(x, y) ==> #[trigger] self.edge_weight(x, y) == old(
                        self,
                    ).edge_weight(x, y),
                self.spec_num_edges() == old(self).spec_num_edges(),
        {
            let ghost pre = self.spec_nodes();
            let ghost os = seq_ids(old(self).spec_nodes());
            let value = T::default();
            match self.add_node_with(ids[idx], value) {
                Ok(()) => {
                    proof {
                        broadcast use lemma_seq_ids_push;

                        assert(seq_ids(self.spec_nodes()) =~= os + ids@.take(idx as int + 1));
                        assert forall|k: int| 0 <= k < idx + 1 implies !contains_id(
                            old(self).spec_nodes(),
                            #[trigger] ids@[k],
                        ) by {
                            if k == idx as int && os.contains(ids@[k]) {
                                lemma_contains_add(os, ids@.take(k), ids@[k]);
                                assert(seq_ids(pre).contains(ids@[k]));
                            }
                        }
                        assert forall|i: int, j: int| 0 <= i < j < idx + 1 implies ids@[i]
                            != ids@[j] by {
                            if j == idx as int && ids@[i] == ids@[j] {
                                assert(ids@.take(j).contains(ids@[i]));
                                lemma_contains_add(os, ids@.take(j), ids@[i]);
                                assert(seq_ids(pre).contains(ids@[j]));
                            }
                        }
                    }
                },
                Err(e) => {
                    proof {
                        let k = idx as int;
                        assert(contains_id(self.spec_nodes(), ids@[k]));
                        assert(!(ids@.no_duplicates() && forall|k2: int|
                            0 <= k2 < ids@.len() ==> !contains_id(
                                old(self).spec_nodes(),
                                #[trigger] ids@[k2],
                            ))) by {
                            if forall|k2: int|
                                0 <= k2 < ids@.len() ==> !contains_id(
                                    old(self).spec_nodes(),
                                    #[trigger] ids@[k2],
                                ) {
                                lemma_contains_add(os, ids@.take(k), ids@[k]);
                                assert(ids@.take(k).contains(ids@[k]));
                                let j = choose|j: int| 0 <= j < k && ids@.take(k)[j] == ids@[k];
                                assert(ids@[j] == ids@[k]);
                            }
                        }
                    }
                    return Err(e);
                },
            }
        }
        Ok(())
    }

    /// Adds one node under `id` with a freshly produced default payload.
    pub fn add_node(&mut self, id: usize) -> (r: GraphResult)
        requires
            old(self).wf(),
        ensures
            final(self).wf(),
            final(self).spec_edges() == old(self).spec_edges(),
            forall|x: usize, y: usize|
                #[trigger] final(self).has_edge(x, y) == old(self).has_edge(x, y),
            forall|x: usize, y: usize|
                old(self).has_edge(x, y) ==> #[trigger] final(self).edge_weight(x, y) == old(
                    self,
                ).edge_weight(x, y),
            final(self).spec_num_edges() == old(self).spec_num_edges(),
            r is Ok <==> !contains_id(old(self).spec_nodes(), id),
            (match r {
                Ok(()) => {
                    &&& final(self).spec_nodes().len() == old(self).spec_nodes().len() + 1
                    &&& forall|i: int|
                        0 <= i < old(self).spec_nodes().len() ==> #[trigger] final(self).spec_nodes()[i] == old(self).spec_nodes()[i]
                    &&& final(self).spec_nodes().last().id == id
                    &&& call_ensures(T::default, (), final(self).spec_nodes().last().value)
                },
                Err(GraphError::IdExists) => *final(self) == *old(self),
                Err(_) => false,
            }),
    {
        self.add_node_with(id, T::default())
    }
}

impl<W: Copy + Default, T> HashGraph<W, T> {
    /// Adds the edge from `u` to `v` carrying a freshly produced default
    /// weight.
    pub fn add_edge(&mut self, u: &usize, v: &usize) -> (r: GraphResult)
        requires
            old(self).wf(),
        ensures
            final(self).wf(),
            r is Ok <==> (contains_id(old(self).spec_nodes(), *u) && contains_id(
                old(self).spec_nodes(),
                *v,
            ) && !old(self).has_edge(*u, *v)),
            r is Err ==> *final(self) == *old(self),
            (r is Err && r->Err_0 is IdDoesNotExist) <==> (!contains_id(
                old(self).spec_nodes(),
                *u,
            ) || !contains_id(old(self).spec_nodes(), *v)),
            (r is Err && r->Err_0 is EdgeAlreadyExists) ==> old(self).has_edge(*u, *v),
            (match r {
                Ok(()) => {
                    &&& final(self).has_edge(*u, *v)
                    &&& call_ensures(W::default, (), final(self).edge_weight(*u, *v))
                    &&& final(self).spec_nodes() == old(self).spec_nodes()
                    &&& final(self).spec_edges() == old(self).spec_edges().push(
                        (*u, *v, final(self).edge_weight(*u, *v)),
                    )
                    &&& final(self).spec_num_edges() == old(self).spec_num_edges() + 1
                    &&& final(self).spec_num_nodes() == old(self).spec_num_nodes()
                    &&& forall|x: usize, y: usize|
                        old(self).has_edge(x, y) ==> #[trigger] final(self).has_edge(x, y)
                            && final(self).edge_weight(x, y) == old(self).edge_weight(x, y)
                    &&& forall|x: usize, y: usize|
                        #[trigger] final(self).has_edge(x, y) ==> old(self).has_edge(x, y) || (x
                            == *u && y == *v) || (x == *v && y == *u)
                },
                Err(_) => true,
            }),
    {
        self.add_edge_with(u, v, W::default())
    }
}

impl<W: Copy, T> HashGraph<W, Option<T>> {
    /// Rebuilds the graph with every optional payload unwrapped; yields
    /// nothing if any single payload is absent.
    #[verifier::loop_isolation(false)]
    pub fn unwrap(self) -> (r: Option<HashGraph<W, T>>)
        requires
            self.wf(),
        ensures
            (match r {
                Some(g) => {
                    &&& g.wf()
                    &&& g.spec_nodes().len() == self.spec_nodes().len()
                    &&& forall|i: int|
                        0 <= i < self.spec_nodes().len() ==> (#[trigger] g.spec_nodes()[i]).id
                            == self.spec_nodes()[i].id && self.spec_nodes()[i].value == Some(
                            g.spec_nodes()[i].value,
                        )
                    &&& g.spec_edges() == self.spec_edges()
                    &&& g.spec_num_nodes() == self.spec_num_nodes()
                    &&& g.spec_num_edges() == self.spec_num_edges()
                    &&& forall|x: usize, y: usize|
                        #[trigger] g.has_edge(x, y) == self.has_edge(x, y)
                    &&& forall|x: usize, y: usize|
                        self.has_edge(x, y) ==> #[trigger] g.edge_weight(x, y) == self.edge_weight(
                            x,
                            y,
                        )
                },
                None => exists|i: int|
                    0 <= i < self.spec_nodes().len() && (#[trigger] self.spec_nodes()[i]).value
                        is None,
            }),
    {
        let ghost orig = self;
        let mut output: HashGraph<W, T> = HashGraph::new();
        let (mut nodes, edges) = self.disassemble();
        proof {
            assert(orig.spec_nodes().skip(0) =~= orig.spec_nodes());
        }
        while nodes.len() > 0
            invariant
                output.wf(),
                nodes@.len() <= orig.spec_nodes().len(),
                nodes@ == orig.spec_nodes().skip(
                    orig.spec_nodes().len() - nodes@.len(),
                ),
                output.spec_nodes().len() == orig.spec_nodes().len() - nodes@.len(),
                forall|i: int|
                    0 <= i < output.spec_nodes().len() ==> (#[trigger] output.spec_nodes()[i]).id
                        == orig.spec_nodes()[i].id && orig.spec_nodes()[i].value == Some(
                        output.spec_nodes()[i].value,
                    ),
                output.spec_edges() == Seq::<(usize, usize, W)>::empty(),
                seq_ids(orig.spec_nodes()).no_duplicates(),
            decreases nodes@.len(),
        {
            let ghost k = orig.spec_nodes().len() - nodes@.len();
            let node = nodes.remove(0);
            proof {
                assert(node == orig.spec_nodes()[k]);
                assert(nodes@ =~= orig.spec_nodes().skip(k + 1));
            }
            let id = *node.get_id();
            match node.value {
                None => {
                    proof {
                        assert(orig.spec_nodes()[k].value is None);
                        assert(exists|i: int|
                            0 <= i < orig.spec_nodes().len() && (#[trigger] orig.spec_nodes()[i]).value
                                is None);
                    }
                    return None;
                },
                Some(val) => {
                    proof {
                        if contains_id(output.spec_nodes(), id) {
                            let j = choose|j: int|
                                0 <= j < output.spec_nodes().len() && output.spec_nodes()[j].id
                                    == id;
                            assert(seq_ids(orig.spec_nodes())[j] == seq_ids(orig.spec_nodes())[k]);
                            assert(false);
                        }
                    }
                    let res = output.add_node_with(id, val);
                    proof {
                        assert(res is Ok);
                    }
                },
            }
        }
        proof {
            orig.wf_facts();
            assert(reversed_edges(orig.spec_edges()).take(0) =~= Seq::<(usize, usize, W)>::empty());
            assert(orig.spec_edges().take(0) =~= Seq::<(usize, usize, W)>::empty());
            assert forall|id: usize| contains_id(orig.spec_nodes(), id) implies contains_id(
                output.spec_nodes(),
                id,
            ) by {
                let m = choose|m: int|
                    0 <= m < seq_ids(orig.spec_nodes()).len() && seq_ids(orig.spec_nodes())[m]
                        == id;
                assert(orig.spec_nodes()[m].id == id);
                assert(output.spec_nodes()[m].id == id);
                assert(seq_ids(output.spec_nodes())[m] == id);
            }
        }
        for i in 0..edges.len()
            invariant
                output.wf(),
                edges@ == orig.spec_edges(),
                output.spec_nodes().len() == orig.spec_nodes().len(),
                forall|j: int|
                    0 <= j < output.spec_nodes().len() ==> (#[trigger] output.spec_nodes()[j]).id
                        == orig.spec_nodes()[j].id && orig.spec_nodes()[j].value == Some(
                        output.spec_nodes()[j].value,
                    ),
                output.spec_edges() == orig.spec_edges().take(i as int),
                edge_pairs(orig.spec_edges()).no_duplicates(),
                forall|id: usize|
                    #[trigger] contains_id(orig.spec_nodes(), id) ==> contains_id(
                        output.spec_nodes(),
                        id,
                    ),
                forall|j: int|
                    0 <= j < orig.spec_edges().len() ==> contains_id(
                        orig.spec_nodes(),
                        (#[trigger] orig.spec_edges()[j]).0,
                    ) && contains_id(orig.spec_nodes(), orig.spec_edges()[j].1),
        {
            let (u, v, w) = edges[i];
            proof {
                if output.has_edge(u, v) {
                    let pre = orig.spec_edges().take(i as int);
                    let j = choose|j: int| 0 <= j < i && edge_pairs(pre)[j] == (u, v);
                    assert(pre[j] == orig.spec_edges()[j]);
                    assert(edge_pairs(orig.spec_edges())[j] == (u, v));
                    assert(edge_pairs(orig.spec_edges())[i as int] == (u, v));
                    assert(false);
                }
            }
            let res = output.add_edge_with(&u, &v, w);
            proof {
                assert(res is Ok);
                assert(output.spec_edges() =~= orig.spec_edges().take(i as int + 1));
            }
        }
        proof {
            assert(output.spec_edges() =~= orig.spec_edges());
        }
        Some(output)
    }
}

/// The number of occurrences of `x` among the elements of `v`.
fn count_matches(v: &Vec<usize>, x: usize) -> (c: usize)
    ensures
        c == v@.to_multiset().count(x),
{
    broadcast use vstd::seq_lib::group_to_multiset_ensures;

    let mut c: usize = 0;
    for i in 0..v.len()
        invariant
            c == v@.take(i as int).to_multiset().count(x),
            c <= i,
    {
        proof {
            assert(v@.take(i as int + 1) =~= v@.take(i as int).push(v@[i as int]));
        }
        if v[i] == x {
            c = c + 1;
        }
    }
    proof {
        assert(v@.take(v@.len() as int) =~= v@);
    }
    c
}

/// Whether the two vectors hold the same elements with the same
/// multiplicities, in any order.
pub fn compare_vectors_for_element_equality(vec1: &Vec<usize>, vec2: &Vec<usize>) -> (r: bool)
    ensures
        r == (vec1@.to_multiset() == vec2@.to_multiset()),
{
    broadcast use vstd::seq_lib::group_to_multiset_ensures;

    if vec1.len() != vec2.len() {
        proof {
            assert(vec1@.to_multiset().len() == vec1@.len());
            assert(vec2@.to_multiset().len() == vec2@.len());
        }
        return false;
    }
    for i in 0..vec1.len()
        invariant
            vec1@.len() == vec2@.len(),
            forall|j: int|
                0 <= j < i ==> vec1@.to_multiset().count(#[trigger] vec1@[j])
                    == vec2@.to_multiset().count(vec1@[j]),
    {
        let x = vec1[i];
        if count_matches(vec1, x) != count_matches(vec2, x) {
            return false;
        }
    }
    for i in 0..vec2.len()
        invariant
            vec1@.len() == vec2@.len(),
            forall|j: int|
                0 <= j < vec1@.len() ==> vec1@.to_multiset().count(#[trigger] vec1@[j])
                    == vec2@.to_multiset().count(vec1@[j]),
            forall|j: int|
                0 <= j < i ==> vec1@.to_multiset().count(#[trigger] vec2@[j])
                    == vec2@.to_multiset().count(vec2@[j]),
    {
        let x = vec2[i];
        if count_matches(vec1, x) != count_matches(vec2, x) {
            return false;
        }
    }
    proof {
        assert forall|x: usize|
            vec1@.to_multiset().count(x) == vec2@.to_multiset().count(x) by {
            if vec1@.to_multiset().count(x) > 0 {
                assert(vec1@.contains(x));
                let j = choose|j: int| 0 <= j < vec1@.len() && vec1@[j] == x;
                assert(vec1@.to_multiset().count(vec1@[j]) == vec2@.to_multiset().count(vec1@[j]));
            } else if vec2@.to_multiset().count(x) > 0 {
                assert(vec2@.contains(x));
                let j = choose|j: int| 0 <= j < vec2@.len() && vec2@[j] == x;
                assert(vec1@.to_multiset().count(vec2@[j]) == vec2@.to_multiset().count(vec2@[j]));
            }
        }
        assert(vec1@.to_multiset() =~= vec2@.to_multiset());
    }
    true
}

} // verus!
