use vstd::prelude::*;

use crate::node::Node;

pub use crate::graph::hash_graph::HashGraph;
pub use crate::graph::hash_graph::nodes_from_ids;
pub use crate::graph::hash_graph::compare_vectors_for_element_equality;

pub(crate) mod hash_graph;

verus! {

/// The errors an insertion into a graph can report.
#[derive(Debug)]
pub enum GraphError {
    IdExists,
    IdDoesNotExist,
    EdgeAlreadyExists,
}

pub type GraphResult<T = ()> = Result<T, GraphError>;

/// The ids of a node sequence, in order.
pub open spec fn seq_ids<V>(ns: Seq<Node<V>>) -> Seq<usize> {
    ns.map_values(|n: Node<V>| n.id)
}

/// Whether some node of `ns` carries the id `id`.
pub open spec fn contains_id<V>(ns: Seq<Node<V>>, id: usize) -> bool {
    seq_ids(ns).contains(id)
}

/// An index of the node carrying `id` (meaningful when `contains_id` holds).
pub open spec fn id_index<V>(ns: Seq<Node<V>>, id: usize) -> int {
    choose|i: int| 0 <= i < ns.len() && ns[i].id == id
}

/// The node of `ns` carrying `id` (meaningful when `contains_id` holds,
/// and unique when the ids of `ns` are distinct).
pub open spec fn node_with_id<V>(ns: Seq<Node<V>>, id: usize) -> Node<V> {
    ns[id_index(ns, id)]
}

/// The (source, target) pairs of an edge-triple sequence, in order.
pub open spec fn edge_pairs<W>(es: Seq<(usize, usize, W)>) -> Seq<(usize, usize)> {
    es.map_values(|e: (usize, usize, W)| (e.0, e.1))
}

/// Whether the triple sequence holds an edge from `u` to `v`.
pub open spec fn seq_has_edge<W>(es: Seq<(usize, usize, W)>, u: usize, v: usize) -> bool {
    edge_pairs(es).contains((u, v))
}

/// An index of the edge from `u` to `v` (meaningful when `seq_has_edge` holds).
pub open spec fn edge_index<W>(es: Seq<(usize, usize, W)>, u: usize, v: usize) -> int {
    choose|i: int| 0 <= i < es.len() && es[i].0 == u && es[i].1 == v
}

/// The weight stored for the edge from `u` to `v` (meaningful when
/// `seq_has_edge` holds, unique when the pairs are distinct).
pub open spec fn seq_edge_weight<W>(es: Seq<(usize, usize, W)>, u: usize, v: usize) -> W {
    es[edge_index(es, u, v)].2
}

/// The capability contract every graph storage backend satisfies.
///
/// A backend models its state through the spec functions below: the node
/// sequence in enumeration order, the stored-edge relation with its weights
/// (what `contains_edge`, `get_weight` and `get_adjacent` observe), the
/// logical edge-triple sequence (what `edges()` enumerates), and the two
/// reported counters. Wrapping views reinterpret these models rather than
/// copying any data, so the same operation contracts serve every backend.
pub trait Graph: Sized {
    type Weight: Copy;
    type Value;

    /// The backend's internal invariant: every operation preserves it.
    spec fn wf(&self) -> bool;

    /// The stored nodes, in enumeration order.
    spec fn spec_nodes(&self) -> Seq<Node<Self::Value>>;

    /// Whether a stored edge leads from `u` to `v`.
    spec fn has_edge(&self, u: usize, v: usize) -> bool;

    /// The weight stored for the edge from `u` to `v` (meaningful when
    /// `has_edge(u, v)` holds).
    spec fn edge_weight(&self, u: usize, v: usize) -> Self::Weight;

    /// The logical edges, one triple each, in enumeration order.
    spec fn spec_edges(&self) -> Seq<(usize, usize, Self::Weight)>;

    /// What `num_nodes()` reports.
    spec fn spec_num_nodes(&self) -> int;

    /// What `num_edges()` reports.
    spec fn spec_num_edges(&self) -> int;

    /// The facts every well-formed backend guarantees about its model.
    proof fn wf_facts(&self)
        requires
            self.wf(),
        ensures
            seq_ids(self.spec_nodes()).no_duplicates(),
            forall|u: usize, v: usize|
                #[trigger] self.has_edge(u, v) ==> contains_id(self.spec_nodes(), u)
                    && contains_id(self.spec_nodes(), v),
            forall|i: int|
                0 <= i < self.spec_edges().len() ==> self.has_edge(
                    (#[trigger] self.spec_edges()[i]).0,
                    self.spec_edges()[i].1,
                ) && self.edge_weight(self.spec_edges()[i].0, self.spec_edges()[i].1)
                    == self.spec_edges()[i].2,
            edge_pairs(self.spec_edges()).no_duplicates(),
    ;

    fn get(&self, id: &usize) -> (r: Option<&Self::Value>)
        requires
            self.wf(),
        ensures
            (match r {
                Some(v) => contains_id(self.spec_nodes(), *id) && *v == node_with_id(
                    self.spec_nodes(),
                    *id,
                ).value,
                None => !contains_id(self.spec_nodes(), *id),
            }),
    {
        match self.get_node(id) {
            None => None,
            Some(node) => Some(&node.value),
        }
    }

    fn get_mut(&mut self, id: &usize) -> (r: Option<&mut Self::Value>)
        requires
            old(self).wf(),
        ensures
            (match r {
                Some(v) => {
                    &&& contains_id(old(self).spec_nodes(), *id)
                    &&& *v == node_with_id(old(self).spec_nodes(), *id).value
                    &&& final(self).spec_nodes() == old(self).spec_nodes().update(
                        id_index(old(self).spec_nodes(), *id),
                        Node { id: *id, value: *final(v) },
                    )
                    &&& final(self).spec_edges() == old(self).spec_edges()
                    &&& forall|x: usize, y: usize|
                        #[trigger] final(self).has_edge(x, y) == old(self).has_edge(x, y)
                    &&& forall|x: usize, y: usize|
                        old(self).has_edge(x, y) ==> #[trigger] final(self).edge_weight(x, y)
                            == old(self).edge_weight(x, y)
                    &&& final(self).spec_num_nodes() == old(self).spec_num_nodes()
                    &&& final(self).spec_num_edges() == old(self).spec_num_edges()
                    &&& final(self).wf()
                },
                None => !contains_id(old(self).spec_nodes(), *id) && *final(self) == *old(self),
            }),
    {
        match self.get_node_mut(id) {
            None => None,
            Some(node) => Some(&mut node.value),
        }
    }

    fn get_node(&self, id: &usize) -> (r: Option<&Node<Self::Value>>)
        requires
            self.wf(),
        ensures
            (match r {
                Some(n) => {
                    &&& contains_id(self.spec_nodes(), *id)
                    &&& *n == node_with_id(self.spec_nodes(), *id)
                    &&& n.id == *id
                },
                None => !contains_id(self.spec_nodes(), *id),
            }),
    ;

    fn get_node_mut(&mut self, id: &usize) -> (r: Option<&mut Node<Self::Value>>)
        requires
            old(self).wf(),
        ensures
            (match r {
                Some(n) => {
                    &&& contains_id(old(self).spec_nodes(), *id)
                    &&& *n == node_with_id(old(self).spec_nodes(), *id)
                    &&& n.id == *id
                    &&& final(self).spec_nodes() == old(self).spec_nodes().update(
                        id_index(old(self).spec_nodes(), *id),
                        *final(n),
                    )
                    &&& final(self).spec_edges() == old(self).spec_edges()
                    &&& forall|x: usize, y: usize|
                        #[trigger] final(self).has_edge(x, y) == old(self).has_edge(x, y)
                    &&& forall|x: usize, y: usize|
                        old(self).has_edge(x, y) ==> #[trigger] final(self).edge_weight(x, y)
                            == old(self).edge_weight(x, y)
                    &&& final(self).spec_num_nodes() == old(self).spec_num_nodes()
                    &&& final(self).spec_num_edges() == old(self).spec_num_edges()
                    &&& (final(n).id == *id ==> final(self).wf())
                },
                None => !contains_id(old(self).spec_nodes(), *id) && *final(self) == *old(self),
            }),
    ;

    fn add_node_with(&mut self, id: usize, value: Self::Value) -> (r: GraphResult)
        requires
            old(self).wf(),
        ensures
            final(self).wf(),
            (match r {
                Ok(()) => {
                    &&& !contains_id(old(self).spec_nodes(), id)
                    &&& final(self).spec_nodes() == old(self).spec_nodes().push(
                        Node { id, value },
                    )
                    &&& final(self).spec_edges() == old(self).spec_edges()
                    &&& forall|x: usize, y: usize|
                        #[trigger] final(self).has_edge(x, y) == old(self).has_edge(x, y)
                    &&& forall|x: usize, y: usize|
                        old(self).has_edge(x, y) ==> #[trigger] final(self).edge_weight(x, y)
                            == old(self).edge_weight(x, y)
                    &&& final(self).spec_num_edges() == old(self).spec_num_edges()
                },
                Err(GraphError::IdExists) => contains_id(old(self).spec_nodes(), id)
                    && *final(self) == *old(self),
                Err(_) => false,
            }),
    ;

    fn contains_node(&self, id: &usize) -> (r: bool)
        requires
            self.wf(),
        ensures
            r == contains_id(self.spec_nodes(), *id),
    ;

    fn add_edge_with(&mut self, u: &usize, v: &usize, weight: Self::Weight) -> (r: GraphResult)
        requires
            old(self).wf(),
        ensures
            final(self).wf(),
            (match r {
                Ok(()) => {
                    &&& contains_id(old(self).spec_nodes(), *u)
                    &&& contains_id(old(self).spec_nodes(), *v)
                    &&& !old(self).has_edge(*u, *v)
                    &&& final(self).has_edge(*u, *v)
                    &&& final(self).edge_weight(*u, *v) == weight
                    &&& final(self).spec_nodes() == old(self).spec_nodes()
                    &&& final(self).spec_edges() == old(self).spec_edges().push(
                        (*u, *v, weight),
                    )
                    &&& final(self).spec_num_edges() == old(self).spec_num_edges() + 1
                    &&& forall|x: usize, y: usize|
                        old(self).has_edge(x, y) ==> #[trigger] final(self).has_edge(x, y)
                            && final(self).edge_weight(x, y) == old(self).edge_weight(x, y)
                    &&& forall|x: usize, y: usize|
                        #[trigger] final(self).has_edge(x, y) ==> old(self).has_edge(x, y) || (x
                            == *u && y == *v) || (x == *v && y == *u)
                },
                Err(GraphError::IdDoesNotExist) => (!contains_id(old(self).spec_nodes(), *u)
                    || !contains_id(old(self).spec_nodes(), *v)) && *final(self) == *old(self),
                Err(GraphError::EdgeAlreadyExists) => {
                    &&& contains_id(old(self).spec_nodes(), *u)
                    &&& contains_id(old(self).spec_nodes(), *v)
                    &&& (old(self).has_edge(*u, *v) || old(self).has_edge(*v, *u) || *u == *v)
                    &&& final(self).spec_nodes() == old(self).spec_nodes()
                },
                Err(GraphError::IdExists) => false,
            }),
            (r is Err && r->Err_0 is IdDoesNotExist) <==> (!contains_id(
                old(self).spec_nodes(),
                *u,
            ) || !contains_id(old(self).spec_nodes(), *v)),
    ;

    fn contains_edge(&self, u: &usize, v: &usize) -> (r: bool)
        requires
            self.wf(),
        ensures
            r == self.has_edge(*u, *v),
    ;

    fn get_weight(&self, u: &usize, v: &usize) -> (r: Option<&Self::Weight>)
        requires
            self.wf(),
        ensures
            (match r {
                Some(w) => self.has_edge(*u, *v) && *w == self.edge_weight(*u, *v),
                None => !self.has_edge(*u, *v),
            }),
    ;

    fn get_adjacent(&self, node: &usize) -> (r: Vec<usize>)
        requires
            self.wf(),
        ensures
            r@.no_duplicates(),
            forall|v: usize| r@.contains(v) <==> #[trigger] self.has_edge(*node, v),
    ;

    fn nodes(&self) -> (r: Vec<&Node<Self::Value>>)
        requires
            self.wf(),
        ensures
            r@.len() == self.spec_nodes().len(),
            forall|i: int| 0 <= i < r@.len() ==> *#[trigger] r@[i] == self.spec_nodes()[i],
    ;

    fn edges(&self) -> (r: Vec<(usize, usize, Self::Weight)>)
        requires
            self.wf(),
        ensures
            r@ == self.spec_edges(),
    ;

    fn num_nodes(&self) -> (r: usize)
        requires
            self.wf(),
        ensures
            r as int == self.spec_num_nodes(),
    ;

    fn num_edges(&self) -> (r: usize)
        requires
            self.wf(),
        ensures
            r as int == self.spec_num_edges(),
    ;

    fn take_nodes(self) -> (r: Vec<Node<Self::Value>>)
        requires
            self.wf(),
        ensures
            r@ == self.spec_nodes(),
    ;
}

/// The edge triples of `es` with every direction flipped, in order.
pub open spec fn reversed_edges<W>(es: Seq<(usize, usize, W)>) -> Seq<(usize, usize, W)> {
    es.map_values(|e: (usize, usize, W)| (e.1, e.0, e.2))
}

/// A transform producing a backend with every stored edge's direction
/// flipped; nodes, payloads and weights carry over unchanged.
pub trait GraphReverse<G = Self>: Graph where G: Graph {
    fn into_reverse(self) -> (r: G)
        requires
            self.wf(),
        ensures
            r.wf(),
    ;
}

/// Flipping every edge twice restores the original edge enumeration exactly,
/// so reversal is an involution on the edge set, the node set and the counts.
pub proof fn lemma_reverse_involution<W>(es: Seq<(usize, usize, W)>)
    ensures
        reversed_edges(reversed_edges(es)) == es,
{
    assert(reversed_edges(reversed_edges(es)) =~= es);
}

/// The set of ids in the half-open range `[lo, hi)`.
pub open spec fn id_range(lo: int, hi: int) -> Set<usize> {
    Set::new(|j: usize| lo <= j < hi)
}

/// The range `[lo, hi)` of ids is finite and holds `hi - lo` ids.
pub proof fn lemma_id_range_card(lo: int, hi: int)
    requires
        0 <= lo <= hi,
        hi <= usize::MAX as int + 1,
    ensures
        id_range(lo, hi).finite(),
        id_range(lo, hi).len() == hi - lo,
    decreases hi - lo,
{
    if lo == hi {
        assert(id_range(lo, hi) =~= Set::<usize>::empty());
    } else {
        lemma_id_range_card(lo, hi - 1);
        assert(!id_range(lo, hi - 1).contains((hi - 1) as usize));
        assert(id_range(lo, hi) =~= id_range(lo, hi - 1).insert((hi - 1) as usize));
    }
}

/// The smallest id at or above `start` that no node of `g` carries, found by
/// a linear probe.
#[verifier::loop_isolation(false)]
fn next_free_id<G: Graph>(g: &G, start: usize) -> (r: usize)
    requires
        g.wf(),
        start + g.spec_nodes().len() <= usize::MAX,
    ensures
        start <= r,
        r - start <= g.spec_nodes().len(),
        !contains_id(g.spec_nodes(), r),
        forall|j: usize| start <= j < r ==> #[trigger] contains_id(g.spec_nodes(), j),
{
    let ghost ids = seq_ids(g.spec_nodes());
    let mut i = start;
    loop
        invariant
            start <= i,
            i - start <= g.spec_nodes().len(),
            forall|j: usize| start <= j < i ==> #[trigger] contains_id(g.spec_nodes(), j),
        decreases start + g.spec_nodes().len() - i,
    {
        if !g.contains_node(&i) {
            return i;
        }
        proof {
            vstd::seq_lib::seq_to_set_is_finite(ids);
            ids.lemma_cardinality_of_set();
            let r_set = id_range(start as int, i + 1);
            lemma_id_range_card(start as int, i + 1);
            assert forall|j: usize| r_set.contains(j) implies ids.to_set().contains(j) by {
                assert(contains_id(g.spec_nodes(), j));
            }
            vstd::set_lib::lemma_len_subset(r_set, ids.to_set());
            assert(i + 1 - start <= g.spec_nodes().len());
        }
        i = i + 1;
    }
}

/// The first `k` nodes built by pairing assigned ids with the given payloads.
pub open spec fn zipped_nodes<V>(ids: Seq<usize>, values: Seq<V>, k: int) -> Seq<Node<V>> {
    Seq::new(k as nat, |j: int| Node { id: ids[j], value: values[j] })
}

/// `zipped_nodes` reads only the first `k` ids, so later ids do not matter.
pub proof fn lemma_zipped_push<V>(ids: Seq<usize>, x: usize, values: Seq<V>, k: int)
    requires
        0 <= k <= ids.len(),
    ensures
        zipped_nodes(ids.push(x), values, k) == zipped_nodes(ids, values, k),
{
    assert(zipped_nodes(ids.push(x), values, k) =~= zipped_nodes(ids, values, k));
}

/// What one step of automatic id assignment guarantees: starting from the
/// probe floor for step `j`, every smaller candidate id was taken in the
/// state the step saw, and the id it picked was free there.
pub open spec fn auto_probe_ok<V>(
    base: Seq<Node<V>>,
    start0: int,
    ids: Seq<usize>,
    values: Seq<V>,
    j: int,
) -> bool {
    let state = base + zipped_nodes(ids, values, j);
    let lower = if j == 0 {
        start0
    } else {
        ids[j - 1] + 1
    };
    &&& lower <= ids[j]
    &&& !contains_id(state, ids[j])
    &&& forall|m: usize| lower <= m < ids[j] ==> #[trigger] contains_id(state, m)
}

/// Automatic id assignment: ids are found by a linear probe for the next
/// free id, starting at the reported node count.
pub trait GraphTools: Graph {
    fn add_node_auto_id(&mut self, value: Self::Value) -> (r: GraphResult<usize>)
        requires
            old(self).wf(),
            old(self).spec_num_nodes() + old(self).spec_nodes().len() <= usize::MAX,
        ensures
            final(self).wf(),
            (match r {
                Ok(id) => {
                    &&& !contains_id(old(self).spec_nodes(), id)
                    &&& old(self).spec_num_nodes() <= id
                    &&& forall|j: usize|
                        old(self).spec_num_nodes() <= j < id ==> #[trigger] contains_id(
                            old(self).spec_nodes(),
                            j,
                        )
                    &&& final(self).spec_nodes() == old(self).spec_nodes().push(
                        Node { id, value },
                    )
                    &&& final(self).spec_edges() == old(self).spec_edges()
                    &&& forall|x: usize, y: usize|
                        #[trigger] final(self).has_edge(x, y) == old(self).has_edge(x, y)
                    &&& forall|x: usize, y: usize|
                        old(self).has_edge(x, y) ==> #[trigger] final(self).edge_weight(x, y)
                            == old(self).edge_weight(x, y)
                    &&& final(self).spec_num_edges() == old(self).spec_num_edges()
                },
                Err(_) => false,
            }),
    ;

    fn add_nodes_auto_id(&mut self, values: Vec<Self::Value>) -> (r: GraphResult<Vec<usize>>)
        requires
            old(self).wf(),
            old(self).spec_num_nodes() + 2 * (old(self).spec_nodes().len() + values@.len())
                <= usize::MAX,
        ensures
            final(self).wf(),
            (match r {
                Ok(ids) => {
                    &&& ids@.len() == values@.len()
                    &&& final(self).spec_nodes() == old(self).spec_nodes() + zipped_nodes(
                        ids@,
                        values@,
                        values@.len() as int,
                    )
                    &&& forall|j: int|
                        0 <= j < ids@.len() ==> #[trigger] auto_probe_ok(
                            old(self).spec_nodes(),
                            old(self).spec_num_nodes(),
                            ids@,
                            values@,
                            j,
                        )
                    &&& final(self).spec_edges() == old(self).spec_edges()
                    &&& forall|x: usize, y: usize|
                        #[trigger] final(self).has_edge(x, y) == old(self).has_edge(x, y)
                    &&& forall|x: usize, y: usize|
                        old(self).has_edge(x, y) ==> #[trigger] final(self).edge_weight(x, y)
                            == old(self).edge_weight(x, y)
                    &&& final(self).spec_num_edges() == old(self).spec_num_edges()
                },
                Err(_) => false,
            }),
    ;
}

impl<G: Graph> GraphTools for G {
    fn add_node_auto_id(&mut self, value: G::Value) -> (r: GraphResult<usize>) {
        let start = self.num_nodes();
        let id = next_free_id(self, start);
        let res = self.add_node_with(id, value);
        proof {
            assert(res is Ok);
        }
        match res {
            Ok(()) => Ok(id),
            Err(_) => vstd::pervasive::unreached(),
        }
    }

    #[verifier::loop_isolation(false)]
    fn add_nodes_auto_id(&mut self, values: Vec<G::Value>) -> (r: GraphResult<Vec<usize>>) {
        let ghost base = old(self).spec_nodes();
        let ghost vals0 = values@;
        let ghost n0 = base.len() as int;
        let mut remaining = values;
        let mut output: Vec<usize> = Vec::new();
        let mut lower: usize = self.num_nodes();
        let ghost start0 = lower as int;
        proof {
            assert(zipped_nodes(output@, vals0, 0) =~= Seq::<Node<G::Value>>::empty());
            assert(base + zipped_nodes(output@, vals0, 0) =~= base);
        }
        while remaining.len() > 0
            invariant
                self.wf(),
                output@.len() + remaining@.len() == vals0.len(),
                remaining@ == vals0.skip(output@.len() as int),
                self.spec_nodes() == base + zipped_nodes(output@, vals0, output@.len() as int),
                forall|j: int|
                    0 <= j < output@.len() ==> #[trigger] auto_probe_ok(
                        base,
                        start0,
                        output@,
                        vals0,
                        j,
                    ),
                start0 <= lower,
                lower - start0 <= n0 + output@.len(),
                output@.len() > 0 ==> lower == output@.last() + 1,
                output@.len() == 0 ==> lower == start0,
                forall|m: usize| start0 <= m < lower ==> #[trigger] contains_id(self.spec_nodes(), m),
                self.spec_edges() == old(self).spec_edges(),
                forall|x: usize, y: usize|
                    #[trigger] self.has_edge(x, y) == old(self).has_edge(x, y),
                forall|x: usize, y: usize|
                    old(self).has_edge(x, y) ==> #[trigger] self.edge_weight(x, y) == old(
                        self,
                    ).edge_weight(x, y),
                self.spec_num_edges() == old(self).spec_num_edges(),
            decreases remaining@.len(),
        {
            let ghost idx = output@.len() as int;
            let ghost pre = self.spec_nodes();
            let value = remaining.remove(0);
            proof {
                assert(value == vals0[idx]);
                assert(remaining@ =~= vals0.skip(idx + 1));
                assert(self.spec_nodes().len() == n0 + idx);
            }
            let id = next_free_id(self, lower);
            let res = self.add_node_with(id, value);
            proof {
                assert(res is Ok);
            }
            match res {
                Ok(()) => {},
                Err(_) => {
                    return vstd::pervasive::unreached();
                },
            }
            let ghost out0 = output@;
            proof {
                assert(id - lower <= n0 + idx);
                assert(lower - start0 <= n0 + idx);
                assert(id + 1 <= usize::MAX);
            }
            output.push(id);
            lower = id + 1;
            proof {
                assert(output@ == out0.push(id));
                assert(output@.drop_last() =~= out0);
                lemma_zipped_push(out0, id, vals0, idx);
                assert(zipped_nodes(output@, vals0, idx + 1) =~= zipped_nodes(
                    output@,
                    vals0,
                    idx,
                ).push(Node { id, value: vals0[idx] }));
                assert(self.spec_nodes() =~= base + zipped_nodes(output@, vals0, idx + 1));
                assert forall|j: int| 0 <= j < idx + 1 implies #[trigger] auto_probe_ok(
                    base,
                    start0,
                    output@,
                    vals0,
                    j,
                ) by {
                    if j < idx {
                        assert(auto_probe_ok(base, start0, out0, vals0, j));
                        lemma_zipped_push(out0, id, vals0, j);
                        assert(output@[j] == out0[j]);
                        if j > 0 {
                            assert(output@[j - 1] == out0[j - 1]);
                        }
                    } else {
                        assert(base + zipped_nodes(output@, vals0, j) =~= pre);
                        assert forall|m: usize|
                            (if j == 0 {
                                start0
                            } else {
                                output@[j - 1] + 1
                            }) <= m < output@[j] implies #[trigger] contains_id(
                            base + zipped_nodes(output@, vals0, j),
                            m,
                        ) by {
                            assert(contains_id(pre, m));
                        }
                    }
                }
                assert forall|m: usize| start0 <= m < lower implies #[trigger] contains_id(
                    self.spec_nodes(),
                    m,
                ) by {
                    if m < pre.len() || contains_id(pre, m) {
                    }
                    if contains_id(pre, m) {
                        let w = choose|w: int|
                            0 <= w < seq_ids(pre).len() && seq_ids(pre)[w] == m;
                        assert(seq_ids(self.spec_nodes())[w] == m);
                    } else {
                        assert(m == id);
                        assert(self.spec_nodes().last().id == id);
                        assert(seq_ids(self.spec_nodes()).last() == id);
                    }
                }
                vstd::seq_lib::seq_to_set_is_finite(seq_ids(self.spec_nodes()));
                seq_ids(self.spec_nodes()).lemma_cardinality_of_set();
                let r_set = id_range(start0, lower as int);
                lemma_id_range_card(start0, lower as int);
                assert forall|j: usize| r_set.contains(j) implies seq_ids(
                    self.spec_nodes(),
                ).to_set().contains(j) by {
                    assert(contains_id(self.spec_nodes(), j));
                }
                vstd::set_lib::lemma_len_subset(r_set, seq_ids(self.spec_nodes()).to_set());
                assert(lower - start0 <= n0 + output@.len());
            }
        }
        proof {
            assert(output@.len() == vals0.len());
        }
        Ok(output)
    }
}

} // verus!
