use vstd::prelude::*;

use crate::graph::{contains_id, Graph};
use crate::mapvec::{
    id_map_get, id_map_insert, id_map_model, id_map_new, id_set_contains, id_set_insert,
    id_set_model, id_set_new,
};

pub mod spatial;

verus! {

/// A coercion from a stored edge-weight representation to the ordered,
/// summable quantity the path-finding engine works with. The unit weight
/// stands for one hop, so unweighted graphs measure paths by hop count.
pub trait WeightRepr {
    /// The numeric weight this representation stands for.
    spec fn spec_weight(&self) -> usize;

    fn into_weight(&self) -> (r: usize)
        ensures
            r == self.spec_weight(),
    ;
}

impl WeightRepr for () {
    open spec fn spec_weight(&self) -> usize {
        1
    }

    fn into_weight(&self) -> (r: usize) {
        1
    }
}

impl WeightRepr for usize {
    open spec fn spec_weight(&self) -> usize {
        *self
    }

    fn into_weight(&self) -> (r: usize) {
        *self
    }
}

/// Whether `p` walks from `from` to `to` along stored edges of `g`.
pub open spec fn is_path<G: Graph>(g: &G, p: Seq<usize>, from: usize, to: usize) -> bool {
    &&& p.len() >= 1
    &&& p[0] == from
    &&& p.last() == to
    &&& forall|i: int| 0 <= i < p.len() - 1 ==> g.has_edge(#[trigger] p[i], p[i + 1])
}

/// The total numeric weight of the walk `p` through `g`.
pub open spec fn path_weight<G: Graph>(g: &G, p: Seq<usize>) -> int where G::Weight: WeightRepr
    decreases p.len(),
{
    if p.len() <= 1 {
        0
    } else {
        g.edge_weight(p[0], p[1]).spec_weight() + path_weight(g, p.drop_first())
    }
}

/// Every numeric edge weight of `g` is at most `b`.
pub open spec fn weights_bounded<G: Graph>(g: &G, b: int) -> bool where G::Weight: WeightRepr {
    forall|x: usize, y: usize|
        #[trigger] g.has_edge(x, y) ==> g.edge_weight(x, y).spec_weight() <= b
}

/// A walk's weight is never negative.
pub proof fn lemma_path_weight_nonneg<G: Graph>(g: &G, p: Seq<usize>) where G::Weight: WeightRepr
    ensures
        path_weight(g, p) >= 0,
    decreases p.len(),
{
    if p.len() > 1 {
        lemma_path_weight_nonneg(g, p.drop_first());
    }
}

/// Extending a walk by one edge at the back adds that edge's weight.
pub proof fn lemma_path_weight_snoc<G: Graph>(g: &G, p: Seq<usize>, y: usize) where
    G::Weight: WeightRepr,

    requires
        p.len() >= 1,
    ensures
        path_weight(g, p.push(y)) == path_weight(g, p) + g.edge_weight(p.last(), y).spec_weight(),
    decreases p.len(),
{
    let q = p.push(y);
    if p.len() == 1 {
        assert(q.drop_first() =~= seq![y]);
        assert(path_weight(g, q.drop_first()) == 0);
        assert(q[0] == p[0] && q[1] == y);
        assert(path_weight(g, q) == g.edge_weight(p[0], y).spec_weight());
    } else {
        assert(q.drop_first() =~= p.drop_first().push(y));
        lemma_path_weight_snoc(g, p.drop_first(), y);
        assert(q[0] == p[0] && q[1] == p[1]);
        assert(p.drop_first().last() == p.last());
        assert(path_weight(g, q) == g.edge_weight(p[0], p[1]).spec_weight() + path_weight(
            g,
            q.drop_first(),
        ));
        assert(path_weight(g, p) == g.edge_weight(p[0], p[1]).spec_weight() + path_weight(
            g,
            p.drop_first(),
        ));
    }
}

/// Extending a walk by one edge at the front adds that edge's weight.
pub proof fn lemma_path_weight_cons<G: Graph>(g: &G, x: usize, p: Seq<usize>) where
    G::Weight: WeightRepr,

    requires
        p.len() >= 1,
    ensures
        path_weight(g, p.insert(0, x)) == g.edge_weight(x, p[0]).spec_weight() + path_weight(g, p),
{
    let q = p.insert(0, x);
    assert(q.drop_first() =~= p);
    assert(q[0] == x && q[1] == p[0]);
}

/// A prefix of a walk weighs no more than the whole walk.
pub proof fn lemma_path_weight_prefix<G: Graph>(g: &G, p: Seq<usize>, m: int) where
    G::Weight: WeightRepr,

    requires
        1 <= m <= p.len(),
    ensures
        path_weight(g, p.take(m)) <= path_weight(g, p),
    decreases p.len() - m,
{
    if m == p.len() {
        assert(p.take(m) =~= p);
    } else {
        assert(p.take(m + 1) =~= p.take(m).push(p[m]));
        lemma_path_weight_snoc(g, p.take(m), p[m]);
        lemma_path_weight_prefix(g, p, m + 1);
    }
}

/// A walk without repeated nodes visits at most every stored node once.
pub proof fn lemma_simple_path_len<G: Graph>(g: &G, p: Seq<usize>)
    requires
        p.no_duplicates(),
        forall|i: int| 0 <= i < p.len() ==> contains_id(g.spec_nodes(), #[trigger] p[i]),
    ensures
        p.len() <= g.spec_nodes().len(),
{
    let ids = crate::graph::seq_ids(g.spec_nodes());
    p.unique_seq_to_set();
    vstd::seq_lib::seq_to_set_is_finite(ids);
    ids.lemma_cardinality_of_set();
    assert forall|x: usize| p.to_set().contains(x) implies ids.to_set().contains(x) by {
        let i = choose|i: int| 0 <= i < p.len() && p[i] == x;
        assert(contains_id(g.spec_nodes(), x));
    }
    vstd::set_lib::lemma_len_subset(p.to_set(), ids.to_set());
}

/// A walk with distinct nodes through bounded-weight edges weighs at most
/// the bound once per stored node.
pub proof fn lemma_simple_path_weight_bound<G: Graph>(g: &G, p: Seq<usize>, b: int) where
    G::Weight: WeightRepr,

    requires
        g.wf(),
        p.len() >= 1,
        p.no_duplicates(),
        forall|i: int| 0 <= i < p.len() - 1 ==> g.has_edge(#[trigger] p[i], p[i + 1]),
        weights_bounded(g, b),
        b >= 0,
    ensures
        path_weight(g, p) <= g.spec_nodes().len() * b,
    decreases p.len(),
{
    if p.len() == 1 {
        assert(g.spec_nodes().len() * b >= 0) by (nonlinear_arith)
            requires
                g.spec_nodes().len() >= 0,
                b >= 0,
        ;
    } else {
        g.wf_facts();
        assert forall|i: int| 0 <= i < p.len() implies contains_id(
            g.spec_nodes(),
            #[trigger] p[i],
        ) by {
            if i < p.len() - 1 {
                assert(g.has_edge(p[i], p[i + 1]));
            } else {
                assert(g.has_edge(p[i - 1], p[i]));
            }
        }
        lemma_simple_path_len(g, p);
        lemma_path_weight_bound_by_len(g, p, b);
        assert((p.len() - 1) * b <= g.spec_nodes().len() * b) by (nonlinear_arith)
            requires
                p.len() - 1 <= g.spec_nodes().len(),
                b >= 0,
        ;
    }
}

/// A walk's weight is at most the bound times its edge count.
pub proof fn lemma_path_weight_bound_by_len<G: Graph>(g: &G, p: Seq<usize>, b: int) where
    G::Weight: WeightRepr,

    requires
        p.len() >= 1,
        forall|i: int| 0 <= i < p.len() - 1 ==> g.has_edge(#[trigger] p[i], p[i + 1]),
        weights_bounded(g, b),
        b >= 0,
    ensures
        path_weight(g, p) <= (p.len() - 1) * b,
    decreases p.len(),
{
    if p.len() > 1 {
        let rest = p.drop_first();
        assert forall|i: int| 0 <= i < rest.len() - 1 implies g.has_edge(
            #[trigger] rest[i],
            rest[i + 1],
        ) by {
            assert(rest[i] == p[i + 1] && rest[i + 1] == p[i + 2]);
            assert(g.has_edge(p[i + 1], p[i + 2]));
        }
        lemma_path_weight_bound_by_len(g, rest, b);
        assert(g.has_edge(p[0], p[1]));
        assert((p.len() - 2) * b + b == (p.len() - 1) * b) by (nonlinear_arith);
    }
}

/// A set of ids closed under stored edges and holding a walk's start holds
/// the walk's end.
pub proof fn lemma_closed_set_blocks<G: Graph>(
    g: &G,
    vset: Set<usize>,
    p: Seq<usize>,
    from: usize,
    to: usize,
)
    requires
        is_path(g, p, from, to),
        vset.contains(from),
        forall|x: usize, y: usize|
            vset.contains(x) && #[trigger] g.has_edge(x, y) ==> vset.contains(y),
    ensures
        vset.contains(to),
    decreases p.len(),
{
    if p.len() == 1 {
    } else {
        assert(g.has_edge(p[0], p[1]));
        let rest = p.drop_first();
        assert(is_path(g, rest, p[1], to)) by {
            assert forall|i: int| 0 <= i < rest.len() - 1 implies g.has_edge(
                #[trigger] rest[i],
                rest[i + 1],
            ) by {
                assert(rest[i] == p[i + 1] && rest[i + 1] == p[i + 2]);
                assert(g.has_edge(p[i + 1], p[i + 2]));
            }
        }
        lemma_closed_set_blocks(g, vset, rest, p[1], to);
    }
}

/// The first place a walk starting inside `vset` steps out of it.
pub proof fn lemma_crossing<G: Graph>(
    g: &G,
    vset: Set<usize>,
    q: Seq<usize>,
    from: usize,
    u: usize,
) -> (k: int)
    requires
        is_path(g, q, from, u),
        vset.contains(from),
        !vset.contains(u),
    ensures
        0 <= k < q.len() - 1,
        vset.contains(q[k]),
        !vset.contains(q[k + 1]),
        forall|j: int| 0 <= j <= k ==> vset.contains(#[trigger] q[j]),
    decreases q.len(),
{
    if !vset.contains(q[1]) {
        0
    } else {
        let rest = q.drop_first();
        assert(is_path(g, rest, q[1], u)) by {
            assert forall|i: int| 0 <= i < rest.len() - 1 implies g.has_edge(
                #[trigger] rest[i],
                rest[i + 1],
            ) by {
                assert(rest[i] == q[i + 1] && rest[i + 1] == q[i + 2]);
                assert(g.has_edge(q[i + 1], q[i + 2]));
            }
        }
        let k0 = lemma_crossing(g, vset, rest, q[1], u);
        assert forall|j: int| 0 <= j <= k0 + 1 implies vset.contains(#[trigger] q[j]) by {
            if j >= 1 {
                assert(vset.contains(rest[j - 1]));
            }
        }
        assert(q[k0 + 1] == rest[k0] && q[k0 + 2] == rest[k0 + 1]);
        k0 + 1
    }
}

/// A recorded distance is witnessed by a duplicate-free walk whose interior
/// lies inside the visited set.
pub open spec fn dist_witnessed<G: Graph>(
    g: &G,
    from: usize,
    v: usize,
    d: int,
    vset: Set<usize>,
) -> bool where G::Weight: WeightRepr {
    exists|p: Seq<usize>|
        {
            &&& #[trigger] is_path(g, p, from, v)
            &&& p.no_duplicates()
            &&& path_weight(g, p) == d
            &&& forall|j: int| 0 <= j < p.len() - 1 ==> vset.contains(#[trigger] p[j])
        }
}

/// No walk from `from` to `v` weighs less than `d`.
pub open spec fn dist_optimal<G: Graph>(g: &G, from: usize, v: usize, d: int) -> bool where
    G::Weight: WeightRepr,
 {
    forall|p: Seq<usize>| #[trigger] is_path(g, p, from, v) ==> d <= path_weight(g, p)
}

/// A witness stays a witness when the visited set grows.
proof fn lemma_dist_witnessed_mono<G: Graph>(
    g: &G,
    from: usize,
    v: usize,
    d: int,
    v1: Set<usize>,
    v2: Set<usize>,
) where G::Weight: WeightRepr
    requires
        dist_witnessed(g, from, v, d, v1),
        v1.subset_of(v2),
    ensures
        dist_witnessed(g, from, v, d, v2),
{
    let p = choose|p: Seq<usize>|
        {
            &&& #[trigger] is_path(g, p, from, v)
            &&& p.no_duplicates()
            &&& path_weight(g, p) == d
            &&& forall|j: int| 0 <= j < p.len() - 1 ==> v1.contains(#[trigger] p[j])
        };
    assert(is_path(g, p, from, v));
    assert forall|j: int| 0 <= j < p.len() - 1 implies v2.contains(#[trigger] p[j]) by {
        assert(v1.contains(p[j]));
    }
}

/// Every edge leaving the visited set is relaxed.
pub open spec fn edges_relaxed<G: Graph>(
    g: &G,
    vset: Set<usize>,
    dmap: Map<usize, usize>,
) -> bool where G::Weight: WeightRepr {
    forall|x: usize, y: usize|
        vset.contains(x) && #[trigger] g.has_edge(x, y) ==> dmap.contains_key(y) && dmap[y]
            <= dmap[x] + g.edge_weight(x, y).spec_weight()
}

/// Every edge leaving the visited set is relaxed, except possibly those out
/// of one id whose neighbors are still being handled.
pub open spec fn edges_relaxed_except<G: Graph>(
    g: &G,
    vset: Set<usize>,
    dmap: Map<usize, usize>,
    current: usize,
) -> bool where G::Weight: WeightRepr {
    forall|x: usize, y: usize|
        vset.contains(x) && x != current && #[trigger] g.has_edge(x, y) ==> dmap.contains_key(y)
            && dmap[y] <= dmap[x] + g.edge_weight(x, y).spec_weight()
}

/// The core search-state invariant of the shortest-path engine: every
/// recorded distance is realized by a walk through visited nodes, every
/// visited distance is optimal, and the predecessor map walks back through
/// strictly earlier visits.
pub open spec fn dijkstra_core_inv<G: Graph>(
    g: &G,
    from: usize,
    vset: Set<usize>,
    dmap: Map<usize, usize>,
    pmap: Map<usize, usize>,
    vord: Map<usize, int>,
    tick: int,
    n: int,
    b: int,
) -> bool where G::Weight: WeightRepr {
    &&& dmap.contains_key(from) && dmap[from] == 0 && !pmap.contains_key(from)
    &&& (forall|v: usize| #[trigger] vset.contains(v) ==> dmap.contains_key(v))
    &&& (forall|v: usize| #[trigger] dmap.contains_key(v) ==> v == from || pmap.contains_key(v))
    &&& (forall|v: usize| #[trigger] pmap.contains_key(v) ==> dmap.contains_key(v) && v != from)
    &&& (forall|v: usize|
        #[trigger] dmap.contains_key(v) ==> dist_witnessed(g, from, v, dmap[v] as int, vset))
    &&& (forall|v: usize|
        #[trigger] vset.contains(v) ==> dist_optimal(g, from, v, dmap[v] as int))
    &&& (forall|v: usize|
        #[trigger] pmap.contains_key(v) ==> vset.contains(pmap[v]) && g.has_edge(pmap[v], v)
            && dmap[v] == dmap[pmap[v]] + g.edge_weight(pmap[v], v).spec_weight())
    &&& (forall|v: usize| #[trigger] dmap.contains_key(v) ==> dmap[v] <= n * b)
    &&& 0 <= tick
    &&& (forall|v: usize|
        #[trigger] vset.contains(v) ==> vord.contains_key(v) && 0 <= vord[v] < tick)
    &&& (forall|v: usize|
        #[trigger] pmap.contains_key(v) && vset.contains(v) ==> vord[pmap[v]] < vord[v])
    &&& (!vset.contains(from) ==> (forall|v: usize|
        #[trigger] dmap.contains_key(v) ==> v == from))
    &&& vset.finite()
    &&& vset.len() <= n + 1
    &&& (forall|v: usize|
        #[trigger] vset.contains(v) ==> contains_id(g.spec_nodes(), v) || v == from)
}

/// Every queue entry names a recorded id at no less than its distance.
pub open spec fn queue_entries_ok(dmap: Map<usize, usize>, q: Seq<(usize, usize)>) -> bool {
    forall|i: int|
        0 <= i < q.len() ==> dmap.contains_key((#[trigger] q[i]).0) && dmap[q[i].0] <= q[i].1
}

/// Every recorded but unvisited id still has its best entry in the queue.
pub open spec fn queue_covers(
    vset: Set<usize>,
    dmap: Map<usize, usize>,
    q: Seq<(usize, usize)>,
) -> bool {
    forall|v: usize|
        #[trigger] dmap.contains_key(v) && !vset.contains(v) ==> exists|i: int|
            0 <= i < q.len() && q[i] == (v, dmap[v])
}

/// The start either was visited or still waits in the queue.
pub open spec fn from_tracked(vset: Set<usize>, q: Seq<(usize, usize)>, from: usize) -> bool {
    vset.contains(from) || exists|i: int| 0 <= i < q.len() && (#[trigger] q[i]).0 == from
}

/// An element found away from the removed index survives the removal.
proof fn lemma_remove_keeps<A>(s: Seq<A>, i: int, x: A)
    requires
        0 <= i < s.len(),
        exists|j: int| 0 <= j < s.len() && s[j] == x && j != i,
    ensures
        exists|j: int| 0 <= j < s.remove(i).len() && s.remove(i)[j] == x,
{
    let j = choose|j: int| 0 <= j < s.len() && s[j] == x && j != i;
    if j < i {
        assert(s.remove(i)[j] == x);
    } else {
        assert(s.remove(i)[j - 1] == x);
    }
}

/// An id of least recorded distance among the unvisited, with every edge out
/// of the visited set relaxed, carries an optimal distance.
proof fn lemma_popped_optimal<G: Graph>(
    g: &G,
    from: usize,
    u: usize,
    vset: Set<usize>,
    dmap: Map<usize, usize>,
) where G::Weight: WeightRepr
    requires
        vset.contains(from),
        !vset.contains(u),
        dmap.contains_key(u),
        forall|v: usize|
            #[trigger] vset.contains(v) ==> dmap.contains_key(v) && dist_optimal(
                g,
                from,
                v,
                dmap[v] as int,
            ),
        forall|x: usize, y: usize|
            vset.contains(x) && #[trigger] g.has_edge(x, y) ==> dmap.contains_key(y) && dmap[y]
                <= dmap[x] + g.edge_weight(x, y).spec_weight(),
        forall|v: usize|
            #[trigger] dmap.contains_key(v) && !vset.contains(v) ==> dmap[u] <= dmap[v],
    ensures
        dist_optimal(g, from, u, dmap[u] as int),
{
    assert forall|q: Seq<usize>| #[trigger] is_path(g, q, from, u) implies dmap[u] as int
        <= path_weight(g, q) by {
        let k = lemma_crossing(g, vset, q, from, u);
        let x = q[k];
        let y = q[k + 1];
        assert(g.has_edge(x, y));
        assert(dmap.contains_key(y) && dmap[y] <= dmap[x] + g.edge_weight(x, y).spec_weight());
        assert(dmap[u] <= dmap[y]);
        let prefix = q.take(k + 1);
        assert(is_path(g, prefix, from, x)) by {
            assert(prefix[0] == q[0]);
            assert(prefix.last() == q[k]);
            assert forall|i: int| 0 <= i < prefix.len() - 1 implies g.has_edge(
                #[trigger] prefix[i],
                prefix[i + 1],
            ) by {
                assert(prefix[i] == q[i] && prefix[i + 1] == q[i + 1]);
                assert(g.has_edge(q[i], q[i + 1]));
            }
        }
        assert(dmap[x] as int <= path_weight(g, prefix));
        assert(q.take(k + 2) =~= prefix.push(y));
        lemma_path_weight_snoc(g, prefix, y);
        lemma_path_weight_prefix(g, q, k + 2);
    }
}

/// The lazy-deletion priority queue: entries pair an id with the distance it
/// was enqueued under; extraction returns an entry of least distance, and
/// stale entries are simply left to be discarded by the caller.
struct PendingQueue {
    entries: Vec<(usize, usize)>,
}

impl PendingQueue {
    fn new() -> (r: Self)
        ensures
            r.entries@.len() == 0,
    {
        PendingQueue { entries: Vec::new() }
    }

    fn push(&mut self, id: usize, priority: usize)
        ensures
            final(self).entries@ == old(self).entries@.push((id, priority)),
    {
        self.entries.push((id, priority));
    }

    fn pop_min(&mut self) -> (r: Option<(usize, usize)>)
        ensures
            (match r {
                None => old(self).entries@.len() == 0 && final(self).entries@ == old(
                    self,
                ).entries@,
                Some(e) => {
                    &&& exists|i: int|
                        0 <= i < old(self).entries@.len() && old(self).entries@[i] == e && final(self).entries@ == old(self).entries@.remove(i)
                    &&& forall|j: int|
                        0 <= j < old(self).entries@.len() ==> e.1 <= (#[trigger] old(
                            self,
                        ).entries@[j]).1
                },
            }),
    {
        if self.entries.len() == 0 {
            return None;
        }
        let mut best: usize = 0;
        for i in 1..self.entries.len()
            invariant
                best < i <= self.entries@.len(),
                forall|j: int| 0 <= j < i ==> self.entries@[best as int].1 <= (#[trigger] self.entries@[j]).1,
        {
            if self.entries[i].1 < self.entries[best].1 {
                best = i;
            }
        }
        let e = self.entries[best];
        self.entries.remove(best);
        Some(e)
    }
}

/// Extracts the next not-yet-visited id from the queue, discarding stale
/// entries: the result carries the least recorded distance among all
/// unvisited ids, or nothing once the queue has drained.
#[verifier::loop_isolation(false)]
fn next_unvisited(
    queue: &mut PendingQueue,
    visited: &map_vec::Set<usize>,
    distance: &map_vec::Map<usize, usize>,
    Ghost(from): Ghost<usize>,
) -> (r: Option<usize>)
    requires
        queue_entries_ok(id_map_model(*distance), old(queue).entries@),
        queue_covers(id_set_model(*visited), id_map_model(*distance), old(queue).entries@),
        from_tracked(id_set_model(*visited), old(queue).entries@, from),
        id_map_model(*distance).contains_key(from),
    ensures
        queue_entries_ok(id_map_model(*distance), final(queue).entries@),
        (match r {
            None => {
                &&& from_tracked(id_set_model(*visited), final(queue).entries@, from)
                &&& id_set_model(*visited).contains(from)
                &&& forall|v: usize|
                    #[trigger] id_map_model(*distance).contains_key(v) ==> id_set_model(
                        *visited,
                    ).contains(v)
                &&& queue_covers(
                    id_set_model(*visited),
                    id_map_model(*distance),
                    final(queue).entries@,
                )
            },
            Some(c) => {
                &&& c == from || from_tracked(id_set_model(*visited), final(queue).entries@, from)
                &&& !id_set_model(*visited).contains(c)
                &&& id_map_model(*distance).contains_key(c)
                &&& forall|v: usize|
                    #[trigger] id_map_model(*distance).contains_key(v) && !id_set_model(
                        *visited,
                    ).contains(v) ==> id_map_model(*distance)[c] <= id_map_model(*distance)[v]
                &&& forall|v: usize|
                    #[trigger] id_map_model(*distance).contains_key(v) && !id_set_model(
                        *visited,
                    ).contains(v) && v != c ==> exists|i: int|
                        0 <= i < final(queue).entries@.len() && final(queue).entries@[i] == (
                        v,
                        id_map_model(*distance)[v],
                        )
            },
        }),
{
    let mut current_opt: Option<usize> = None;
    let mut queue_exhausted = false;
    while current_opt.is_none() && !queue_exhausted
        invariant
            queue_entries_ok(id_map_model(*distance), queue.entries@),
            queue_exhausted ==> queue.entries@.len() == 0,
            (match current_opt {
                None => queue_covers(
                    id_set_model(*visited),
                    id_map_model(*distance),
                    queue.entries@,
                ) && from_tracked(id_set_model(*visited), queue.entries@, from),
                Some(c) => {
                    &&& c == from || from_tracked(
                        id_set_model(*visited),
                        queue.entries@,
                        from,
                    )
                    &&& !id_set_model(*visited).contains(c)
                    &&& id_map_model(*distance).contains_key(c)
                    &&& forall|v: usize|
                        #[trigger] id_map_model(*distance).contains_key(v) && !id_set_model(
                            *visited,
                        ).contains(v) ==> id_map_model(*distance)[c] <= id_map_model(*distance)[v]
                    &&& forall|v: usize|
                        #[trigger] id_map_model(*distance).contains_key(v) && !id_set_model(
                            *visited,
                        ).contains(v) && v != c ==> exists|i: int|
                            0 <= i < queue.entries@.len() && queue.entries@[i] == (
                            v,
                            id_map_model(*distance)[v],
                            )
                },
            }),
        decreases queue.entries@.len(), (if queue_exhausted {
            0int
        } else {
            1int
        }),
    {
        let ghost pre_q = queue.entries@;
        match queue.pop_min() {
            None => {
                queue_exhausted = true;
            },
            Some((id, p)) => {
                let ghost ri = choose|i: int|
                    0 <= i < pre_q.len() && pre_q[i] == (id, p) && queue.entries@ == pre_q.remove(
                        i,
                    );
                if !id_set_contains(visited, id) {
                    proof {
                        let dmap = id_map_model(*distance);
                        let vset = id_set_model(*visited);
                        // the popped entry is the best one of its id
                        assert(dmap[id] <= p);
                        let wi = choose|i: int| 0 <= i < pre_q.len() && pre_q[i] == (id, dmap[id]);
                        assert(p <= pre_q[wi].1);
                        assert(p == dmap[id]);
                        assert forall|v: usize|
                            #[trigger] dmap.contains_key(v) && !vset.contains(v) implies dmap[id]
                            <= dmap[v] by {
                            let vi = choose|i: int| 0 <= i < pre_q.len() && pre_q[i] == (
                            v,
                            dmap[v],
                            );
                            assert(p <= pre_q[vi].1);
                        }
                        // every other unvisited id keeps an entry
                        assert forall|v: usize|
                            #[trigger] dmap.contains_key(v) && !vset.contains(v) && v != id implies
                            exists|i: int|
                                0 <= i < queue.entries@.len() && queue.entries@[i] == (
                                v,
                                dmap[v],
                                ) by {
                            let vi = choose|i: int| 0 <= i < pre_q.len() && pre_q[i] == (
                            v,
                            dmap[v],
                            );
                            assert(pre_q[vi] != (id, p));
                            lemma_remove_keeps(pre_q, ri, (v, dmap[v]));
                        }
                        // the start stays tracked
                        if !vset.contains(from) && id != from {
                            let fi = choose|i: int|
                                0 <= i < pre_q.len() && (#[trigger] pre_q[i]).0 == from;
                            assert(pre_q[fi] != (id, p)) by {
                                assert(pre_q[fi].0 == from);
                            }
                            lemma_remove_keeps(pre_q, ri, pre_q[fi]);
                            let nj = choose|j: int|
                                0 <= j < queue.entries@.len() && queue.entries@[j] == pre_q[fi];
                            assert(queue.entries@[nj].0 == from);
                        }
                    }
                    current_opt = Some(id);
                } else {
                    proof {
                        let dmap = id_map_model(*distance);
                        let vset = id_set_model(*visited);
                        assert forall|v: usize|
                            #[trigger] dmap.contains_key(v) && !vset.contains(v) implies exists|
                            i: int,
                        |
                            0 <= i < queue.entries@.len() && queue.entries@[i] == (
                            v,
                            dmap[v],
                            ) by {
                            let vi = choose|i: int| 0 <= i < pre_q.len() && pre_q[i] == (
                            v,
                            dmap[v],
                            );
                            assert(pre_q[vi] != (id, p)) by {
                                assert(pre_q[vi].0 == v && !vset.contains(v));
                                assert(vset.contains(id));
                            }
                            lemma_remove_keeps(pre_q, ri, (v, dmap[v]));
                        }
                        if !vset.contains(from) {
                            let fi = choose|i: int|
                                0 <= i < pre_q.len() && (#[trigger] pre_q[i]).0 == from;
                            assert(pre_q[fi] != (id, p)) by {
                                assert(pre_q[fi].0 == from);
                                assert(vset.contains(id));
                                assert(id_map_model(*distance).contains_key(from));
                            }
                            lemma_remove_keeps(pre_q, ri, pre_q[fi]);
                            let nj = choose|j: int|
                                0 <= j < queue.entries@.len() && queue.entries@[j] == pre_q[fi];
                            assert(queue.entries@[nj].0 == from);
                        }
                    }
                }
            },
        }
    }
    match current_opt {
        None => {
            proof {
                assert(id_set_model(*visited).contains(from)) by {
                    if !id_set_model(*visited).contains(from) {
                        let fi = choose|i: int|
                            0 <= i < queue.entries@.len() && (#[trigger] queue.entries@[i]).0
                                == from;
                        assert(false);
                    }
                }
                assert forall|v: usize|
                    #[trigger] id_map_model(*distance).contains_key(v) implies id_set_model(
                    *visited,
                ).contains(v) by {
                    if !id_set_model(*visited).contains(v) {
                        let vi = choose|i: int|
                            0 <= i < queue.entries@.len() && queue.entries@[i] == (
                            v,
                            id_map_model(*distance)[v],
                            );
                        assert(false);
                    }
                }
            }
            None
        },
        Some(c) => Some(c),
    }
}

/// Taking an id of least recorded distance into the visited set keeps the
/// search state sound: the id's distance is optimal, every witness walk
/// survives, and the visited set stays within the stored ids and the start.
proof fn lemma_visit<G: Graph>(
    g: &G,
    from: usize,
    current: usize,
    vset0: Set<usize>,
    vset: Set<usize>,
    dmap: Map<usize, usize>,
    n: int,
) where G::Weight: WeightRepr
    requires
        g.wf(),
        n == g.spec_nodes().len(),
        vset == vset0.insert(current),
        !vset0.contains(current),
        dmap.contains_key(current),
        dmap.contains_key(from) && dmap[from] == 0,
        vset0.finite(),
        vset0.len() <= n + 1,
        forall|v: usize| #[trigger] vset0.contains(v) ==> contains_id(g.spec_nodes(), v) || v == from,
        forall|v: usize|
            #[trigger] vset0.contains(v) ==> dmap.contains_key(v) && dist_optimal(
                g,
                from,
                v,
                dmap[v] as int,
            ),
        forall|x: usize, y: usize|
            vset0.contains(x) && #[trigger] g.has_edge(x, y) ==> dmap.contains_key(y) && dmap[y]
                <= dmap[x] + g.edge_weight(x, y).spec_weight(),
        forall|v: usize|
            #[trigger] dmap.contains_key(v) ==> dist_witnessed(g, from, v, dmap[v] as int, vset0),
        forall|v: usize|
            #[trigger] dmap.contains_key(v) && !vset0.contains(v) ==> dmap[current] <= dmap[v],
        !vset0.contains(from) ==> (forall|v: usize|
            #[trigger] dmap.contains_key(v) ==> v == from),
    ensures
        dist_optimal(g, from, current, dmap[current] as int),
        forall|v: usize|
            #[trigger] dmap.contains_key(v) ==> dist_witnessed(g, from, v, dmap[v] as int, vset),
        vset.finite(),
        vset.len() == vset0.len() + 1,
        vset.len() <= n + 1,
        contains_id(g.spec_nodes(), current) || current == from,
        forall|v: usize| #[trigger] vset.contains(v) ==> contains_id(g.spec_nodes(), v) || v == from,
{
    g.wf_facts();
    vstd::seq_lib::seq_to_set_is_finite(crate::graph::seq_ids(g.spec_nodes()));
    crate::graph::seq_ids(g.spec_nodes()).lemma_cardinality_of_set();
    if vset0.contains(from) {
        lemma_popped_optimal(g, from, current, vset0, dmap);
    } else {
        assert(current == from);
        assert forall|q: Seq<usize>| #[trigger] is_path(g, q, from, current) implies
            dmap[current] as int <= path_weight(g, q) by {
            lemma_path_weight_nonneg(g, q);
        }
    }
    // the new visit lies among the stored ids (or is the start)
    assert(contains_id(g.spec_nodes(), current) || current == from) by {
        let p = choose|p: Seq<usize>|
            {
                &&& #[trigger] is_path(g, p, from, current)
                &&& p.no_duplicates()
                &&& path_weight(g, p) == dmap[current] as int
                &&& forall|j: int| 0 <= j < p.len() - 1 ==> vset0.contains(#[trigger] p[j])
            };
        assert(is_path(g, p, from, current));
        if p.len() >= 2 {
            assert(g.has_edge(p[p.len() - 2], p[p.len() - 1]));
            assert(p[p.len() - 1] == current);
        }
    }
    assert(vset.subset_of(crate::graph::seq_ids(g.spec_nodes()).to_set().insert(from))) by {
        assert forall|v: usize| vset.contains(v) implies crate::graph::seq_ids(
            g.spec_nodes(),
        ).to_set().insert(from).contains(v) by {
            assert(contains_id(g.spec_nodes(), v) || v == from);
        }
    }
    vstd::set_lib::lemma_len_subset(
        vset,
        crate::graph::seq_ids(g.spec_nodes()).to_set().insert(from),
    );
    assert forall|v: usize| #[trigger] dmap.contains_key(v) implies dist_witnessed(
        g,
        from,
        v,
        dmap[v] as int,
        vset,
    ) by {
        lemma_dist_witnessed_mono(g, from, v, dmap[v] as int, vset0, vset);
    }
}

/// Extending the witness walk of the current id by one edge witnesses the
/// candidate distance of the neighbor, within the weight headroom.
proof fn lemma_relax_improved<G: Graph>(
    g: &G,
    from: usize,
    current: usize,
    adj: usize,
    dcur: usize,
    nd: usize,
    vset: Set<usize>,
    n: int,
    b: int,
) where G::Weight: WeightRepr
    requires
        g.wf(),
        vset.contains(current),
        !vset.contains(adj),
        g.has_edge(current, adj),
        dist_witnessed(g, from, current, dcur as int, vset),
        nd as int == dcur + g.edge_weight(current, adj).spec_weight(),
        weights_bounded(g, b),
        b >= 0,
        n == g.spec_nodes().len(),
    ensures
        dist_witnessed(g, from, adj, nd as int, vset),
        nd <= n * b,
{
    let p = choose|p: Seq<usize>|
        {
            &&& #[trigger] is_path(g, p, from, current)
            &&& p.no_duplicates()
            &&& path_weight(g, p) == dcur as int
            &&& forall|j: int| 0 <= j < p.len() - 1 ==> vset.contains(#[trigger] p[j])
        };
    assert(is_path(g, p, from, current));
    let p2 = p.push(adj);
    assert forall|j: int| 0 <= j < p.len() implies vset.contains(#[trigger] p[j]) by {}
    assert(!p.contains(adj)) by {
        if p.contains(adj) {
            let j = choose|j: int| 0 <= j < p.len() && p[j] == adj;
            assert(vset.contains(adj));
        }
    }
    assert(p2.no_duplicates());
    assert(is_path(g, p2, from, adj)) by {
        assert forall|i: int| 0 <= i < p2.len() - 1 implies g.has_edge(
            #[trigger] p2[i],
            p2[i + 1],
        ) by {
            if i < p.len() - 1 {
                assert(p2[i] == p[i] && p2[i + 1] == p[i + 1]);
                assert(g.has_edge(p[i], p[i + 1]));
            } else {
                assert(p2[i] == p.last() && p2[i + 1] == adj);
            }
        }
    }
    lemma_path_weight_snoc(g, p, adj);
    assert(path_weight(g, p2) == nd as int);
    assert forall|j: int| 0 <= j < p2.len() - 1 implies vset.contains(#[trigger] p2[j]) by {
        assert(p2[j] == p[j]);
    }
    assert(dist_witnessed(g, from, adj, nd as int, vset));
    lemma_simple_path_weight_bound(g, p2, b);
}

/// A visited neighbor is already relaxed: its optimal distance beats the
/// detour through the current id.
proof fn lemma_relax_visited<G: Graph>(
    g: &G,
    from: usize,
    current: usize,
    adj: usize,
    dcur: usize,
    dadj: usize,
    vset: Set<usize>,
) where G::Weight: WeightRepr
    requires
        dist_witnessed(g, from, current, dcur as int, vset),
        g.has_edge(current, adj),
        dist_optimal(g, from, adj, dadj as int),
    ensures
        dadj as int <= dcur + g.edge_weight(current, adj).spec_weight(),
{
    let p = choose|p: Seq<usize>|
        {
            &&& #[trigger] is_path(g, p, from, current)
            &&& p.no_duplicates()
            &&& path_weight(g, p) == dcur as int
            &&& forall|j: int| 0 <= j < p.len() - 1 ==> vset.contains(#[trigger] p[j])
        };
    assert(is_path(g, p, from, current));
    let p2 = p.push(adj);
    assert(is_path(g, p2, from, adj)) by {
        assert forall|i: int| 0 <= i < p2.len() - 1 implies g.has_edge(
            #[trigger] p2[i],
            p2[i + 1],
        ) by {
            if i < p.len() - 1 {
                assert(p2[i] == p[i] && p2[i + 1] == p[i + 1]);
                assert(g.has_edge(p[i], p[i + 1]));
            } else {
                assert(p2[i] == p.last() && p2[i + 1] == adj);
            }
        }
    }
    lemma_path_weight_snoc(g, p, adj);
    assert(dadj as int <= path_weight(g, p2));
}

/// Recording an improved distance for an unvisited neighbor, together with
/// its predecessor, keeps the core search-state invariant.
proof fn lemma_relax_update<G: Graph>(
    g: &G,
    from: usize,
    current: usize,
    adj: usize,
    dcur: usize,
    nd: usize,
    vset: Set<usize>,
    dmap0: Map<usize, usize>,
    dmap: Map<usize, usize>,
    pmap0: Map<usize, usize>,
    pmap: Map<usize, usize>,
    vord: Map<usize, int>,
    tick: int,
    n: int,
    b: int,
) where G::Weight: WeightRepr
    requires
        g.wf(),
        dijkstra_core_inv(g, from, vset, dmap0, pmap0, vord, tick, n, b),
        vset.contains(current),
        !vset.contains(adj),
        g.has_edge(current, adj),
        dmap0.contains_key(current),
        dmap0[current] == dcur,
        nd as int == dcur + g.edge_weight(current, adj).spec_weight(),
        dist_witnessed(g, from, adj, nd as int, vset),
        nd <= n * b,
        dmap == dmap0.insert(adj, nd),
        pmap == pmap0.insert(adj, current),
    ensures
        dijkstra_core_inv(g, from, vset, dmap, pmap, vord, tick, n, b),
{
    assert(vset.contains(from)) by {
        if !vset.contains(from) {
            assert(dmap0.contains_key(current));
            assert(current == from);
        }
    }
    assert(adj != from);
    assert forall|v: usize| #[trigger] dmap.contains_key(v) implies dist_witnessed(
        g,
        from,
        v,
        dmap[v] as int,
        vset,
    ) by {
        if v != adj {
            assert(dmap0.contains_key(v) && dmap0[v] == dmap[v]);
        }
    }
    assert forall|v: usize| #[trigger] pmap.contains_key(v) implies vset.contains(pmap[v])
        && g.has_edge(pmap[v], v) && dmap[v] == dmap[pmap[v]] + g.edge_weight(
        pmap[v],
        v,
    ).spec_weight() by {
        if v == adj {
            assert(pmap[adj] == current);
            assert(dmap[current] == dcur);
        } else {
            assert(pmap0.contains_key(v) && pmap0[v] == pmap[v]);
            assert(pmap[v] != adj) by {
                assert(vset.contains(pmap0[v]));
            }
            assert(dmap0[v] == dmap[v]);
            assert(dmap0[pmap[v]] == dmap[pmap[v]]) by {
                assert(vset.contains(pmap0[v]));
            }
        }
    }
    assert forall|v: usize| #[trigger] vset.contains(v) implies dmap.contains_key(v) by {
        assert(dmap0.contains_key(v));
    }
}

/// Relaxes every edge out of the freshly visited id: an unvisited neighbor
/// whose distance improves is re-recorded and re-enqueued; a visited
/// neighbor is already optimal, so the detour through `current` cannot beat
/// it. Afterwards every edge out of the visited set is relaxed again.
#[verifier::loop_isolation(false)]
#[verifier::rlimit(100)]
fn relax_neighbors<G: Graph>(
    g: &G,
    current: usize,
    current_distance: usize,
    visited: &map_vec::Set<usize>,
    distance: &mut map_vec::Map<usize, usize>,
    prev: &mut map_vec::Map<usize, usize>,
    queue: &mut PendingQueue,
    Ghost(from): Ghost<usize>,
    Ghost(vord): Ghost<Map<usize, int>>,
    Ghost(tick): Ghost<int>,
    Ghost(n): Ghost<int>,
    Ghost(b): Ghost<int>,
) where G::Weight: WeightRepr
    requires
        g.wf(),
        weights_bounded(g, b),
        0 <= b,
        (n + 1) * b <= usize::MAX,
        n == g.spec_nodes().len(),
        id_set_model(*visited).contains(current),
        id_map_model(*old(distance)).contains_key(current),
        id_map_model(*old(distance))[current] == current_distance,
        dijkstra_partial_inv(
            g,
            from,
            id_set_model(*visited),
            id_map_model(*old(distance)),
            id_map_model(*old(prev)),
            vord,
            tick,
            n,
            b,
            current,
            Seq::empty(),
            0,
        ),
        queue_entries_ok(id_map_model(*old(distance)), old(queue).entries@),
        queue_covers(
            id_set_model(*visited),
            id_map_model(*old(distance)),
            old(queue).entries@,
        ),
        from_tracked(id_set_model(*visited), old(queue).entries@, from),
    ensures
        dijkstra_core_inv(
            g,
            from,
            id_set_model(*visited),
            id_map_model(*final(distance)),
            id_map_model(*final(prev)),
            vord,
            tick,
            n,
            b,
        ),
        edges_relaxed(g, id_set_model(*visited), id_map_model(*final(distance))),
        queue_entries_ok(id_map_model(*final(distance)), final(queue).entries@),
        queue_covers(
            id_set_model(*visited),
            id_map_model(*final(distance)),
            final(queue).entries@,
        ),
        from_tracked(id_set_model(*visited), final(queue).entries@, from),
{
    proof {
        g.wf_facts();
        assert(n * b <= (n + 1) * b && 0 <= n * b) by (nonlinear_arith)
            requires
                0 <= b,
                0 <= n,
        ;
    }
    let ghost dcur = current_distance;
    let adjacent = g.get_adjacent(&current);
    for ai in 0..adjacent.len()
        invariant
            id_set_model(*visited).contains(current),
            id_map_model(*distance).contains_key(current),
            id_map_model(*distance)[current] == dcur,
            queue_entries_ok(id_map_model(*distance), queue.entries@),
            queue_covers(id_set_model(*visited), id_map_model(*distance), queue.entries@),
            from_tracked(id_set_model(*visited), queue.entries@, from),
            dijkstra_partial_inv(
                g,
                from,
                id_set_model(*visited),
                id_map_model(*distance),
                id_map_model(*prev),
                vord,
                tick,
                n,
                b,
                current,
                adjacent@,
                ai as int,
            ),
    {
        let adj = adjacent[ai];
        let ghost iter_dmap = id_map_model(*distance);
        proof {
            assert(adjacent@.contains(adj));
            assert(g.has_edge(current, adj));
        }
        if !id_set_contains(visited, adj) {
            let path_length = match g.get_weight(&current, &adj) {
                Some(w) => w.into_weight(),
                None => vstd::pervasive::unreached(),
            };
            proof {
                assert(path_length <= b);
                assert(dcur <= n * b);
                assert(n * b + b == (n + 1) * b) by (nonlinear_arith);
            }
            let new_distance = path_length + current_distance;
            let ghost pre_dmap = id_map_model(*distance);
            let ghost pre_pmap = id_map_model(*prev);
            let improved: bool;
            match id_map_get(distance, adj) {
                None => {
                    id_map_insert(distance, adj, new_distance);
                    id_map_insert(prev, adj, current);
                    improved = true;
                },
                Some(old_distance) => {
                    if new_distance < old_distance {
                        id_map_insert(distance, adj, new_distance);
                        id_map_insert(prev, adj, current);
                        improved = true;
                    } else {
                        improved = false;
                    }
                },
            }
            proof {
                let vset = id_set_model(*visited);
                let dmap = id_map_model(*distance);
                let pmap = id_map_model(*prev);
                if improved {
                    lemma_relax_improved(
                        g,
                        from,
                        current,
                        adj,
                        dcur,
                        new_distance,
                        vset,
                        n,
                        b,
                    );
                    assert(dmap =~= pre_dmap.insert(adj, new_distance));
                    assert(pmap =~= pre_pmap.insert(adj, current));
                    lemma_relax_update(
                        g,
                        from,
                        current,
                        adj,
                        dcur,
                        new_distance,
                        vset,
                        pre_dmap,
                        dmap,
                        pre_pmap,
                        pmap,
                        vord,
                        tick,
                        n,
                        b,
                    );
                }
            }
            let ghost pre_q = queue.entries@;
            queue.push(adj, new_distance);
            proof {
                let vset = id_set_model(*visited);
                let dmap = id_map_model(*distance);
                assert forall|v: usize|
                    #[trigger] dmap.contains_key(v) && !vset.contains(v) implies exists|i: int|
                        0 <= i < queue.entries@.len() && queue.entries@[i] == (v, dmap[v]) by {
                    if v == adj && improved {
                        assert(queue.entries@[pre_q.len() as int] == (adj, new_distance));
                    } else {
                        let vi = choose|i: int| 0 <= i < pre_q.len() && pre_q[i] == (v, dmap[v]);
                        assert(queue.entries@[vi] == (v, dmap[v]));
                    }
                }
                if !vset.contains(from) {
                    let fi = choose|i: int|
                        0 <= i < pre_q.len() && (#[trigger] pre_q[i]).0 == from;
                    assert(queue.entries@[fi].0 == from);
                }
                // the handled neighbors stay relaxed under the tightened map
                assert forall|j: int| 0 <= j < ai + 1 implies relaxed_at(
                    g,
                    dmap,
                    current,
                    adjacent@,
                    j,
                ) by {
                    assert(dmap[current] == dcur);
                    if j == ai as int {
                        if improved {
                            assert(dmap[adj] == new_distance);
                        } else {
                            assert(dmap[adj] == iter_dmap[adj]);
                        }
                    } else {
                        assert(relaxed_at(g, iter_dmap, current, adjacent@, j));
                        if adjacent@[j] == adj {
                            assert(dmap[adj] <= iter_dmap[adj]);
                        } else {
                            assert(dmap[adjacent@[j]] == iter_dmap[adjacent@[j]]);
                        }
                    }
                }
            }
        } else {
            proof {
                let vset = id_set_model(*visited);
                let dmap = id_map_model(*distance);
                lemma_relax_visited(g, from, current, adj, dcur, dmap[adj], vset);
                assert forall|j: int| 0 <= j < ai + 1 implies relaxed_at(
                    g,
                    dmap,
                    current,
                    adjacent@,
                    j,
                ) by {
                    if j < ai as int {
                        assert(relaxed_at(g, iter_dmap, current, adjacent@, j));
                    }
                }
            }
        }
    }
    proof {
        // all edges out of the newly visited id are now relaxed
        let vset = id_set_model(*visited);
        let dmap = id_map_model(*distance);
        assert forall|x: usize, y: usize|
            vset.contains(x) && #[trigger] g.has_edge(x, y) implies dmap.contains_key(y) && dmap[y]
            <= dmap[x] + g.edge_weight(x, y).spec_weight() by {
            if x == current {
                assert(adjacent@.contains(y));
                let j = choose|j: int| 0 <= j < adjacent@.len() && adjacent@[j] == y;
                assert(relaxed_at(g, dmap, current, adjacent@, j));
            }
        }
    }
}

/// Walks the predecessor chain backward from a visited target, rebuilding
/// the shortest path and re-summing its weight from the stored edges.
#[verifier::loop_isolation(false)]
fn rebuild_path<G: Graph>(
    g: &G,
    from: usize,
    to: usize,
    visited: &map_vec::Set<usize>,
    distance: &map_vec::Map<usize, usize>,
    prev: &map_vec::Map<usize, usize>,
    Ghost(vord): Ghost<Map<usize, int>>,
    Ghost(tick): Ghost<int>,
    Ghost(n): Ghost<int>,
    Ghost(b): Ghost<int>,
) -> (r: (Vec<usize>, usize)) where G::Weight: WeightRepr
    requires
        g.wf(),
        dijkstra_core_inv(
            g,
            from,
            id_set_model(*visited),
            id_map_model(*distance),
            id_map_model(*prev),
            vord,
            tick,
            n,
            b,
        ),
        id_set_model(*visited).contains(to),
    ensures
        is_path(g, r.0@, from, to),
        r.0@.no_duplicates(),
        r.1 as int == path_weight(g, r.0@),
        r.1 == id_map_model(*distance)[to],
{
    let mut output: Vec<usize> = Vec::new();
    let mut total_weight: usize = 0;
    let mut current = to;
    output.push(current);
    proof {
        assert(output@ =~= seq![to]);
        assert(is_path(g, output@, current, to));
    }
    let mut at_start = false;
    while !at_start
        invariant
            id_set_model(*visited).contains(current),
            id_map_model(*distance).contains_key(current),
            is_path(g, output@, current, to),
            output@.no_duplicates(),
            output@[0] == current,
            forall|j: int|
                0 <= j < output@.len() ==> id_set_model(*visited).contains(#[trigger] output@[j])
                    && vord.contains_key(output@[j]) && vord[output@[j]] >= vord[current],
            total_weight as int + id_map_model(*distance)[current] == id_map_model(
                *distance,
            )[to] as int,
            path_weight(g, output@) == id_map_model(*distance)[to] - id_map_model(
                *distance,
            )[current],
            at_start ==> current == from,
        decreases vord[current], (if at_start {
            0int
        } else {
            1int
        }),
    {
        match id_map_get(prev, current) {
            None => {
                at_start = true;
            },
            Some(prev_id) => {
                let weight = match g.get_weight(&prev_id, &current) {
                    Some(w) => w.into_weight(),
                    None => vstd::pervasive::unreached(),
                };
                proof {
                    assert(id_map_model(*prev).contains_key(current));
                    assert(weight == g.edge_weight(prev_id, current).spec_weight());
                    assert(id_map_model(*distance)[current] == id_map_model(*distance)[prev_id]
                        + weight);
                    assert(!output@.contains(prev_id)) by {
                        if output@.contains(prev_id) {
                            let j = choose|j: int| 0 <= j < output@.len() && output@[j] == prev_id;
                            assert(vord[prev_id] >= vord[current]);
                            assert(vord[prev_id] < vord[current]);
                        }
                    }
                }
                total_weight = total_weight + weight;
                let ghost pre_out = output@;
                output.insert(0, prev_id);
                current = prev_id;
                proof {
                    assert(output@ =~= pre_out.insert(0, prev_id));
                    lemma_path_weight_cons(g, prev_id, pre_out);
                    assert(is_path(g, output@, current, to)) by {
                        assert(output@[0] == prev_id);
                        assert(output@.last() == pre_out.last());
                        assert forall|i: int| 0 <= i < output@.len() - 1 implies g.has_edge(
                            #[trigger] output@[i],
                            output@[i + 1],
                        ) by {
                            if i == 0 {
                                assert(output@[0] == prev_id && output@[1] == pre_out[0]);
                            } else {
                                assert(output@[i] == pre_out[i - 1] && output@[i + 1] == pre_out[
                                    i
                                ]);
                                assert(g.has_edge(pre_out[i - 1], pre_out[i]));
                            }
                        }
                    }
                }
            },
        }
    }
    (output, total_weight)
}

/// A single-source shortest-path query.
pub trait PathFinder {
    /// When a search may be asked for.
    spec fn search_ok(&self) -> bool;

    fn find_path(&self, from: &usize, to: &usize) -> (r: Option<(Vec<usize>, usize)>)
        requires
            self.search_ok(),
    ;
}

/// The generalized single-source shortest-path engine: it owns a backend and
/// answers queries by the lazy-deletion form of Dijkstra's algorithm, so it
/// needs no state of its own between queries.
pub struct StatelessPathFinder<G: Graph>(pub G);

impl<G: Graph> StatelessPathFinder<G> {
    pub fn new(graph: G) -> (r: Self)
        ensures
            r.0 == graph,
    {
        Self(graph)
    }
}

impl<G: Graph> PathFinder for StatelessPathFinder<G> where G::Weight: WeightRepr {
    /// The backend is well-formed and its weights leave the arithmetic
    /// headroom any path sum needs.
    open spec fn search_ok(&self) -> bool {
        &&& self.0.wf()
        &&& exists|b: int|
            0 <= b && #[trigger] weights_bounded(&self.0, b) && (self.0.spec_nodes().len() + 1) * b
                <= usize::MAX
    }

    /// The shortest path between the two ids, if any: the returned node
    /// sequence walks stored edges from `from` to `to` without repeating a
    /// node, its total weight is returned beside it, and no other walk
    /// between the two ids weighs less. No result means no walk exists.
    #[verifier::loop_isolation(false)]
    #[verifier::rlimit(100)]
    fn find_path(&self, from: &usize, to: &usize) -> (r: Option<(Vec<usize>, usize)>)
        ensures
            (match r {
                Some(pw) => {
                    &&& is_path(&self.0, pw.0@, *from, *to)
                    &&& pw.0@.no_duplicates()
                    &&& pw.1 as int == path_weight(&self.0, pw.0@)
                    &&& dist_optimal(&self.0, *from, *to, pw.1 as int)
                },
                None => forall|p: Seq<usize>| !#[trigger] is_path(&self.0, p, *from, *to),
            }),
    {
        let g = &self.0;
        let ghost n = g.spec_nodes().len() as int;
        let ghost b = choose|b: int|
            0 <= b && #[trigger] weights_bounded(&self.0, b) && (self.0.spec_nodes().len() + 1) * b
                <= usize::MAX;
        proof {
            g.wf_facts();
            assert(weights_bounded(g, b) && (n + 1) * b <= usize::MAX);
            assert(n * b <= (n + 1) * b && 0 <= n * b) by (nonlinear_arith)
                requires
                    0 <= b,
                    0 <= n,
            ;
        }
        let mut visited = id_set_new();
        let mut prev = id_map_new();
        let mut distance = id_map_new();
        id_map_insert(&mut distance, *from, 0);
        let mut queue = PendingQueue::new();
        queue.push(*from, 0);
        let ghost mut vord: Map<usize, int> = Map::empty();
        let ghost mut tick: int = 0;
        let mut done = false;
        proof {
            let p0 = seq![*from];
            assert(is_path(g, p0, *from, *from));
            assert(dist_witnessed(g, *from, *from, 0, id_set_model(visited)));
            assert(id_set_model(visited).len() == 0);
            assert(queue.entries@[0] == (*from, 0usize));
            assert(from_tracked(id_set_model(visited), queue.entries@, *from));
            assert(queue_covers(id_set_model(visited), id_map_model(distance), queue.entries@))
                by {
                assert forall|v: usize|
                    #[trigger] id_map_model(distance).contains_key(v) && !id_set_model(
                        visited,
                    ).contains(v) implies exists|i: int|
                    0 <= i < queue.entries@.len() && queue.entries@[i] == (
                    v,
                    id_map_model(distance)[v],
                    ) by {
                    assert(v == *from);
                    assert(queue.entries@[0] == (v, id_map_model(distance)[v]));
                }
            }
        }
        while !done
            invariant
                dijkstra_core_inv(
                    g,
                    *from,
                    id_set_model(visited),
                    id_map_model(distance),
                    id_map_model(prev),
                    vord,
                    tick,
                    n,
                    b,
                ),
                !done ==> edges_relaxed(g, id_set_model(visited), id_map_model(distance)),
                queue_entries_ok(id_map_model(distance), queue.entries@),
                queue_covers(id_set_model(visited), id_map_model(distance), queue.entries@),
                from_tracked(id_set_model(visited), queue.entries@, *from),
                done ==> id_set_model(visited).contains(*to) || (id_set_model(visited).contains(
                    *from,
                ) && edges_relaxed(g, id_set_model(visited), id_map_model(distance)) && (forall|
                    v: usize,
                |
                    #[trigger] id_map_model(distance).contains_key(v) ==> id_set_model(
                        visited,
                    ).contains(v))),
            decreases n + 1 - id_set_model(visited).len(), (if done {
                0int
            } else {
                1int
            }),
        {
            match next_unvisited(&mut queue, &visited, &distance, Ghost(*from)) {
                None => {
                    done = true;
                },
                Some(current) => {
                    let ghost vset0 = id_set_model(visited);
                    let ghost tick0 = tick;
                    let ghost vord0 = vord;
                    id_set_insert(&mut visited, current);
                    proof {
                        assert(id_set_model(visited) =~= vset0.insert(current));
                        lemma_visit(
                            g,
                            *from,
                            current,
                            vset0,
                            id_set_model(visited),
                            id_map_model(distance),
                            n,
                        );
                        vord = vord.insert(current, tick);
                        tick = tick + 1;
                        let vset = id_set_model(visited);
                        let dmap = id_map_model(distance);
                        let pmap = id_map_model(prev);
                        assert forall|v: usize| #[trigger] vset.contains(v) implies
                            vord.contains_key(v) && 0 <= vord[v] < tick by {
                            if v != current {
                                assert(vset0.contains(v));
                                assert(vord0.contains_key(v) && 0 <= vord0[v] < tick0);
                            }
                        }
                        assert forall|v: usize|
                            #[trigger] pmap.contains_key(v) && vset.contains(v) implies vord[pmap[
                            v
                        ]] < vord[v] by {
                            assert(vset0.contains(pmap[v]));
                            assert(pmap[v] != current);
                            if v != current {
                                assert(vset0.contains(v));
                                assert(vord0[pmap[v]] < vord0[v]);
                            } else {
                                assert(vord0.contains_key(pmap[v]) && vord0[pmap[v]] < tick0);
                            }
                        }
                        assert(dijkstra_core_inv(g, *from, vset, dmap, pmap, vord, tick, n, b));
                        assert(edges_relaxed_except(g, vset, dmap, current)) by {
                            assert forall|x: usize, y: usize|
                                vset.contains(x) && x != current && #[trigger] g.has_edge(
                                    x,
                                    y,
                                ) implies dmap.contains_key(y) && dmap[y] <= dmap[x]
                                + g.edge_weight(x, y).spec_weight() by {
                                assert(vset0.contains(x));
                            }
                        }
                        assert(queue_covers(vset, dmap, queue.entries@)) by {
                            assert forall|v: usize|
                                #[trigger] dmap.contains_key(v) && !vset.contains(v) implies
                                exists|i: int|
                                    0 <= i < queue.entries@.len() && queue.entries@[i] == (
                                    v,
                                    dmap[v],
                                    ) by {
                                assert(v != current && !vset0.contains(v));
                            }
                        }
                        assert(from_tracked(vset, queue.entries@, *from)) by {
                            if current == *from {
                                assert(vset.contains(*from));
                            } else {
                                assert(from_tracked(vset0, queue.entries@, *from));
                                if !vset0.contains(*from) {
                                    let fi = choose|i: int|
                                        0 <= i < queue.entries@.len() && (#[trigger] queue.entries@[
                                            i
                                        ]).0 == *from;
                                    assert(queue.entries@[fi].0 == *from);
                                }
                            }
                        }
                    }
                    if current == *to {
                        done = true;
                    } else {
                        let current_distance = match id_map_get(&distance, current) {
                            Some(d) => d,
                            None => vstd::pervasive::unreached(),
                        };
                        relax_neighbors(
                            g,
                            current,
                            current_distance,
                            &visited,
                            &mut distance,
                            &mut prev,
                            &mut queue,
                            Ghost(*from),
                            Ghost(vord),
                            Ghost(tick),
                            Ghost(n),
                            Ghost(b),
                        );
                    }
                },
            }
        }
        if id_set_contains(&visited, *to) {
            let (output, total_weight) = rebuild_path(
                g,
                *from,
                *to,
                &visited,
                &distance,
                &prev,
                Ghost(vord),
                Ghost(tick),
                Ghost(n),
                Ghost(b),
            );
            proof {
                assert(dist_optimal(g, *from, *to, id_map_model(distance)[*to] as int));
            }
            Some((output, total_weight))
        } else {
            proof {
                let vset = id_set_model(visited);
                assert forall|p: Seq<usize>| !#[trigger] is_path(g, p, *from, *to) by {
                    if is_path(g, p, *from, *to) {
                        lemma_closed_set_blocks(g, vset, p, *from, *to);
                    }
                }
            }
            None
        }
    }
}

/// The loop invariant while the neighbors of `current` are being relaxed:
/// the core invariant holds, every other visited id is fully relaxed, and
/// the neighbors handled so far are relaxed.
pub open spec fn dijkstra_partial_inv<G: Graph>(
    g: &G,
    from: usize,
    vset: Set<usize>,
    dmap: Map<usize, usize>,
    pmap: Map<usize, usize>,
    vord: Map<usize, int>,
    tick: int,
    n: int,
    b: int,
    current: usize,
    adjacent: Seq<usize>,
    upto: int,
) -> bool where G::Weight: WeightRepr {
    &&& dijkstra_core_inv(g, from, vset, dmap, pmap, vord, tick, n, b)
    &&& edges_relaxed_except(g, vset, dmap, current)
    &&& (forall|j: int| 0 <= j < upto ==> relaxed_at(g, dmap, current, adjacent, j))
}

/// The edge from `current` to its `j`-th neighbor is relaxed.
pub open spec fn relaxed_at<G: Graph>(
    g: &G,
    dmap: Map<usize, usize>,
    current: usize,
    adjacent: Seq<usize>,
    j: int,
) -> bool where G::Weight: WeightRepr {
    dmap.contains_key(adjacent[j]) && dmap[adjacent[j]] <= dmap[current] + g.edge_weight(
        current,
        adjacent[j],
    ).spec_weight()
}

} // verus!
