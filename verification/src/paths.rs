//! Walks, reachability and acyclicity over sets of directed edges, and the
//! facts about them that the graph code relies on.

use vstd::prelude::*;

verus! {

/// The edges of an edge list, as a set of integer pairs.
pub open spec fn edge_set(edges: Seq<(usize, usize)>) -> Set<(int, int)> {
    Set::new(|e: (int, int)| exists|k: int| 0 <= k < edges.len() && edges[k].0 == e.0 && edges[k].1 == e.1)
}

/// `p` is a walk along the edges `es`: it is non-empty and every two
/// consecutive entries are joined by an edge.
pub open spec fn is_walk(es: Set<(int, int)>, p: Seq<int>) -> bool {
    &&& p.len() >= 1
    &&& forall|i: int| 0 <= i < p.len() - 1 ==> #[trigger] es.contains((p[i], p[i + 1]))
}

/// `v` can be reached from `u` by following zero or more edges of `es`.
pub open spec fn reaches(es: Set<(int, int)>, u: int, v: int) -> bool {
    exists|p: Seq<int>| #[trigger] is_walk(es, p) && p[0] == u && p.last() == v
}

/// No edge closes a cycle: the source of an edge cannot be reached from its
/// target. (A self-loop closes a cycle too.)
pub open spec fn acyclic(es: Set<(int, int)>) -> bool {
    forall|u: int, v: int| #[trigger] es.contains((u, v)) ==> !reaches(es, v, u)
}

/// `order` lists each of the nodes `0..n` exactly once.
pub open spec fn is_node_permutation(order: Seq<usize>, n: nat) -> bool {
    &&& order.len() == n
    &&& order.no_duplicates()
    &&& forall|i: int| 0 <= i < order.len() ==> #[trigger] order[i] < n
}

/// Every edge of `es` between two entries of `order` goes forward in `order`.
pub open spec fn respects_edges(order: Seq<usize>, es: Set<(int, int)>) -> bool {
    forall|i: int, j: int|
        0 <= i < order.len() && 0 <= j < order.len() && #[trigger] es.contains(
            (order[i] as int, order[j] as int),
        ) ==> i < j
}

/// Every node reaches itself.
pub proof fn lemma_reaches_refl(es: Set<(int, int)>, u: int)
    ensures
        reaches(es, u, u),
{
    let p = seq![u];
    assert(is_walk(es, p));
}

/// A walk can be extended by one more edge.
pub proof fn lemma_reaches_step(es: Set<(int, int)>, u: int, v: int, w: int)
    requires
        reaches(es, u, v),
        es.contains((v, w)),
    ensures
        reaches(es, u, w),
{
    let p = choose|p: Seq<int>| #[trigger] is_walk(es, p) && p[0] == u && p.last() == v;
    let q = p.push(w);
    assert forall|i: int| 0 <= i < q.len() - 1 implies #[trigger] es.contains((q[i], q[i + 1])) by {
        if i < p.len() - 1 {
            assert(q[i] == p[i] && q[i + 1] == p[i + 1]);
        }
    }
    assert(is_walk(es, q));
}

/// Walks compose.
pub proof fn lemma_reaches_trans(es: Set<(int, int)>, u: int, v: int, w: int)
    requires
        reaches(es, u, v),
        reaches(es, v, w),
    ensures
        reaches(es, u, w),
{
    let q = choose|q: Seq<int>| #[trigger] is_walk(es, q) && q[0] == v && q.last() == w;
    lemma_trans_along(es, u, q, q.len() as int);
}

/// `u` reaches every entry of the walk `q` up to position `k - 1`, given that
/// it reaches `q`'s start.
proof fn lemma_trans_along(es: Set<(int, int)>, u: int, q: Seq<int>, k: int)
    requires
        is_walk(es, q),
        reaches(es, u, q[0]),
        1 <= k <= q.len(),
    ensures
        reaches(es, u, q[k - 1]),
    decreases k,
{
    if k > 1 {
        lemma_trans_along(es, u, q, k - 1);
        let i = k - 2;
        assert(es.contains((q[i], q[i + 1])));
        lemma_reaches_step(es, u, q[k - 2], q[k - 1]);
    }
}

/// Walks along a subset of the edges are walks along the edges.
pub proof fn lemma_reaches_mono(es: Set<(int, int)>, ds: Set<(int, int)>, u: int, v: int)
    requires
        reaches(es, u, v),
        es.subset_of(ds),
    ensures
        reaches(ds, u, v),
{
    let p = choose|p: Seq<int>| #[trigger] is_walk(es, p) && p[0] == u && p.last() == v;
    assert forall|i: int| 0 <= i < p.len() - 1 implies #[trigger] ds.contains((p[i], p[i + 1])) by {
        assert(es.contains((p[i], p[i + 1])));
    }
    assert(is_walk(ds, p));
}

/// A walk along `es` plus the edge `a -> b` either avoids that edge, or goes
/// to `a`, takes the edge, and goes on from `b`.
pub proof fn lemma_reaches_with_edge(es: Set<(int, int)>, a: int, b: int, u: int, v: int)
    requires
        reaches(es.insert((a, b)), u, v),
    ensures
        reaches(es, u, v) || (reaches(es, u, a) && reaches(es, b, v)),
{
    let ext = es.insert((a, b));
    let p = choose|p: Seq<int>| #[trigger] is_walk(ext, p) && p[0] == u && p.last() == v;
    lemma_walk_with_edge(es, a, b, p, p.len() as int);
}

proof fn lemma_walk_with_edge(es: Set<(int, int)>, a: int, b: int, p: Seq<int>, k: int)
    requires
        is_walk(es.insert((a, b)), p),
        1 <= k <= p.len(),
    ensures
        reaches(es, p[0], p[k - 1]) || (reaches(es, p[0], a) && reaches(es, b, p[k - 1])),
    decreases k,
{
    if k == 1 {
        lemma_reaches_refl(es, p[0]);
    } else {
        lemma_walk_with_edge(es, a, b, p, k - 1);
        let i = k - 2;
        let x = p[i];
        let y = p[i + 1];
        assert(es.insert((a, b)).contains((x, y)));
        if es.contains((x, y)) {
            if reaches(es, p[0], x) {
                lemma_reaches_step(es, p[0], x, y);
            } else {
                lemma_reaches_step(es, b, x, y);
            }
        } else {
            assert(x == a && y == b);
            lemma_reaches_refl(es, b);
            if reaches(es, p[0], x) {
            }
        }
    }
}

/// Adding an edge `a -> b` keeps a graph acyclic when `a` cannot be reached
/// from `b` (so in particular `a != b`).
pub proof fn lemma_add_edge_keeps_acyclic(es: Set<(int, int)>, a: int, b: int)
    requires
        acyclic(es),
        !reaches(es, b, a),
    ensures
        acyclic(es.insert((a, b))),
{
    let ext = es.insert((a, b));
    assert forall|u: int, v: int| #[trigger] ext.contains((u, v)) implies !reaches(ext, v, u) by {
        if reaches(ext, v, u) {
            lemma_reaches_with_edge(es, a, b, v, u);
            if es.contains((u, v)) {
                if reaches(es, v, u) {
                } else {
                    // v reaches a, and b reaches u; with the edge u -> v, b reaches a.
                    lemma_reaches_step(es, b, u, v);
                    lemma_reaches_trans(es, b, v, a);
                }
            } else {
                assert(u == a && v == b);
            }
        }
    }
}

/// The edge set of a list with one more edge.
pub proof fn lemma_edge_set_push(edges: Seq<(usize, usize)>, e: (usize, usize))
    ensures
        edge_set(edges.push(e)) == edge_set(edges).insert((e.0 as int, e.1 as int)),
{
    let ext = edges.push(e);
    assert forall|x: (int, int)| #[trigger] edge_set(ext).contains(x) <==> edge_set(edges).insert(
        (e.0 as int, e.1 as int),
    ).contains(x) by {
        if edge_set(ext).contains(x) {
            let k = choose|k: int| 0 <= k < ext.len() && ext[k].0 == x.0 && ext[k].1 == x.1;
            if k < edges.len() {
                assert(edges[k] == ext[k]);
            }
        }
        if edge_set(edges).contains(x) {
            let k = choose|k: int| 0 <= k < edges.len() && edges[k].0 == x.0 && edges[k].1 == x.1;
            assert(ext[k] == edges[k]);
        }
        if x == (e.0 as int, e.1 as int) {
            assert(ext[edges.len() as int] == e);
        }
    }
    assert(edge_set(ext) =~= edge_set(edges).insert((e.0 as int, e.1 as int)));
}

/// Renaming the nodes by `f` carries a walk along `es` to a walk along `fs`
/// when `f` carries every edge of `es` to an edge of `fs`.
pub proof fn lemma_reaches_renamed(es: Set<(int, int)>, fs: Set<(int, int)>, f: spec_fn(int) -> int, u: int, v: int)
    requires
        reaches(es, u, v),
        forall|a: int, b: int| #[trigger] es.contains((a, b)) ==> fs.contains((f(a), f(b))),
    ensures
        reaches(fs, f(u), f(v)),
{
    let p = choose|p: Seq<int>| #[trigger] is_walk(es, p) && p[0] == u && p.last() == v;
    let q = p.map_values(|x: int| f(x));
    assert forall|i: int| 0 <= i < q.len() - 1 implies #[trigger] fs.contains((q[i], q[i + 1])) by {
        assert(es.contains((p[i], p[i + 1])));
    }
    assert(is_walk(fs, q));
}

/// A graph whose edges `g` carries into an acyclic graph is acyclic.
pub proof fn lemma_acyclic_pullback(es: Set<(int, int)>, fs: Set<(int, int)>, g: spec_fn(int) -> int)
    requires
        acyclic(es),
        forall|a: int, b: int| #[trigger] fs.contains((a, b)) ==> es.contains((g(a), g(b))),
    ensures
        acyclic(fs),
{
    assert forall|u: int, v: int| #[trigger] fs.contains((u, v)) implies !reaches(fs, v, u) by {
        if reaches(fs, v, u) {
            lemma_reaches_renamed(fs, es, g, v, u);
            assert(es.contains((g(u), g(v))));
        }
    }
}

} // verus!
