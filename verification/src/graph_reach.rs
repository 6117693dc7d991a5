//! Adjacency lists over node indices, and reachability along them.
use vstd::prelude::*;

verus! {

/// Every successor named in `adj` is a node of the graph.
pub open spec fn adj_wf(adj: Seq<Vec<usize>>) -> bool {
    forall|u: int, j: int|
        0 <= u < adj.len() && 0 <= j < adj[u]@.len() ==> (#[trigger] adj[u]@[j]) < adj.len()
}

/// `v` is one of the successors listed for `u`.
pub open spec fn is_edge(adj: Seq<Vec<usize>>, u: int, v: int) -> bool {
    0 <= u < adj.len() && exists|j: int| 0 <= j < adj[u]@.len() && #[trigger] adj[u]@[j] == v
}

/// Consecutive entries of `p` are joined by `edge`.
pub open spec fn is_path_by(edge: spec_fn(int, int) -> bool, p: Seq<int>) -> bool {
    &&& p.len() >= 1
    &&& forall|i: int| 0 <= i < p.len() - 1 ==> #[trigger] edge(p[i], p[i + 1])
}

/// There is a path (possibly of length zero) from `u` to `v` along `edge`.
pub closed spec fn reaches_by(edge: spec_fn(int, int) -> bool, u: int, v: int) -> bool {
    exists|p: Seq<int>| #[trigger] is_path_by(edge, p) && p[0] == u && p[p.len() - 1] == v
}

/// The edge relation of an adjacency list.
pub open spec fn adj_edge(adj: Seq<Vec<usize>>) -> spec_fn(int, int) -> bool {
    |u: int, v: int| is_edge(adj, u, v)
}

/// There is a path (possibly of length zero) from `u` to `v` in `adj`.
pub open spec fn reaches(adj: Seq<Vec<usize>>, u: int, v: int) -> bool {
    reaches_by(adj_edge(adj), u, v)
}

pub proof fn lemma_reaches_by_refl(edge: spec_fn(int, int) -> bool, u: int)
    ensures
        reaches_by(edge, u, u),
{
    let p = seq![u];
    assert(is_path_by(edge, p));
}

pub proof fn lemma_reaches_by_edge(edge: spec_fn(int, int) -> bool, u: int, v: int)
    requires
        edge(u, v),
    ensures
        reaches_by(edge, u, v),
{
    let p = seq![u, v];
    assert(edge(p[0], p[1]));
    assert(is_path_by(edge, p));
}

pub proof fn lemma_reaches_by_trans(edge: spec_fn(int, int) -> bool, u: int, v: int, w: int)
    requires
        reaches_by(edge, u, v),
        reaches_by(edge, v, w),
    ensures
        reaches_by(edge, u, w),
{
    let p1 = choose|p: Seq<int>| #[trigger] is_path_by(edge, p) && p[0] == u && p[p.len() - 1] == v;
    let p2 = choose|p: Seq<int>| #[trigger] is_path_by(edge, p) && p[0] == v && p[p.len() - 1] == w;
    let p = p1 + p2.drop_first();
    assert forall|i: int| 0 <= i < p.len() - 1 implies #[trigger] edge(p[i], p[i + 1]) by {
        if i < p1.len() - 1 {
            assert(p[i] == p1[i] && p[i + 1] == p1[i + 1]);
            assert(edge(p1[i], p1[i + 1]));
        } else {
            let k = i - (p1.len() - 1);
            assert(p[i] == p2[k]);
            assert(p[i + 1] == p2[k + 1]);
            assert(edge(p2[k], p2[k + 1]));
        }
    }
    assert(is_path_by(edge, p));
    if p2.len() == 1 {
        assert(p[p.len() - 1] == p1[p1.len() - 1]);
    } else {
        assert(p[p.len() - 1] == p2[p2.len() - 1]);
    }
}

/// Reachability only depends on which pairs are edges.
pub proof fn lemma_reaches_by_same_edges(e1: spec_fn(int, int) -> bool, e2: spec_fn(int, int) -> bool, u: int, v: int)
    requires
        forall|a: int, b: int| #[trigger] e1(a, b) == e2(a, b),
    ensures
        reaches_by(e1, u, v) == reaches_by(e2, u, v),
{
    assert(e1 =~= e2);
}

/// A relation that never increases along an edge never increases along a path.
proof fn lemma_path_prefix_monotone_by(edge: spec_fn(int, int) -> bool, f: spec_fn(int) -> int, p: Seq<int>, i: int)
    requires
        is_path_by(edge, p),
        0 <= i < p.len(),
        forall|a: int, b: int| #[trigger] edge(a, b) ==> f(b) <= f(a),
    ensures
        f(p[i]) <= f(p[0]),
    decreases i,
{
    if i > 0 {
        lemma_path_prefix_monotone_by(edge, f, p, i - 1);
        let k = i - 1;
        assert(edge(p[k], p[k + 1]));
    }
}

pub proof fn lemma_reaches_by_monotone(edge: spec_fn(int, int) -> bool, f: spec_fn(int) -> int, u: int, v: int)
    requires
        reaches_by(edge, u, v),
        forall|a: int, b: int| #[trigger] edge(a, b) ==> f(b) <= f(a),
    ensures
        f(v) <= f(u),
{
    let p = choose|p: Seq<int>| #[trigger] is_path_by(edge, p) && p[0] == u && p[p.len() - 1] == v;
    lemma_path_prefix_monotone_by(edge, f, p, p.len() - 1);
}

pub proof fn lemma_reaches_refl(adj: Seq<Vec<usize>>, u: int)
    ensures
        reaches(adj, u, u),
{
    lemma_reaches_by_refl(adj_edge(adj), u);
}

pub proof fn lemma_reaches_edge(adj: Seq<Vec<usize>>, u: int, j: int)
    requires
        0 <= u < adj.len(),
        0 <= j < adj[u]@.len(),
    ensures
        reaches(adj, u, adj[u]@[j] as int),
{
    let v = adj[u]@[j] as int;
    assert(is_edge(adj, u, v));
    lemma_reaches_by_edge(adj_edge(adj), u, v);
}

pub proof fn lemma_reaches_trans(adj: Seq<Vec<usize>>, u: int, v: int, w: int)
    requires
        reaches(adj, u, v),
        reaches(adj, v, w),
    ensures
        reaches(adj, u, w),
{
    lemma_reaches_by_trans(adj_edge(adj), u, v, w);
}

pub proof fn lemma_reaches_step(adj: Seq<Vec<usize>>, u: int, v: int, j: int)
    requires
        reaches(adj, u, v),
        0 <= v < adj.len(),
        0 <= j < adj[v]@.len(),
    ensures
        reaches(adj, u, adj[v]@[j] as int),
{
    lemma_reaches_edge(adj, v, j);
    lemma_reaches_trans(adj, u, v, adj[v]@[j] as int);
}

proof fn lemma_path_forward(edge: spec_fn(int, int) -> bool, p: Seq<int>, i: int)
    requires
        forall|a: int, b: int| #[trigger] edge(a, b) ==> a < b,
        is_path_by(edge, p),
        0 <= i < p.len(),
    ensures
        p[0] <= p[i],
    decreases i,
{
    if i > 0 {
        lemma_path_forward(edge, p, i - 1);
        let k = i - 1;
        assert(edge(p[k], p[k + 1]));
    }
}

/// Along edges that only lead forward, whatever is reachable lies ahead.
pub proof fn lemma_reaches_by_forward(edge: spec_fn(int, int) -> bool, u: int, v: int)
    requires
        forall|a: int, b: int| #[trigger] edge(a, b) ==> a < b,
        reaches_by(edge, u, v),
    ensures
        u <= v,
{
    let p = choose|p: Seq<int>| #[trigger] is_path_by(edge, p) && p[0] == u && p[p.len() - 1] == v;
    lemma_path_forward(edge, p, p.len() - 1);
}

} // verus!
