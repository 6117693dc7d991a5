//! Strongly connected components by Tarjan's algorithm, run with an explicit
//! frame stack instead of recursion.
use vstd::prelude::*;
use vstd::set_lib::*;
use crate::graph_reach::{adj_wf, reaches, lemma_reaches_refl, lemma_reaches_step, lemma_reaches_trans};

verus! {

/// The snapshot of every variable of `tarjan_scc` that its proof reasons about.
#[verifier::ext_equal]
pub(crate) struct TarjanState {
    pub indices: Seq<Option<usize>>,
    pub lowlink: Seq<usize>,
    pub on_stack: Seq<bool>,
    pub stack: Seq<usize>,
    pub component: Seq<usize>,
    pub comp_id: int,
    pub index: int,
    pub frames: Seq<(usize, usize)>,
    /// For every node on the stack, a node on the stack whose index is its lowlink
    /// and which it reaches.
    pub lowz: Seq<usize>,
    pub visited: Set<int>,
}

pub(crate) open spec fn vis(s: TarjanState, v: int) -> bool {
    s.indices[v] is Some
}

pub(crate) open spec fn ix(s: TarjanState, v: int) -> int {
    s.indices[v]->0 as int
}

pub(crate) open spec fn in_frames(s: TarjanState, v: int) -> bool {
    exists|k: int| 0 <= k < s.frames.len() && #[trigger] s.frames[k].0 == v
}

pub(crate) open spec fn fnode(s: TarjanState, k: int) -> int {
    s.frames[k].0 as int
}

/// How many edges of frame `k` are fully explored: the edge a frame is
/// descending through does not count until the child is finished.
pub(crate) open spec fn fexp(s: TarjanState, k: int) -> int {
    if k < s.frames.len() - 1 {
        s.frames[k].1 - 1
    } else {
        s.frames[k].1 as int
    }
}

/// Some node carries component number `c`.
pub open spec fn comp_used(component: Seq<usize>, c: int) -> bool {
    exists|v: int| 0 <= v < component.len() && #[trigger] component[v] == c
}

pub(crate) open spec fn inv_base(adj: Seq<Vec<usize>>, s: TarjanState) -> bool {
    let n = adj.len();
    &&& adj_wf(adj)
    &&& n <= usize::MAX
    &&& s.indices.len() == n
    &&& s.lowlink.len() == n
    &&& s.on_stack.len() == n
    &&& s.component.len() == n
    &&& s.lowz.len() == n
    &&& 0 <= s.comp_id
    &&& 0 <= s.index
    &&& s.visited.finite()
    &&& s.visited.len() == s.index
    &&& forall|v: int| #[trigger] s.visited.contains(v) ==> 0 <= v < n && vis(s, v)
    &&& forall|v: int| 0 <= v < n && #[trigger] vis(s, v) ==> s.visited.contains(v)
    &&& forall|v: int|
        0 <= v < n && #[trigger] vis(s, v) ==> ix(s, v) < s.index && s.lowlink[v] <= ix(s, v)
}

pub(crate) open spec fn inv_stack(adj: Seq<Vec<usize>>, s: TarjanState) -> bool {
    let n = adj.len();
    &&& forall|i: int|
        0 <= i < s.stack.len() ==> (#[trigger] s.stack[i]) < n && s.on_stack[s.stack[i] as int]
            && vis(s, s.stack[i] as int)
    &&& forall|v: int| 0 <= v < n && #[trigger] s.on_stack[v] ==> s.stack.contains(v as usize)
    &&& forall|i: int, j: int|
        0 <= i < j < s.stack.len() ==> ix(s, #[trigger] s.stack[i] as int) < ix(
            s,
            #[trigger] s.stack[j] as int,
        )
    &&& forall|v: int| 0 <= v < n && #[trigger] s.on_stack[v] ==> s.component[v] == usize::MAX
    &&& forall|v: int|
        0 <= v < n && #[trigger] vis(s, v) && !s.on_stack[v] ==> s.component[v] < s.comp_id
    &&& forall|v: int|
        0 <= v < n && !#[trigger] vis(s, v) ==> s.component[v] == usize::MAX && !s.on_stack[v]
    &&& s.comp_id + s.stack.len() <= s.index
    &&& forall|c: int| 0 <= c < s.comp_id ==> #[trigger] comp_used(s.component, c)
}

pub(crate) open spec fn inv_frames(adj: Seq<Vec<usize>>, s: TarjanState) -> bool {
    let n = adj.len();
    &&& s.frames.len() == 0 ==> s.stack.len() == 0
    &&& s.frames.len() > 0 ==> s.stack.len() > 0 && s.stack[0] == s.frames[0].0
    &&& forall|k: int|
        0 <= k < s.frames.len() ==> (#[trigger] s.frames[k]).0 < n && s.on_stack[s.frames[k].0 as int]
            && s.frames[k].1 <= adj[s.frames[k].0 as int]@.len()
    &&& forall|k: int, l: int|
        0 <= k < l < s.frames.len() ==> ix(s, #[trigger] fnode(s, k)) < ix(s, #[trigger] fnode(s, l))
    &&& forall|k: int| 0 <= k < s.frames.len() - 1 ==> #[trigger] tree_edge(adj, s, k)
}

/// Frame `k + 1` was opened through the edge frame `k` last took.
pub(crate) open spec fn tree_edge(adj: Seq<Vec<usize>>, s: TarjanState, k: int) -> bool {
    &&& s.frames[k].1 >= 1
    &&& adj[s.frames[k].0 as int]@[s.frames[k].1 - 1] == s.frames[k + 1].0
}

/// `v` was pushed while frame `k` was the innermost open frame below it.
pub(crate) open spec fn frame_owner(s: TarjanState, v: int, k: int) -> bool {
    &&& 0 <= k < s.frames.len()
    &&& ix(s, fnode(s, k)) < ix(s, v)
    &&& (k == s.frames.len() - 1 || ix(s, v) < ix(s, fnode(s, k + 1)))
}

pub(crate) open spec fn inv_explored(adj: Seq<Vec<usize>>, s: TarjanState) -> bool {
    let n = adj.len();
    // explored edges of a frame node reach visited nodes, and a target still on the
    // stack bounds the lowlink
    &&& forall|k: int, j: int|
        0 <= k < s.frames.len() && 0 <= j < fexp(s, k) ==> {
            let x = #[trigger] adj[fnode(s, k)]@[j] as int;
            &&& vis(s, x)
            &&& s.on_stack[x] ==> s.lowlink[fnode(s, k)] <= ix(s, x)
        }
    // the same for finished nodes still on the stack, over all their edges
    &&& forall|v: int, j: int|
        0 <= v < n && s.on_stack[v] && !in_frames(s, v) && 0 <= j < adj[v]@.len() ==> {
            let x = #[trigger] adj[v]@[j] as int;
            &&& vis(s, x)
            &&& s.on_stack[x] ==> s.lowlink[v] <= ix(s, x)
        }
    // a finished node still on the stack is not the root of its component
    &&& forall|v: int|
        0 <= v < n && #[trigger] s.on_stack[v] && !in_frames(s, v) ==> s.lowlink[v] < ix(s, v)
}

pub(crate) open spec fn inv_owner(adj: Seq<Vec<usize>>, s: TarjanState) -> bool {
    let n = adj.len();
    // a finished node's lowlink is no lower than that of the frame it finished under
    &&& forall|v: int, k: int|
        0 <= v < n && s.on_stack[v] && !in_frames(s, v) && #[trigger] frame_owner(s, v, k)
            ==> s.lowlink[fnode(s, k)] <= s.lowlink[v]
}

pub(crate) open spec fn inv_witness(adj: Seq<Vec<usize>>, s: TarjanState) -> bool {
    let n = adj.len();
    // the lowlink witness
    &&& forall|v: int|
        0 <= v < n && #[trigger] s.on_stack[v] ==> {
            let z = s.lowz[v] as int;
            &&& 0 <= z < n
            &&& s.on_stack[z]
            &&& ix(s, z) == s.lowlink[v]
            &&& reaches(adj, v, z)
        }
}

pub(crate) open spec fn inv_frame_reach(adj: Seq<Vec<usize>>, s: TarjanState) -> bool {
    let n = adj.len();
    // frame nodes reach everything pushed after them
    &&& forall|k: int, v: int|
        0 <= k < s.frames.len() && 0 <= v < n && #[trigger] s.on_stack[v] && ix(
            s,
            #[trigger] fnode(s, k),
        ) <= ix(s, v) ==> reaches(adj, fnode(s, k), v)
}

pub(crate) open spec fn inv_assigned(adj: Seq<Vec<usize>>, s: TarjanState) -> bool {
    let n = adj.len();
    &&& forall|u: int, j: int|
        0 <= u < n && s.component[u] != usize::MAX && 0 <= j < adj[u]@.len() ==> {
            let x = #[trigger] adj[u]@[j] as int;
            &&& s.component[x] != usize::MAX
            &&& s.component[x] <= s.component[u]
        }
    &&& forall|u: int, x: int|
        0 <= u < n && 0 <= x < n && #[trigger] s.component[u] != usize::MAX && s.component[u]
            == #[trigger] s.component[x] ==> reaches(adj, u, x)
}

#[verifier::opaque]
pub(crate) open spec fn inv(adj: Seq<Vec<usize>>, s: TarjanState) -> bool {
    &&& inv_base(adj, s)
    &&& inv_stack(adj, s)
    &&& inv_frames(adj, s)
    &&& inv_explored(adj, s)
    &&& inv_owner(adj, s)
    &&& inv_witness(adj, s)
    &&& inv_frame_reach(adj, s)
    &&& inv_assigned(adj, s)
}

pub(crate) proof fn lemma_index_bound(adj: Seq<Vec<usize>>, s: TarjanState)
    requires
        inv_base(adj, s),
    ensures
        s.index <= adj.len(),
{
    lemma_int_range(0, adj.len() as int);
    assert(s.visited.subset_of(set_int_range(0, adj.len() as int)));
    lemma_len_subset(s.visited, set_int_range(0, adj.len() as int));
}

/// Discover `w`: give it the next index, push it on the stack and open a frame for it.
pub(crate) open spec fn push_node(s: TarjanState, w: int) -> TarjanState {
    TarjanState {
        indices: s.indices.update(w, Some(s.index as usize)),
        lowlink: s.lowlink.update(w, s.index as usize),
        on_stack: s.on_stack.update(w, true),
        stack: s.stack.push(w as usize),
        frames: s.frames.push((w as usize, 0usize)),
        lowz: s.lowz.update(w, w as usize),
        index: s.index + 1,
        visited: s.visited.insert(w),
        ..s
    }
}

/// Move the top frame past the edge it is exploring.
pub(crate) open spec fn bump(s: TarjanState) -> TarjanState {
    let last = s.frames.len() - 1;
    TarjanState { frames: s.frames.update(last, (s.frames[last].0, (s.frames[last].1 + 1) as usize)), ..s }
}

proof fn lemma_fresh_index(adj: Seq<Vec<usize>>, s: TarjanState, w: int)
    requires
        inv_base(adj, s),
        0 <= w < adj.len(),
        !vis(s, w),
    ensures
        s.index + 1 <= adj.len(),
{
    lemma_int_range(0, adj.len() as int);
    assert(s.visited.insert(w).subset_of(set_int_range(0, adj.len() as int)));
    lemma_len_subset(s.visited.insert(w), set_int_range(0, adj.len() as int));
}

pub(crate) proof fn lemma_visit_root(adj: Seq<Vec<usize>>, s: TarjanState, w: int)
    requires
        inv(adj, s),
        s.frames.len() == 0,
        0 <= w < adj.len(),
        !vis(s, w),
    ensures
        inv(adj, push_node(s, w)),
        s.index + 1 <= adj.len(),
{
    reveal(inv);
    lemma_fresh_index(adj, s, w);
    let t = push_node(s, w);
    lemma_reaches_refl(adj, w);
    assert(s.stack.len() == 0);
    assert(t.stack =~= seq![w as usize]);
    assert forall|v: int| 0 <= v < adj.len() && #[trigger] t.on_stack[v] implies t.stack.contains(
        v as usize,
    ) by {
        if v != w {
            assert(s.on_stack[v]);
            assert(s.stack.contains(v as usize));
            assert(false);
        } else {
            assert(t.stack[0] == v as usize);
        }
    }
    assert forall|v: int| 0 <= v < adj.len() && #[trigger] vis(t, v) implies t.visited.contains(v) by {
        if v != w {
            assert(vis(s, v));
        }
    }
    assert forall|c: int| 0 <= c < t.comp_id implies #[trigger] comp_used(t.component, c) by {
        assert(comp_used(s.component, c));
    }
    assert(inv_base(adj, t));
    assert forall|v: int| 0 <= v < adj.len() && !#[trigger] vis(t, v) implies t.component[v]
        == usize::MAX && !t.on_stack[v] by {
        assert(!vis(s, v));
    }
    assert(inv_stack(adj, t));
    assert(inv_frames(adj, t));
    assert forall|v: int, j: int|
        0 <= v < adj.len() && t.on_stack[v] && !in_frames(t, v) && 0 <= j < adj[v]@.len() implies {
        let x = #[trigger] adj[v]@[j] as int;
        &&& vis(t, x)
        &&& t.on_stack[x] ==> t.lowlink[v] <= ix(t, x)
    } by {
        assert(t.frames[0].0 == w);
    }
    assert(inv_explored(adj, t));
    assert(inv_owner(adj, t));
    assert(inv_witness(adj, t));
    assert(inv_frame_reach(adj, t));
    assert(inv_assigned(adj, t));
}

proof fn lemma_visit_child_base(adj: Seq<Vec<usize>>, s: TarjanState, w: int)
    requires
        inv_base(adj, s),
        s.frames.len() > 0,
        s.frames.last().0 < adj.len(),
        s.frames.last().1 < adj[s.frames.last().0 as int]@.len(),
        w == adj[s.frames.last().0 as int]@[s.frames.last().1 as int],
        !vis(s, w),
    ensures
        inv_base(adj, push_node(bump(s), w)),
        s.index + 1 <= adj.len(),
{
    let n = adj.len();
    let last = s.frames.len() - 1;
    let v = s.frames[last].0 as int;
    let e = s.frames[last].1 as int;
    assert(adj[v].len() == adj[v]@.len());
    assert(0 <= w < n);
    let b = bump(s);
    let t = push_node(b, w);
    assert(fnode(s, last) == v);
    lemma_fresh_index(adj, s, w);
    assert(ix(t, w) == s.index);
    assert forall|x: int| 0 <= x < n && #[trigger] vis(t, x) implies t.visited.contains(x) by {
        if x != w {
            assert(vis(s, x));
        }
    }
}

proof fn lemma_visit_child_stack(adj: Seq<Vec<usize>>, s: TarjanState, w: int)
    requires
        inv_base(adj, s),
        inv_stack(adj, s),
        s.frames.len() > 0,
        s.frames.last().0 < adj.len(),
        s.frames.last().1 < adj[s.frames.last().0 as int]@.len(),
        w == adj[s.frames.last().0 as int]@[s.frames.last().1 as int],
        !vis(s, w),
    ensures
        inv_stack(adj, push_node(bump(s), w)),
{
    let n = adj.len();
    let last = s.frames.len() - 1;
    let v = s.frames[last].0 as int;
    let e = s.frames[last].1 as int;
    assert(adj[v].len() == adj[v]@.len());
    assert(0 <= w < n);
    let b = bump(s);
    let t = push_node(b, w);
    assert(fnode(s, last) == v);
    lemma_fresh_index(adj, s, w);
    assert(ix(t, w) == s.index);
    assert forall|x: int| 0 <= x < n && #[trigger] t.on_stack[x] implies t.stack.contains(
        x as usize,
    ) by {
        if x != w {
            assert(s.stack.contains(x as usize));
            let i = choose|i: int| 0 <= i < s.stack.len() && s.stack[i] == x as usize;
            assert(t.stack[i] == x as usize);
        } else {
            assert(t.stack[t.stack.len() - 1] == x as usize);
        }
    }
    assert forall|c: int| 0 <= c < t.comp_id implies #[trigger] comp_used(t.component, c) by {
        assert(comp_used(s.component, c));
    }
    assert forall|x: int| 0 <= x < n && !#[trigger] vis(t, x) implies t.component[x]
        == usize::MAX && !t.on_stack[x] by {
        assert(!vis(s, x));
    }
    assert forall|i: int, j: int| 0 <= i < j < t.stack.len() implies ix(t, #[trigger] t.stack[i] as int) < ix(
            t,
            #[trigger] t.stack[j] as int,
        ) by {
        assert(t.stack[i] == s.stack[i]);
        assert(vis(s, s.stack[i] as int));
        assert(t.indices[s.stack[i] as int] == s.indices[s.stack[i] as int]);
        if j < s.stack.len() {
            assert(t.stack[j] == s.stack[j]);
            assert(vis(s, s.stack[j] as int));
            assert(t.indices[s.stack[j] as int] == s.indices[s.stack[j] as int]);
            assert(ix(s, s.stack[i] as int) < ix(s, s.stack[j] as int));
        } else {
            assert(t.stack[j] == w);
        }
    }
    assert forall|x: int| 0 <= x < n && #[trigger] vis(t, x) && !t.on_stack[x] implies t.component[x] < t.comp_id by {
        assert(vis(s, x));
    }
}

proof fn lemma_visit_child_frames(adj: Seq<Vec<usize>>, s: TarjanState, w: int)
    requires
        inv_base(adj, s),
        inv_stack(adj, s),
        inv_frames(adj, s),
        s.frames.len() > 0,
        s.frames.last().0 < adj.len(),
        s.frames.last().1 < adj[s.frames.last().0 as int]@.len(),
        w == adj[s.frames.last().0 as int]@[s.frames.last().1 as int],
        !vis(s, w),
    ensures
        inv_frames(adj, push_node(bump(s), w)),
{
    let n = adj.len();
    let last = s.frames.len() - 1;
    let v = s.frames[last].0 as int;
    let e = s.frames[last].1 as int;
    assert(adj[v].len() == adj[v]@.len());
    assert(0 <= w < n);
    let b = bump(s);
    let t = push_node(b, w);
    assert(fnode(s, last) == v);
    lemma_fresh_index(adj, s, w);
    assert(ix(t, w) == s.index);
    assert forall|k: int, l: int| 0 <= k < l < t.frames.len() implies ix(t, #[trigger] fnode(t, k)) < ix(t, #[trigger] fnode(t, l)) by {
        assert(fnode(t, k) == fnode(s, k));
        assert(s.on_stack[fnode(s, k)]);
        assert(vis(s, fnode(s, k)));
        assert(t.indices[fnode(s, k)] == s.indices[fnode(s, k)]);
        if l < s.frames.len() {
            assert(fnode(t, l) == fnode(s, l));
            assert(ix(s, fnode(s, k)) < ix(s, fnode(s, l)));
            assert(s.on_stack[fnode(s, l)]);
            assert(vis(s, fnode(s, l)));
            assert(t.indices[fnode(s, l)] == s.indices[fnode(s, l)]);
        } else {
            assert(fnode(t, l) == w);
        }
    }
    assert forall|k: int| 0 <= k < t.frames.len() - 1 implies #[trigger] tree_edge(adj, t, k) by {
        if k < last {
            assert(tree_edge(adj, s, k));
            assert(s.frames[k] == t.frames[k]);
            assert(s.frames[k + 1].0 == t.frames[k + 1].0);
        }
    }
    assert forall|k: int| 0 <= k < t.frames.len() implies (#[trigger] t.frames[k]).0 < n && t.on_stack[t.frames[k].0 as int]
            && t.frames[k].1 <= adj[t.frames[k].0 as int]@.len() by {
        if k < last {
            assert(s.frames[k] == t.frames[k]);
        }
    }
}

proof fn lemma_visit_child_explored(adj: Seq<Vec<usize>>, s: TarjanState, w: int)
    requires
        inv_base(adj, s),
        inv_stack(adj, s),
        inv_frames(adj, s),
        inv_explored(adj, s),
        s.frames.len() > 0,
        s.frames.last().0 < adj.len(),
        s.frames.last().1 < adj[s.frames.last().0 as int]@.len(),
        w == adj[s.frames.last().0 as int]@[s.frames.last().1 as int],
        !vis(s, w),
    ensures
        inv_explored(adj, push_node(bump(s), w)),
{
    let n = adj.len();
    let last = s.frames.len() - 1;
    let v = s.frames[last].0 as int;
    let e = s.frames[last].1 as int;
    assert(adj[v].len() == adj[v]@.len());
    assert(0 <= w < n);
    let b = bump(s);
    let t = push_node(b, w);
    assert(fnode(s, last) == v);
    lemma_fresh_index(adj, s, w);
    assert(ix(t, w) == s.index);
    assert forall|k: int, j: int| 0 <= k < t.frames.len() && 0 <= j < fexp(t, k) implies {
            let x = #[trigger] adj[fnode(t, k)]@[j] as int;
            &&& vis(t, x)
            &&& t.on_stack[x] ==> t.lowlink[fnode(t, k)] <= ix(t, x)
        } by {
        assert(k < s.frames.len());
        assert(fnode(t, k) == fnode(s, k));
        assert(fexp(t, k) == fexp(s, k));
        let x = adj[fnode(s, k)]@[j] as int;
        assert(vis(s, x));
        assert(x != w);
        assert(s.on_stack[fnode(s, k)]);
        assert(fnode(s, k) != w);
    }
    assert(t.frames[last + 1].0 == w);
    assert forall|u: int, j: int| 0 <= u < n && t.on_stack[u] && !in_frames(t, u) && 0 <= j < adj[u]@.len() implies {
            let x = #[trigger] adj[u]@[j] as int;
            &&& vis(t, x)
            &&& t.on_stack[x] ==> t.lowlink[u] <= ix(t, x)
        } by {
        assert(u != w);
        assert forall|k: int| 0 <= k < s.frames.len() implies s.frames[k].0 != u by {
            assert(t.frames[k].0 == s.frames[k].0);
        }
        assert(!in_frames(s, u));
        let x = adj[u]@[j] as int;
        assert(vis(s, x));
        assert(x != w);
    }
    assert forall|u: int| 0 <= u < n && #[trigger] t.on_stack[u] && !in_frames(t, u) implies t.lowlink[u] < ix(t, u) by {
        assert(u != w);
        assert forall|k: int| 0 <= k < s.frames.len() implies s.frames[k].0 != u by {
            assert(t.frames[k].0 == s.frames[k].0);
        }
        assert(!in_frames(s, u));
    }
}

#[verifier::rlimit(30)]
proof fn lemma_visit_child_reach1(adj: Seq<Vec<usize>>, s: TarjanState, w: int)
    requires
        inv_base(adj, s),
        inv_stack(adj, s),
        inv_frames(adj, s),
        inv_owner(adj, s),
        s.frames.len() > 0,
        s.frames.last().0 < adj.len(),
        s.frames.last().1 < adj[s.frames.last().0 as int]@.len(),
        w == adj[s.frames.last().0 as int]@[s.frames.last().1 as int],
        !vis(s, w),
    ensures
        forall|u: int, k: int|
            0 <= u < adj.len() && push_node(bump(s), w).on_stack[u] && !in_frames(push_node(bump(s), w), u) && #[trigger] frame_owner(push_node(bump(s), w), u, k) ==> push_node(bump(s), w).lowlink[fnode(push_node(bump(s), w), k)] <= push_node(bump(s), w).lowlink[u],
{
    let n = adj.len();
    let last = s.frames.len() - 1;
    let v = s.frames[last].0 as int;
    let e = s.frames[last].1 as int;
    assert(adj[v].len() == adj[v]@.len());
    assert(0 <= w < n);
    let b = bump(s);
    let t = push_node(b, w);
    assert(fnode(s, last) == v);
    lemma_fresh_index(adj, s, w);
    assert(ix(t, w) == s.index);
    lemma_reaches_refl(adj, w);
    assert(t.frames[last + 1].0 == w);
    assert forall|u: int, k: int|
        0 <= u < n && t.on_stack[u] && !in_frames(t, u) && #[trigger] frame_owner(t, u, k)
        implies t.lowlink[fnode(t, k)] <= t.lowlink[u] by {
        assert(u != w);
        assert forall|k2: int| 0 <= k2 < s.frames.len() implies s.frames[k2].0 != u by {
            assert(t.frames[k2].0 == s.frames[k2].0);
        }
        assert(!in_frames(s, u));
        assert(s.on_stack[u]);
        assert(vis(s, u));
        assert(t.indices[u] == s.indices[u]);
        assert(ix(t, u) == ix(s, u));
        assert(ix(t, u) < s.index);
        if k == last + 1 {
            assert(fnode(t, k) == w);
            assert(false);
        }
        assert(k < s.frames.len());
        assert(fnode(t, k) == fnode(s, k));
        assert(s.on_stack[fnode(s, k)]);
        assert(vis(s, fnode(s, k)));
        assert(fnode(s, k) != w);
        assert(t.indices[fnode(s, k)] == s.indices[fnode(s, k)]);
        assert(ix(s, fnode(s, k)) < ix(s, u));
        if k < last {
            assert(fnode(t, k + 1) == fnode(s, k + 1));
            assert(s.on_stack[fnode(s, k + 1)]);
            assert(vis(s, fnode(s, k + 1)));
            assert(t.indices[fnode(s, k + 1)] == s.indices[fnode(s, k + 1)]);
            assert(ix(s, u) < ix(s, fnode(s, k + 1)));
        }
        assert(frame_owner(s, u, k));
        assert(s.lowlink[fnode(s, k)] <= s.lowlink[u]);
    }
}

proof fn lemma_visit_child_witness(adj: Seq<Vec<usize>>, s: TarjanState, w: int)
    requires
        inv_base(adj, s),
        inv_stack(adj, s),
        inv_witness(adj, s),
        s.frames.len() > 0,
        s.frames.last().0 < adj.len(),
        s.frames.last().1 < adj[s.frames.last().0 as int]@.len(),
        w == adj[s.frames.last().0 as int]@[s.frames.last().1 as int],
        !vis(s, w),
    ensures
        inv_witness(adj, push_node(bump(s), w)),
{
    let n = adj.len();
    let last = s.frames.len() - 1;
    let v = s.frames[last].0 as int;
    let e = s.frames[last].1 as int;
    assert(adj[v].len() == adj[v]@.len());
    assert(0 <= w < n);
    let b = bump(s);
    let t = push_node(b, w);
    assert(fnode(s, last) == v);
    lemma_fresh_index(adj, s, w);
    assert(ix(t, w) == s.index);
    lemma_reaches_refl(adj, w);
    assert(t.frames[last + 1].0 == w);
    assert forall|u: int| 0 <= u < n && #[trigger] t.on_stack[u] implies {
            let z = t.lowz[u] as int;
            &&& 0 <= z < n
            &&& t.on_stack[z]
            &&& ix(t, z) == t.lowlink[u]
            &&& reaches(adj, u, z)
        } by {
        if u != w {
            let z = s.lowz[u] as int;
            assert(s.on_stack[z]);
            assert(z != w);
        }
    }
}

proof fn lemma_visit_child_freach(adj: Seq<Vec<usize>>, s: TarjanState, w: int)
    requires
        inv_base(adj, s),
        inv_stack(adj, s),
        inv_frames(adj, s),
        inv_frame_reach(adj, s),
        s.frames.len() > 0,
        s.frames.last().0 < adj.len(),
        s.frames.last().1 < adj[s.frames.last().0 as int]@.len(),
        w == adj[s.frames.last().0 as int]@[s.frames.last().1 as int],
        !vis(s, w),
    ensures
        inv_frame_reach(adj, push_node(bump(s), w)),
{
    let n = adj.len();
    let last = s.frames.len() - 1;
    let v = s.frames[last].0 as int;
    let e = s.frames[last].1 as int;
    assert(adj[v].len() == adj[v]@.len());
    assert(0 <= w < n);
    let b = bump(s);
    let t = push_node(b, w);
    assert(fnode(s, last) == v);
    lemma_fresh_index(adj, s, w);
    assert(ix(t, w) == s.index);
    lemma_reaches_refl(adj, w);
    assert(t.frames[last + 1].0 == w);
    assert forall|k: int, u: int|
        0 <= k < t.frames.len() && 0 <= u < n && #[trigger] t.on_stack[u] && ix(
            t,
            #[trigger] fnode(t, k),
        ) <= ix(t, u) implies reaches(adj, fnode(t, k), u) by {
        if k == last + 1 {
        } else {
            assert(fnode(t, k) == fnode(s, k));
            assert(s.on_stack[fnode(s, k)]);
            assert(fnode(s, k) != w);
            if u == w {
                assert(s.on_stack[v]);
                assert(ix(s, fnode(s, k)) <= ix(s, v)) by {
                    if k < last {
                        assert(ix(s, fnode(s, k)) < ix(s, fnode(s, last)));
                    }
                }
                assert(reaches(adj, fnode(s, k), v));
                lemma_reaches_step(adj, fnode(s, k), v, e);
            } else {
                assert(s.on_stack[u]);
            }
        }
    }
}

proof fn lemma_visit_child_assigned(adj: Seq<Vec<usize>>, s: TarjanState, w: int)
    requires
        inv_base(adj, s),
        inv_stack(adj, s),
        inv_assigned(adj, s),
        s.frames.len() > 0,
        s.frames.last().0 < adj.len(),
        s.frames.last().1 < adj[s.frames.last().0 as int]@.len(),
        w == adj[s.frames.last().0 as int]@[s.frames.last().1 as int],
        !vis(s, w),
    ensures
        inv_assigned(adj, push_node(bump(s), w)),
{
    let n = adj.len();
    let last = s.frames.len() - 1;
    let v = s.frames[last].0 as int;
    let e = s.frames[last].1 as int;
    assert(adj[v].len() == adj[v]@.len());
    assert(0 <= w < n);
    let b = bump(s);
    let t = push_node(b, w);
    assert(fnode(s, last) == v);
    lemma_fresh_index(adj, s, w);
    assert(ix(t, w) == s.index);
}

pub(crate) proof fn lemma_visit_child(adj: Seq<Vec<usize>>, s: TarjanState, w: int)
    requires
        inv(adj, s),
        s.frames.len() > 0,
        s.frames.last().1 < adj[s.frames.last().0 as int]@.len(),
        w == adj[s.frames.last().0 as int]@[s.frames.last().1 as int],
        !vis(s, w),
    ensures
        inv(adj, push_node(bump(s), w)),
        s.index + 1 <= adj.len(),
{
    reveal(inv);
    assert(s.frames[s.frames.len() - 1] == s.frames.last());
    lemma_visit_child_base(adj, s, w);
    lemma_visit_child_stack(adj, s, w);
    lemma_visit_child_frames(adj, s, w);
    lemma_visit_child_explored(adj, s, w);
    lemma_visit_child_reach1(adj, s, w);
    assert(inv_owner(adj, push_node(bump(s), w)));
    lemma_visit_child_witness(adj, s, w);
    lemma_visit_child_freach(adj, s, w);
    lemma_visit_child_assigned(adj, s, w);
}
/// Follow the top frame's next edge to `w`, which was seen before.
pub(crate) open spec fn explore_seen(s: TarjanState, w: int) -> TarjanState {
    let b = bump(s);
    let v = s.frames.last().0 as int;
    if s.on_stack[w] && s.lowlink[w] < s.lowlink[v] {
        TarjanState { lowlink: b.lowlink.update(v, s.lowlink[w]), lowz: b.lowz.update(v, s.lowz[w]), ..b }
    } else {
        b
    }
}

proof fn lemma_seen_shape(adj: Seq<Vec<usize>>, s: TarjanState, w: int)
    requires
        inv_base(adj, s),
        inv_stack(adj, s),
        inv_frames(adj, s),
        inv_assigned(adj, s),
        s.frames.len() > 0,
        s.frames.last().0 < adj.len(),
        s.frames.last().1 < adj[s.frames.last().0 as int]@.len(),
        w == adj[s.frames.last().0 as int]@[s.frames.last().1 as int],
        vis(s, w),
    ensures
        inv_base(adj, explore_seen(s, w)),
        inv_stack(adj, explore_seen(s, w)),
        inv_frames(adj, explore_seen(s, w)),
        inv_assigned(adj, explore_seen(s, w)),
{
    let n = adj.len();
    let last = s.frames.len() - 1;
    let v = s.frames[last].0 as int;
    let e = s.frames[last].1 as int;
    assert(adj[v].len() == adj[v]@.len());
    assert(0 <= w < n);
    let t = explore_seen(s, w);
    assert(fnode(s, last) == v);
    assert(t.indices == s.indices && t.on_stack == s.on_stack && t.stack == s.stack);
    assert(t.component == s.component && t.visited == s.visited && t.index == s.index && t.comp_id == s.comp_id);
    assert forall|x: int| #[trigger] vis(t, x) == vis(s, x) by {}
    assert forall|x: int| #[trigger] ix(t, x) == ix(s, x) by {}
    assert(t.frames.len() == s.frames.len());
    assert forall|k: int| 0 <= k < s.frames.len() implies #[trigger] t.frames[k].0 == s.frames[k].0 by {}
    assert forall|k: int| 0 <= k < s.frames.len() implies #[trigger] fnode(t, k) == fnode(s, k) by {
        assert(t.frames[k].0 == s.frames[k].0);
    }
    assert forall|u: int| #[trigger] in_frames(t, u) == in_frames(s, u) by {
        if in_frames(t, u) {
            let k = choose|k: int| 0 <= k < t.frames.len() && #[trigger] t.frames[k].0 == u;
            assert(s.frames[k].0 == u);
        }
        if in_frames(s, u) {
            let k = choose|k: int| 0 <= k < s.frames.len() && #[trigger] s.frames[k].0 == u;
            assert(t.frames[k].0 == u);
        }
    }
    assert forall|k: int| 0 <= k < t.frames.len() - 1 implies #[trigger] tree_edge(adj, t, k) by {
        assert(tree_edge(adj, s, k));
        assert(s.frames[k] == t.frames[k]);
    }
    assert forall|k: int| 0 <= k < t.frames.len() implies (#[trigger] t.frames[k]).0 < n && t.on_stack[t.frames[k].0 as int]
            && t.frames[k].1 <= adj[t.frames[k].0 as int]@.len() by {
        if k < last {
            assert(s.frames[k] == t.frames[k]);
        }
    }
    assert forall|k: int, l: int| 0 <= k < l < t.frames.len() implies ix(t, #[trigger] fnode(t, k)) < ix(t, #[trigger] fnode(t, l)) by {
        assert(ix(s, fnode(s, k)) < ix(s, fnode(s, l)));
    }
    assert forall|c: int| 0 <= c < t.comp_id implies #[trigger] comp_used(t.component, c) by {
        assert(comp_used(s.component, c));
    }
}

proof fn lemma_seen_explored(adj: Seq<Vec<usize>>, s: TarjanState, w: int)
    requires
        inv_base(adj, s),
        inv_stack(adj, s),
        inv_frames(adj, s),
        inv_explored(adj, s),
        s.frames.len() > 0,
        s.frames.last().0 < adj.len(),
        s.frames.last().1 < adj[s.frames.last().0 as int]@.len(),
        w == adj[s.frames.last().0 as int]@[s.frames.last().1 as int],
        vis(s, w),
    ensures
        inv_explored(adj, explore_seen(s, w)),
{
    let n = adj.len();
    let last = s.frames.len() - 1;
    let v = s.frames[last].0 as int;
    let e = s.frames[last].1 as int;
    assert(adj[v].len() == adj[v]@.len());
    assert(0 <= w < n);
    let t = explore_seen(s, w);
    assert(fnode(s, last) == v);
    assert(t.indices == s.indices && t.on_stack == s.on_stack && t.stack == s.stack);
    assert(t.component == s.component && t.visited == s.visited && t.index == s.index && t.comp_id == s.comp_id);
    assert forall|x: int| #[trigger] vis(t, x) == vis(s, x) by {}
    assert forall|x: int| #[trigger] ix(t, x) == ix(s, x) by {}
    assert(t.frames.len() == s.frames.len());
    assert forall|k: int| 0 <= k < s.frames.len() implies #[trigger] t.frames[k].0 == s.frames[k].0 by {}
    assert forall|k: int| 0 <= k < s.frames.len() implies #[trigger] fnode(t, k) == fnode(s, k) by {
        assert(t.frames[k].0 == s.frames[k].0);
    }
    assert forall|u: int| #[trigger] in_frames(t, u) == in_frames(s, u) by {
        if in_frames(t, u) {
            let k = choose|k: int| 0 <= k < t.frames.len() && #[trigger] t.frames[k].0 == u;
            assert(s.frames[k].0 == u);
        }
        if in_frames(s, u) {
            let k = choose|k: int| 0 <= k < s.frames.len() && #[trigger] s.frames[k].0 == u;
            assert(t.frames[k].0 == u);
        }
    }
    assert forall|k: int, j: int| 0 <= k < t.frames.len() && 0 <= j < fexp(t, k) implies {
            let x = #[trigger] adj[fnode(t, k)]@[j] as int;
            &&& vis(t, x)
            &&& t.on_stack[x] ==> t.lowlink[fnode(t, k)] <= ix(t, x)
        } by {
        if k < last {
            assert(fexp(t, k) == fexp(s, k));
            assert(ix(s, fnode(s, k)) < ix(s, fnode(s, last)));
            assert(fnode(s, k) != v);
        } else if j < e {
            assert(fexp(s, k) == e);
        } else {
            assert(j == e);
        }
    }
    assert forall|u: int| 0 <= u < n && #[trigger] t.on_stack[u] && !in_frames(t, u) implies t.lowlink[u] < ix(t, u) by {
        assert(in_frames(s, v)) by { assert(s.frames[last].0 == v); }
        assert(!in_frames(s, u));
    }
    assert forall|u: int, j: int| 0 <= u < n && t.on_stack[u] && !in_frames(t, u) && 0 <= j < adj[u]@.len() implies {
            let x = #[trigger] adj[u]@[j] as int;
            &&& vis(t, x)
            &&& t.on_stack[x] ==> t.lowlink[u] <= ix(t, x)
        } by {
        assert(in_frames(s, v)) by { assert(s.frames[last].0 == v); }
        assert(!in_frames(s, u));
    }
}

proof fn lemma_seen_owner(adj: Seq<Vec<usize>>, s: TarjanState, w: int)
    requires
        inv_base(adj, s),
        inv_stack(adj, s),
        inv_frames(adj, s),
        inv_owner(adj, s),
        s.frames.len() > 0,
        s.frames.last().0 < adj.len(),
        s.frames.last().1 < adj[s.frames.last().0 as int]@.len(),
        w == adj[s.frames.last().0 as int]@[s.frames.last().1 as int],
        vis(s, w),
    ensures
        inv_owner(adj, explore_seen(s, w)),
{
    let n = adj.len();
    let last = s.frames.len() - 1;
    let v = s.frames[last].0 as int;
    let e = s.frames[last].1 as int;
    assert(adj[v].len() == adj[v]@.len());
    assert(0 <= w < n);
    let t = explore_seen(s, w);
    assert(fnode(s, last) == v);
    assert(t.indices == s.indices && t.on_stack == s.on_stack && t.stack == s.stack);
    assert(t.component == s.component && t.visited == s.visited && t.index == s.index && t.comp_id == s.comp_id);
    assert forall|x: int| #[trigger] vis(t, x) == vis(s, x) by {}
    assert forall|x: int| #[trigger] ix(t, x) == ix(s, x) by {}
    assert(t.frames.len() == s.frames.len());
    assert forall|k: int| 0 <= k < s.frames.len() implies #[trigger] t.frames[k].0 == s.frames[k].0 by {}
    assert forall|k: int| 0 <= k < s.frames.len() implies #[trigger] fnode(t, k) == fnode(s, k) by {
        assert(t.frames[k].0 == s.frames[k].0);
    }
    assert forall|u: int| #[trigger] in_frames(t, u) == in_frames(s, u) by {
        if in_frames(t, u) {
            let k = choose|k: int| 0 <= k < t.frames.len() && #[trigger] t.frames[k].0 == u;
            assert(s.frames[k].0 == u);
        }
        if in_frames(s, u) {
            let k = choose|k: int| 0 <= k < s.frames.len() && #[trigger] s.frames[k].0 == u;
            assert(t.frames[k].0 == u);
        }
    }
    assert forall|u: int, k: int|
        0 <= u < n && t.on_stack[u] && !in_frames(t, u) && #[trigger] frame_owner(t, u, k)
        implies t.lowlink[fnode(t, k)] <= t.lowlink[u] by {
        assert(in_frames(s, v)) by { assert(s.frames[last].0 == v); }
        assert(!in_frames(s, u));
        if k < last {
            assert(fnode(t, k + 1) == fnode(s, k + 1));
        }
        assert(frame_owner(s, u, k));
    }
}

proof fn lemma_seen_witness(adj: Seq<Vec<usize>>, s: TarjanState, w: int)
    requires
        inv_base(adj, s),
        inv_stack(adj, s),
        inv_frames(adj, s),
        inv_witness(adj, s),
        s.frames.len() > 0,
        s.frames.last().0 < adj.len(),
        s.frames.last().1 < adj[s.frames.last().0 as int]@.len(),
        w == adj[s.frames.last().0 as int]@[s.frames.last().1 as int],
        vis(s, w),
    ensures
        inv_witness(adj, explore_seen(s, w)),
{
    let n = adj.len();
    let last = s.frames.len() - 1;
    let v = s.frames[last].0 as int;
    let e = s.frames[last].1 as int;
    assert(0 <= w < n);
    let t = explore_seen(s, w);
    assert(t.indices == s.indices && t.on_stack == s.on_stack);
    let upd = s.on_stack[w] && s.lowlink[w] < s.lowlink[v];
    assert forall|u: int| 0 <= u < n && #[trigger] t.on_stack[u] implies {
            let z = t.lowz[u] as int;
            &&& 0 <= z < n
            &&& t.on_stack[z]
            &&& ix(t, z) == t.lowlink[u]
            &&& reaches(adj, u, z)
        } by {
        if u == v && upd {
            let z = s.lowz[w] as int;
            assert(t.lowz[u] == s.lowz[w]);
            assert(t.lowlink[u] == s.lowlink[w]);
            assert(reaches(adj, w, z));
            crate::graph_reach::lemma_reaches_edge(adj, v, e);
            lemma_reaches_trans(adj, v, w, z);
        } else {
            assert(t.lowz[u] == s.lowz[u]);
            assert(t.lowlink[u] == s.lowlink[u]);
        }
    }
}

proof fn lemma_seen_frame_reach(adj: Seq<Vec<usize>>, s: TarjanState, w: int)
    requires
        inv_frame_reach(adj, s),
        s.frames.len() > 0,
    ensures
        inv_frame_reach(adj, explore_seen(s, w)),
{
    let t = explore_seen(s, w);
    assert(t.indices == s.indices && t.on_stack == s.on_stack);
    assert forall|k: int| 0 <= k < s.frames.len() implies #[trigger] fnode(t, k) == fnode(s, k) by {}
}

pub(crate) proof fn lemma_explore_seen(adj: Seq<Vec<usize>>, s: TarjanState, w: int)
    requires
        inv(adj, s),
        s.frames.len() > 0,
        s.frames.last().1 < adj[s.frames.last().0 as int]@.len(),
        w == adj[s.frames.last().0 as int]@[s.frames.last().1 as int],
        vis(s, w),
    ensures
        inv(adj, explore_seen(s, w)),
{
    reveal(inv);
    assert(s.frames[s.frames.len() - 1] == s.frames.last());
    lemma_seen_shape(adj, s, w);
    lemma_seen_explored(adj, s, w);
    lemma_seen_owner(adj, s, w);
    lemma_seen_witness(adj, s, w);
    lemma_seen_frame_reach(adj, s, w);
}

/// Close the top frame of a node that is not the root of its component: its
/// lowlink flows into the frame below.
pub(crate) open spec fn finish_nonroot(s: TarjanState) -> TarjanState {
    let v = s.frames.last().0 as int;
    let fr = s.frames.drop_last();
    let p = fr.last().0 as int;
    if s.lowlink[v] < s.lowlink[p] {
        TarjanState {
            frames: fr,
            lowlink: s.lowlink.update(p, s.lowlink[v]),
            lowz: s.lowz.update(p, s.lowz[v]),
            ..s
        }
    } else {
        TarjanState { frames: fr, ..s }
    }
}

/// Close the top frame of a component root: everything on the stack from the
/// root upwards becomes component `comp_id`.
pub(crate) open spec fn finish_root(s: TarjanState, p: int) -> TarjanState {
    let v = s.frames.last().0 as int;
    TarjanState {
        frames: s.frames.drop_last(),
        on_stack: Seq::new(s.on_stack.len(), |u: int| s.on_stack[u] && ix(s, u) < ix(s, v)),
        component: Seq::new(
            s.component.len(),
            |u: int|
                if s.on_stack[u] && ix(s, u) >= ix(s, v) {
                    s.comp_id as usize
                } else {
                    s.component[u]
                },
        ),
        stack: s.stack.take(p),
        comp_id: s.comp_id + 1,
        ..s
    }
}

pub(crate) open spec fn finishing(adj: Seq<Vec<usize>>, s: TarjanState) -> bool {
    &&& s.frames.len() > 0
    &&& s.frames.last().1 >= adj[s.frames.last().0 as int]@.len()
}

proof fn lemma_top_facts(adj: Seq<Vec<usize>>, s: TarjanState)
    requires
        inv_base(adj, s),
        inv_stack(adj, s),
        inv_frames(adj, s),
        s.frames.len() > 0,
    ensures
        ({
            let last = s.frames.len() - 1;
            let v = s.frames[last].0 as int;
            &&& 0 <= v < adj.len()
            &&& s.on_stack[v]
            &&& vis(s, v)
            &&& fnode(s, last) == v
            &&& in_frames(s, v)
            &&& forall|k: int| 0 <= k < s.frames.len() ==> ix(s, #[trigger] fnode(s, k)) <= ix(s, v)
            &&& forall|u: int| 0 <= u < adj.len() && s.on_stack[u] && ix(s, u) > ix(s, v) ==> !#[trigger] in_frames(s, u)
        }),
{
    let last = s.frames.len() - 1;
    let v = s.frames[last].0 as int;
    assert(s.frames[last] == s.frames[last]);
    assert(fnode(s, last) == v);
    assert forall|k: int| 0 <= k < s.frames.len() implies ix(s, #[trigger] fnode(s, k)) <= ix(s, v) by {
        if k < last {
            assert(ix(s, fnode(s, k)) < ix(s, fnode(s, last)));
        }
    }
    assert forall|u: int| 0 <= u < adj.len() && s.on_stack[u] && ix(s, u) > ix(s, v) implies !#[trigger] in_frames(s, u) by {
        if in_frames(s, u) {
            let k = choose|k: int| 0 <= k < s.frames.len() && #[trigger] s.frames[k].0 == u;
            assert(fnode(s, k) == u);
        }
    }
}

proof fn lemma_block_reaches_root(adj: Seq<Vec<usize>>, s: TarjanState, u: int)
    requires
        inv(adj, s),
        s.frames.len() > 0,
        s.lowlink[s.frames.last().0 as int] == ix(s, s.frames.last().0 as int),
        0 <= u < adj.len(),
        s.on_stack[u],
        ix(s, u) >= ix(s, s.frames.last().0 as int),
    ensures
        reaches(adj, u, s.frames.last().0 as int),
    decreases ix(s, u) - ix(s, s.frames.last().0 as int),
{
    reveal(inv);
    let last = s.frames.len() - 1;
    let v = s.frames[last].0 as int;
    lemma_top_facts(adj, s);
    if u == v {
        lemma_reaches_refl(adj, u);
    } else {
        assert(vis(s, u));
        if ix(s, u) == ix(s, v) {
            // two stack entries never share an index
            assert(s.stack.contains(u as usize));
            assert(s.stack.contains(v as usize));
            let i = choose|i: int| 0 <= i < s.stack.len() && s.stack[i] == u as usize;
            let j = choose|j: int| 0 <= j < s.stack.len() && s.stack[j] == v as usize;
            if i < j {
                assert(ix(s, s.stack[i] as int) < ix(s, s.stack[j] as int));
            } else if j < i {
                assert(ix(s, s.stack[j] as int) < ix(s, s.stack[i] as int));
            }
        }
        assert(ix(s, u) > ix(s, v));
        assert(!in_frames(s, u));
        assert(s.lowlink[u] < ix(s, u));
        assert(frame_owner(s, u, last));
        assert(s.lowlink[v] <= s.lowlink[u]);
        let z = s.lowz[u] as int;
        assert(s.on_stack[z] && ix(s, z) == s.lowlink[u] && reaches(adj, u, z));
        lemma_block_reaches_root(adj, s, z);
        lemma_reaches_trans(adj, u, z, v);
    }
}

proof fn lemma_nonroot_has_parent(adj: Seq<Vec<usize>>, s: TarjanState)
    requires
        inv_base(adj, s),
        inv_stack(adj, s),
        inv_frames(adj, s),
        inv_witness(adj, s),
        s.frames.len() > 0,
        s.lowlink[s.frames.last().0 as int] < ix(s, s.frames.last().0 as int),
    ensures
        s.frames.len() >= 2,
{
    if s.frames.len() == 1 {
        let v = s.frames[0].0 as int;
        assert(s.frames.last() == s.frames[0]);
        assert(s.on_stack[v]);
        let z = s.lowz[v] as int;
        assert(s.on_stack[z] && ix(s, z) == s.lowlink[v]);
        assert(s.stack.contains(z as usize));
        let i = choose|i: int| 0 <= i < s.stack.len() && s.stack[i] == z as usize;
        if i > 0 {
            assert(ix(s, s.stack[0] as int) < ix(s, s.stack[i] as int));
        }
    }
}

proof fn lemma_nonroot_shape(adj: Seq<Vec<usize>>, s: TarjanState)
    requires
        inv_base(adj, s),
        inv_stack(adj, s),
        inv_frames(adj, s),
        inv_assigned(adj, s),
        s.frames.len() >= 2,
        s.frames.last().0 < adj.len(),
        s.frames.last().1 == adj[s.frames.last().0 as int]@.len(),
        s.lowlink[s.frames.last().0 as int] < ix(s, s.frames.last().0 as int),
    ensures
        inv_base(adj, finish_nonroot(s)),
        inv_stack(adj, finish_nonroot(s)),
        inv_frames(adj, finish_nonroot(s)),
        inv_assigned(adj, finish_nonroot(s)),
{
    let n = adj.len();
    let last = s.frames.len() - 1;
    let v = s.frames[last].0 as int;
    let p = s.frames[last - 1].0 as int;
    let t = finish_nonroot(s);
    assert(fnode(s, last) == v && fnode(s, last - 1) == p);
    assert(s.frames.last() == s.frames[last]);
    assert(t.frames =~= s.frames.drop_last());
    assert(t.indices == s.indices && t.on_stack == s.on_stack && t.stack == s.stack);
    assert(t.component == s.component && t.visited == s.visited && t.index == s.index && t.comp_id == s.comp_id);
    assert forall|x: int| #[trigger] vis(t, x) == vis(s, x) by {}
    assert forall|x: int| #[trigger] ix(t, x) == ix(s, x) by {}
    assert forall|k: int| 0 <= k < t.frames.len() implies #[trigger] fnode(t, k) == fnode(s, k) by {}
    let upd = s.lowlink[v] < s.lowlink[p];
    assert forall|k: int| 0 <= k < t.frames.len() - 1 implies #[trigger] tree_edge(adj, t, k) by {
        assert(tree_edge(adj, s, k));
    }
    assert forall|k: int| 0 <= k < t.frames.len() implies (#[trigger] t.frames[k]).0 < n && t.on_stack[t.frames[k].0 as int]
            && t.frames[k].1 <= adj[t.frames[k].0 as int]@.len() by {
        assert(s.frames[k] == t.frames[k]);
    }
    assert forall|k: int, l: int| 0 <= k < l < t.frames.len() implies ix(t, #[trigger] fnode(t, k)) < ix(t, #[trigger] fnode(t, l)) by {
        assert(ix(s, fnode(s, k)) < ix(s, fnode(s, l)));
    }
    assert forall|c: int| 0 <= c < t.comp_id implies #[trigger] comp_used(t.component, c) by {
        assert(comp_used(s.component, c));
    }
    assert forall|x: int| 0 <= x < n && #[trigger] vis(t, x) implies ix(t, x) < t.index && t.lowlink[x] <= ix(t, x) by {
        assert(vis(s, x));
        if x == p && upd {
            assert(s.lowlink[v] < ix(s, v));
            assert(s.on_stack[p]);
            assert(ix(s, fnode(s, last - 1)) < ix(s, fnode(s, last)));
        }
    }
}

proof fn lemma_nonroot_explored(adj: Seq<Vec<usize>>, s: TarjanState)
    requires
        inv_base(adj, s),
        inv_stack(adj, s),
        inv_frames(adj, s),
        inv_explored(adj, s),
        s.frames.len() >= 2,
        s.frames.last().0 < adj.len(),
        s.frames.last().1 == adj[s.frames.last().0 as int]@.len(),
        s.lowlink[s.frames.last().0 as int] < ix(s, s.frames.last().0 as int),
    ensures
        inv_explored(adj, finish_nonroot(s)),
{
    let n = adj.len();
    let last = s.frames.len() - 1;
    let v = s.frames[last].0 as int;
    let p = s.frames[last - 1].0 as int;
    let t = finish_nonroot(s);
    assert(fnode(s, last) == v && fnode(s, last - 1) == p);
    assert(s.frames.last() == s.frames[last]);
    assert(t.frames =~= s.frames.drop_last());
    assert(t.indices == s.indices && t.on_stack == s.on_stack && t.stack == s.stack);
    assert(t.component == s.component && t.visited == s.visited && t.index == s.index && t.comp_id == s.comp_id);
    assert forall|x: int| #[trigger] vis(t, x) == vis(s, x) by {}
    assert forall|x: int| #[trigger] ix(t, x) == ix(s, x) by {}
    assert forall|k: int| 0 <= k < t.frames.len() implies #[trigger] fnode(t, k) == fnode(s, k) by {}
    let upd = s.lowlink[v] < s.lowlink[p];
    assert(in_frames(s, v)) by { assert(s.frames[last].0 == v); }
    assert forall|u: int| #[trigger] in_frames(t, u) <==> (in_frames(s, u) && u != v) by {
        if in_frames(t, u) {
            let k = choose|k: int| 0 <= k < t.frames.len() && #[trigger] t.frames[k].0 == u;
            assert(s.frames[k].0 == u);
            assert(ix(s, fnode(s, k)) < ix(s, fnode(s, last)));
        }
        if in_frames(s, u) && u != v {
            let k = choose|k: int| 0 <= k < s.frames.len() && #[trigger] s.frames[k].0 == u;
            assert(k != last);
            assert(t.frames[k].0 == u);
        }
    }
    assert forall|k: int, j: int| 0 <= k < t.frames.len() && 0 <= j < fexp(t, k) implies {
            let x = #[trigger] adj[fnode(t, k)]@[j] as int;
            &&& vis(t, x)
            &&& t.on_stack[x] ==> t.lowlink[fnode(t, k)] <= ix(t, x)
        } by {
        let x = adj[fnode(t, k)]@[j] as int;
        if k < last - 1 {
            assert(fexp(t, k) == fexp(s, k));
            assert(ix(s, fnode(s, k)) < ix(s, fnode(s, last - 1)));
            assert(fnode(s, k) != p);
        } else if j < fexp(s, k) {
            assert(fexp(s, k) == s.frames[k].1 - 1);
        } else {
            assert(tree_edge(adj, s, k));
            assert(x == v);
            assert(s.lowlink[v] < ix(s, v));
        }
    }
    assert forall|u: int| 0 <= u < n && #[trigger] t.on_stack[u] && !in_frames(t, u) implies t.lowlink[u] < ix(t, u) by {
        if u != v {
            assert(!in_frames(s, u));
            if u == p {
                assert(in_frames(s, p)) by { assert(s.frames[last - 1].0 == p); }
            }
        }
    }
    assert forall|u: int, j: int| 0 <= u < n && t.on_stack[u] && !in_frames(t, u) && 0 <= j < adj[u]@.len() implies {
            let x = #[trigger] adj[u]@[j] as int;
            &&& vis(t, x)
            &&& t.on_stack[x] ==> t.lowlink[u] <= ix(t, x)
        } by {
        if u == v {
            assert(fexp(s, last) == adj[v]@.len());
        } else {
            assert(!in_frames(s, u));
            if u == p {
                assert(in_frames(s, p)) by { assert(s.frames[last - 1].0 == p); }
            }
        }
    }
}

proof fn lemma_nonroot_owner(adj: Seq<Vec<usize>>, s: TarjanState)
    requires
        inv_base(adj, s),
        inv_stack(adj, s),
        inv_frames(adj, s),
        inv_owner(adj, s),
        s.frames.len() >= 2,
        s.frames.last().0 < adj.len(),
        s.frames.last().1 == adj[s.frames.last().0 as int]@.len(),
        s.lowlink[s.frames.last().0 as int] < ix(s, s.frames.last().0 as int),
    ensures
        inv_owner(adj, finish_nonroot(s)),
{
    let n = adj.len();
    let last = s.frames.len() - 1;
    let v = s.frames[last].0 as int;
    let p = s.frames[last - 1].0 as int;
    let t = finish_nonroot(s);
    assert(fnode(s, last) == v && fnode(s, last - 1) == p);
    assert(s.frames.last() == s.frames[last]);
    assert(t.frames =~= s.frames.drop_last());
    assert(t.indices == s.indices && t.on_stack == s.on_stack && t.stack == s.stack);
    assert(t.component == s.component && t.visited == s.visited && t.index == s.index && t.comp_id == s.comp_id);
    assert forall|x: int| #[trigger] vis(t, x) == vis(s, x) by {}
    assert forall|x: int| #[trigger] ix(t, x) == ix(s, x) by {}
    assert forall|k: int| 0 <= k < t.frames.len() implies #[trigger] fnode(t, k) == fnode(s, k) by {}
    let upd = s.lowlink[v] < s.lowlink[p];
    assert(in_frames(s, v)) by { assert(s.frames[last].0 == v); }
    assert(in_frames(s, p)) by { assert(s.frames[last - 1].0 == p); }
    assert forall|u: int| #[trigger] in_frames(t, u) <==> (in_frames(s, u) && u != v) by {
        if in_frames(t, u) {
            let k = choose|k: int| 0 <= k < t.frames.len() && #[trigger] t.frames[k].0 == u;
            assert(s.frames[k].0 == u);
            assert(ix(s, fnode(s, k)) < ix(s, fnode(s, last)));
        }
        if in_frames(s, u) && u != v {
            let k = choose|k: int| 0 <= k < s.frames.len() && #[trigger] s.frames[k].0 == u;
            assert(k != last);
            assert(t.frames[k].0 == u);
        }
    }
    assert(ix(s, p) < ix(s, v)) by {
        assert(ix(s, fnode(s, last - 1)) < ix(s, fnode(s, last)));
    }
    assert forall|u: int, k: int|
        0 <= u < n && t.on_stack[u] && !in_frames(t, u) && #[trigger] frame_owner(t, u, k)
        implies t.lowlink[fnode(t, k)] <= t.lowlink[u] by {
        if u == v {
            assert(k == last - 1) by {
                if k < last - 1 {
                    assert(ix(s, fnode(s, k + 1)) <= ix(s, fnode(s, last - 1))) by {
                        if k + 1 < last - 1 {
                            assert(ix(s, fnode(s, k + 1)) < ix(s, fnode(s, last - 1)));
                        }
                    }
                }
            }
        } else {
            assert(!in_frames(s, u));
            assert(u != p);
            if k < last - 1 {
                assert(fnode(t, k + 1) == fnode(s, k + 1));
                assert(frame_owner(s, u, k));
                assert(fnode(s, k) != p) by {
                    assert(ix(s, fnode(s, k)) < ix(s, fnode(s, last - 1)));
                }
            } else {
                assert(k == last - 1);
                if ix(s, u) < ix(s, v) {
                    assert(frame_owner(s, u, k));
                } else {
                    assert(ix(s, u) != ix(s, v)) by {
                        if ix(s, u) == ix(s, v) {
                            assert(s.stack.contains(u as usize));
                            assert(s.stack.contains(v as usize));
                            let i = choose|i: int| 0 <= i < s.stack.len() && s.stack[i] == u as usize;
                            let j = choose|j: int| 0 <= j < s.stack.len() && s.stack[j] == v as usize;
                            if i < j {
                                assert(ix(s, s.stack[i] as int) < ix(s, s.stack[j] as int));
                            } else if j < i {
                                assert(ix(s, s.stack[j] as int) < ix(s, s.stack[i] as int));
                            }
                        }
                    }
                    assert(frame_owner(s, u, last));
                    assert(s.lowlink[v] <= s.lowlink[u]);
                }
            }
        }
    }
}

#[verifier::spinoff_prover]
#[verifier::rlimit(100)]
proof fn lemma_nonroot_witness(adj: Seq<Vec<usize>>, s: TarjanState)
    requires
        inv_base(adj, s),
        inv_stack(adj, s),
        inv_frames(adj, s),
        inv_witness(adj, s),
        s.frames.len() >= 2,
        s.frames.last().0 < adj.len(),
        s.frames.last().1 == adj[s.frames.last().0 as int]@.len(),
        s.lowlink[s.frames.last().0 as int] < ix(s, s.frames.last().0 as int),
    ensures
        inv_witness(adj, finish_nonroot(s)),
{
    let n = adj.len();
    let last = s.frames.len() - 1;
    let v = s.frames[last].0 as int;
    let p = s.frames[last - 1].0 as int;
    let t = finish_nonroot(s);
    assert(fnode(s, last) == v && fnode(s, last - 1) == p);
    assert(s.frames.last() == s.frames[last]);
    assert(t.frames =~= s.frames.drop_last());
    assert(t.indices == s.indices && t.on_stack == s.on_stack && t.stack == s.stack);
    assert(t.component == s.component && t.visited == s.visited && t.index == s.index && t.comp_id == s.comp_id);
    assert forall|x: int| #[trigger] vis(t, x) == vis(s, x) by {}
    assert forall|x: int| #[trigger] ix(t, x) == ix(s, x) by {}
    assert forall|k: int| 0 <= k < t.frames.len() implies #[trigger] fnode(t, k) == fnode(s, k) by {}
    let upd = s.lowlink[v] < s.lowlink[p];
    assert forall|u: int| 0 <= u < n && #[trigger] t.on_stack[u] implies {
            let z = t.lowz[u] as int;
            &&& 0 <= z < n
            &&& t.on_stack[z]
            &&& ix(t, z) == t.lowlink[u]
            &&& reaches(adj, u, z)
        } by {
        if u == p && upd {
            let z = s.lowz[v] as int;
            assert(t.lowz[u] == s.lowz[v]);
            assert(s.on_stack[v]);
            assert(reaches(adj, v, z));
            assert(tree_edge(adj, s, last - 1));
            crate::graph_reach::lemma_reaches_edge(adj, p, s.frames[last - 1].1 - 1);
            lemma_reaches_trans(adj, p, v, z);
        } else {
            assert(t.lowz[u] == s.lowz[u]);
        }
    }
}

proof fn lemma_nonroot_freach(adj: Seq<Vec<usize>>, s: TarjanState)
    requires
        inv_base(adj, s),
        inv_stack(adj, s),
        inv_frames(adj, s),
        inv_frame_reach(adj, s),
        s.frames.len() >= 2,
        s.frames.last().0 < adj.len(),
        s.frames.last().1 == adj[s.frames.last().0 as int]@.len(),
        s.lowlink[s.frames.last().0 as int] < ix(s, s.frames.last().0 as int),
    ensures
        inv_frame_reach(adj, finish_nonroot(s)),
{
    let n = adj.len();
    let last = s.frames.len() - 1;
    let v = s.frames[last].0 as int;
    let p = s.frames[last - 1].0 as int;
    let t = finish_nonroot(s);
    assert(fnode(s, last) == v && fnode(s, last - 1) == p);
    assert(s.frames.last() == s.frames[last]);
    assert(t.frames =~= s.frames.drop_last());
    assert(t.indices == s.indices && t.on_stack == s.on_stack && t.stack == s.stack);
    assert(t.component == s.component && t.visited == s.visited && t.index == s.index && t.comp_id == s.comp_id);
    assert forall|x: int| #[trigger] vis(t, x) == vis(s, x) by {}
    assert forall|x: int| #[trigger] ix(t, x) == ix(s, x) by {}
    assert forall|k: int| 0 <= k < t.frames.len() implies #[trigger] fnode(t, k) == fnode(s, k) by {}
    let upd = s.lowlink[v] < s.lowlink[p];
}

pub(crate) proof fn lemma_finish_nonroot(adj: Seq<Vec<usize>>, s: TarjanState)
    requires
        inv(adj, s),
        finishing(adj, s),
        s.lowlink[s.frames.last().0 as int] != ix(s, s.frames.last().0 as int),
    ensures
        s.frames.len() >= 2,
        inv(adj, finish_nonroot(s)),
{
    reveal(inv);
    lemma_top_facts(adj, s);
    let last = s.frames.len() - 1;
    assert(s.frames.last() == s.frames[last]);
    lemma_nonroot_has_parent(adj, s);
    lemma_nonroot_shape(adj, s);
    lemma_nonroot_explored(adj, s);
    lemma_nonroot_owner(adj, s);
    lemma_nonroot_witness(adj, s);
    lemma_nonroot_freach(adj, s);
}

proof fn lemma_root_shape(adj: Seq<Vec<usize>>, s: TarjanState, p: int)
    requires
        inv_base(adj, s),
        inv_stack(adj, s),
        inv_frames(adj, s),
        s.frames.len() > 0,
        s.frames.last().0 < adj.len(),
        s.frames.last().1 == adj[s.frames.last().0 as int]@.len(),
        s.lowlink[s.frames.last().0 as int] == ix(s, s.frames.last().0 as int),
        0 <= p < s.stack.len(),
        s.stack[p] == s.frames.last().0,
    ensures
        inv_base(adj, finish_root(s, p)),
        inv_stack(adj, finish_root(s, p)),
        inv_frames(adj, finish_root(s, p)),
{
    let n = adj.len();
    let last = s.frames.len() - 1;
    let v = s.frames[last].0 as int;
    let t = finish_root(s, p);
    lemma_index_bound(adj, s);
    assert(s.comp_id + s.stack.len() <= s.index);
    assert(fnode(s, last) == v);
    assert(s.frames.last() == s.frames[last]);
    assert(t.frames =~= s.frames.drop_last());
    assert(t.indices == s.indices && t.lowlink == s.lowlink && t.lowz == s.lowz);
    assert(t.visited == s.visited && t.index == s.index);
    assert forall|x: int| #[trigger] vis(t, x) == vis(s, x) by {}
    assert forall|x: int| #[trigger] ix(t, x) == ix(s, x) by {}
    assert forall|k: int| 0 <= k < t.frames.len() implies #[trigger] fnode(t, k) == fnode(s, k) by {}
    assert forall|x: int| 0 <= x < n implies #[trigger] t.on_stack[x] == (s.on_stack[x] && ix(s, x) < ix(s, v)) by {}
    assert forall|x: int| 0 <= x < n implies #[trigger] t.component[x] == (if s.on_stack[x] && ix(s, x) >= ix(s, v) { s.comp_id as usize } else { s.component[x] }) by {}
    // stack positions below the root hold exactly the lower indices
    assert forall|i: int| 0 <= i < s.stack.len() implies (i < p <==> ix(s, #[trigger] s.stack[i] as int) < ix(s, v)) by {
        if i < p {
            assert(ix(s, s.stack[i] as int) < ix(s, s.stack[p] as int));
        } else if i > p {
            assert(ix(s, s.stack[p] as int) < ix(s, s.stack[i] as int));
        }
    }
    lemma_top_facts(adj, s);
    assert(t.stack =~= s.stack.take(p));
    assert forall|x: int| 0 <= x < n && #[trigger] t.on_stack[x] implies t.stack.contains(x as usize) by {
        assert(s.stack.contains(x as usize));
        let i = choose|i: int| 0 <= i < s.stack.len() && s.stack[i] == x as usize;
        assert(i < p);
        assert(t.stack[i] == x as usize);
    }
    assert forall|i: int| 0 <= i < t.stack.len() implies (#[trigger] t.stack[i]) < n && t.on_stack[t.stack[i] as int]
            && vis(t, t.stack[i] as int) by {
        assert(t.stack[i] == s.stack[i]);
        assert(ix(s, s.stack[i] as int) < ix(s, v));
    }
    assert forall|i: int, j: int| 0 <= i < j < t.stack.len() implies ix(t, #[trigger] t.stack[i] as int) < ix(
            t,
            #[trigger] t.stack[j] as int,
        ) by {
        assert(t.stack[i] == s.stack[i] && t.stack[j] == s.stack[j]);
        assert(ix(s, s.stack[i] as int) < ix(s, s.stack[j] as int));
    }
    assert(comp_used(t.component, s.comp_id)) by {
        assert(t.component[v] == s.comp_id as usize);
    }
    assert forall|c: int| 0 <= c < t.comp_id implies #[trigger] comp_used(t.component, c) by {
        if c < s.comp_id {
            assert(comp_used(s.component, c));
            let x = choose|x: int| 0 <= x < s.component.len() && #[trigger] s.component[x] == c;
            assert(!s.on_stack[x]);
            assert(t.component[x] == c);
        }
    }
    assert forall|x: int| 0 <= x < n && #[trigger] vis(t, x) && !t.on_stack[x] implies t.component[x] < t.comp_id by {
        assert(vis(s, x));
    }
    assert forall|x: int| 0 <= x < n && !#[trigger] vis(t, x) implies t.component[x] == usize::MAX && !t.on_stack[x] by {
        assert(!vis(s, x));
    }
    assert(s.comp_id + s.stack.len() <= s.index);
    assert(t.stack.len() == p);
    // the frames below the root are not part of the popped block
    if t.frames.len() > 0 {
        assert(ix(s, fnode(s, 0)) < ix(s, fnode(s, last)));
        assert(s.stack[0] == s.frames[0].0);
        assert(p > 0) by {
            if p == 0 {
                assert(s.stack[0] == v);
            }
        }
        assert(t.stack[0] == s.stack[0]);
    } else {
        assert(last == 0);
        assert(s.stack[0] == v);
        assert(p == 0) by {
            if p > 0 {
                assert(ix(s, s.stack[0] as int) < ix(s, s.stack[p] as int));
            }
        }
    }
    assert forall|k: int| 0 <= k < t.frames.len() implies (#[trigger] t.frames[k]).0 < n && t.on_stack[t.frames[k].0 as int]
            && t.frames[k].1 <= adj[t.frames[k].0 as int]@.len() by {
        assert(s.frames[k] == t.frames[k]);
        assert(ix(s, fnode(s, k)) < ix(s, fnode(s, last)));
    }
    assert forall|k: int| 0 <= k < t.frames.len() - 1 implies #[trigger] tree_edge(adj, t, k) by {
        assert(tree_edge(adj, s, k));
    }
    assert forall|k: int, l: int| 0 <= k < l < t.frames.len() implies ix(t, #[trigger] fnode(t, k)) < ix(t, #[trigger] fnode(t, l)) by {
        assert(ix(s, fnode(s, k)) < ix(s, fnode(s, l)));
    }
}

proof fn lemma_root_explored(adj: Seq<Vec<usize>>, s: TarjanState, p: int)
    requires
        inv_base(adj, s),
        inv_stack(adj, s),
        inv_frames(adj, s),
        inv_explored(adj, s),
        s.frames.len() > 0,
        s.frames.last().0 < adj.len(),
        s.frames.last().1 == adj[s.frames.last().0 as int]@.len(),
        s.lowlink[s.frames.last().0 as int] == ix(s, s.frames.last().0 as int),
        0 <= p < s.stack.len(),
        s.stack[p] == s.frames.last().0,
    ensures
        inv_explored(adj, finish_root(s, p)),
{
    let n = adj.len();
    let last = s.frames.len() - 1;
    let v = s.frames[last].0 as int;
    let t = finish_root(s, p);
    lemma_index_bound(adj, s);
    assert(s.comp_id + s.stack.len() <= s.index);
    assert(fnode(s, last) == v);
    assert(s.frames.last() == s.frames[last]);
    assert(t.frames =~= s.frames.drop_last());
    assert(t.indices == s.indices && t.lowlink == s.lowlink && t.lowz == s.lowz);
    assert(t.visited == s.visited && t.index == s.index);
    assert forall|x: int| #[trigger] vis(t, x) == vis(s, x) by {}
    assert forall|x: int| #[trigger] ix(t, x) == ix(s, x) by {}
    assert forall|k: int| 0 <= k < t.frames.len() implies #[trigger] fnode(t, k) == fnode(s, k) by {}
    assert forall|x: int| 0 <= x < n implies #[trigger] t.on_stack[x] == (s.on_stack[x] && ix(s, x) < ix(s, v)) by {}
    assert forall|x: int| 0 <= x < n implies #[trigger] t.component[x] == (if s.on_stack[x] && ix(s, x) >= ix(s, v) { s.comp_id as usize } else { s.component[x] }) by {}
    // stack positions below the root hold exactly the lower indices
    assert forall|i: int| 0 <= i < s.stack.len() implies (i < p <==> ix(s, #[trigger] s.stack[i] as int) < ix(s, v)) by {
        if i < p {
            assert(ix(s, s.stack[i] as int) < ix(s, s.stack[p] as int));
        } else if i > p {
            assert(ix(s, s.stack[p] as int) < ix(s, s.stack[i] as int));
        }
    }
    assert(in_frames(s, v)) by { assert(s.frames[last].0 == v); }
    assert forall|u: int| #[trigger] in_frames(t, u) <==> (in_frames(s, u) && u != v) by {
        if in_frames(t, u) {
            let k = choose|k: int| 0 <= k < t.frames.len() && #[trigger] t.frames[k].0 == u;
            assert(s.frames[k].0 == u);
            assert(ix(s, fnode(s, k)) < ix(s, fnode(s, last)));
        }
        if in_frames(s, u) && u != v {
            let k = choose|k: int| 0 <= k < s.frames.len() && #[trigger] s.frames[k].0 == u;
            assert(k != last);
            assert(t.frames[k].0 == u);
        }
    }
    assert forall|k: int, j: int| 0 <= k < t.frames.len() && 0 <= j < fexp(t, k) implies {
            let x = #[trigger] adj[fnode(t, k)]@[j] as int;
            &&& vis(t, x)
            &&& t.on_stack[x] ==> t.lowlink[fnode(t, k)] <= ix(t, x)
        } by {
        let x = adj[fnode(t, k)]@[j] as int;
        if k < last - 1 {
            assert(fexp(t, k) == fexp(s, k));
        } else if j < fexp(s, k) {
        } else {
            assert(tree_edge(adj, s, k));
            assert(x == v);
        }
    }
    assert forall|u: int| 0 <= u < n && #[trigger] t.on_stack[u] && !in_frames(t, u) implies t.lowlink[u] < ix(t, u) by {
        assert(u != v);
        assert(!in_frames(s, u));
    }
    assert forall|u: int, j: int| 0 <= u < n && t.on_stack[u] && !in_frames(t, u) && 0 <= j < adj[u]@.len() implies {
            let x = #[trigger] adj[u]@[j] as int;
            &&& vis(t, x)
            &&& t.on_stack[x] ==> t.lowlink[u] <= ix(t, x)
        } by {
        assert(u != v);
        assert(!in_frames(s, u));
    }
}

proof fn lemma_root_owner(adj: Seq<Vec<usize>>, s: TarjanState, p: int)
    requires
        inv_base(adj, s),
        inv_stack(adj, s),
        inv_frames(adj, s),
        inv_owner(adj, s),
        s.frames.len() > 0,
        s.frames.last().0 < adj.len(),
        s.frames.last().1 == adj[s.frames.last().0 as int]@.len(),
        s.lowlink[s.frames.last().0 as int] == ix(s, s.frames.last().0 as int),
        0 <= p < s.stack.len(),
        s.stack[p] == s.frames.last().0,
    ensures
        inv_owner(adj, finish_root(s, p)),
{
    let n = adj.len();
    let last = s.frames.len() - 1;
    let v = s.frames[last].0 as int;
    let t = finish_root(s, p);
    lemma_index_bound(adj, s);
    assert(s.comp_id + s.stack.len() <= s.index);
    assert(fnode(s, last) == v);
    assert(s.frames.last() == s.frames[last]);
    assert(t.frames =~= s.frames.drop_last());
    assert(t.indices == s.indices && t.lowlink == s.lowlink && t.lowz == s.lowz);
    assert(t.visited == s.visited && t.index == s.index);
    assert forall|x: int| #[trigger] vis(t, x) == vis(s, x) by {}
    assert forall|x: int| #[trigger] ix(t, x) == ix(s, x) by {}
    assert forall|k: int| 0 <= k < t.frames.len() implies #[trigger] fnode(t, k) == fnode(s, k) by {}
    assert forall|x: int| 0 <= x < n implies #[trigger] t.on_stack[x] == (s.on_stack[x] && ix(s, x) < ix(s, v)) by {}
    assert forall|x: int| 0 <= x < n implies #[trigger] t.component[x] == (if s.on_stack[x] && ix(s, x) >= ix(s, v) { s.comp_id as usize } else { s.component[x] }) by {}
    // stack positions below the root hold exactly the lower indices
    assert forall|i: int| 0 <= i < s.stack.len() implies (i < p <==> ix(s, #[trigger] s.stack[i] as int) < ix(s, v)) by {
        if i < p {
            assert(ix(s, s.stack[i] as int) < ix(s, s.stack[p] as int));
        } else if i > p {
            assert(ix(s, s.stack[p] as int) < ix(s, s.stack[i] as int));
        }
    }
    assert(in_frames(s, v)) by { assert(s.frames[last].0 == v); }
    assert forall|u: int| #[trigger] in_frames(t, u) <==> (in_frames(s, u) && u != v) by {
        if in_frames(t, u) {
            let k = choose|k: int| 0 <= k < t.frames.len() && #[trigger] t.frames[k].0 == u;
            assert(s.frames[k].0 == u);
            assert(ix(s, fnode(s, k)) < ix(s, fnode(s, last)));
        }
        if in_frames(s, u) && u != v {
            let k = choose|k: int| 0 <= k < s.frames.len() && #[trigger] s.frames[k].0 == u;
            assert(k != last);
            assert(t.frames[k].0 == u);
        }
    }
    assert forall|u: int, k: int|
        0 <= u < n && t.on_stack[u] && !in_frames(t, u) && #[trigger] frame_owner(t, u, k)
        implies t.lowlink[fnode(t, k)] <= t.lowlink[u] by {
        assert(u != v);
        assert(!in_frames(s, u));
        if k < last - 1 {
            assert(fnode(t, k + 1) == fnode(s, k + 1));
        }
        assert(frame_owner(s, u, k));
    }
}

proof fn lemma_root_witness(adj: Seq<Vec<usize>>, s: TarjanState, p: int)
    requires
        inv_base(adj, s),
        inv_stack(adj, s),
        inv_frames(adj, s),
        inv_witness(adj, s),
        s.frames.len() > 0,
        s.frames.last().0 < adj.len(),
        s.frames.last().1 == adj[s.frames.last().0 as int]@.len(),
        s.lowlink[s.frames.last().0 as int] == ix(s, s.frames.last().0 as int),
        0 <= p < s.stack.len(),
        s.stack[p] == s.frames.last().0,
    ensures
        inv_witness(adj, finish_root(s, p)),
{
    let n = adj.len();
    let last = s.frames.len() - 1;
    let v = s.frames[last].0 as int;
    let t = finish_root(s, p);
    lemma_index_bound(adj, s);
    assert(s.comp_id + s.stack.len() <= s.index);
    assert(fnode(s, last) == v);
    assert(s.frames.last() == s.frames[last]);
    assert(t.frames =~= s.frames.drop_last());
    assert(t.indices == s.indices && t.lowlink == s.lowlink && t.lowz == s.lowz);
    assert(t.visited == s.visited && t.index == s.index);
    assert forall|x: int| #[trigger] vis(t, x) == vis(s, x) by {}
    assert forall|x: int| #[trigger] ix(t, x) == ix(s, x) by {}
    assert forall|k: int| 0 <= k < t.frames.len() implies #[trigger] fnode(t, k) == fnode(s, k) by {}
    assert forall|x: int| 0 <= x < n implies #[trigger] t.on_stack[x] == (s.on_stack[x] && ix(s, x) < ix(s, v)) by {}
    assert forall|x: int| 0 <= x < n implies #[trigger] t.component[x] == (if s.on_stack[x] && ix(s, x) >= ix(s, v) { s.comp_id as usize } else { s.component[x] }) by {}
    // stack positions below the root hold exactly the lower indices
    assert forall|i: int| 0 <= i < s.stack.len() implies (i < p <==> ix(s, #[trigger] s.stack[i] as int) < ix(s, v)) by {
        if i < p {
            assert(ix(s, s.stack[i] as int) < ix(s, s.stack[p] as int));
        } else if i > p {
            assert(ix(s, s.stack[p] as int) < ix(s, s.stack[i] as int));
        }
    }
    assert forall|u: int| 0 <= u < n && #[trigger] t.on_stack[u] implies {
            let z = t.lowz[u] as int;
            &&& 0 <= z < n
            &&& t.on_stack[z]
            &&& ix(t, z) == t.lowlink[u]
            &&& reaches(adj, u, z)
        } by {
        assert(vis(s, u));
    }
}

proof fn lemma_root_freach(adj: Seq<Vec<usize>>, s: TarjanState, p: int)
    requires
        inv_base(adj, s),
        inv_stack(adj, s),
        inv_frames(adj, s),
        inv_frame_reach(adj, s),
        s.frames.len() > 0,
        s.frames.last().0 < adj.len(),
        s.frames.last().1 == adj[s.frames.last().0 as int]@.len(),
        s.lowlink[s.frames.last().0 as int] == ix(s, s.frames.last().0 as int),
        0 <= p < s.stack.len(),
        s.stack[p] == s.frames.last().0,
    ensures
        inv_frame_reach(adj, finish_root(s, p)),
{
    let n = adj.len();
    let last = s.frames.len() - 1;
    let v = s.frames[last].0 as int;
    let t = finish_root(s, p);
    lemma_index_bound(adj, s);
    assert(s.comp_id + s.stack.len() <= s.index);
    assert(fnode(s, last) == v);
    assert(s.frames.last() == s.frames[last]);
    assert(t.frames =~= s.frames.drop_last());
    assert(t.indices == s.indices && t.lowlink == s.lowlink && t.lowz == s.lowz);
    assert(t.visited == s.visited && t.index == s.index);
    assert forall|x: int| #[trigger] vis(t, x) == vis(s, x) by {}
    assert forall|x: int| #[trigger] ix(t, x) == ix(s, x) by {}
    assert forall|k: int| 0 <= k < t.frames.len() implies #[trigger] fnode(t, k) == fnode(s, k) by {}
    assert forall|x: int| 0 <= x < n implies #[trigger] t.on_stack[x] == (s.on_stack[x] && ix(s, x) < ix(s, v)) by {}
    assert forall|x: int| 0 <= x < n implies #[trigger] t.component[x] == (if s.on_stack[x] && ix(s, x) >= ix(s, v) { s.comp_id as usize } else { s.component[x] }) by {}
    // stack positions below the root hold exactly the lower indices
    assert forall|i: int| 0 <= i < s.stack.len() implies (i < p <==> ix(s, #[trigger] s.stack[i] as int) < ix(s, v)) by {
        if i < p {
            assert(ix(s, s.stack[i] as int) < ix(s, s.stack[p] as int));
        } else if i > p {
            assert(ix(s, s.stack[p] as int) < ix(s, s.stack[i] as int));
        }
    }
}

proof fn lemma_root_assigned(adj: Seq<Vec<usize>>, s: TarjanState, p: int)
    requires
        inv_base(adj, s),
        inv_stack(adj, s),
        inv_frames(adj, s),
        inv_explored(adj, s),
        inv_owner(adj, s),
        inv_witness(adj, s),
        inv_frame_reach(adj, s),
        inv_assigned(adj, s),
        s.frames.len() > 0,
        s.frames.last().0 < adj.len(),
        s.frames.last().1 == adj[s.frames.last().0 as int]@.len(),
        s.lowlink[s.frames.last().0 as int] == ix(s, s.frames.last().0 as int),
        0 <= p < s.stack.len(),
        s.stack[p] == s.frames.last().0,
    ensures
        inv_assigned(adj, finish_root(s, p)),
{
    let n = adj.len();
    let last = s.frames.len() - 1;
    let v = s.frames[last].0 as int;
    let t = finish_root(s, p);
    lemma_index_bound(adj, s);
    assert(s.comp_id + s.stack.len() <= s.index);
    assert(fnode(s, last) == v);
    assert(s.frames.last() == s.frames[last]);
    assert(t.frames =~= s.frames.drop_last());
    assert(t.indices == s.indices && t.lowlink == s.lowlink && t.lowz == s.lowz);
    assert(t.visited == s.visited && t.index == s.index);
    assert forall|x: int| #[trigger] vis(t, x) == vis(s, x) by {}
    assert forall|x: int| #[trigger] ix(t, x) == ix(s, x) by {}
    assert forall|k: int| 0 <= k < t.frames.len() implies #[trigger] fnode(t, k) == fnode(s, k) by {}
    assert forall|x: int| 0 <= x < n implies #[trigger] t.on_stack[x] == (s.on_stack[x] && ix(s, x) < ix(s, v)) by {}
    assert forall|x: int| 0 <= x < n implies #[trigger] t.component[x] == (if s.on_stack[x] && ix(s, x) >= ix(s, v) { s.comp_id as usize } else { s.component[x] }) by {}
    // stack positions below the root hold exactly the lower indices
    assert forall|i: int| 0 <= i < s.stack.len() implies (i < p <==> ix(s, #[trigger] s.stack[i] as int) < ix(s, v)) by {
        if i < p {
            assert(ix(s, s.stack[i] as int) < ix(s, s.stack[p] as int));
        } else if i > p {
            assert(ix(s, s.stack[p] as int) < ix(s, s.stack[i] as int));
        }
    }
    lemma_top_facts(adj, s);
    assert(inv(adj, s)) by {
        reveal(inv);
    }
    // every member of the popped block reaches the root and is reached from it
    assert forall|u: int| 0 <= u < n && s.on_stack[u] && ix(s, u) >= ix(s, v) implies #[trigger] reaches(adj, u, v) && reaches(adj, v, u) by {
        assert(s.frames.last().0 == v);
        lemma_block_reaches_root(adj, s, u);
        assert(fnode(s, last) == v);
    }
    assert forall|u: int, j: int|
        0 <= u < n && t.component[u] != usize::MAX && 0 <= j < adj[u]@.len() implies {
            let x = #[trigger] adj[u]@[j] as int;
            &&& t.component[x] != usize::MAX
            &&& t.component[x] <= t.component[u]
        } by {
        let x = adj[u]@[j] as int;
        assert(0 <= x < n);
        if s.on_stack[u] && ix(s, u) >= ix(s, v) {
            // u is in the block: every successor is in the block or finished earlier
            if u == v {
                assert(fexp(s, last) == adj[v]@.len());
                assert(vis(s, x));
                if s.on_stack[x] {
                    assert(s.lowlink[v] <= ix(s, x));
                }
            } else {
                assert(ix(s, u) != ix(s, v)) by {
                    if ix(s, u) == ix(s, v) {
                        assert(s.stack.contains(u as usize));
                        let i = choose|i: int| 0 <= i < s.stack.len() && s.stack[i] == u as usize;
                        assert(i == p);
                    }
                }
                assert(!in_frames(s, u));
                assert(vis(s, x));
                if s.on_stack[x] {
                    assert(s.lowlink[u] <= ix(s, x));
                    assert(frame_owner(s, u, last));
                    assert(s.lowlink[v] <= s.lowlink[u]);
                }
            }
            if !s.on_stack[x] {
                assert(s.component[x] < s.comp_id);
            }
        } else {
            assert(!s.on_stack[u]);
            assert(s.component[u] != usize::MAX);
            assert(s.component[x] != usize::MAX && s.component[x] <= s.component[u]);
            assert(!s.on_stack[x]);
        }
    }
    assert forall|u: int, x: int|
        0 <= u < n && 0 <= x < n && #[trigger] t.component[u] != usize::MAX && t.component[u]
            == #[trigger] t.component[x] implies reaches(adj, u, x) by {
        let bu = s.on_stack[u] && ix(s, u) >= ix(s, v);
        let bx = s.on_stack[x] && ix(s, x) >= ix(s, v);
        if bu && bx {
            assert(reaches(adj, u, v) && reaches(adj, v, x));
            lemma_reaches_trans(adj, u, v, x);
        } else if bu {
            assert(!s.on_stack[x]);
            if vis(s, x) {
                assert(s.component[x] < s.comp_id);
            }
        } else if bx {
            assert(!s.on_stack[u]);
            if vis(s, u) {
                assert(s.component[u] < s.comp_id);
            }
        } else {
        }
    }
}

pub(crate) proof fn lemma_finish_root(adj: Seq<Vec<usize>>, s: TarjanState, p: int)
    requires
        inv(adj, s),
        finishing(adj, s),
        s.lowlink[s.frames.last().0 as int] == ix(s, s.frames.last().0 as int),
        0 <= p < s.stack.len(),
        s.stack[p] == s.frames.last().0,
    ensures
        inv(adj, finish_root(s, p)),
{
    reveal(inv);
    lemma_top_facts(adj, s);
    lemma_root_shape(adj, s, p);
    lemma_root_explored(adj, s, p);
    lemma_root_owner(adj, s, p);
    lemma_root_witness(adj, s, p);
    lemma_root_freach(adj, s, p);
    lemma_root_assigned(adj, s, p);
}

pub(crate) open spec fn state_of(
    indices: Seq<Option<usize>>,
    lowlink: Seq<usize>,
    on_stack: Seq<bool>,
    stack: Seq<usize>,
    component: Seq<usize>,
    comp_id: usize,
    index: usize,
    frames: Seq<(usize, usize)>,
    lowz: Seq<usize>,
    visited: Set<int>,
) -> TarjanState {
    TarjanState {
        indices,
        lowlink,
        on_stack,
        stack,
        component,
        comp_id: comp_id as int,
        index: index as int,
        frames,
        lowz,
        visited,
    }
}

/// Edges still to be walked by the open frames, plus one step per frame to close it.
pub(crate) open spec fn frame_work(adj: Seq<Vec<usize>>, fr: Seq<(usize, usize)>) -> int
    decreases fr.len(),
{
    if fr.len() == 0 {
        0
    } else {
        frame_work(adj, fr.drop_last()) + (adj[fr.last().0 as int]@.len() - fr.last().1 + 1)
    }
}

/// Where a node sits relative to the stack entries at and above position `m`.
pub(crate) open spec fn pop_bound(s: TarjanState, m: int) -> int {
    if m >= s.stack.len() {
        s.index
    } else {
        ix(s, s.stack[m] as int)
    }
}

proof fn lemma_pop_step(adj: Seq<Vec<usize>>, s: TarjanState, m: int)
    requires
        inv_base(adj, s),
        inv_stack(adj, s),
        0 < m <= s.stack.len(),
    ensures
        pop_bound(s, m - 1) == ix(s, s.stack[m - 1] as int),
        forall|u: int|
            0 <= u < adj.len() && s.on_stack[u] && pop_bound(s, m - 1) <= ix(s, u) && ix(s, u) < pop_bound(s, m)
                ==> u == s.stack[m - 1] as int,
        forall|u: int| 0 <= u < adj.len() && s.on_stack[u] ==> ix(s, u) < pop_bound(s, s.stack.len() as int),
{
    assert forall|u: int|
        0 <= u < adj.len() && s.on_stack[u] && pop_bound(s, m - 1) <= ix(s, u) && ix(s, u) < pop_bound(s, m)
            implies u == s.stack[m - 1] as int by {
        assert(s.stack.contains(u as usize));
        let i = choose|i: int| 0 <= i < s.stack.len() && s.stack[i] == u as usize;
        if i < m - 1 {
            assert(ix(s, s.stack[i] as int) < ix(s, s.stack[m - 1] as int));
        } else if i > m - 1 {
            if i > m {
                assert(ix(s, s.stack[m] as int) < ix(s, s.stack[i] as int));
            }
        }
    }
}

proof fn lemma_frame_work_nonneg(adj: Seq<Vec<usize>>, fr: Seq<(usize, usize)>)
    requires
        forall|k: int| 0 <= k < fr.len() ==> (#[trigger] fr[k]).1 <= adj[fr[k].0 as int]@.len(),
    ensures
        frame_work(adj, fr) >= 0,
    decreases fr.len(),
{
    if fr.len() > 0 {
        let d = fr.drop_last();
        assert forall|k: int| 0 <= k < d.len() implies (#[trigger] d[k]).1 <= adj[d[k].0 as int]@.len() by {
            assert(d[k] == fr[k]);
        }
        lemma_frame_work_nonneg(adj, d);
        assert(fr.last() == fr[fr.len() - 1]);
    }
}

proof fn lemma_exec_facts(adj: Seq<Vec<usize>>, s: TarjanState)
    requires
        inv(adj, s),
    ensures
        s.index <= adj.len(),
        s.comp_id + s.stack.len() <= s.index,
        s.indices.len() == adj.len(),
        s.lowlink.len() == adj.len(),
        s.on_stack.len() == adj.len(),
        s.component.len() == adj.len(),
        s.frames.len() > 0 ==> ({
            let top = s.frames.last();
            &&& top.0 < adj.len()
            &&& top.1 <= adj[top.0 as int]@.len()
            &&& vis(s, top.0 as int)
            &&& s.on_stack[top.0 as int]
        }),
        s.frames.len() > 1 ==> s.frames[s.frames.len() - 2].0 < adj.len(),
        s.frames.len() == 0 ==> s.stack.len() == 0,
        forall|v: int| 0 <= v < adj.len() && #[trigger] s.on_stack[v] ==> s.stack.contains(v as usize),
        forall|v: int| 0 <= v < adj.len() && #[trigger] vis(s, v) && !s.on_stack[v] ==> s.component[v] < s.comp_id,
{
    reveal(inv);
    lemma_index_bound(adj, s);
    if s.frames.len() > 0 {
        let last = s.frames.len() - 1;
        assert(s.frames.last() == s.frames[last]);
        assert(s.on_stack[s.frames[last].0 as int]);
    }
    if s.frames.len() > 1 {
        let k = s.frames.len() - 2;
        assert(s.frames[k].0 < adj.len());
    }
}

proof fn lemma_inv_stack_parts(adj: Seq<Vec<usize>>, s: TarjanState)
    requires
        inv(adj, s),
    ensures
        inv_base(adj, s),
        inv_stack(adj, s),
        inv_frames(adj, s),
{
    reveal(inv);
}

/// The component numbering that `tarjan_scc` returns: numbers are dense from
/// zero, never increase along an edge, and nodes that share a number reach
/// each other.
pub open spec fn scc_result(adj: Seq<Vec<usize>>, comp: Seq<usize>) -> bool {
    &&& comp.len() == adj.len()
    &&& forall|v: int| 0 <= v < adj.len() ==> #[trigger] comp[v] < adj.len()
    &&& forall|v: int, c: int| 0 <= v < adj.len() && 0 <= c <= comp[v] ==> #[trigger] comp_used(comp, c) && #[trigger] comp[v] >= 0
    &&& forall|u: int, j: int|
        0 <= u < adj.len() && 0 <= j < adj[u]@.len() ==> comp[#[trigger] adj[u]@[j] as int] <= comp[u]
    &&& forall|u: int, x: int|
        0 <= u < adj.len() && 0 <= x < adj.len() && #[trigger] comp[u] == #[trigger] comp[x] ==> reaches(adj, u, x)
}

/// Label the strongly connected components of the graph on nodes `0..n` whose
/// successor lists are `adj`. The contract fixes the partition into
/// components and that numbers never increase along an edge (a reverse
/// topological numbering); it leaves open which number each of two
/// components that do not reach each other gets (the search completes them
/// in the order it finishes them). Its only caller, the row layout, depends
/// on the partition and that order alone: the rows it produces are fixed by
/// `rows_respect_deps` and `rows_prefer_input_order` (`lemma_rows_unique`).
#[verifier::rlimit(100)]
#[verifier::spinoff_prover]
pub(crate) fn tarjan_scc(n: usize, adj: &[Vec<usize>]) -> (component: Vec<usize>)
    requires
        adj@.len() == n,
        adj_wf(adj@),
    ensures
        scc_result(adj@, component@),
{
    let mut index: usize = 0;
    let mut indices: Vec<Option<usize>> = vec![None; n];
    let mut lowlink: Vec<usize> = vec![0usize; n];
    let mut on_stack: Vec<bool> = vec![false; n];
    let mut stack: Vec<usize> = Vec::new();
    let mut component: Vec<usize> = vec![usize::MAX; n];
    let mut comp_id: usize = 0;
    let ghost mut lowz: Seq<usize> = Seq::new(n as nat, |i: int| 0usize);
    let ghost mut visited: Set<int> = Set::empty();
    let ghost empty_frames: Seq<(usize, usize)> = Seq::empty();
    proof {
        let s = state_of(indices@, lowlink@, on_stack@, stack@, component@, comp_id, index, empty_frames, lowz, visited);
        assert forall|v: int| 0 <= v < n implies !#[trigger] vis(s, v) by {
            assert(cloned(None::<usize>, indices@[v]));
        }
        assert forall|v: int| 0 <= v < n implies !#[trigger] s.on_stack[v] && s.component[v] == usize::MAX by {
            assert(cloned(false, on_stack@[v]));
            assert(cloned(usize::MAX, component@[v]));
        }
        assert(inv(adj@, s)) by {
            reveal(inv);
        }
    }
    for start in 0..n
        invariant
            adj@.len() == n,
            adj_wf(adj@),
            inv(adj@, state_of(indices@, lowlink@, on_stack@, stack@, component@, comp_id, index, empty_frames, lowz, visited)),
            empty_frames.len() == 0,
            forall|v: int| 0 <= v < start ==> #[trigger] indices@[v] is Some,
    {
        proof {
            lemma_exec_facts(adj@, state_of(indices@, lowlink@, on_stack@, stack@, component@, comp_id, index, empty_frames, lowz, visited));
        }
        if indices[start].is_none() {
            let mut stack_frame: Vec<(usize, usize)> = Vec::new();
            proof {
                let s = state_of(indices@, lowlink@, on_stack@, stack@, component@, comp_id, index, empty_frames, lowz, visited);
                assert(stack_frame@ == empty_frames);
                lemma_visit_root(adj@, s, start as int);
            }
            stack_frame.push((start, 0));
            indices.set(start, Some(index));
            lowlink.set(start, index);
            index += 1;
            stack.push(start);
            on_stack.set(start, true);
            proof {
                lowz = lowz.update(start as int, start);
                visited = visited.insert(start as int);
            }
            while stack_frame.len() > 0
                invariant
                    adj@.len() == n,
                    adj_wf(adj@),
                    inv(adj@, state_of(indices@, lowlink@, on_stack@, stack@, component@, comp_id, index, stack_frame@, lowz, visited)),
                    empty_frames.len() == 0,
                    0 <= start < n,
                    indices@[start as int] is Some,
                    forall|v: int| 0 <= v < start ==> #[trigger] indices@[v] is Some,
                decreases (n - index) as int, frame_work(adj@, stack_frame@),
            {
                let ghost s = state_of(indices@, lowlink@, on_stack@, stack@, component@, comp_id, index, stack_frame@, lowz, visited);
                let ghost old_work = frame_work(adj@, stack_frame@);
                let (v, edge_i) = stack_frame.pop().unwrap();
                proof {
                    lemma_exec_facts(adj@, s);
                    lemma_inv_stack_parts(adj@, s);
                    lemma_frame_work_nonneg(adj@, s.frames);
                    assert(s.frames.last() == (v, edge_i));
                    assert forall|k: int| 0 <= k < s.frames.len() - 1 implies (#[trigger] s.frames.drop_last()[k]).1 <= adj@[s.frames.drop_last()[k].0 as int]@.len() by {
                        assert(s.frames.drop_last()[k] == s.frames[k]);
                    }
                    lemma_frame_work_nonneg(adj@, s.frames.drop_last());
                }
                if edge_i < adj[v].len() {
                    let w = adj[v][edge_i];
                    stack_frame.push((v, edge_i + 1));
                    if indices[w].is_none() {
                        proof {
                            lemma_visit_child(adj@, s, w as int);
                        }
                        indices.set(w, Some(index));
                        lowlink.set(w, index);
                        index += 1;
                        stack.push(w);
                        on_stack.set(w, true);
                        stack_frame.push((w, 0));
                        proof {
                            lowz = lowz.update(w as int, w);
                            visited = visited.insert(w as int);
                            assert(stack_frame@ =~= push_node(bump(s), w as int).frames);
                            assert(state_of(indices@, lowlink@, on_stack@, stack@, component@, comp_id, index, stack_frame@, lowz, visited)
                                =~= push_node(bump(s), w as int));
                            assert(n - index < n - s.index);
                        }
                    } else {
                        proof {
                            lemma_explore_seen(adj@, s, w as int);
                            assert(stack_frame@ =~= bump(s).frames);
                        }
                        if on_stack[w] {
                            let lw = lowlink[w];
                            if lw < lowlink[v] {
                                lowlink.set(v, lw);
                                proof {
                                    lowz = lowz.update(v as int, lowz[w as int]);
                                }
                            }
                        }
                        proof {
                            assert(state_of(indices@, lowlink@, on_stack@, stack@, component@, comp_id, index, stack_frame@, lowz, visited)
                                =~= explore_seen(s, w as int));
                            assert(frame_work(adj@, stack_frame@) < frame_work(adj@, s.frames)) by {
                                assert(stack_frame@.drop_last() =~= s.frames.drop_last());
                            }
                            assert(stack_frame@.drop_last() =~= s.frames.drop_last());
                            assert(frame_work(adj@, stack_frame@) >= 0);
                        }
                    }
                } else {
                    let ghost fr_after_pop = stack_frame@;
                    if lowlink[v] == indices[v].unwrap() {
                        let ghost p = choose|i: int| 0 <= i < s.stack.len() && s.stack[i] == v;
                        proof {
                            lemma_inv_stack_parts(adj@, s);
                            assert(s.on_stack[v as int]);
                            assert(s.stack.contains(v));
                        }
                        loop
                            invariant_except_break
                                p < stack@.len(),
                            invariant
                                adj@.len() == n,
                                inv_base(adj@, s),
                                inv_stack(adj@, s),
                                0 <= p < s.stack.len(),
                                s.stack[p] == v,
                                p <= stack@.len() <= s.stack.len(),
                                stack@ == s.stack.take(stack@.len() as int),
                                comp_id == s.comp_id,
                                on_stack@.len() == n,
                                component@.len() == n,
                                forall|u: int| 0 <= u < n ==> #[trigger] on_stack@[u] == (s.on_stack[u] && ix(s, u) < pop_bound(s, stack@.len() as int)),
                                forall|u: int| 0 <= u < n ==> #[trigger] component@[u] == (if s.on_stack[u] && ix(s, u) >= pop_bound(s, stack@.len() as int) { s.comp_id as usize } else { s.component[u] }),
                            ensures
                                stack@ == s.stack.take(p),
                                forall|u: int| 0 <= u < n ==> #[trigger] on_stack@[u] == (s.on_stack[u] && ix(s, u) < ix(s, v as int)),
                                forall|u: int| 0 <= u < n ==> #[trigger] component@[u] == (if s.on_stack[u] && ix(s, u) >= ix(s, v as int) { s.comp_id as usize } else { s.component[u] }),
                            decreases stack@.len(),
                        {
                            let ghost m = stack@.len() as int;
                            proof {
                                lemma_pop_step(adj@, s, m);
                            }
                            let w = stack.pop().unwrap();
                            proof {
                                assert(w == s.stack[m - 1]);
                                assert(stack@ =~= s.stack.take(m - 1));
                            }
                            on_stack.set(w, false);
                            component.set(w, comp_id);
                            if w == v {
                                proof {
                                    if m - 1 != p {
                                        if m - 1 < p {
                                            assert(ix(s, s.stack[m - 1] as int) < ix(s, s.stack[p] as int));
                                        } else {
                                            assert(ix(s, s.stack[p] as int) < ix(s, s.stack[m - 1] as int));
                                        }
                                    }
                                }
                                break;
                            }
                            proof {
                                if m - 1 == p {
                                    assert(false);
                                }
                            }
                        }
                        proof {
                            assert(s.comp_id + s.stack.len() <= s.index);
                        }
                        comp_id += 1;
                        proof {
                            lemma_finish_root(adj@, s, p);
                            let t = finish_root(s, p);
                            assert(stack_frame@ =~= t.frames);
                            assert(state_of(indices@, lowlink@, on_stack@, stack@, component@, comp_id, index, stack_frame@, lowz, visited)
                                =~= t);
                        }
                        if stack_frame.len() > 0 {
                            let parent = stack_frame[stack_frame.len() - 1].0;
                            proof {
                                let last = s.frames.len() - 1;
                                assert(parent == s.frames[last - 1].0);
                                assert(fnode(s, last - 1) == parent);
                                assert(fnode(s, last) == v);
                                assert(ix(s, fnode(s, last - 1)) < ix(s, fnode(s, last)));
                                assert(s.on_stack[parent as int]);
                                assert(vis(s, parent as int));
                            }
                            let lv = lowlink[v];
                            if lv < lowlink[parent] {
                                lowlink.set(parent, lv);
                                proof {
                                    assert(false);
                                }
                            }
                        }
                    } else {
                        proof {
                            lemma_finish_nonroot(adj@, s);
                        }
                        if stack_frame.len() > 0 {
                            let parent = stack_frame[stack_frame.len() - 1].0;
                            let lv = lowlink[v];
                            if lv < lowlink[parent] {
                                lowlink.set(parent, lv);
                                proof {
                                    lowz = lowz.update(parent as int, lowz[v as int]);
                                }
                            }
                        }
                        proof {
                            let t = finish_nonroot(s);
                            assert(stack_frame@ =~= t.frames);
                            assert(state_of(indices@, lowlink@, on_stack@, stack@, component@, comp_id, index, stack_frame@, lowz, visited)
                                =~= t);
                        }
                    }
                    proof {
                        assert(frame_work(adj@, stack_frame@) < frame_work(adj@, s.frames)) by {
                            assert(stack_frame@ =~= s.frames.drop_last());
                        }
                        assert(frame_work(adj@, stack_frame@) >= 0);
                    }
                }
            }
            proof {
                assert(stack_frame@ =~= empty_frames);
            }
        }
    }
    proof {
        let s = state_of(indices@, lowlink@, on_stack@, stack@, component@, comp_id, index, empty_frames, lowz, visited);
        lemma_exec_facts(adj@, s);
        assert(inv_assigned(adj@, s) && inv_stack(adj@, s)) by {
            reveal(inv);
        }
        assert forall|v: int| 0 <= v < n implies !#[trigger] on_stack@[v] && component@[v] < comp_id by {
            assert(vis(s, v));
            if on_stack@[v] {
                assert(s.stack.contains(v as usize));
            }
        }
        assert forall|v: int| 0 <= v < n implies #[trigger] component@[v] < comp_id by {
            assert(!on_stack@[v] && component@[v] < comp_id);
        }
        assert forall|v: int, c: int| 0 <= v < n && 0 <= c <= component@[v] implies #[trigger] comp_used(component@, c) && #[trigger] component@[v] >= 0 by {
            assert(component@[v] < comp_id);
        }
        assert forall|u: int, x: int|
            0 <= u < n && 0 <= x < n && #[trigger] component@[u] == #[trigger] component@[x] implies reaches(adj@, u, x) by {
            assert(component@[u] < comp_id);
        }
    }
    component
}

} // verus!
