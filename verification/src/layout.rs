//! Row assignment: tasks are laid out in dependency order, a blocker above
//! the tasks it blocks, ties broken by input order.
use vstd::prelude::*;
use crate::graph::{GanttDep, GanttTask};
use crate::graph_reach::{adj_edge, adj_wf, is_edge, lemma_reaches_by_edge, lemma_reaches_by_forward, lemma_reaches_by_trans, lemma_reaches_by_monotone, lemma_reaches_by_same_edges, reaches, reaches_by};
use crate::scc::{comp_used, scc_result, tarjan_scc};

verus! {

/// The row of one task.
#[derive(Debug, PartialEq)]
pub struct RowLayout {
    pub task_id: String,
    pub row: usize,
}

/// `j` is the first task carrying `id`.
pub open spec fn is_first_index(tasks: Seq<GanttTask>, id: Seq<char>, j: int) -> bool {
    &&& 0 <= j < tasks.len()
    &&& tasks[j].id@ == id
    &&& forall|i: int| 0 <= i < j ==> #[trigger] tasks[i].id@ != id
}

/// Which task a dependency id names: the first task with that id.
pub open spec fn task_index(tasks: Seq<GanttTask>, id: Seq<char>) -> Option<int> {
    if exists|j: int| #[trigger] is_first_index(tasks, id, j) {
        Some(choose|j: int| #[trigger] is_first_index(tasks, id, j))
    } else {
        None
    }
}

/// Dependency `dep` makes task `u` a blocker of the different task `v`.
pub open spec fn dep_link(tasks: Seq<GanttTask>, dep: GanttDep, u: int, v: int) -> bool {
    &&& task_index(tasks, dep.blocker_task_id@) == Some(u)
    &&& task_index(tasks, dep.blocked_task_id@) == Some(v)
    &&& u != v
}

/// The blocker-to-blocked relation on task indices.
pub open spec fn dep_edge(tasks: Seq<GanttTask>, deps: Seq<GanttDep>) -> spec_fn(int, int) -> bool {
    |u: int, v: int| exists|k: int| 0 <= k < deps.len() && #[trigger] dep_link(tasks, deps[k], u, v)
}

/// Task `v` can be reached from task `u` by following dependencies forward.
pub open spec fn dep_reaches(tasks: Seq<GanttTask>, deps: Seq<GanttDep>, u: int, v: int) -> bool {
    reaches_by(dep_edge(tasks, deps), u, v)
}

proof fn lemma_first_unique(tasks: Seq<GanttTask>, id: Seq<char>, j: int)
    requires
        is_first_index(tasks, id, j),
    ensures
        task_index(tasks, id) == Some(j),
{
    let c = choose|k: int| #[trigger] is_first_index(tasks, id, k);
    assert(is_first_index(tasks, id, c));
    if c < j {
        assert(tasks[c].id@ != id);
    } else if j < c {
        assert(tasks[j].id@ != id);
    }
}

/// The index of the first task whose id is `id`.
fn find_task_index(tasks: &[GanttTask], id: &String) -> (res: Option<usize>)
    ensures
        match res {
            Some(j) => task_index(tasks@, id@) == Some(j as int),
            None => task_index(tasks@, id@) is None,
        },
{
    let mut j: usize = 0;
    while j < tasks.len()
        invariant
            j <= tasks@.len(),
            forall|i: int| 0 <= i < j ==> #[trigger] tasks@[i].id@ != id@,
        decreases tasks@.len() - j,
    {
        if tasks[j].id == *id {
            proof {
                lemma_first_unique(tasks@, id@, j as int);
            }
            return Some(j);
        }
        j += 1;
    }
    proof {
        if exists|k: int| #[trigger] is_first_index(tasks@, id@, k) {
            let k = choose|k: int| #[trigger] is_first_index(tasks@, id@, k);
            assert(tasks@[k].id@ != id@);
        }
    }
    None
}

/// Whether `x` occurs in `v`.
fn contains_index(v: &Vec<usize>, x: usize) -> (res: bool)
    ensures
        res == v@.contains(x),
{
    let mut i: usize = 0;
    while i < v.len()
        invariant
            i <= v@.len(),
            forall|k: int| 0 <= k < i ==> v@[k] != x,
        decreases v@.len() - i,
    {
        if v[i] == x {
            return true;
        }
        i += 1;
    }
    false
}

/// The successor lists of the dependency graph: every blocker lists each task
/// it blocks once, in the order its first dependency names them.
fn build_adjacency(tasks: &[GanttTask], deps: &[GanttDep]) -> (adj: Vec<Vec<usize>>)
    ensures
        adj@.len() == tasks@.len(),
        adj_wf(adj@),
        forall|u: int, v: int| #[trigger] is_edge(adj@, u, v) <==> (dep_edge(tasks@, deps@))(u, v),
        forall|u: int, a: int, b: int|
            0 <= u < adj@.len() && 0 <= a < b < adj@[u]@.len() ==> adj@[u]@[a] != adj@[u]@[b],
{
    let n = tasks.len();
    let mut adj: Vec<Vec<usize>> = Vec::new();
    let mut i: usize = 0;
    while i < n
        invariant
            i <= n == tasks@.len(),
            adj@.len() == i,
            forall|u: int| 0 <= u < i ==> (#[trigger] adj@[u])@.len() == 0,
        decreases n - i,
    {
        adj.push(Vec::new());
        i += 1;
    }
    let mut k: usize = 0;
    while k < deps.len()
        invariant
            n == tasks@.len(),
            adj@.len() == n,
            k <= deps@.len(),
            adj_wf(adj@),
            forall|u: int, v: int|
                0 <= u < n && 0 <= v < n ==> (#[trigger] adj@[u]@.contains(v as usize) <==> exists|k2: int|
                    0 <= k2 < k && #[trigger] dep_link(tasks@, deps@[k2], u, v)),
            forall|u: int, a: int, b: int|
                0 <= u < n && 0 <= a < b < adj@[u]@.len() ==> adj@[u]@[a] != adj@[u]@[b],
        decreases deps@.len() - k,
    {
        let blocker = find_task_index(tasks, &deps[k].blocker_task_id);
        let blocked = find_task_index(tasks, &deps[k].blocked_task_id);
        let ghost old_adj = adj@;
        match (blocker, blocked) {
            (Some(b), Some(d)) => {
                if b != d {
                    proof {
                        let c1 = choose|j: int| #[trigger] is_first_index(tasks@, deps@[k as int].blocker_task_id@, j);
                        let c2 = choose|j: int| #[trigger] is_first_index(tasks@, deps@[k as int].blocked_task_id@, j);
                        assert(is_first_index(tasks@, deps@[k as int].blocker_task_id@, c1));
                        assert(is_first_index(tasks@, deps@[k as int].blocked_task_id@, c2));
                    }
                    if !contains_index(&adj[b], d) {
                        let mut row = Vec::new();
                        std::mem::swap(&mut row, &mut adj[b]);
                        row.push(d);
                        adj.set(b, row);
                    }
                }
            }
            _ => {}
        }
        proof {
            assert forall|u: int, v: int|
                0 <= u < n && 0 <= v < n implies (#[trigger] adj@[u]@.contains(v as usize) <==> exists|k2: int|
                    0 <= k2 < k + 1 && #[trigger] dep_link(tasks@, deps@[k2], u, v)) by {
                if adj@[u]@.contains(v as usize) && !old_adj[u]@.contains(v as usize) {
                    assert(dep_link(tasks@, deps@[k as int], u, v));
                }
                if exists|k2: int| 0 <= k2 < k + 1 && #[trigger] dep_link(tasks@, deps@[k2], u, v) {
                    let k2 = choose|k2: int| 0 <= k2 < k + 1 && #[trigger] dep_link(tasks@, deps@[k2], u, v);
                    if k2 < k {
                        assert(old_adj[u]@.contains(v as usize));
                        let j = choose|j: int| 0 <= j < old_adj[u]@.len() && old_adj[u]@[j] == v as usize;
                        assert(adj@[u]@[j] == v as usize);
                    } else {
                        assert(adj@[u]@.contains(v as usize)) by {
                            if old_adj[u]@.contains(v as usize) {
                                let j = choose|j: int| 0 <= j < old_adj[u]@.len() && old_adj[u]@[j] == v as usize;
                                assert(adj@[u]@[j] == v as usize);
                            } else {
                                assert(adj@[u]@[adj@[u]@.len() - 1] == v as usize);
                            }
                        }
                    }
                }
            }
        }
        k += 1;
    }
    proof {
        assert forall|u: int, v: int| #[trigger] is_edge(adj@, u, v) <==> (dep_edge(tasks@, deps@))(u, v) by {
            if is_edge(adj@, u, v) {
                let j = choose|j: int| 0 <= j < adj@[u]@.len() && #[trigger] adj@[u]@[j] == v;
                assert(adj@[u]@[j] < n);
                assert(adj@[u]@.contains(v as usize));
            }
            if (dep_edge(tasks@, deps@))(u, v) {
                let k2 = choose|k2: int| 0 <= k2 < deps@.len() && #[trigger] dep_link(tasks@, deps@[k2], u, v);
                let c1 = choose|j: int| #[trigger] is_first_index(tasks@, deps@[k2].blocker_task_id@, j);
                let c2 = choose|j: int| #[trigger] is_first_index(tasks@, deps@[k2].blocked_task_id@, j);
                assert(is_first_index(tasks@, deps@[k2].blocker_task_id@, c1));
                assert(is_first_index(tasks@, deps@[k2].blocked_task_id@, c2));
                assert(adj@[u]@.contains(v as usize));
                let j = choose|j: int| 0 <= j < adj@[u]@.len() && adj@[u]@[j] == v as usize;
                assert(adj@[u]@[j] == v);
            }
        }
    }
    adj
}

/// Remove and return the ready component whose smallest task index is least;
/// among equal keys the earliest entry wins.
pub fn pop_min_scc(ready: &mut Vec<usize>, scc_min_index: &[usize]) -> (res: Option<usize>)
    requires
        forall|i: int| 0 <= i < old(ready)@.len() ==> (#[trigger] old(ready)@[i]) < scc_min_index@.len(),
    ensures
        old(ready)@.len() == 0 ==> res is None && final(ready)@ == old(ready)@,
        old(ready)@.len() > 0 ==> exists|pos: int| {
            &&& 0 <= pos < old(ready)@.len()
            &&& res == Some(old(ready)@[pos])
            &&& final(ready)@ == old(ready)@.remove(pos)
            &&& forall|i: int| 0 <= i < old(ready)@.len() ==> scc_min_index@[old(ready)@[pos] as int] <= scc_min_index@[#[trigger] old(ready)@[i] as int]
            &&& forall|i: int| 0 <= i < pos ==> scc_min_index@[old(ready)@[pos] as int] < scc_min_index@[#[trigger] old(ready)@[i] as int]
        },
{
    if ready.len() == 0 {
        return None;
    }
    let mut min_pos: usize = 0;
    let mut i: usize = 1;
    while i < ready.len()
        invariant
            ready@ == old(ready)@,
            ready@.len() > 0,
            forall|k: int| 0 <= k < ready@.len() ==> (#[trigger] ready@[k]) < scc_min_index@.len(),
            1 <= i <= ready@.len(),
            min_pos < i,
            forall|k: int| 0 <= k < i ==> scc_min_index@[ready@[min_pos as int] as int] <= scc_min_index@[#[trigger] ready@[k] as int],
            forall|k: int| 0 <= k < min_pos ==> scc_min_index@[ready@[min_pos as int] as int] < scc_min_index@[#[trigger] ready@[k] as int],
        decreases ready@.len() - i,
    {
        if scc_min_index[ready[i]] < scc_min_index[ready[min_pos]] {
            min_pos = i;
        }
        i += 1;
    }
    let ghost before = ready@;
    let x = ready.remove(min_pos);
    proof {
        assert(before == old(ready)@);
        let pos = min_pos as int;
        assert(0 <= pos < old(ready)@.len() && Some(x) == Some(old(ready)@[pos]));
    }
    Some(x)
}

/// How many of the lists `sa[0..m]` that do not belong to `done` list `c`.
pub open spec fn rem_count(sa: Seq<Vec<usize>>, done: Set<int>, c: int, m: int) -> int
    decreases m,
{
    if m <= 0 {
        0
    } else {
        rem_count(sa, done, c, m - 1) + (if !done.contains(m - 1) && sa[m - 1]@.contains(c as usize) {
            1int
        } else {
            0int
        })
    }
}

proof fn lemma_rem_bounds(sa: Seq<Vec<usize>>, done: Set<int>, c: int, m: int)
    requires
        m >= 0,
    ensures
        0 <= rem_count(sa, done, c, m) <= m,
        rem_count(sa, done, c, m) > 0 ==> exists|p: int| 0 <= p < m && !done.contains(p) && #[trigger] sa[p]@.contains(c as usize),
        rem_count(sa, done, c, m) == 0 ==> forall|p: int| 0 <= p < m && !done.contains(p) ==> !#[trigger] sa[p]@.contains(c as usize),
    decreases m,
{
    if m > 0 {
        lemma_rem_bounds(sa, done, c, m - 1);
        if rem_count(sa, done, c, m) == 0 {
            assert forall|p: int| 0 <= p < m && !done.contains(p) implies !#[trigger] sa[p]@.contains(c as usize) by {
                if p < m - 1 {
                } else {
                }
            }
        }
    }
}

proof fn lemma_rem_not_all(sa: Seq<Vec<usize>>, done: Set<int>, c: int, m: int, q: int)
    requires
        0 <= q < m,
        done.contains(q) || !sa[q]@.contains(c as usize),
    ensures
        rem_count(sa, done, c, m) < m,
    decreases m,
{
    lemma_rem_bounds(sa, done, c, m - 1);
    if q < m - 1 {
        lemma_rem_not_all(sa, done, c, m - 1, q);
    }
}

/// Changing list `p` changes each count by whether the list gained or lost `c`.
proof fn lemma_rem_update(sa: Seq<Vec<usize>>, sa2: Seq<Vec<usize>>, done: Set<int>, p: int, c: int, m: int)
    requires
        sa.len() == sa2.len(),
        0 <= p < sa.len(),
        m <= sa.len(),
        forall|q: int| 0 <= q < sa.len() && q != p ==> #[trigger] sa2[q] == sa[q],
    ensures
        rem_count(sa2, done, c, m) == rem_count(sa, done, c, m) + (if m > p && !done.contains(p) {
            (if sa2[p]@.contains(c as usize) { 1int } else { 0int }) - (if sa[p]@.contains(c as usize) { 1int } else { 0int })
        } else {
            0int
        }),
    decreases m,
{
    if m > 0 {
        lemma_rem_update(sa, sa2, done, p, c, m - 1);
        if m - 1 != p {
            assert(sa2[m - 1] == sa[m - 1]);
        }
    }
}

/// Finishing list `p` removes it from every count that included it.
proof fn lemma_rem_done(sa: Seq<Vec<usize>>, done: Set<int>, p: int, c: int, m: int)
    requires
        0 <= p,
        !done.contains(p),
    ensures
        rem_count(sa, done.insert(p), c, m) == rem_count(sa, done, c, m) - (if m > p && sa[p]@.contains(c as usize) { 1int } else { 0int }),
    decreases m,
{
    if m > 0 {
        lemma_rem_done(sa, done, p, c, m - 1);
    }
}

/// The tasks of each component, in increasing task order.
fn group_members(component: &Vec<usize>, count: usize) -> (members: Vec<Vec<usize>>)
    requires
        forall|v: int| 0 <= v < component@.len() ==> #[trigger] component@[v] < count,
    ensures
        members@.len() == count,
        forall|c: int, j: int|
            0 <= c < count && 0 <= j < members@[c]@.len() ==> (#[trigger] members@[c]@[j]) < component@.len()
                && component@[members@[c]@[j] as int] == c,
        forall|c: int, a: int, b: int|
            0 <= c < count && 0 <= a < b < members@[c]@.len() ==> members@[c]@[a] < members@[c]@[b],
        forall|u: int| 0 <= u < component@.len() ==> #[trigger] members@[component@[u] as int]@.contains(u as usize),
{
    let n = component.len();
    let mut members: Vec<Vec<usize>> = Vec::new();
    let mut s: usize = 0;
    while s < count
        invariant
            s <= count,
            members@.len() == s,
            forall|c: int| 0 <= c < s ==> (#[trigger] members@[c])@.len() == 0,
        decreases count - s,
    {
        members.push(Vec::new());
        s += 1;
    }
    let mut i: usize = 0;
    while i < n
        invariant
            n == component@.len(),
            i <= n,
            members@.len() == count,
            forall|v: int| 0 <= v < component@.len() ==> #[trigger] component@[v] < count,
            forall|c: int, j: int|
                0 <= c < count && 0 <= j < members@[c]@.len() ==> (#[trigger] members@[c]@[j]) < i
                    && component@[members@[c]@[j] as int] == c,
            forall|c: int, a: int, b: int|
                0 <= c < count && 0 <= a < b < members@[c]@.len() ==> members@[c]@[a] < members@[c]@[b],
            forall|u: int| 0 <= u < i ==> #[trigger] members@[component@[u] as int]@.contains(u as usize),
        decreases n - i,
    {
        let c = component[i];
        let ghost old_members = members@;
        let mut list = Vec::new();
        std::mem::swap(&mut list, &mut members[c]);
        list.push(i);
        members.set(c, list);
        proof {
            assert forall|u: int| 0 <= u < i + 1 implies #[trigger] members@[component@[u] as int]@.contains(u as usize) by {
                if u < i {
                    assert(old_members[component@[u] as int]@.contains(u as usize));
                    let j = choose|j: int| 0 <= j < old_members[component@[u] as int]@.len() && old_members[component@[u] as int]@[j] == u as usize;
                    assert(members@[component@[u] as int]@[j] == u as usize);
                } else {
                    assert(members@[c as int]@[members@[c as int]@.len() - 1] == i);
                }
            }
        }
        i += 1;
    }
    members
}

/// Some edge leads from a task of component `c` to a task of component `d`.
pub open spec fn comp_edge_from(adj: Seq<Vec<usize>>, comp: Seq<usize>, c: int, d: int) -> bool {
    exists|u: int, k: int|
        0 <= u < adj.len() && 0 <= k < adj[u]@.len() && comp[u] == c && #[trigger] comp[adj[u]@[k] as int] == d
}

/// The condensation: for each component the components it points to, each once.
pub open spec fn condensation_ok(adj: Seq<Vec<usize>>, comp: Seq<usize>, count: int, sa: Seq<Vec<usize>>, indeg: Seq<usize>) -> bool {
    &&& sa.len() == count
    &&& indeg.len() == count
    &&& forall|c: int, j: int| 0 <= c < count && 0 <= j < sa[c]@.len() ==> (#[trigger] sa[c]@[j]) < c
    &&& forall|c: int, a: int, b: int| 0 <= c < count && 0 <= a < b < sa[c]@.len() ==> sa[c]@[a] != sa[c]@[b]
    &&& forall|u: int, j: int|
        0 <= u < adj.len() && 0 <= j < adj[u]@.len() && comp[u] != comp[#[trigger] adj[u]@[j] as int]
            ==> sa[comp[u] as int]@.contains(comp[adj[u]@[j] as int])
    &&& forall|c: int| 0 <= c < count ==> #[trigger] indeg[c] == rem_count(sa, Set::empty(), c, count)
    &&& forall|c: int, j: int| 0 <= c < count && 0 <= j < sa[c]@.len() ==> comp_edge_from(adj, comp, c, #[trigger] sa[c]@[j] as int)
}

/// Build the component graph and the in-degree of every component.
fn condense(adj: &Vec<Vec<usize>>, component: &Vec<usize>, count: usize) -> (res: (Vec<Vec<usize>>, Vec<usize>))
    requires
        scc_result(adj@, component@),
        adj_wf(adj@),
        forall|v: int| 0 <= v < component@.len() ==> #[trigger] component@[v] < count,
    ensures
        condensation_ok(adj@, component@, count as int, res.0@, res.1@),
{
    let n = adj.len();
    let mut scc_adj: Vec<Vec<usize>> = Vec::new();
    let mut scc_indegree: Vec<usize> = Vec::new();
    let mut s: usize = 0;
    while s < count
        invariant
            s <= count,
            scc_adj@.len() == s,
            scc_indegree@.len() == s,
            forall|c: int| 0 <= c < s ==> (#[trigger] scc_adj@[c])@.len() == 0,
            forall|c: int| 0 <= c < s ==> #[trigger] scc_indegree@[c] == 0,
        decreases count - s,
    {
        scc_adj.push(Vec::new());
        scc_indegree.push(0);
        s += 1;
    }
    proof {
        assert forall|c: int| 0 <= c < count implies #[trigger] scc_indegree@[c] == rem_count(scc_adj@, Set::empty(), c, count as int) by {
            lemma_rem_zero(scc_adj@, c, count as int);
        }
    }
    let mut u: usize = 0;
    while u < n
        invariant
            n == adj@.len() == component@.len(),
            u <= n,
            scc_result(adj@, component@),
            adj_wf(adj@),
            forall|v: int| 0 <= v < component@.len() ==> #[trigger] component@[v] < count,
            scc_adj@.len() == count,
            scc_indegree@.len() == count,
            forall|c: int, j: int| 0 <= c < count && 0 <= j < scc_adj@[c]@.len() ==> (#[trigger] scc_adj@[c]@[j]) < c,
            forall|c: int, a: int, b: int| 0 <= c < count && 0 <= a < b < scc_adj@[c]@.len() ==> scc_adj@[c]@[a] != scc_adj@[c]@[b],
            forall|c: int, k: int|
                0 <= c < count && 0 <= k < scc_adj@[c]@.len() ==> comp_edge_from(adj@, component@, c, #[trigger] scc_adj@[c]@[k] as int),
            forall|u2: int, j: int|
                0 <= u2 < u && 0 <= j < adj@[u2]@.len() && component@[u2] != component@[#[trigger] adj@[u2]@[j] as int]
                    ==> scc_adj@[component@[u2] as int]@.contains(component@[adj@[u2]@[j] as int]),
            forall|c: int| 0 <= c < count ==> #[trigger] scc_indegree@[c] == rem_count(scc_adj@, Set::empty(), c, count as int),
        decreases n - u,
    {
        let mut j: usize = 0;
        while j < adj[u].len()
            invariant
                n == adj@.len() == component@.len(),
                u < n,
                j <= adj@[u as int]@.len(),
                scc_result(adj@, component@),
                adj_wf(adj@),
                forall|v: int| 0 <= v < component@.len() ==> #[trigger] component@[v] < count,
                scc_adj@.len() == count,
                scc_indegree@.len() == count,
                forall|c: int, k: int| 0 <= c < count && 0 <= k < scc_adj@[c]@.len() ==> (#[trigger] scc_adj@[c]@[k]) < c,
                forall|c: int, a: int, b: int| 0 <= c < count && 0 <= a < b < scc_adj@[c]@.len() ==> scc_adj@[c]@[a] != scc_adj@[c]@[b],
                forall|c: int, k: int|
                    0 <= c < count && 0 <= k < scc_adj@[c]@.len() ==> comp_edge_from(adj@, component@, c, #[trigger] scc_adj@[c]@[k] as int),
                forall|u2: int, k: int|
                    (0 <= u2 < u && 0 <= k < adj@[u2]@.len() || u2 == u && 0 <= k < j) && component@[u2] != component@[#[trigger] adj@[u2]@[k] as int]
                        ==> scc_adj@[component@[u2] as int]@.contains(component@[adj@[u2]@[k] as int]),
                forall|c: int| 0 <= c < count ==> #[trigger] scc_indegree@[c] == rem_count(scc_adj@, Set::empty(), c, count as int),
            decreases adj@[u as int]@.len() - j,
        {
            let v = adj[u][j];
            let cu = component[u];
            let cv = component[v];
            proof {
                assert(component@[v as int] <= component@[u as int]);
            }
            if cu != cv && !contains_index(&scc_adj[cu], cv) {
                let ghost old_sa = scc_adj@;
                let mut list = Vec::new();
                std::mem::swap(&mut list, &mut scc_adj[cu]);
                list.push(cv);
                scc_adj.set(cu, list);
                proof {
                    lemma_rem_not_all(old_sa, Set::empty(), cv as int, count as int, cu as int);
                    lemma_rem_bounds(old_sa, Set::empty(), cv as int, count as int);
                    assert(scc_adj@[cu as int]@ == old_sa[cu as int]@.push(cv));
                    assert(scc_adj@[cu as int]@[old_sa[cu as int]@.len() as int] == cv);
                    assert(scc_adj@[cu as int]@.contains(cv));
                }
                scc_indegree.set(cv, scc_indegree[cv] + 1);
                proof {
                    assert forall|c: int| 0 <= c < count implies #[trigger] scc_indegree@[c] == rem_count(scc_adj@, Set::empty(), c, count as int) by {
                        lemma_rem_update(old_sa, scc_adj@, Set::empty(), cu as int, c, count as int);
                        if c != cv {
                            assert(scc_adj@[cu as int]@.contains(c as usize) == old_sa[cu as int]@.contains(c as usize)) by {
                                if scc_adj@[cu as int]@.contains(c as usize) {
                                    let k = choose|k: int| 0 <= k < scc_adj@[cu as int]@.len() && scc_adj@[cu as int]@[k] == c as usize;
                                    if k < old_sa[cu as int]@.len() {
                                        assert(old_sa[cu as int]@[k] == c as usize);
                                    }
                                }
                                if old_sa[cu as int]@.contains(c as usize) {
                                    let k = choose|k: int| 0 <= k < old_sa[cu as int]@.len() && old_sa[cu as int]@[k] == c as usize;
                                    assert(scc_adj@[cu as int]@[k] == c as usize);
                                }
                            }
                        }
                    }
                    assert forall|c: int, k: int|
                        0 <= c < count && 0 <= k < scc_adj@[c]@.len() implies comp_edge_from(adj@, component@, c, #[trigger] scc_adj@[c]@[k] as int) by {
                        if c == cu as int && k == old_sa[cu as int]@.len() {
                            assert(component@[adj@[u as int]@[j as int] as int] == cv);
                        } else {
                            assert(scc_adj@[c]@[k] == old_sa[c]@[k]);
                        }
                    }
                    assert forall|u2: int, k: int|
                        (0 <= u2 < u && 0 <= k < adj@[u2]@.len() || u2 == u && 0 <= k < j + 1) && component@[u2] != component@[#[trigger] adj@[u2]@[k] as int]
                            implies scc_adj@[component@[u2] as int]@.contains(component@[adj@[u2]@[k] as int]) by {
                        if !(u2 == u && k == j) {
                            let c2 = component@[u2] as int;
                            let x = component@[adj@[u2]@[k] as int];
                            assert(old_sa[c2]@.contains(x));
                            let q = choose|q: int| 0 <= q < old_sa[c2]@.len() && old_sa[c2]@[q] == x;
                            assert(scc_adj@[c2]@[q] == x);
                        }
                    }
                }
            }
            j += 1;
        }
        u += 1;
    }
    (scc_adj, scc_indegree)
}

proof fn lemma_rem_zero(sa: Seq<Vec<usize>>, c: int, m: int)
    requires
        forall|q: int| 0 <= q < sa.len() ==> (#[trigger] sa[q])@.len() == 0,
        m <= sa.len(),
    ensures
        rem_count(sa, Set::empty(), c, m) == 0,
    decreases m,
{
    if m > 0 {
        lemma_rem_zero(sa, c, m - 1);
        assert(!sa[m - 1]@.contains(c as usize));
    }
}

} // verus!

verus! {

/// `order` lists each of the `count` components once, every component after
/// each component that points to it in `sa`; `pos` gives each component's place.
pub open spec fn topo_order(sa: Seq<Vec<usize>>, count: int, order: Seq<usize>, pos: Seq<int>) -> bool {
    &&& order.len() == count
    &&& pos.len() == count
    &&& forall|i: int| 0 <= i < count ==> (#[trigger] order[i]) < count && pos[order[i] as int] == i
    &&& forall|c: int| 0 <= c < count ==> 0 <= #[trigger] pos[c] < count && order[pos[c]] == c
    &&& forall|p: int, j: int| 0 <= p < count && 0 <= j < sa[p]@.len() ==> pos[p] < pos[#[trigger] sa[p]@[j] as int]
}

/// The component graph points from each component only to smaller ones, and
/// names each successor once.
pub open spec fn comp_graph_wf(sa: Seq<Vec<usize>>, count: int) -> bool {
    &&& sa.len() == count
    &&& count <= usize::MAX
    &&& forall|c: int, j: int| 0 <= c < count && 0 <= j < sa[c]@.len() ==> (#[trigger] sa[c]@[j]) < c
    &&& forall|c: int, a: int, b: int| 0 <= c < count && 0 <= a < b < sa[c]@.len() ==> sa[c]@[a] != sa[c]@[b]
}

/// The placed components: `done` holds them, `order` lists them, `pos` gives
/// each its place (and -1 to the others); each is placed after every
/// component that points to it.
pub open spec fn placed_inv(sa: Seq<Vec<usize>>, count: int, order: Seq<usize>, done: Set<int>, pos: Seq<int>) -> bool {
    &&& comp_graph_wf(sa, count)
    &&& pos.len() == count
    &&& done.finite()
    &&& done.len() == order.len()
    &&& forall|c: int| #[trigger] done.contains(c) ==> 0 <= c < count
    &&& forall|i: int| 0 <= i < order.len() ==> (#[trigger] order[i]) < count && pos[order[i] as int] == i
    &&& forall|c: int| 0 <= c < count ==> (done.contains(c) <==> 0 <= #[trigger] pos[c])
    &&& forall|c: int| 0 <= c < count && done.contains(c) ==> #[trigger] pos[c] < order.len() && order[pos[c]] == c
    &&& forall|p: int, j: int|
        0 <= p < count && 0 <= j < sa[p]@.len() && done.contains(#[trigger] sa[p]@[j] as int) ==> done.contains(p) && pos[p]
            < pos[sa[p]@[j] as int]
}

/// `indeg` counts for each component the unplaced components pointing to it,
/// and `ready` lists, once each, the unplaced components with a zero count.
pub open spec fn ready_inv(sa: Seq<Vec<usize>>, count: int, indeg: Seq<usize>, ready: Seq<usize>, done: Set<int>) -> bool {
    &&& indeg.len() == count
    &&& forall|c: int| 0 <= c < count ==> #[trigger] indeg[c] == rem_count(sa, done, c, count)
    &&& ready.no_duplicates()
    &&& forall|i: int|
        0 <= i < ready.len() ==> (#[trigger] ready[i]) < count && !done.contains(ready[i] as int) && indeg[ready[i] as int] == 0
    &&& forall|c: int| 0 <= c < count && !done.contains(c) && #[trigger] indeg[c] == 0 ==> ready.contains(c as usize)
}

/// Removing one entry of a list without repeats removes exactly that value.
proof fn lemma_remove_no_dup(s: Seq<usize>, q: int)
    requires
        s.no_duplicates(),
        0 <= q < s.len(),
    ensures
        s.remove(q).no_duplicates(),
        forall|i: int|
            0 <= i < s.remove(q).len() ==> #[trigger] s.remove(q)[i] == (if i < q { s[i] } else { s[i + 1] }) && s.remove(q)[i] != s[q],
        forall|i: int| 0 <= i < s.len() && i != q ==> #[trigger] s.remove(q).contains(s[i]),
{
    let r = s.remove(q);
    assert forall|i: int| 0 <= i < r.len() implies #[trigger] r[i] == (if i < q { s[i] } else { s[i + 1] }) && r[i] != s[q] by {
        if i < q {
            assert(r[i] == s[i]);
        } else {
            assert(r[i] == s[i + 1]);
        }
    }
    assert forall|a: int, b: int| 0 <= a < r.len() && 0 <= b < r.len() && a != b implies r[a] != r[b] by {
        let sa = if a < q { a } else { a + 1 };
        let sb = if b < q { b } else { b + 1 };
        assert(r[a] == s[sa]);
        assert(r[b] == s[sb]);
    }
    assert forall|i: int| 0 <= i < s.len() && i != q implies #[trigger] r.contains(s[i]) by {
        if i < q {
            assert(r[i] == s[i]);
        } else {
            assert(r[i - 1] == s[i]);
        }
    }
}

/// An unplaced component that some unplaced component points to still has
/// a positive count.
proof fn lemma_rem_pos(sa: Seq<Vec<usize>>, done: Set<int>, p: int, c: int, m: int)
    requires
        0 <= p < m,
        !done.contains(p),
        sa[p]@.contains(c as usize),
    ensures
        rem_count(sa, done, c, m) >= 1,
{
    lemma_rem_bounds(sa, done, c, m);
}

/// When no unplaced component is free of unplaced predecessors, and every
/// edge points to a smaller component, every component is placed.
proof fn lemma_all_done(sa: Seq<Vec<usize>>, done: Set<int>, count: int, c: int)
    requires
        0 <= c < count <= usize::MAX,
        sa.len() == count,
        forall|p: int, j: int| 0 <= p < count && 0 <= j < sa[p]@.len() ==> (#[trigger] sa[p]@[j]) < p,
        forall|d: int| 0 <= d < count && !done.contains(d) ==> #[trigger] rem_count(sa, done, d, count) != 0,
    ensures
        done.contains(c),
    decreases count - c,
{
    if !done.contains(c) {
        lemma_rem_bounds(sa, done, c, count);
        let p = choose|p: int| 0 <= p < count && !done.contains(p) && #[trigger] sa[p]@.contains(c as usize);
        let j = choose|j: int| 0 <= j < sa[p]@.len() && sa[p]@[j] == c as usize;
        assert(sa[p]@[j] < p);
        lemma_all_done(sa, done, count, p);
    }
}


/// Every component pointing to `c` had been placed before place `k`.
pub open spec fn preds_placed_before(sa: Seq<Vec<usize>>, pos: Seq<int>, c: int, k: int) -> bool {
    forall|p: int, j: int| 0 <= p < sa.len() && 0 <= j < sa[p]@.len() && #[trigger] sa[p]@[j] as int == c ==> 0 <= pos[p] < k
}

/// The component placed at each place `k` has the least key among the
/// components not placed by then all of whose predecessors were.
pub open spec fn least_key_first(sa: Seq<Vec<usize>>, count: int, order: Seq<usize>, pos: Seq<int>, key: Seq<usize>) -> bool {
    forall|k: int, c: int|
        0 <= k < order.len() && 0 <= c < count && !(0 <= pos[c] <= k) && #[trigger] preds_placed_before(sa, pos, c, k) ==> key[order[k] as int]
            <= key[c]
}

/// Place the components one after another, each after every component that
/// points to it: among the unplaced components with no unplaced predecessor,
/// the one whose first task comes earliest goes next. Any component the loop
/// leaves out is then appended in id order.
#[verifier::rlimit(60)]
fn order_components(
    scc_adj: &Vec<Vec<usize>>,
    scc_indegree: Vec<usize>,
    scc_min_index: &Vec<usize>,
    count: usize,
) -> (order: Vec<usize>)
    requires
        comp_graph_wf(scc_adj@, count as int),
        scc_indegree@.len() == count,
        scc_min_index@.len() == count,
        forall|c: int| 0 <= c < count ==> #[trigger] scc_indegree@[c] == rem_count(scc_adj@, Set::empty(), c, count as int),
    ensures
        exists|pos: Seq<int>| topo_order(scc_adj@, count as int, order@, pos) && least_key_first(scc_adj@, count as int, order@, pos, scc_min_index@),
{
    let ghost sa = scc_adj@;
    let mut scc_indegree = scc_indegree;
    let mut ready: Vec<usize> = Vec::new();
    let mut s: usize = 0;
    while s < count
        invariant
            s <= count,
            scc_indegree@.len() == count,
            ready@.no_duplicates(),
            forall|i: int| 0 <= i < ready@.len() ==> (#[trigger] ready@[i]) < s && scc_indegree@[ready@[i] as int] == 0,
            forall|c: int| 0 <= c < s && #[trigger] scc_indegree@[c] == 0 ==> ready@.contains(c as usize),
        decreases count - s,
    {
        let ghost before = ready@;
        if scc_indegree[s] == 0 {
            ready.push(s);
        }
        proof {
            assert forall|c: int| 0 <= c < s + 1 && #[trigger] scc_indegree@[c] == 0 implies ready@.contains(c as usize) by {
                if c < s {
                    let i = choose|i: int| 0 <= i < before.len() && before[i] == c as usize;
                    assert(ready@[i] == c as usize);
                } else {
                    assert(ready@[ready@.len() - 1] == c as usize);
                }
            }
        }
        s += 1;
    }
    let mut order: Vec<usize> = Vec::new();
    let ghost mut done: Set<int> = Set::empty();
    let ghost mut pos: Seq<int> = Seq::new(count as nat, |c: int| -1int);
    loop
        invariant
            placed_inv(sa, count as int, order@, done, pos),
            ready_inv(sa, count as int, scc_indegree@, ready@, done),
            least_key_first(sa, count as int, order@, pos, scc_min_index@),
            scc_adj@ == sa,
            scc_min_index@.len() == count,
        ensures
            placed_inv(sa, count as int, order@, done, pos),
            ready_inv(sa, count as int, scc_indegree@, ready@, done),
            least_key_first(sa, count as int, order@, pos, scc_min_index@),
            ready@.len() == 0,
        decreases count - order@.len(),
    {
        let ghost ready0 = ready@;
        let ghost done0 = done;
        let ghost pos0 = pos;
        let ghost order0 = order@;
        let popped = pop_min_scc(&mut ready, scc_min_index.as_slice());
        match popped {
            None => {
                break;
            },
            Some(scc) => {
                let ghost q = choose|q: int|
                    0 <= q < ready0.len() && popped == Some(ready0[q]) && ready@ == ready0.remove(q) && forall|i: int|
                        0 <= i < ready0.len() ==> scc_min_index@[ready0[q] as int] <= scc_min_index@[#[trigger] ready0[i] as int];
                proof {
                    lemma_remove_no_dup(ready0, q);
                    assert(scc == ready0[q]);
                    assert(scc < count);
                    lemma_rem_bounds(sa, done0, scc as int, count as int);
                }
                order.push(scc);
                proof {
                    done = done0.insert(scc as int);
                    pos = pos0.update(scc as int, order0.len() as int);
                    vstd::set_lib::lemma_int_range(0, count as int);
                    vstd::set_lib::lemma_len_subset(done, vstd::set_lib::set_int_range(0, count as int));
                    assert forall|i: int| 0 <= i < order@.len() implies (#[trigger] order@[i]) < count && pos[order@[i] as int] == i by {
                        if i < order0.len() {
                            assert(order@[i] == order0[i]);
                        }
                    }
                    assert forall|p: int, j: int|
                        0 <= p < count && 0 <= j < sa[p]@.len() && done.contains(#[trigger] sa[p]@[j] as int) implies done.contains(p)
                            && pos[p] < pos[sa[p]@[j] as int] by {
                        let d = sa[p]@[j] as int;
                        if d == scc as int {
                            assert(sa[p]@.contains(scc));
                            assert(done0.contains(p));
                        } else {
                            assert(done0.contains(d));
                            if p == scc as int {
                                assert(done0.contains(p));
                            }
                        }
                    }
                    assert(placed_inv(sa, count as int, order@, done, pos));
                    assert forall|k: int, c: int|
                        0 <= k < order@.len() && 0 <= c < count && !(0 <= pos[c] <= k) && #[trigger] preds_placed_before(sa, pos, c, k)
                            implies scc_min_index@[order@[k] as int] <= scc_min_index@[c] by {
                        let m = order0.len() as int;
                        if k < m {
                            assert(order@[k] == order0[k]);
                            assert forall|p: int, j: int|
                                0 <= p < sa.len() && 0 <= j < sa[p]@.len() && #[trigger] sa[p]@[j] as int == c implies 0 <= pos0[p] < k by {
                                assert(0 <= pos[p] < k);
                                if p == scc as int {
                                    assert(pos[p] == m);
                                }
                            }
                            assert(preds_placed_before(sa, pos0, c, k));
                            if c == scc as int {
                                assert(!done0.contains(c));
                            }
                        } else {
                            assert(order@[k] == scc);
                            assert(c != scc as int);
                            assert(!done0.contains(c));
                            if rem_count(sa, done0, c, count as int) > 0 {
                                lemma_rem_bounds(sa, done0, c, count as int);
                                let p = choose|p: int| 0 <= p < count && !done0.contains(p) && #[trigger] sa[p]@.contains(c as usize);
                                let j = choose|j: int| 0 <= j < sa[p]@.len() && sa[p]@[j] == c as usize;
                                assert(sa[p]@[j] as int == c);
                                assert(0 <= pos[p] < k);
                                assert(p != scc as int);
                            }
                            lemma_rem_bounds(sa, done0, c, count as int);
                            assert(scc_indegree@[c] == 0);
                            let k2 = choose|k2: int| 0 <= k2 < ready0.len() && ready0[k2] == c as usize;
                            assert(scc_min_index@[ready0[q] as int] <= scc_min_index@[ready0[k2] as int]);
                        }
                    }
                    assert forall|i: int| 0 <= i < ready@.len() implies (#[trigger] ready@[i]) < count && !done.contains(ready@[i] as int)
                        && scc_indegree@[ready@[i] as int] == 0 by {
                        let k = if i < q { i } else { i + 1 };
                        assert(ready@[i] == ready0[k]);
                    }
                    assert forall|c: int| 0 <= c < count && !done.contains(c) && #[trigger] scc_indegree@[c] == 0 implies ready@.contains(c as usize) by {
                        let k = choose|k: int| 0 <= k < ready0.len() && ready0[k] == c as usize;
                        assert(k != q);
                        assert(ready0.remove(q).contains(ready0[k]));
                    }
                    assert forall|d: int| 0 <= d < count implies #[trigger] scc_indegree@[d] == rem_count(sa, done0, d, count as int) - (if sa[scc as int]@.subrange(
                        0,
                        0,
                    ).contains(d as usize) {
                        1int
                    } else {
                        0int
                    }) by {
                        assert(!sa[scc as int]@.subrange(0, 0).contains(d as usize));
                    }
                }
                let mut j: usize = 0;
                while j < scc_adj[scc].len()
                    invariant
                        placed_inv(sa, count as int, order@, done, pos),
                        least_key_first(sa, count as int, order@, pos, scc_min_index@),
                        scc_adj@ == sa,
                        scc_min_index@.len() == count,
                        scc < count,
                        order@.len() > 0,
                        order@[order@.len() - 1] == scc,
                        !done0.contains(scc as int),
                        done == done0.insert(scc as int),
                        j <= sa[scc as int]@.len(),
                        scc_indegree@.len() == count,
                        forall|d: int|
                            0 <= d < count ==> #[trigger] scc_indegree@[d] == rem_count(sa, done0, d, count as int) - (if sa[scc as int]@.subrange(
                                0,
                                j as int,
                            ).contains(d as usize) {
                                1int
                            } else {
                                0int
                            }),
                        ready@.no_duplicates(),
                        forall|i: int|
                            0 <= i < ready@.len() ==> (#[trigger] ready@[i]) < count && !done.contains(ready@[i] as int)
                                && scc_indegree@[ready@[i] as int] == 0,
                        forall|c: int| 0 <= c < count && !done.contains(c) && #[trigger] scc_indegree@[c] == 0 ==> ready@.contains(c as usize),
                    decreases sa[scc as int]@.len() - j,
                {
                    let next = scc_adj[scc][j];
                    let ghost indeg1 = scc_indegree@;
                    let ghost ready1 = ready@;
                    proof {
                        assert(next < scc);
                        assert(sa[scc as int]@.contains(next));
                        lemma_rem_pos(sa, done0, scc as int, next as int, count as int);
                        if sa[scc as int]@.subrange(0, j as int).contains(next) {
                            let k = choose|k: int| 0 <= k < j && sa[scc as int]@.subrange(0, j as int)[k] == next;
                            assert(sa[scc as int]@[k] == sa[scc as int]@[j as int]);
                        }
                        assert(scc_indegree@[next as int] >= 1);
                        if done.contains(next as int) {
                            assert(pos[scc as int] < pos[next as int]);
                            assert(false);
                        }
                    }
                    scc_indegree.set(next, scc_indegree[next] - 1);
                    if scc_indegree[next] == 0 {
                        ready.push(next);
                    }
                    proof {
                        assert forall|d: int|
                            0 <= d < count implies #[trigger] scc_indegree@[d] == rem_count(sa, done0, d, count as int) - (if sa[scc as int]@.subrange(
                                0,
                                j + 1,
                            ).contains(d as usize) {
                                1int
                            } else {
                                0int
                            }) by {
                            let old_sub = sa[scc as int]@.subrange(0, j as int);
                            let new_sub = sa[scc as int]@.subrange(0, j + 1);
                            assert(new_sub == old_sub.push(next));
                            if d != next as int {
                                assert(scc_indegree@[d] == indeg1[d]);
                                if new_sub.contains(d as usize) {
                                    let k = choose|k: int| 0 <= k < new_sub.len() && new_sub[k] == d as usize;
                                    assert(old_sub[k] == d as usize);
                                }
                                if old_sub.contains(d as usize) {
                                    let k = choose|k: int| 0 <= k < old_sub.len() && old_sub[k] == d as usize;
                                    assert(new_sub[k] == d as usize);
                                }
                            } else {
                                assert(new_sub[j as int] == next);
                            }
                        }
                        assert forall|i: int| 0 <= i < ready@.len() implies (#[trigger] ready@[i]) < count && !done.contains(ready@[i] as int)
                            && scc_indegree@[ready@[i] as int] == 0 by {
                            if i < ready1.len() {
                                assert(ready@[i] == ready1[i]);
                                assert(ready1[i] != next);
                            }
                        }
                        assert forall|c: int| 0 <= c < count && !done.contains(c) && #[trigger] scc_indegree@[c] == 0 implies ready@.contains(c as usize) by {
                            if c != next as int {
                                assert(indeg1[c] == 0);
                                let k = choose|k: int| 0 <= k < ready1.len() && ready1[k] == c as usize;
                                assert(ready@[k] == c as usize);
                            } else {
                                assert(ready@[ready@.len() - 1] == next);
                            }
                        }
                        if scc_indegree@[next as int] == 0 {
                            assert forall|i: int| 0 <= i < ready1.len() implies ready1[i] != next by {
                                assert(indeg1[ready1[i] as int] == 0);
                            }
                            assert forall|a: int, b: int| 0 <= a < ready@.len() && 0 <= b < ready@.len() && a != b implies ready@[a] != ready@[b] by {
                                if a < ready1.len() && b < ready1.len() {
                                    assert(ready@[a] == ready1[a] && ready@[b] == ready1[b]);
                                } else if a < ready1.len() {
                                    assert(ready@[a] == ready1[a]);
                                } else if b < ready1.len() {
                                    assert(ready@[b] == ready1[b]);
                                }
                            }
                        }
                    }
                    j += 1;
                }
                proof {
                    assert(sa[scc as int]@.subrange(0, sa[scc as int]@.len() as int) == sa[scc as int]@);
                    assert forall|d: int| 0 <= d < count implies #[trigger] scc_indegree@[d] == rem_count(sa, done, d, count as int) by {
                        lemma_rem_done(sa, done0, scc as int, d, count as int);
                    }
                }
            },
        }
    }
    proof {
        assert forall|c: int| 0 <= c < count implies #[trigger] done.contains(c) by {
            assert forall|d: int| 0 <= d < count && !done.contains(d) implies #[trigger] rem_count(sa, done, d, count as int) != 0 by {
                if scc_indegree@[d] == 0 {
                    assert(ready@.contains(d as usize));
                }
            }
            lemma_all_done(sa, done, count as int, c);
        }
        vstd::set_lib::lemma_int_range(0, count as int);
        assert(done =~= vstd::set_lib::set_int_range(0, count as int));
    }
    let ghost placed = order@;
    let mut scc: usize = 0;
    while scc < count
        invariant
            scc <= count,
            order@ == placed,
            placed_inv(sa, count as int, placed, done, pos),
            least_key_first(sa, count as int, placed, pos, scc_min_index@),
            placed.len() == count,
            forall|c: int| 0 <= c < count ==> #[trigger] done.contains(c),
        decreases count - scc,
    {
        proof {
            assert(done.contains(scc as int));
            assert(order@[pos[scc as int]] == scc);
        }
        if !contains_index(&order, scc) {
            order.push(scc);
        }
        scc += 1;
    }
    proof {
        assert forall|c: int| 0 <= c < count implies 0 <= #[trigger] pos[c] < count && order@[pos[c]] == c by {
            assert(done.contains(c));
        }
        assert forall|p: int, j: int| 0 <= p < count && 0 <= j < sa[p]@.len() implies pos[p] < pos[#[trigger] sa[p]@[j] as int] by {
            assert(done.contains(sa[p]@[j] as int));
        }
        assert(topo_order(sa, count as int, order@, pos));
    }
    order
}


/// The tasks of each component, listed in increasing order, are exactly the
/// tasks that `component` assigns to it.
pub open spec fn members_ok(members: Seq<Vec<usize>>, component: Seq<usize>, count: int) -> bool {
    &&& members.len() == count
    &&& forall|u: int| 0 <= u < component.len() ==> #[trigger] component[u] < count
    &&& forall|c: int, j: int|
        0 <= c < count && 0 <= j < members[c]@.len() ==> (#[trigger] members[c]@[j]) < component.len()
            && component[members[c]@[j] as int] == c
    &&& forall|c: int, a: int, b: int| 0 <= c < count && 0 <= a < b < members[c]@.len() ==> members[c]@[a] < members[c]@[b]
    &&& forall|u: int| 0 <= u < component.len() ==> #[trigger] members[component[u] as int]@.contains(u as usize)
}

/// The rows given so far: `assigned` holds the tasks that have one, all rows
/// are below `next_row` and distinct, earlier-placed components lie above
/// later ones, and within a component lower indices lie above.
pub open spec fn rows_inv(
    row_of: Seq<usize>,
    component: Seq<usize>,
    pos: Seq<int>,
    assigned: Set<int>,
    next_row: int,
) -> bool {
    let n = component.len();
    &&& row_of.len() == n
    &&& assigned.finite()
    &&& assigned.len() == next_row
    &&& forall|u: int| #[trigger] assigned.contains(u) ==> 0 <= u < n && row_of[u] < next_row
    &&& forall|u: int, v: int|
        #[trigger] assigned.contains(u) && #[trigger] assigned.contains(v) && pos[component[u] as int] < pos[component[v] as int]
            ==> row_of[u] < row_of[v]
    &&& forall|u: int, v: int|
        #[trigger] assigned.contains(u) && #[trigger] assigned.contains(v) && u < v && component[u] == component[v] ==> row_of[u]
            < row_of[v]
    &&& forall|u: int, v: int|
        #[trigger] assigned.contains(u) && #[trigger] assigned.contains(v) && u != v ==> row_of[u] != row_of[v]
}

/// Give rows 0, 1, 2, ... to the tasks, component by component in `order`,
/// the tasks of one component in increasing index order.
#[verifier::rlimit(40)]
fn place_rows(order: &Vec<usize>, members: &Vec<Vec<usize>>, component: &Vec<usize>, Ghost(pos): Ghost<Seq<int>>) -> (row_of: Vec<usize>)
    requires
        members_ok(members@, component@, order@.len() as int),
        pos.len() == order@.len(),
        forall|i: int| 0 <= i < order@.len() ==> (#[trigger] order@[i]) < order@.len() && pos[order@[i] as int] == i,
        forall|c: int| 0 <= c < order@.len() ==> 0 <= #[trigger] pos[c] < order@.len() && order@[pos[c]] == c,
    ensures
        row_of@.len() == component@.len(),
        forall|u: int| 0 <= u < component@.len() ==> #[trigger] row_of@[u] < component@.len(),
        forall|u: int, v: int| 0 <= u < component@.len() && 0 <= v < component@.len() && u != v ==> #[trigger] row_of@[u] != #[trigger] row_of@[v],
        forall|u: int, v: int|
            0 <= u < component@.len() && 0 <= v < component@.len() && pos[component@[u] as int] < pos[component@[v] as int]
                ==> #[trigger] row_of@[u] < #[trigger] row_of@[v],
        forall|u: int, v: int|
            0 <= u < v < component@.len() && component@[u] == component@[v] ==> #[trigger] row_of@[u] < #[trigger] row_of@[v],
{
    let n = component.len();
    let count = order.len();
    let mut row_of: Vec<usize> = Vec::new();
    let mut i: usize = 0;
    while i < n
        invariant
            i <= n,
            row_of@.len() == i,
        decreases n - i,
    {
        row_of.push(0);
        i += 1;
    }
    let mut next_row: usize = 0;
    let ghost mut assigned: Set<int> = Set::empty();
    let mut k: usize = 0;
    while k < count
        invariant
            n == component@.len(),
            count == order@.len(),
            k <= count,
            members_ok(members@, component@, count as int),
            pos.len() == count,
            forall|i: int| 0 <= i < count ==> (#[trigger] order@[i]) < count && pos[order@[i] as int] == i,
            forall|c: int| 0 <= c < count ==> 0 <= #[trigger] pos[c] < count && order@[pos[c]] == c,
            rows_inv(row_of@, component@, pos, assigned, next_row as int),
            forall|u: int| #[trigger] assigned.contains(u) ==> pos[component@[u] as int] < k,
            forall|u: int| 0 <= u < n && pos[component@[u] as int] < k ==> #[trigger] assigned.contains(u),
        decreases count - k,
    {
        let scc = order[k];
        let mut j: usize = 0;
        while j < members[scc].len()
            invariant
                n == component@.len(),
                count == order@.len(),
                k < count,
                scc == order@[k as int],
                scc < count,
                pos[scc as int] == k,
                j <= members@[scc as int]@.len(),
                members_ok(members@, component@, count as int),
                pos.len() == count,
                forall|i: int| 0 <= i < count ==> (#[trigger] order@[i]) < count && pos[order@[i] as int] == i,
                forall|c: int| 0 <= c < count ==> 0 <= #[trigger] pos[c] < count && order@[pos[c]] == c,
                rows_inv(row_of@, component@, pos, assigned, next_row as int),
                forall|u: int|
                    #[trigger] assigned.contains(u) ==> pos[component@[u] as int] < k || (component@[u] == scc && exists|t: int|
                        0 <= t < j && members@[scc as int]@[t] == u),
                forall|u: int| 0 <= u < n && pos[component@[u] as int] < k ==> #[trigger] assigned.contains(u),
                forall|t: int| 0 <= t < j ==> #[trigger] assigned.contains(members@[scc as int]@[t] as int),
            decreases members@[scc as int]@.len() - j,
        {
            let idx = members[scc][j];
            let ghost assigned0 = assigned;
            let ghost rows0 = row_of@;
            proof {
                assert(component@[idx as int] == scc);
                if assigned.contains(idx as int) {
                    let t = choose|t: int| 0 <= t < j && members@[scc as int]@[t] == idx;
                    assert(members@[scc as int]@[t] < members@[scc as int]@[j as int]);
                }
                vstd::set_lib::lemma_int_range(0, n as int);
                vstd::set_lib::lemma_len_subset(assigned.insert(idx as int), vstd::set_lib::set_int_range(0, n as int));
            }
            row_of.set(idx, next_row);
            next_row += 1;
            proof {
                assigned = assigned.insert(idx as int);
                assert forall|u: int| #[trigger] assigned.contains(u) implies 0 <= u < n && row_of@[u] < next_row by {
                    if u != idx as int {
                        assert(assigned0.contains(u));
                    }
                }
                assert forall|u: int, v: int|
                    #[trigger] assigned.contains(u) && #[trigger] assigned.contains(v) && pos[component@[u] as int] < pos[component@[v] as int]
                        implies row_of@[u] < row_of@[v] by {
                    if u != idx as int && v != idx as int {
                        assert(assigned0.contains(u) && assigned0.contains(v));
                    } else if u == idx as int && v != idx as int {
                        assert(assigned0.contains(v));
                    } else if u != idx as int {
                        assert(assigned0.contains(u));
                    }
                }
                assert forall|u: int, v: int|
                    #[trigger] assigned.contains(u) && #[trigger] assigned.contains(v) && u < v && component@[u] == component@[v]
                        implies row_of@[u] < row_of@[v] by {
                    if u != idx as int && v != idx as int {
                        assert(assigned0.contains(u) && assigned0.contains(v));
                    } else if u == idx as int && v != idx as int {
                        assert(assigned0.contains(v));
                        let t = choose|t: int| 0 <= t < j && members@[scc as int]@[t] == v;
                        assert(members@[scc as int]@[t] < members@[scc as int]@[j as int]);
                    } else if u != idx as int {
                        assert(assigned0.contains(u));
                    }
                }
                assert forall|u: int, v: int|
                    #[trigger] assigned.contains(u) && #[trigger] assigned.contains(v) && u != v implies row_of@[u] != row_of@[v] by {
                    if u != idx as int && v != idx as int {
                        assert(assigned0.contains(u) && assigned0.contains(v));
                    } else if u == idx as int {
                        assert(assigned0.contains(v));
                    } else {
                        assert(assigned0.contains(u));
                    }
                }
                assert forall|u: int|
                    #[trigger] assigned.contains(u) implies pos[component@[u] as int] < k || (component@[u] == scc && exists|t: int|
                        0 <= t < j + 1 && members@[scc as int]@[t] == u) by {
                    if u == idx as int {
                        assert(members@[scc as int]@[j as int] == u);
                    } else {
                        assert(assigned0.contains(u));
                    }
                }
                assert forall|t: int| 0 <= t < j + 1 implies #[trigger] assigned.contains(members@[scc as int]@[t] as int) by {
                    if t < j {
                        assert(assigned0.contains(members@[scc as int]@[t] as int));
                    }
                }
                assert(rows_inv(row_of@, component@, pos, assigned, next_row as int));
            }
            j += 1;
        }
        proof {
            assert forall|u: int| 0 <= u < n && pos[component@[u] as int] < k + 1 implies #[trigger] assigned.contains(u) by {
                if pos[component@[u] as int] == k {
                    assert(component@[u] == scc);
                    assert(members@[scc as int]@.contains(u as usize));
                    let t = choose|t: int| 0 <= t < members@[scc as int]@.len() && members@[scc as int]@[t] == u as usize;
                    assert(assigned.contains(members@[scc as int]@[t] as int));
                }
            }
        }
        k += 1;
    }
    proof {
        assert forall|u: int| 0 <= u < n implies #[trigger] assigned.contains(u) by {
            assert(component@[u] < count);
        }
        vstd::set_lib::lemma_int_range(0, n as int);
        assert(assigned =~= vstd::set_lib::set_int_range(0, n as int));
        assert forall|u: int| 0 <= u < n implies #[trigger] row_of@[u] < n by {
            assert(assigned.contains(u));
        }
        assert forall|u: int, v: int| 0 <= u < n && 0 <= v < n && u != v implies #[trigger] row_of@[u] != #[trigger] row_of@[v] by {
            assert(assigned.contains(u) && assigned.contains(v));
        }
        assert forall|u: int, v: int|
            0 <= u < n && 0 <= v < n && pos[component@[u] as int] < pos[component@[v] as int] implies #[trigger] row_of@[u] < #[trigger] row_of@[v] by {
            assert(assigned.contains(u) && assigned.contains(v));
        }
        assert forall|u: int, v: int| 0 <= u < v < n && component@[u] == component@[v] implies #[trigger] row_of@[u] < #[trigger] row_of@[v] by {
            assert(assigned.contains(u) && assigned.contains(v));
        }
    }
    row_of
}


/// Tasks `u` and `v` block each other through a chain of dependencies (a
/// task is in a cycle with itself).
pub open spec fn dep_mutual(tasks: Seq<GanttTask>, deps: Seq<GanttDep>, u: int, v: int) -> bool {
    dep_reaches(tasks, deps, u, v) && dep_reaches(tasks, deps, v, u)
}

/// What the row layout promises, for `n` tasks: the rows are a permutation
/// of `0..n`; a task that a chain of dependencies leads to, without leading
/// back, lies below; the tasks of a dependency cycle lie in input order on
/// consecutive rows.
pub open spec fn rows_respect_deps(tasks: Seq<GanttTask>, deps: Seq<GanttDep>, rows: Seq<usize>) -> bool {
    let n = tasks.len();
    &&& rows.len() == n
    &&& forall|u: int| 0 <= u < n ==> #[trigger] rows[u] < n
    &&& forall|u: int, v: int| 0 <= u < n && 0 <= v < n && u != v ==> #[trigger] rows[u] != #[trigger] rows[v]
    &&& forall|u: int, v: int|
        0 <= u < n && 0 <= v < n && #[trigger] dep_reaches(tasks, deps, u, v) && !dep_reaches(tasks, deps, v, u) ==> rows[u]
            < rows[v]
    &&& forall|u: int, v: int| 0 <= u < v < n && #[trigger] dep_mutual(tasks, deps, u, v) ==> rows[u] < rows[v]
    &&& forall|u: int, v: int, w: int|
        0 <= u < n && 0 <= v < n && 0 <= w < n && #[trigger] dep_mutual(tasks, deps, u, v) && rows[u] < #[trigger] rows[w]
            < rows[v] ==> dep_mutual(tasks, deps, u, w)
}

/// The rows a component order yields satisfy the layout's promises.
proof fn lemma_rows_respect_deps(
    tasks: Seq<GanttTask>,
    deps: Seq<GanttDep>,
    adj: Seq<Vec<usize>>,
    component: Seq<usize>,
    count: int,
    sa: Seq<Vec<usize>>,
    indeg: Seq<usize>,
    order: Seq<usize>,
    pos: Seq<int>,
    row_of: Seq<usize>,
)
    requires
        adj.len() == tasks.len(),
        adj_wf(adj),
        forall|u: int, v: int| #[trigger] is_edge(adj, u, v) <==> (dep_edge(tasks, deps))(u, v),
        scc_result(adj, component),
        forall|v: int| 0 <= v < component.len() ==> #[trigger] component[v] < count,
        condensation_ok(adj, component, count, sa, indeg),
        topo_order(sa, count, order, pos),
        row_of.len() == component.len(),
        forall|u: int| 0 <= u < component.len() ==> #[trigger] row_of[u] < component.len(),
        forall|u: int, v: int| 0 <= u < component.len() && 0 <= v < component.len() && u != v ==> #[trigger] row_of[u] != #[trigger] row_of[v],
        forall|u: int, v: int|
            0 <= u < component.len() && 0 <= v < component.len() && pos[component[u] as int] < pos[component[v] as int]
                ==> #[trigger] row_of[u] < #[trigger] row_of[v],
        forall|u: int, v: int|
            0 <= u < v < component.len() && component[u] == component[v] ==> #[trigger] row_of[u] < #[trigger] row_of[v],
    ensures
        rows_respect_deps(tasks, deps, row_of),
{
    let n = tasks.len();
    let e = adj_edge(adj);
    assert forall|a: int, b: int| #[trigger] e(a, b) == (dep_edge(tasks, deps))(a, b) by {
        assert(e(a, b) == is_edge(adj, a, b));
    }
    let fc = |x: int| component[x] as int;
    let fp = |x: int| -pos[component[x] as int];
    assert forall|a: int, b: int| #[trigger] e(a, b) implies fc(b) <= fc(a) && fp(b) <= fp(a) by {
        assert(is_edge(adj, a, b));
        let j = choose|j: int| 0 <= j < adj[a]@.len() && #[trigger] adj[a]@[j] == b;
        assert(component[adj[a]@[j] as int] <= component[a]);
        if component[a] != component[b] {
            assert(sa[component[a] as int]@.contains(component[b]));
            let k = choose|k: int| 0 <= k < sa[component[a] as int]@.len() && sa[component[a] as int]@[k] == component[b];
            assert(pos[component[a] as int] < pos[sa[component[a] as int]@[k] as int]);
        }
    }
    assert forall|u: int, v: int| 0 <= u < n && 0 <= v < n && #[trigger] dep_reaches(tasks, deps, u, v) implies
        component[v] <= component[u] && pos[component[u] as int] <= pos[component[v] as int] by {
        lemma_reaches_by_same_edges(e, dep_edge(tasks, deps), u, v);
        lemma_reaches_by_monotone(e, fc, u, v);
        lemma_reaches_by_monotone(e, fp, u, v);
    }
    assert forall|u: int, v: int| 0 <= u < n && 0 <= v < n && #[trigger] component[u] == #[trigger] component[v] implies dep_mutual(
        tasks,
        deps,
        u,
        v,
    ) by {
        assert(reaches(adj, u, v) && reaches(adj, v, u));
        lemma_reaches_by_same_edges(e, dep_edge(tasks, deps), u, v);
        lemma_reaches_by_same_edges(e, dep_edge(tasks, deps), v, u);
    }
    assert forall|u: int, v: int|
        0 <= u < n && 0 <= v < n && #[trigger] dep_reaches(tasks, deps, u, v) && !dep_reaches(tasks, deps, v, u) implies row_of[u]
            < row_of[v] by {
        if component[u] == component[v] {
            assert(dep_mutual(tasks, deps, u, v));
        }
        assert(order[pos[component[u] as int]] == component[u]);
        assert(order[pos[component[v] as int]] == component[v]);
    }
    assert forall|u: int, v: int| 0 <= u < v < n && #[trigger] dep_mutual(tasks, deps, u, v) implies row_of[u] < row_of[v] by {
        assert(dep_reaches(tasks, deps, u, v));
        assert(dep_reaches(tasks, deps, v, u));
    }
    assert forall|u: int, v: int, w: int|
        0 <= u < n && 0 <= v < n && 0 <= w < n && #[trigger] dep_mutual(tasks, deps, u, v) && row_of[u] < #[trigger] row_of[w]
            < row_of[v] implies dep_mutual(tasks, deps, u, w) by {
        assert(dep_reaches(tasks, deps, u, v));
        assert(dep_reaches(tasks, deps, v, u));
        if component[w] != component[u] {
            assert(order[pos[component[u] as int]] == component[u]);
            assert(order[pos[component[w] as int]] == component[w]);
            if pos[component[w] as int] < pos[component[u] as int] {
                assert(row_of[w] < row_of[u]);
            } else {
                assert(row_of[v] < row_of[w]);
            }
        }
    }
}

/// Task `u` comes first in input order among the tasks of its cycle.
pub open spec fn first_of_cycle(tasks: Seq<GanttTask>, deps: Seq<GanttDep>, u: int) -> bool {
    forall|w: int| 0 <= w < u ==> !#[trigger] dep_mutual(tasks, deps, w, u)
}

/// Every task outside the cycle of `x` that blocks a task of that cycle has a
/// row above `r`.
pub open spec fn cycle_blockers_above(tasks: Seq<GanttTask>, deps: Seq<GanttDep>, rows: Seq<usize>, x: int, r: int) -> bool {
    forall|y: int, z: int|
        0 <= y < tasks.len() && 0 <= z < tasks.len() && #[trigger] (dep_edge(tasks, deps))(y, z) && dep_mutual(tasks, deps, z, x)
            && !dep_mutual(tasks, deps, y, x) ==> rows[y] < r
}

/// Ties go to input order: when the cycle of `u` is placed above the cycle of
/// `x`, and every outside blocker of the cycle of `x` already lies above it,
/// the cycle that comes first in the input goes first.
pub open spec fn rows_prefer_input_order(tasks: Seq<GanttTask>, deps: Seq<GanttDep>, rows: Seq<usize>) -> bool {
    forall|u: int, x: int|
        0 <= u < tasks.len() && 0 <= x < tasks.len() && #[trigger] first_of_cycle(tasks, deps, u) && #[trigger] first_of_cycle(
            tasks,
            deps,
            x,
        ) && rows[u] < rows[x] && cycle_blockers_above(tasks, deps, rows, x, rows[u] as int) ==> u < x
}

/// Two tasks share a component exactly when they lie on a common cycle.
proof fn lemma_component_is_cycle(tasks: Seq<GanttTask>, deps: Seq<GanttDep>, adj: Seq<Vec<usize>>, component: Seq<usize>)
    requires
        adj.len() == tasks.len(),
        adj_wf(adj),
        forall|u: int, v: int| #[trigger] is_edge(adj, u, v) <==> (dep_edge(tasks, deps))(u, v),
        scc_result(adj, component),
    ensures
        forall|u: int, v: int|
            0 <= u < tasks.len() && 0 <= v < tasks.len() ==> (#[trigger] dep_mutual(tasks, deps, u, v) <==> component[u] == component[v]),
{
    let n = tasks.len();
    let e = adj_edge(adj);
    assert forall|a: int, b: int| #[trigger] e(a, b) == (dep_edge(tasks, deps))(a, b) by {
        assert(e(a, b) == is_edge(adj, a, b));
    }
    let fc = |x: int| component[x] as int;
    assert forall|a: int, b: int| #[trigger] e(a, b) implies fc(b) <= fc(a) by {
        assert(is_edge(adj, a, b));
        let j = choose|j: int| 0 <= j < adj[a]@.len() && #[trigger] adj[a]@[j] == b;
        assert(component[adj[a]@[j] as int] <= component[a]);
    }
    assert forall|u: int, v: int| 0 <= u < n && 0 <= v < n implies (#[trigger] dep_mutual(tasks, deps, u, v) <==> component[u]
        == component[v]) by {
        lemma_reaches_by_same_edges(e, dep_edge(tasks, deps), u, v);
        lemma_reaches_by_same_edges(e, dep_edge(tasks, deps), v, u);
        if dep_mutual(tasks, deps, u, v) {
            lemma_reaches_by_monotone(e, fc, u, v);
            lemma_reaches_by_monotone(e, fc, v, u);
        }
        if component[u] == component[v] {
            assert(reaches(adj, u, v) && reaches(adj, v, u));
        }
    }
}

/// The rows a least-key-first component order yields break ties by input order.
#[verifier::spinoff_prover]
proof fn lemma_rows_prefer_input_order(
    tasks: Seq<GanttTask>,
    deps: Seq<GanttDep>,
    adj: Seq<Vec<usize>>,
    component: Seq<usize>,
    count: int,
    sa: Seq<Vec<usize>>,
    indeg: Seq<usize>,
    order: Seq<usize>,
    pos: Seq<int>,
    members: Seq<Vec<usize>>,
    key: Seq<usize>,
    row_of: Seq<usize>,
)
    requires
        adj.len() == tasks.len(),
        adj_wf(adj),
        forall|u: int, v: int| #[trigger] is_edge(adj, u, v) <==> (dep_edge(tasks, deps))(u, v),
        scc_result(adj, component),
        condensation_ok(adj, component, count, sa, indeg),
        members_ok(members, component, count),
        key.len() == count,
        forall|c: int| 0 <= c < count ==> #[trigger] key[c] == members[c]@[0] && members[c]@.len() > 0,
        topo_order(sa, count, order, pos),
        least_key_first(sa, count, order, pos, key),
        row_of.len() == component.len(),
        forall|u: int, v: int|
            0 <= u < component.len() && 0 <= v < component.len() && pos[component[u] as int] < pos[component[v] as int]
                ==> #[trigger] row_of[u] < #[trigger] row_of[v],
        forall|u: int, v: int|
            0 <= u < v < component.len() && component[u] == component[v] ==> #[trigger] row_of[u] < #[trigger] row_of[v],
    ensures
        rows_prefer_input_order(tasks, deps, row_of),
{
    let n = tasks.len();
    lemma_component_is_cycle(tasks, deps, adj, component);
    assert forall|u: int| 0 <= u < n && #[trigger] first_of_cycle(tasks, deps, u) implies key[component[u] as int] == u by {
        let c = component[u] as int;
        assert(0 <= c < count);
        assert(members[c]@.contains(u as usize));
        let t = choose|t: int| 0 <= t < members[c]@.len() && members[c]@[t] == u as usize;
        let m0 = members[c]@[0] as int;
        assert(key[c] == m0);
        assert(m0 < component.len() && component[m0] == c);
        if t > 0 {
            assert(members[c]@[0] < members[c]@[t]);
            assert(m0 < u);
            assert(dep_mutual(tasks, deps, m0, u));
            assert(!dep_mutual(tasks, deps, m0, u));
        }
    }
    assert forall|u: int, x: int|
        0 <= u < n && 0 <= x < n && #[trigger] first_of_cycle(tasks, deps, u) && #[trigger] first_of_cycle(tasks, deps, x)
            && row_of[u] < row_of[x] && cycle_blockers_above(tasks, deps, row_of, x, row_of[u] as int) implies u < x by {
        let cu = component[u] as int;
        let cx = component[x] as int;
        if cu == cx {
            assert(dep_mutual(tasks, deps, u, x));
            assert(dep_mutual(tasks, deps, x, u));
            if x < u {
                assert(!dep_mutual(tasks, deps, x, u));
            }
        } else {
            let k = pos[cu];
            assert(order[pos[cu]] == cu);
            assert(order[pos[cx]] == cx);
            if pos[cx] < k {
                assert(row_of[x] < row_of[u]);
            }
            assert forall|p: int, j: int| 0 <= p < sa.len() && 0 <= j < sa[p]@.len() && #[trigger] sa[p]@[j] as int == cx implies 0
                <= pos[p] < k by {
                assert(comp_edge_from(adj, component, p, sa[p]@[j] as int));
                let (y, kk) = choose|y: int, kk: int|
                    0 <= y < adj.len() && 0 <= kk < adj[y]@.len() && component[y] == p && #[trigger] component[adj[y]@[kk] as int]
                        == cx;
                let z = adj[y]@[kk] as int;
                assert(is_edge(adj, y, z));
                assert((dep_edge(tasks, deps))(y, z));
                assert(dep_mutual(tasks, deps, z, x));
                assert(sa[p]@[j] < p);
                assert(!dep_mutual(tasks, deps, y, x));
                assert(row_of[y] < row_of[u]);
                assert(order[pos[p]] == p);
                if pos[p] > k {
                    assert(row_of[u] < row_of[y]);
                } else if pos[p] == k {
                    assert(p == cu);
                    if y < u {
                        assert(dep_mutual(tasks, deps, y, u));
                    } else if u < y {
                        assert(row_of[u] < row_of[y]);
                    }
                }
            }
            assert(preds_placed_before(sa, pos, cx, k));
            assert(key[order[k] as int] <= key[cx]);
        }
    }
}

/// Assign each task a vertical row from the dependency topology. The result
/// has one entry per input task, in input order; `row` is the task's rank.
pub fn assign_rows(tasks: &[GanttTask], deps: &[GanttDep]) -> (rows: Vec<RowLayout>)
    ensures
        rows@.len() == tasks@.len(),
        forall|i: int| 0 <= i < tasks@.len() ==> (#[trigger] rows@[i]).task_id@ == tasks@[i].id@,
        rows_respect_deps(tasks@, deps@, rows@.map_values(|r: RowLayout| r.row)),
        rows_prefer_input_order(tasks@, deps@, rows@.map_values(|r: RowLayout| r.row)),
{
    if tasks.len() == 0 {
        let rows: Vec<RowLayout> = Vec::new();
        proof {
            assert(rows@.map_values(|r: RowLayout| r.row).len() == 0);
        }
        return rows;
    }
    let n = tasks.len();
    let adj = build_adjacency(tasks, deps);
    let component = tarjan_scc(n, adj.as_slice());
    let mut top: usize = 0;
    let mut i: usize = 1;
    while i < n
        invariant
            n == component@.len(),
            1 <= i <= n,
            top < n,
            forall|v: int| 0 <= v < i ==> #[trigger] component@[v] <= component@[top as int],
        decreases n - i,
    {
        if component[i] > component[top] {
            top = i;
        }
        i += 1;
    }
    let scc_count = component[top] + 1;
    let scc_members = group_members(&component, scc_count);
    let mut scc_min_index: Vec<usize> = Vec::new();
    let mut c: usize = 0;
    while c < scc_count
        invariant
            c <= scc_count,
            scc_count == component@[top as int] + 1,
            top < n == component@.len() == adj@.len(),
            scc_result(adj@, component@),
            scc_min_index@.len() == c,
            members_ok(scc_members@, component@, scc_count as int),
            forall|k: int| 0 <= k < c ==> #[trigger] scc_min_index@[k] == scc_members@[k]@[0],
        decreases scc_count - c,
    {
        proof {
            assert(comp_used(component@, c as int));
            let v = choose|v: int| 0 <= v < component@.len() && #[trigger] component@[v] == c as int;
            assert(scc_members@[component@[v] as int]@.contains(v as usize));
        }
        scc_min_index.push(scc_members[c][0]);
        c += 1;
    }
    let (scc_adj, scc_indegree) = condense(&adj, &component, scc_count);
    let scc_order = order_components(&scc_adj, scc_indegree, &scc_min_index, scc_count);
    let ghost pos = choose|pos: Seq<int>|
        topo_order(scc_adj@, scc_count as int, scc_order@, pos) && least_key_first(scc_adj@, scc_count as int, scc_order@, pos, scc_min_index@);
    let row_of = place_rows(&scc_order, &scc_members, &component, Ghost(pos));
    let mut rows: Vec<RowLayout> = Vec::new();
    let mut idx: usize = 0;
    while idx < n
        invariant
            idx <= n == tasks@.len() == row_of@.len(),
            rows@.len() == idx,
            forall|k: int| 0 <= k < idx ==> (#[trigger] rows@[k]).task_id@ == tasks@[k].id@ && rows@[k].row == row_of@[k],
        decreases n - idx,
    {
        rows.push(RowLayout { task_id: tasks[idx].id.clone(), row: row_of[idx] });
        idx += 1;
    }
    proof {
        lemma_rows_respect_deps(tasks@, deps@, adj@, component@, scc_count as int, scc_adj@, scc_indegree@, scc_order@, pos, row_of@);
        assert forall|c: int| 0 <= c < scc_count implies #[trigger] scc_min_index@[c] == scc_members@[c]@[0] && scc_members@[c]@.len() > 0 by {
            assert(comp_used(component@, c));
            let v = choose|v: int| 0 <= v < component@.len() && #[trigger] component@[v] == c;
            assert(scc_members@[component@[v] as int]@.contains(v as usize));
        }
        lemma_rows_prefer_input_order(
            tasks@,
            deps@,
            adj@,
            component@,
            scc_count as int,
            scc_adj@,
            scc_indegree@,
            scc_order@,
            pos,
            scc_members@,
            scc_min_index@,
            row_of@,
        );
        assert(rows@.map_values(|r: RowLayout| r.row) =~= row_of@);
    }
    rows
}

/// Every dependency leads from an earlier task to a later one.
pub open spec fn deps_go_forward(tasks: Seq<GanttTask>, deps: Seq<GanttDep>) -> bool {
    forall|u: int, v: int| #[trigger] (dep_edge(tasks, deps))(u, v) ==> u < v
}

/// Some task sits on row `r`.
pub open spec fn row_taken(rows: Seq<usize>, r: int) -> bool {
    exists|u: int| 0 <= u < rows.len() && #[trigger] rows[u] == r
}

/// Distinct rows below `n` for `n` tasks fill every row.
proof fn lemma_rows_onto(rows: Seq<usize>, n: int)
    requires
        rows.len() == n,
        forall|u: int| 0 <= u < n ==> #[trigger] rows[u] < n,
        forall|u: int, v: int| 0 <= u < n && 0 <= v < n && u != v ==> #[trigger] rows[u] != #[trigger] rows[v],
    ensures
        forall|r: int| 0 <= r < n ==> #[trigger] row_taken(rows, r),
{
    let x = vstd::set_lib::set_int_range(0, n);
    let f = |u: int| rows[u] as int;
    let y = x.map(f);
    vstd::set_lib::lemma_int_range(0, n);
    assert(vstd::relations::injective_on(f, x)) by {
        assert forall|a: int, b: int| x.contains(a) && x.contains(b) && #[trigger] f(a) == #[trigger] f(b) implies a == b by {
            if a != b {
                assert(rows[a] != rows[b]);
            }
        }
    }
    vstd::set_lib::lemma_map_size(x, y, f);
    assert(y.subset_of(x)) by {
        assert forall|a: int| y.contains(a) implies x.contains(a) by {
            let u = choose|u: int| x.contains(u) && a == f(u);
            assert(rows[u] < n);
        }
    }
    vstd::set_lib::lemma_subset_equality(y, x);
    assert forall|r: int| 0 <= r < n implies #[trigger] row_taken(rows, r) by {
        assert(x.contains(r));
        assert(y.contains(r));
        let u = choose|u: int| x.contains(u) && r == f(u);
        assert(rows[u] == r);
    }
}

proof fn lemma_forward_prefix(tasks: Seq<GanttTask>, deps: Seq<GanttDep>, rows: Seq<usize>, i: int)
    requires
        deps_go_forward(tasks, deps),
        rows_respect_deps(tasks, deps, rows),
        rows_prefer_input_order(tasks, deps, rows),
        0 <= i <= tasks.len(),
    ensures
        forall|j: int| 0 <= j < i ==> #[trigger] rows[j] == j,
    decreases i,
{
    let n = tasks.len() as int;
    let e = dep_edge(tasks, deps);
    if i > 0 {
        lemma_forward_prefix(tasks, deps, rows, i - 1);
        let x = i - 1;
        lemma_rows_onto(rows, n);
        assert(row_taken(rows, x));
        let u = choose|u: int| 0 <= u < n && #[trigger] rows[u] == x;
        if u != x {
            assert(u > x) by {
                if u < x {
                    assert(rows[u] == u);
                }
            }
            assert(rows[x] > x) by {
                if rows[x] < x {
                    let k = rows[x] as int;
                    assert(rows[k] == k);
                    assert(rows[k] == rows[x]);
                }
            }
            assert forall|a: int, b: int| dep_mutual(tasks, deps, a, b) implies a == b by {
                lemma_reaches_by_forward(e, a, b);
                lemma_reaches_by_forward(e, b, a);
            }
            assert(first_of_cycle(tasks, deps, u));
            assert(first_of_cycle(tasks, deps, x));
            assert(cycle_blockers_above(tasks, deps, rows, x, rows[u] as int)) by {
                assert forall|y: int, z: int|
                    0 <= y < n && 0 <= z < n && #[trigger] e(y, z) && dep_mutual(tasks, deps, z, x) && !dep_mutual(tasks, deps, y, x)
                    implies rows[y] < rows[u] by {
                    assert(z == x);
                    assert(y < x);
                    assert(rows[y] == y);
                }
            }
            assert(u < x);
        }
    }
}

/// An input whose dependencies all lead from earlier to later tasks keeps
/// its order: every task stays on the row of its position.
pub proof fn lemma_forward_deps_keep_input_order(tasks: Seq<GanttTask>, deps: Seq<GanttDep>, rows: Seq<usize>)
    requires
        deps_go_forward(tasks, deps),
        rows_respect_deps(tasks, deps, rows),
        rows_prefer_input_order(tasks, deps, rows),
    ensures
        forall|i: int| 0 <= i < tasks.len() ==> #[trigger] rows[i] == i,
{
    lemma_forward_prefix(tasks, deps, rows, tasks.len() as int);
}

proof fn lemma_same_edges_one_way(tasks: Seq<GanttTask>, deps: Seq<GanttDep>, deps2: Seq<GanttDep>, rows: Seq<usize>)
    requires
        dep_edge(tasks, deps) == dep_edge(tasks, deps2),
    ensures
        rows_respect_deps(tasks, deps, rows) ==> rows_respect_deps(tasks, deps2, rows),
        rows_prefer_input_order(tasks, deps, rows) ==> rows_prefer_input_order(tasks, deps2, rows),
{
    let n = tasks.len() as int;
    assert forall|u: int, v: int| #[trigger] dep_reaches(tasks, deps2, u, v) == dep_reaches(tasks, deps, u, v) by {}
    assert forall|u: int, v: int| #[trigger] dep_mutual(tasks, deps2, u, v) == dep_mutual(tasks, deps, u, v) by {}
    if rows_respect_deps(tasks, deps, rows) {
        assert forall|u: int, v: int|
            0 <= u < n && 0 <= v < n && #[trigger] dep_reaches(tasks, deps2, u, v) && !dep_reaches(tasks, deps2, v, u)
            implies rows[u] < rows[v] by {
            assert(dep_reaches(tasks, deps, u, v));
        }
        assert forall|u: int, v: int| 0 <= u < v < n && #[trigger] dep_mutual(tasks, deps2, u, v) implies rows[u] < rows[v] by {
            assert(dep_mutual(tasks, deps, u, v));
        }
        assert forall|u: int, v: int, w: int|
            0 <= u < n && 0 <= v < n && 0 <= w < n && #[trigger] dep_mutual(tasks, deps2, u, v) && rows[u] < #[trigger] rows[w] < rows[v]
            implies dep_mutual(tasks, deps2, u, w) by {
            assert(dep_mutual(tasks, deps, u, v));
            assert(dep_mutual(tasks, deps, u, w));
        }
    }
    if rows_prefer_input_order(tasks, deps, rows) {
        assert forall|u: int, x: int|
            0 <= u < n && 0 <= x < n && #[trigger] first_of_cycle(tasks, deps2, u) && #[trigger] first_of_cycle(tasks, deps2, x)
                && rows[u] < rows[x] && cycle_blockers_above(tasks, deps2, rows, x, rows[u] as int) implies u < x by {
            assert forall|w: int| 0 <= w < u implies !#[trigger] dep_mutual(tasks, deps, w, u) by {
                assert(!dep_mutual(tasks, deps2, w, u));
            }
            assert forall|w: int| 0 <= w < x implies !#[trigger] dep_mutual(tasks, deps, w, x) by {
                assert(!dep_mutual(tasks, deps2, w, x));
            }
            assert(first_of_cycle(tasks, deps, u));
            assert(first_of_cycle(tasks, deps, x));
            assert forall|y: int, z: int|
                0 <= y < n && 0 <= z < n && #[trigger] (dep_edge(tasks, deps))(y, z) && dep_mutual(tasks, deps, z, x)
                    && !dep_mutual(tasks, deps, y, x) implies rows[y] < rows[u] by {
                assert((dep_edge(tasks, deps2))(y, z));
                assert(dep_mutual(tasks, deps2, z, x));
            }
            assert(cycle_blockers_above(tasks, deps, rows, x, rows[u] as int));
        }
    }
}

/// The layout's promises depend on the dependencies only through the edges
/// they resolve to: lists that differ by order, duplicates, unknown ids or
/// self-links ask the same of the rows.
pub proof fn lemma_layout_depends_only_on_edges(tasks: Seq<GanttTask>, deps: Seq<GanttDep>, deps2: Seq<GanttDep>, rows: Seq<usize>)
    requires
        forall|u: int, v: int| #[trigger] (dep_edge(tasks, deps))(u, v) == (dep_edge(tasks, deps2))(u, v),
    ensures
        rows_respect_deps(tasks, deps, rows) == rows_respect_deps(tasks, deps2, rows),
        rows_prefer_input_order(tasks, deps, rows) == rows_prefer_input_order(tasks, deps2, rows),
{
    assert(dep_edge(tasks, deps) =~= dep_edge(tasks, deps2));
    lemma_same_edges_one_way(tasks, deps, deps2, rows);
    lemma_same_edges_one_way(tasks, deps2, deps, rows);
}

proof fn lemma_mutual_trans(tasks: Seq<GanttTask>, deps: Seq<GanttDep>, u: int, v: int, w: int)
    requires
        dep_mutual(tasks, deps, u, v),
        dep_mutual(tasks, deps, v, w),
    ensures
        dep_mutual(tasks, deps, u, w),
{
    lemma_reaches_by_trans(dep_edge(tasks, deps), u, v, w);
    lemma_reaches_by_trans(dep_edge(tasks, deps), w, v, u);
}

/// Rows `r1` and `r2` place the same tasks above row `r`, each on the same row.
pub open spec fn rows_agree_above(r1: Seq<usize>, r2: Seq<usize>, r: int) -> bool {
    forall|u: int| 0 <= u < r1.len() ==> ((#[trigger] r1[u] < r) == (r2[u] < r)) && (r1[u] < r ==> r1[u] == r2[u])
}

/// Inside a cycle block: when the cycle of `c` (on row `r - 1`) still has a
/// task below, the task on row `r` is the earliest such task of the cycle.
proof fn lemma_next_in_block(tasks: Seq<GanttTask>, deps: Seq<GanttDep>, rows: Seq<usize>, r: int, c: int, a: int, m: int)
    requires
        rows_respect_deps(tasks, deps, rows),
        0 <= c < tasks.len(),
        0 <= a < tasks.len(),
        0 <= m < tasks.len(),
        rows[c] == r - 1,
        rows[a] == r,
        dep_mutual(tasks, deps, c, m),
        rows[m] >= r,
    ensures
        dep_mutual(tasks, deps, c, a),
        forall|k: int| 0 <= k < tasks.len() && dep_mutual(tasks, deps, c, k) && #[trigger] rows[k] >= r ==> a <= k,
{
    if rows[m] != r {
        assert(rows[c] < rows[a] < rows[m]);
    } else {
        assert(m == a);
    }
    assert forall|k: int| 0 <= k < tasks.len() && dep_mutual(tasks, deps, c, k) && #[trigger] rows[k] >= r implies a <= k by {
        if k < a {
            lemma_mutual_trans(tasks, deps, k, c, a);
            assert(rows[k] < rows[a]);
        }
    }
}

/// The start of a cycle block: when no cycle runs on across row `r`, the task
/// on row `r` is the first of its cycle and no task of its cycle lies above.
proof fn lemma_block_start(tasks: Seq<GanttTask>, deps: Seq<GanttDep>, rows: Seq<usize>, r: int, c: int, a: int)
    requires
        rows_respect_deps(tasks, deps, rows),
        0 <= a < tasks.len(),
        rows[a] == r,
        r > 0 ==> 0 <= c < tasks.len() && rows[c] == r - 1,
        r > 0 ==> forall|k: int| 0 <= k < tasks.len() && #[trigger] dep_mutual(tasks, deps, c, k) ==> rows[k] < r,
    ensures
        first_of_cycle(tasks, deps, a),
        forall|w: int| 0 <= w < tasks.len() && #[trigger] dep_mutual(tasks, deps, w, a) ==> rows[w] >= r,
{
    assert forall|w: int| 0 <= w < tasks.len() && #[trigger] dep_mutual(tasks, deps, w, a) implies rows[w] >= r by {
        if rows[w] < r {
            assert(w != a);
            if rows[w] == r - 1 {
                assert(w == c);
                assert(dep_mutual(tasks, deps, c, a));
            } else {
                assert(rows[w] < rows[c] < rows[a]);
                assert(dep_mutual(tasks, deps, w, c));
                lemma_mutual_trans(tasks, deps, c, w, a);
            }
        }
    }
    assert forall|w: int| 0 <= w < a implies !#[trigger] dep_mutual(tasks, deps, w, a) by {
        if dep_mutual(tasks, deps, w, a) {
            assert(rows[w] < rows[a]);
        }
    }
}

/// Every outside blocker of the cycle of `b` lies above the row of `b`.
proof fn lemma_blockers_above_own_row(tasks: Seq<GanttTask>, deps: Seq<GanttDep>, rows: Seq<usize>, b: int, y: int, z: int)
    requires
        rows_respect_deps(tasks, deps, rows),
        0 <= b < tasks.len(),
        0 <= y < tasks.len(),
        0 <= z < tasks.len(),
        (dep_edge(tasks, deps))(y, z),
        dep_mutual(tasks, deps, z, b),
        !dep_mutual(tasks, deps, y, b),
    ensures
        rows[y] < rows[b],
{
    let e = dep_edge(tasks, deps);
    lemma_reaches_by_edge(e, y, z);
    lemma_reaches_by_trans(e, y, z, b);
    assert(dep_reaches(tasks, deps, y, b));
    assert(!dep_reaches(tasks, deps, b, y));
}

proof fn lemma_rows_unique_step(tasks: Seq<GanttTask>, deps: Seq<GanttDep>, r1: Seq<usize>, r2: Seq<usize>, r: int)
    requires
        rows_respect_deps(tasks, deps, r1),
        rows_prefer_input_order(tasks, deps, r1),
        rows_respect_deps(tasks, deps, r2),
        rows_prefer_input_order(tasks, deps, r2),
        0 <= r < tasks.len(),
        rows_agree_above(r1, r2, r),
    ensures
        rows_agree_above(r1, r2, r + 1),
{
    let n = tasks.len() as int;
    lemma_rows_onto(r1, n);
    lemma_rows_onto(r2, n);
    assert(row_taken(r1, r));
    assert(row_taken(r2, r));
    let a = choose|u: int| 0 <= u < n && #[trigger] r1[u] == r;
    let b = choose|u: int| 0 <= u < n && #[trigger] r2[u] == r;
    let c: int = if r > 0 {
        assert(row_taken(r1, r - 1));
        choose|u: int| 0 <= u < n && #[trigger] r1[u] == r - 1
    } else {
        0
    };
    if r > 0 {
        assert(r1[c] < r);
        assert(r2[c] == r - 1);
    }
    assert(r2[a] >= r) by {
        assert(!(r1[a] < r));
    }
    assert(r1[b] >= r) by {
        assert(!(r2[b] < r));
    }
    if r > 0 && exists|m: int| 0 <= m < n && dep_mutual(tasks, deps, c, m) && #[trigger] r1[m] >= r {
        let m = choose|m: int| 0 <= m < n && dep_mutual(tasks, deps, c, m) && #[trigger] r1[m] >= r;
        assert(r2[m] >= r) by {
            assert(!(r1[m] < r));
        }
        lemma_next_in_block(tasks, deps, r1, r, c, a, m);
        lemma_next_in_block(tasks, deps, r2, r, c, b, m);
        assert(a <= b);
        assert(b <= a);
    } else {
        if r > 0 {
            assert forall|k: int| 0 <= k < n && #[trigger] dep_mutual(tasks, deps, c, k) implies r2[k] < r by {
                assert(!(r1[k] >= r));
            }
        }
        lemma_block_start(tasks, deps, r1, r, c, a);
        lemma_block_start(tasks, deps, r2, r, c, b);
        if a != b {
            assert(r1[b] > r1[a]);
            assert(r2[a] > r2[b]);
            assert(cycle_blockers_above(tasks, deps, r1, b, r1[a] as int)) by {
                assert forall|y: int, z: int|
                    0 <= y < n && 0 <= z < n && #[trigger] (dep_edge(tasks, deps))(y, z) && dep_mutual(tasks, deps, z, b)
                        && !dep_mutual(tasks, deps, y, b) implies r1[y] < r1[a] by {
                    lemma_blockers_above_own_row(tasks, deps, r2, b, y, z);
                    assert(r2[y] < r);
                }
            }
            assert(cycle_blockers_above(tasks, deps, r2, a, r2[b] as int)) by {
                assert forall|y: int, z: int|
                    0 <= y < n && 0 <= z < n && #[trigger] (dep_edge(tasks, deps))(y, z) && dep_mutual(tasks, deps, z, a)
                        && !dep_mutual(tasks, deps, y, a) implies r2[y] < r2[b] by {
                    lemma_blockers_above_own_row(tasks, deps, r1, a, y, z);
                    assert(r1[y] < r);
                }
            }
            assert(a < b);
            assert(b < a);
        }
    }
    assert(a == b);
    assert forall|u: int| 0 <= u < r1.len() implies ((#[trigger] r1[u] < r + 1) == (r2[u] < r + 1)) && (r1[u] < r + 1 ==> r1[u] == r2[u]) by {
        if u != a {
            assert(r1[u] != r);
            assert(r2[u] != r);
        }
    }
}

proof fn lemma_rows_agree_upto(tasks: Seq<GanttTask>, deps: Seq<GanttDep>, r1: Seq<usize>, r2: Seq<usize>, r: int)
    requires
        rows_respect_deps(tasks, deps, r1),
        rows_prefer_input_order(tasks, deps, r1),
        rows_respect_deps(tasks, deps, r2),
        rows_prefer_input_order(tasks, deps, r2),
        0 <= r <= tasks.len(),
    ensures
        rows_agree_above(r1, r2, r),
    decreases r,
{
    if r > 0 {
        lemma_rows_agree_upto(tasks, deps, r1, r2, r - 1);
        lemma_rows_unique_step(tasks, deps, r1, r2, r - 1);
    }
}

/// The layout's promises fix the rows: any two row assignments that keep
/// them are the same.
pub proof fn lemma_rows_unique(tasks: Seq<GanttTask>, deps: Seq<GanttDep>, r1: Seq<usize>, r2: Seq<usize>)
    requires
        rows_respect_deps(tasks, deps, r1),
        rows_prefer_input_order(tasks, deps, r1),
        rows_respect_deps(tasks, deps, r2),
        rows_prefer_input_order(tasks, deps, r2),
    ensures
        r1 == r2,
{
    lemma_rows_agree_upto(tasks, deps, r1, r2, tasks.len() as int);
    assert forall|u: int| 0 <= u < r1.len() implies r1[u] == r2[u] by {
        assert(r1[u] < tasks.len());
    }
    assert(r1 =~= r2);
}

/// Dependency lists that resolve to the same edges give the same rows.
pub proof fn lemma_same_edges_same_rows(
    tasks: Seq<GanttTask>,
    deps: Seq<GanttDep>,
    deps2: Seq<GanttDep>,
    r1: Seq<usize>,
    r2: Seq<usize>,
)
    requires
        forall|u: int, v: int| #[trigger] (dep_edge(tasks, deps))(u, v) == (dep_edge(tasks, deps2))(u, v),
        rows_respect_deps(tasks, deps, r1),
        rows_prefer_input_order(tasks, deps, r1),
        rows_respect_deps(tasks, deps2, r2),
        rows_prefer_input_order(tasks, deps2, r2),
    ensures
        r1 == r2,
{
    lemma_layout_depends_only_on_edges(tasks, deps, deps2, r2);
    lemma_rows_unique(tasks, deps, r1, r2);
}

} // verus!
