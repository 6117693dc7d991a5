//! Synthetic Gantt fixtures for render-pipeline benchmarks: 100, 500, 2000
//! or 5000 tasks, with sparse or dense dependency graphs.
use vstd::prelude::*;
use crate::calendar::{civil_day, format_iso_date, is_date_text, ymd_day};
use crate::graph::{GanttDep, GanttTask};
use crate::text::{decimal, decimal_padded, push_decimal, push_decimal_padded};

verus! {

/// How many tasks a fixture has.
#[derive(Debug, Clone, Copy, PartialEq, Eq, Hash, Structural)]
pub enum TaskCount {
    N100,
    N500,
    N2000,
    N5000,
}

/// The number of tasks of each size.
pub open spec fn task_count_value(c: TaskCount) -> nat {
    match c {
        TaskCount::N100 => 100,
        TaskCount::N500 => 500,
        TaskCount::N2000 => 2000,
        TaskCount::N5000 => 5000,
    }
}

impl TaskCount {
    pub fn get(self) -> (n: usize)
        ensures
            n == task_count_value(self),
    {
        match self {
            TaskCount::N100 => 100,
            TaskCount::N500 => 500,
            TaskCount::N2000 => 2000,
            TaskCount::N5000 => 5000,
        }
    }

    /// The size as text.
    pub fn label(self) -> (res: &'static str)
        ensures
            res@ == decimal(task_count_value(self)),
    {
        proof {
            reveal_strlit("100");
            reveal_strlit("500");
            reveal_strlit("2000");
            reveal_strlit("5000");
            assert(decimal(100) == seq!['1', '0', '0']) by {
                reveal_with_fuel(decimal, 3);
            }
            assert(decimal(500) == seq!['5', '0', '0']) by {
                reveal_with_fuel(decimal, 3);
            }
            assert(decimal(2000) == seq!['2', '0', '0', '0']) by {
                reveal_with_fuel(decimal, 4);
            }
            assert(decimal(5000) == seq!['5', '0', '0', '0']) by {
                reveal_with_fuel(decimal, 4);
            }
        }
        match self {
            TaskCount::N100 => "100",
            TaskCount::N500 => "500",
            TaskCount::N2000 => "2000",
            TaskCount::N5000 => "5000",
        }
    }
}

/// How densely a fixture's tasks depend on each other.
#[derive(Debug, Clone, Copy, PartialEq, Eq, Hash, Structural)]
pub enum DepDensity {
    Sparse,
    Dense,
}

pub open spec fn density_label(d: DepDensity) -> Seq<char> {
    match d {
        DepDensity::Sparse => "sparse"@,
        DepDensity::Dense => "dense"@,
    }
}

impl DepDensity {
    pub fn label(self) -> (res: &'static str)
        ensures
            res@ == density_label(self),
    {
        match self {
            DepDensity::Sparse => "sparse",
            DepDensity::Dense => "dense",
        }
    }
}

/// A generated fixture: its tasks, their dependencies, and the date to mark
/// as today, as `YYYY-MM-DD`.
pub struct BenchFixture {
    pub tasks: Vec<GanttTask>,
    pub deps: Vec<GanttDep>,
    pub today: String,
}

/// The first day of the fixtures' schedule, 2026-01-01.
pub open spec fn epoch_day() -> int {
    civil_day(2026, 1, 1)
}

/// The day the fixtures mark as today, 2026-06-16.
pub open spec fn today_day() -> int {
    civil_day(2026, 6, 16)
}

pub fn epoch() -> (day: i32)
    ensures
        day == epoch_day(),
{
    ymd_day(2026, 1, 1)
}

pub fn today() -> (day: i32)
    ensures
        day == today_day(),
{
    ymd_day(2026, 6, 16)
}

/// `task-` and the index, zero-padded to five digits.
pub open spec fn fixture_task_id(i: nat) -> Seq<char> {
    "task-"@ + decimal_padded(i, 5)
}

/// `Task ` and the index.
pub open spec fn fixture_task_title(i: nat) -> Seq<char> {
    "Task "@ + decimal(i)
}

/// Task `i` of a generated fixture: it starts `i % 60` days after the epoch,
/// lasts `3 + i % 7` days, and is `(37 i) mod 101` percent done.
pub open spec fn is_fixture_task(t: GanttTask, i: nat) -> bool {
    &&& t.id@ == fixture_task_id(i)
    &&& t.title@ == fixture_task_title(i)
    &&& t.progress_pct == (i * 37) % 101
    &&& t.start == epoch_day() + i % 60
    &&& t.end == Some((epoch_day() + i % 60 + 3 + i % 7) as i32)
}

/// Synthetic tasks spread across a 90-day window with varied progress.
pub fn generate_tasks(count: usize) -> (tasks: Vec<GanttTask>)
    requires
        count <= usize::MAX / 37,
    ensures
        tasks@.len() == count,
        forall|i: int| 0 <= i < count ==> #[trigger] is_fixture_task(tasks@[i], i as nat),
{
    let base = epoch();
    proof {
        assert(epoch_day() == 739617);
    }
    let mut tasks: Vec<GanttTask> = Vec::new();
    let mut i: usize = 0;
    while i < count
        invariant
            i <= count <= usize::MAX / 37,
            base == epoch_day(),
            epoch_day() == 739617,
            tasks@.len() == i,
            forall|k: int| 0 <= k < i ==> #[trigger] is_fixture_task(tasks@[k], k as nat),
        decreases count - i,
    {
        let start_offset = (i % 60) as i32;
        let duration = 3 + (i % 7) as i32;
        let mut id = String::from_str("task-");
        push_decimal_padded(&mut id, i as u64, 5);
        let mut title = String::from_str("Task ");
        push_decimal(&mut title, i as u64);
        let progress = ((i * 37) % 101) as i16;
        tasks.push(
            GanttTask {
                id,
                title,
                progress_pct: progress,
                start: base + start_offset,
                end: Some(base + start_offset + duration),
            },
        );
        i += 1;
    }
    tasks
}

/// The dependency making task `a` the blocker of task `b`.
pub open spec fn dep_between(d: GanttDep, tasks: Seq<GanttTask>, a: int, b: int) -> bool {
    d.blocker_task_id@ == tasks[a].id@ && d.blocked_task_id@ == tasks[b].id@
}

/// Sparse: a chain, each task blocked by its predecessor.
pub fn generate_sparse_deps(tasks: &[GanttTask]) -> (deps: Vec<GanttDep>)
    ensures
        deps@.len() == (if tasks@.len() == 0 { 0 } else { tasks@.len() - 1 }),
        forall|i: int| 0 <= i < deps@.len() ==> #[trigger] dep_between(deps@[i], tasks@, i, i + 1),
{
    let mut deps: Vec<GanttDep> = Vec::new();
    if tasks.len() < 2 {
        return deps;
    }
    let mut i: usize = 0;
    while i + 1 < tasks.len()
        invariant
            tasks@.len() >= 2,
            i + 1 <= tasks@.len(),
            deps@.len() == i,
            forall|k: int| 0 <= k < i ==> #[trigger] dep_between(deps@[k], tasks@, k, k + 1),
        decreases tasks@.len() - i,
    {
        deps.push(GanttDep { blocker_task_id: tasks[i].id.clone(), blocked_task_id: tasks[i + 1].id.clone() });
        i += 1;
    }
    deps
}

/// The (blocker, blocked) index pairs task `i` of a dense fixture adds: its
/// up to five predecessors, and task 0 again when `i` is a multiple of ten.
pub open spec fn dense_pairs_of(i: int) -> Seq<(int, int)> {
    if i <= 0 {
        Seq::empty()
    } else {
        let start = if i >= 5 { i - 5 } else { 0 };
        Seq::new((i - start) as nat, |k: int| (start + k, i)) + if i % 10 == 0 {
            seq![(0int, i)]
        } else {
            Seq::empty()
        }
    }
}

/// The (blocker, blocked) index pairs of a dense fixture of `n` tasks, task by task.
pub open spec fn dense_pairs(n: int) -> Seq<(int, int)>
    decreases n,
{
    if n <= 0 {
        Seq::empty()
    } else {
        dense_pairs(n - 1) + dense_pairs_of(n - 1)
    }
}

/// A dense fixture of `n >= 5` tasks has `5n - 15` links to recent
/// predecessors (one for task 1, two for task 2, and so on up to five) plus
/// one link from the first task to every tenth task.
pub proof fn lemma_dense_pair_count(n: int)
    requires
        n >= 5,
    ensures
        dense_pairs(n).len() == 5 * n - 15 + (n - 1) / 10,
    decreases n,
{
    if n == 5 {
        reveal_with_fuel(dense_pairs, 6);
        assert(dense_pairs_of(0).len() == 0);
        assert(dense_pairs_of(1).len() == 1);
        assert(dense_pairs_of(2).len() == 2);
        assert(dense_pairs_of(3).len() == 3);
        assert(dense_pairs_of(4).len() == 4);
    } else {
        lemma_dense_pair_count(n - 1);
        let extra: int = if (n - 1) % 10 == 0 { 1 } else { 0 };
        assert(dense_pairs_of(n - 1).len() == 5 + extra);
        assert((n - 1) / 10 == (n - 2) / 10 + extra);
    }
}

/// The dense fixtures of 100, 500, 2000 and 5000 tasks have 494, 2534,
/// 10184 and 25484 dependencies, more than the sparse chain's `n - 1`.
pub proof fn lemma_dense_fixture_sizes()
    ensures
        dense_pairs(100).len() == 494,
        dense_pairs(500).len() == 2534,
        dense_pairs(2000).len() == 10184,
        dense_pairs(5000).len() == 25484,
        forall|n: int| n >= 5 ==> #[trigger] dense_pairs(n).len() > n - 1,
{
    lemma_dense_pair_count(100);
    lemma_dense_pair_count(500);
    lemma_dense_pair_count(2000);
    lemma_dense_pair_count(5000);
    assert forall|n: int| n >= 5 implies #[trigger] dense_pairs(n).len() > n - 1 by {
        lemma_dense_pair_count(n);
    }
}

/// Dense: each task depends on up to five predecessors, plus periodic links
/// from the first task.
pub fn generate_dense_deps(tasks: &[GanttTask]) -> (deps: Vec<GanttDep>)
    ensures
        deps@.len() == dense_pairs(tasks@.len() as int).len(),
        forall|k: int|
            0 <= k < deps@.len() ==> #[trigger] dep_between(deps@[k], tasks@, dense_pairs(tasks@.len() as int)[k].0, dense_pairs(tasks@.len() as int)[k].1),
{
    let mut deps: Vec<GanttDep> = Vec::new();
    let mut i: usize = 0;
    while i < tasks.len()
        invariant
            i <= tasks@.len(),
            deps@.len() == dense_pairs(i as int).len(),
            forall|k: int| 0 <= k < deps@.len() ==> #[trigger] dep_between(deps@[k], tasks@, dense_pairs(i as int)[k].0, dense_pairs(i as int)[k].1),
        decreases tasks@.len() - i,
    {
        let ghost before = deps@;
        let ghost pairs = dense_pairs_of(i as int);
        if i != 0 {
            let start = if i >= 5 { i - 5 } else { 0 };
            let mut j = start;
            while j < i
                invariant
                    0 < i < tasks@.len(),
                    start == (if i >= 5 { i - 5 } else { 0 }),
                    start <= j <= i,
                    deps@.len() == before.len() + (j - start),
                    deps@.subrange(0, before.len() as int) == before,
                    forall|k: int| 0 <= k < j - start ==> #[trigger] dep_between(deps@[before.len() + k], tasks@, start + k, i as int),
                decreases i - j,
            {
                deps.push(GanttDep { blocker_task_id: tasks[j].id.clone(), blocked_task_id: tasks[i].id.clone() });
                j += 1;
                proof {
                    assert(deps@.subrange(0, before.len() as int) =~= before);
                }
            }
            let ghost inner = deps@;
            if i % 10 == 0 {
                deps.push(GanttDep { blocker_task_id: tasks[0].id.clone(), blocked_task_id: tasks[i].id.clone() });
            }
            proof {
                let all = dense_pairs((i + 1) as int);
                assert(dense_pairs((i + 1) as int) == dense_pairs(i as int) + pairs);
                assert(deps@.len() == all.len());
                assert forall|k: int| 0 <= k < deps@.len() implies #[trigger] dep_between(deps@[k], tasks@, all[k].0, all[k].1) by {
                    if k < before.len() {
                        assert(inner.subrange(0, before.len() as int)[k] == inner[k]);
                        assert(deps@[k] == before[k]);
                        assert(all[k] == dense_pairs(i as int)[k]);
                    } else if k < inner.len() {
                        let kk = k - before.len();
                        assert(dep_between(inner[before.len() + kk], tasks@, start + kk, i as int));
                        assert(deps@[k] == inner[k]);
                        assert(all[k] == pairs[kk]);
                    } else {
                        assert(all[k] == pairs[k - before.len()]);
                    }
                }
            }
        }
        proof {
            let all = dense_pairs((i + 1) as int);
            assert(dense_pairs((i + 1) as int) == dense_pairs(i as int) + pairs);
            if i == 0 {
                assert(all =~= dense_pairs(i as int));
            }
        }
        i += 1;
    }
    deps
}

pub fn generate_deps(tasks: &[GanttTask], density: DepDensity) -> (deps: Vec<GanttDep>)
    ensures
        density == DepDensity::Sparse ==> {
            &&& deps@.len() == (if tasks@.len() == 0 { 0 } else { tasks@.len() - 1 })
            &&& forall|i: int| 0 <= i < deps@.len() ==> #[trigger] dep_between(deps@[i], tasks@, i, i + 1)
        },
        density == DepDensity::Dense ==> {
            &&& deps@.len() == dense_pairs(tasks@.len() as int).len()
            &&& forall|k: int|
                0 <= k < deps@.len() ==> #[trigger] dep_between(
                    deps@[k],
                    tasks@,
                    dense_pairs(tasks@.len() as int)[k].0,
                    dense_pairs(tasks@.len() as int)[k].1,
                )
        },
{
    match density {
        DepDensity::Sparse => generate_sparse_deps(tasks),
        DepDensity::Dense => generate_dense_deps(tasks),
    }
}

/// The fixture of the given size and density, marking `today` (the
/// `YYYY-MM-DD` text of the day to mark) as today.
pub fn generate_fixture_on(count: TaskCount, density: DepDensity, today: String) -> (f: BenchFixture)
    ensures
        f.tasks@.len() == task_count_value(count),
        forall|i: int| 0 <= i < f.tasks@.len() ==> #[trigger] is_fixture_task(f.tasks@[i], i as nat),
        density == DepDensity::Sparse ==> f.deps@.len() == task_count_value(count) - 1 && forall|i: int|
            0 <= i < f.deps@.len() ==> #[trigger] dep_between(f.deps@[i], f.tasks@, i, i + 1),
        density == DepDensity::Dense ==> f.deps@.len() == dense_pairs(task_count_value(count) as int).len() && forall|k: int|
            0 <= k < f.deps@.len() ==> #[trigger] dep_between(
                f.deps@[k],
                f.tasks@,
                dense_pairs(task_count_value(count) as int)[k].0,
                dense_pairs(task_count_value(count) as int)[k].1,
            ),
        f.today@ == today@,
{
    let tasks = generate_tasks(count.get());
    let deps = generate_deps(tasks.as_slice(), density);
    BenchFixture { tasks, deps, today }
}

/// The fixture of the given size and density, today being 2026-06-16.
pub fn generate_fixture(count: TaskCount, density: DepDensity) -> (f: BenchFixture)
    ensures
        f.tasks@.len() == task_count_value(count),
        forall|i: int| 0 <= i < f.tasks@.len() ==> #[trigger] is_fixture_task(f.tasks@[i], i as nat),
        density == DepDensity::Sparse ==> f.deps@.len() == task_count_value(count) - 1 && forall|i: int|
            0 <= i < f.deps@.len() ==> #[trigger] dep_between(f.deps@[i], f.tasks@, i, i + 1),
        density == DepDensity::Dense ==> f.deps@.len() == dense_pairs(task_count_value(count) as int).len() && forall|k: int|
            0 <= k < f.deps@.len() ==> #[trigger] dep_between(
                f.deps@[k],
                f.tasks@,
                dense_pairs(task_count_value(count) as int)[k].0,
                dense_pairs(task_count_value(count) as int)[k].1,
            ),
        is_date_text(f.today@, today_day()),
{
    let day = today();
    proof {
        assert(today_day() == 739783);
    }
    let text = format_iso_date(day);
    generate_fixture_on(count, density, text)
}

/// `<count>_<density>`, the fixture's name.
pub fn fixture_id(count: TaskCount, density: DepDensity) -> (res: String)
    ensures
        res@ == decimal(task_count_value(count)) + "_"@ + density_label(density),
{
    let mut s = String::from_str(count.label());
    s.append("_");
    s.append(density.label());
    s
}

} // verus!
