use chrono::Datelike;
use koyori_arc_core::{assign_rows, GanttDep, GanttTask, RowLayout};

fn day(y: i32, m: u32, d: u32) -> i32 {
    chrono::NaiveDate::from_ymd_opt(y, m, d).unwrap().num_days_from_ce()
}

fn task(id: &str) -> GanttTask {
    GanttTask {
        id: id.to_string(),
        title: format!("task-{id}"),
        progress_pct: 0,
        start: day(2026, 1, 1),
        end: None,
    }
}

fn dep(blocker: &str, blocked: &str) -> GanttDep {
    GanttDep {
        blocker_task_id: blocker.to_string(),
        blocked_task_id: blocked.to_string(),
    }
}

fn row_map(rows: &[RowLayout]) -> Vec<(&str, usize)> {
    rows.iter().map(|r| (r.task_id.as_str(), r.row)).collect()
}

fn row_of(rows: &[RowLayout], id: &str) -> usize {
    rows.iter().find(|r| r.task_id == id).map(|r| r.row).unwrap()
}

fn assert_input_order_preserved(rows: &[RowLayout], tasks: &[GanttTask]) {
    let ids: Vec<&str> = rows.iter().map(|r| r.task_id.as_str()).collect();
    let expected: Vec<&str> = tasks.iter().map(|t| t.id.as_str()).collect();
    assert_eq!(ids, expected, "assign_rows must preserve input task order");
}

#[test]
fn empty_input_gives_empty_rows() {
    assert!(assign_rows(&[], &[]).is_empty());
}

#[test]
fn no_deps_preserves_input_order() {
    let tasks = vec![task("a"), task("b"), task("c")];
    let rows = assign_rows(&tasks, &[]);
    assert_input_order_preserved(&rows, &tasks);
    assert_eq!(row_map(&rows), vec![("a", 0), ("b", 1), ("c", 2)]);
}

#[test]
fn blocker_is_above_blocked() {
    let tasks = vec![task("blocked"), task("blocker")];
    let deps = vec![dep("blocker", "blocked")];
    let rows = assign_rows(&tasks, &deps);
    assert_input_order_preserved(&rows, &tasks);
    assert!(row_of(&rows, "blocker") < row_of(&rows, "blocked"));
}

#[test]
fn chain_orders_topologically() {
    let tasks = vec![task("c"), task("a"), task("b")];
    let deps = vec![dep("a", "b"), dep("b", "c")];
    let rows = assign_rows(&tasks, &deps);
    assert_input_order_preserved(&rows, &tasks);
    assert!(row_of(&rows, "a") < row_of(&rows, "b"));
    assert!(row_of(&rows, "b") < row_of(&rows, "c"));
}

#[test]
fn diamond_respects_dependencies_with_input_tie_break() {
    let tasks = vec![task("a"), task("b"), task("c"), task("d")];
    let deps = vec![dep("a", "b"), dep("a", "c"), dep("b", "d"), dep("c", "d")];
    let rows = assign_rows(&tasks, &deps);
    assert_input_order_preserved(&rows, &tasks);
    assert_eq!(row_of(&rows, "a"), 0);
    assert!(row_of(&rows, "b") < row_of(&rows, "d"));
    assert!(row_of(&rows, "c") < row_of(&rows, "d"));
    assert!(row_of(&rows, "b") < row_of(&rows, "c"));
}

#[test]
fn disconnected_components_use_input_order_among_ready() {
    let tasks = vec![task("x"), task("y"), task("z")];
    let deps = vec![dep("x", "z")];
    let rows = assign_rows(&tasks, &deps);
    assert_input_order_preserved(&rows, &tasks);
    assert_eq!(row_map(&rows), vec![("x", 0), ("y", 1), ("z", 2)]);
}

#[test]
fn cycle_is_handled_deterministically_without_panic() {
    let tasks = vec![task("a"), task("b"), task("c")];
    let deps = vec![dep("a", "b"), dep("b", "c"), dep("c", "a")];
    let once = assign_rows(&tasks, &deps);
    let twice = assign_rows(&tasks, &deps);
    assert_eq!(once, twice);
    assert_input_order_preserved(&once, &tasks);
    assert_eq!(row_map(&once), vec![("a", 0), ("b", 1), ("c", 2)]);
}

#[test]
fn cycle_downstream_keeps_blocker_above_blocked() {
    // D listed first but depends on B inside cycle {A,B,C}
    let tasks = vec![task("d"), task("a"), task("b"), task("c")];
    let deps = vec![dep("a", "b"), dep("b", "c"), dep("c", "a"), dep("b", "d")];
    let rows = assign_rows(&tasks, &deps);
    assert_input_order_preserved(&rows, &tasks);
    assert!(
        row_of(&rows, "b") < row_of(&rows, "d"),
        "downstream of cycle must stay below its blocker"
    );
    assert!(row_of(&rows, "a") < row_of(&rows, "d"));
    assert!(row_of(&rows, "c") < row_of(&rows, "d"));
}

#[test]
fn unknown_dependency_ids_are_ignored() {
    let tasks = vec![task("a"), task("b")];
    let deps = vec![dep("missing", "b"), dep("a", "ghost"), dep("a", "b")];
    let rows = assign_rows(&tasks, &deps);
    assert_input_order_preserved(&rows, &tasks);
    assert!(row_of(&rows, "a") < row_of(&rows, "b"));
}

#[test]
fn duplicate_edges_do_not_break_indegree() {
    let tasks = vec![task("a"), task("b")];
    let deps = vec![dep("a", "b"), dep("a", "b")];
    let rows = assign_rows(&tasks, &deps);
    assert_input_order_preserved(&rows, &tasks);
    assert!(row_of(&rows, "a") < row_of(&rows, "b"));
}

#[test]
fn deterministic_across_repeated_calls() {
    let tasks = vec![task("t1"), task("t2"), task("t3"), task("t4")];
    let deps = vec![dep("t1", "t3"), dep("t2", "t4"), dep("t1", "t2")];
    let first = assign_rows(&tasks, &deps);
    let second = assign_rows(&tasks, &deps);
    assert_eq!(first, second);
    assert_input_order_preserved(&first, &tasks);
    assert!(row_of(&first, "t1") < row_of(&first, "t2"));
    assert!(row_of(&first, "t1") < row_of(&first, "t3"));
    assert!(row_of(&first, "t2") < row_of(&first, "t4"));
}

#[test]
fn rows_are_a_permutation_and_respect_every_dependency() {
    // Two cycles {b, c} and {e, f}, joined by b -> e, plus a free task.
    let tasks = vec![task("f"), task("e"), task("c"), task("b"), task("a"), task("g")];
    let deps = vec![dep("b", "c"), dep("c", "b"), dep("e", "f"), dep("f", "e"), dep("b", "e"), dep("a", "b")];
    let rows = assign_rows(&tasks, &deps);
    let mut seen: Vec<usize> = rows.iter().map(|r| r.row).collect();
    seen.sort();
    assert_eq!(seen, vec![0, 1, 2, 3, 4, 5]);
    assert!(row_of(&rows, "a") < row_of(&rows, "b"));
    assert!(row_of(&rows, "b") < row_of(&rows, "e"));
    assert!(row_of(&rows, "c") < row_of(&rows, "e"));
    // Cycle members lie on consecutive rows, in input order.
    assert_eq!(row_of(&rows, "c") + 1, row_of(&rows, "b"));
    assert_eq!(row_of(&rows, "f") + 1, row_of(&rows, "e"));
}

#[test]
fn ready_cycle_with_earliest_first_task_goes_first() {
    // Nothing blocks anything: rows follow input order.
    let tasks = vec![task("p"), task("q"), task("r"), task("s")];
    let deps = vec![dep("s", "r"), dep("r", "s")];
    let rows = assign_rows(&tasks, &deps);
    assert_eq!(row_map(&rows), vec![("p", 0), ("q", 1), ("r", 2), ("s", 3)]);
}

#[test]
fn self_dependency_is_ignored_and_duplicate_ids_use_the_first() {
    let tasks = vec![task("a"), task("b"), task("a")];
    let deps = vec![dep("a", "a"), dep("b", "a")];
    let rows = assign_rows(&tasks, &deps);
    // "a" names task 0 only: task 1 moves above it, task 2 is free.
    assert_eq!(rows[1].row, 0);
    assert_eq!(rows[0].row, 1);
    assert_eq!(rows[2].row, 2);
}

#[test]
fn forward_dependencies_keep_every_task_on_its_own_row() {
    let tasks: Vec<GanttTask> = ["a", "b", "c", "d", "e", "f"].iter().map(|id| task(id)).collect();
    let deps = vec![dep("a", "c"), dep("b", "f"), dep("c", "d"), dep("a", "e"), dep("d", "f")];
    let rows = assign_rows(&tasks, &deps);
    for (i, r) in rows.iter().enumerate() {
        assert_eq!(r.row, i);
    }
}

#[test]
fn dependency_lists_with_the_same_edges_give_the_same_rows() {
    let tasks: Vec<GanttTask> = ["a", "b", "c", "d"].iter().map(|id| task(id)).collect();
    let plain = vec![dep("d", "a"), dep("c", "b")];
    let noisy = vec![dep("c", "b"), dep("ghost", "a"), dep("d", "a"), dep("d", "d"), dep("c", "b"), dep("a", "nobody")];
    assert_eq!(row_map(&assign_rows(&tasks, &plain)), row_map(&assign_rows(&tasks, &noisy)));
}

#[test]
fn rows_are_the_same_whatever_order_the_dependencies_come_in() {
    let tasks: Vec<GanttTask> = ["a", "b", "c", "d", "e"].iter().map(|id| task(id)).collect();
    let deps = vec![dep("e", "a"), dep("a", "e"), dep("d", "b"), dep("c", "d")];
    let mut reversed = deps.clone();
    reversed.reverse();
    assert_eq!(row_map(&assign_rows(&tasks, &deps)), row_map(&assign_rows(&tasks, &reversed)));
}
