use chrono::Datelike;
use koyori_arc_core::bench_fixtures::{
    epoch, fixture_id, generate_deps, generate_dense_deps, generate_fixture, generate_fixture_on, generate_sparse_deps,
    generate_tasks, today, DepDensity, TaskCount,
};

#[test]
fn sparse_chain_length() {
    let tasks = generate_tasks(100);
    let deps = generate_sparse_deps(&tasks);
    assert_eq!(deps.len(), 99);
}

#[test]
fn dense_has_more_deps_than_sparse() {
    let tasks = generate_tasks(500);
    let sparse = generate_sparse_deps(&tasks);
    let dense = generate_dense_deps(&tasks);
    assert!(dense.len() > sparse.len());
    assert!(dense.len() > 1000);
}

#[test]
fn fixture_tasks_have_their_ids_dates_and_progress() {
    let tasks = generate_tasks(12);
    let base = chrono::NaiveDate::from_ymd_opt(2026, 1, 1).unwrap().num_days_from_ce();
    assert_eq!(epoch(), base);
    assert_eq!(tasks[0].id, "task-00000");
    assert_eq!(tasks[11].id, "task-00011");
    assert_eq!(tasks[11].title, "Task 11");
    assert_eq!(tasks[3].progress_pct, 10);
    assert_eq!(tasks[11].start, base + 11);
    assert_eq!(tasks[11].end, Some(base + 11 + 3 + 4));
    let big = generate_tasks(100_001);
    assert_eq!(big[100_000].id, "task-100000");
    assert_eq!(big[61].start, base + 1);
}

#[test]
fn dense_deps_link_five_predecessors_and_every_tenth_to_the_first() {
    let tasks = generate_tasks(11);
    let deps = generate_dense_deps(&tasks);
    let pairs: Vec<(String, String)> = deps.iter().map(|d| (d.blocker_task_id.clone(), d.blocked_task_id.clone())).collect();
    assert_eq!(pairs[0], ("task-00000".to_string(), "task-00001".to_string()));
    assert_eq!(pairs[1], ("task-00000".to_string(), "task-00002".to_string()));
    assert_eq!(pairs[2], ("task-00001".to_string(), "task-00002".to_string()));
    // 1 + 2 + 3 + 4 + 5 * 6 links to predecessors, plus the link from task 0 to task 10.
    assert_eq!(deps.len(), 1 + 2 + 3 + 4 + 5 * 6 + 1);
    assert_eq!(pairs[deps.len() - 1], ("task-00000".to_string(), "task-00010".to_string()));
    assert_eq!(generate_deps(&tasks, DepDensity::Sparse).len(), 10);
    assert_eq!(generate_deps(&tasks, DepDensity::Dense).len(), deps.len());
}

#[test]
fn fixture_names_and_sizes() {
    assert_eq!(TaskCount::N100.get(), 100);
    assert_eq!(TaskCount::N5000.get(), 5000);
    assert_eq!(TaskCount::N2000.label(), "2000");
    assert_eq!(DepDensity::Dense.label(), "dense");
    assert_eq!(fixture_id(TaskCount::N500, DepDensity::Sparse), "500_sparse");
}

#[test]
fn fixture_marks_the_sixteenth_of_june_as_today() {
    let fixture = generate_fixture(TaskCount::N100, DepDensity::Sparse);
    assert_eq!(fixture.today, "2026-06-16");
    assert_eq!(today(), chrono::NaiveDate::from_ymd_opt(2026, 6, 16).unwrap().num_days_from_ce());
    assert_eq!(fixture.tasks.len(), 100);
    assert_eq!(fixture.deps.len(), 99);
    let dense = generate_fixture_on(TaskCount::N100, DepDensity::Dense, "2020-01-01".to_string());
    assert_eq!(dense.today, "2020-01-01");
    assert!(dense.deps.len() > 400);
}

#[test]
fn dense_fixture_dependency_counts() {
    for (n, expected) in [(100usize, 494usize), (500, 2534), (2000, 10184), (5000, 25484)] {
        let tasks = generate_tasks(n);
        assert_eq!(generate_dense_deps(&tasks).len(), expected, "{n} tasks");
        assert_eq!(generate_dense_deps(&tasks).len(), 5 * n - 15 + (n - 1) / 10);
    }
}
