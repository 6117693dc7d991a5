use chrono::Datelike;
use koyori_arc_core::calendar::{checked_add_days, day_of_ymd, DATE_MAX_DAY, DATE_MIN_DAY, MAX_YEAR, MIN_YEAR};
use koyori_arc_core::render::{
    canvas_graph_limit_error, common_graph_limit_error, date_headroom_error, latest_rendered_date, raw_json_limit_error,
    rendered_date_span_days, svg_graph_limit_error, DATE_HEADROOM_DAYS, MAX_CANVAS_AREA_PX, MAX_CANVAS_DATE_SPAN_DAYS,
    MAX_CANVAS_ROWS, MAX_CANVAS_SIDE_PX, MAX_DATE_SPAN_DAYS, MAX_DEPS, MAX_DEPS_JSON_BYTES, MAX_TASKS, MAX_TASKS_JSON_BYTES,
};
use koyori_arc_core::{GanttDep, GanttTask, RenderError, CODE_CANVAS_CAPACITY, CODE_INPUT_LIMIT, CODE_PARSE_ERROR};

fn day(y: i32, m: u32, d: u32) -> i32 {
    chrono::NaiveDate::from_ymd_opt(y, m, d).unwrap().num_days_from_ce()
}

fn task_span(i: usize, start: i32, end: Option<i32>) -> GanttTask {
    GanttTask { id: format!("t{i}"), title: format!("Task {i}"), progress_pct: 0, start, end }
}

fn canvas_tasks(count: usize, end_offset_days: i32) -> Vec<GanttTask> {
    let start = day(2026, 1, 1);
    (0..count).map(|i| task_span(i, start, Some(start + end_offset_days))).collect()
}

#[test]
fn calendar_range_is_chrono_range() {
    assert_eq!(DATE_MIN_DAY, chrono::NaiveDate::MIN.num_days_from_ce());
    assert_eq!(DATE_MAX_DAY, chrono::NaiveDate::MAX.num_days_from_ce());
    assert_eq!(MIN_YEAR, chrono::NaiveDate::MIN.year());
    assert_eq!(MAX_YEAR, chrono::NaiveDate::MAX.year());
    assert_eq!(day(1, 1, 1), 1);
}

#[test]
fn checked_add_days_agrees_with_chrono() {
    let cases = [(day(2026, 6, 1), 7i64), (DATE_MAX_DAY - 7, 7), (DATE_MAX_DAY - 7, 8), (DATE_MIN_DAY, -1), (DATE_MIN_DAY + 3, -3), (day(2026, 2, 28), 1)];
    for (d, n) in cases {
        let date = chrono::NaiveDate::from_num_days_from_ce_opt(d).unwrap();
        let expected = date.checked_add_signed(chrono::Duration::days(n)).map(|x| x.num_days_from_ce());
        assert_eq!(checked_add_days(d, n), expected, "day {d} plus {n}");
    }
}

#[test]
fn raw_json_limits_name_the_oversized_input() {
    assert!(raw_json_limit_error("[]", "[]").is_none());
    let big_tasks = "x".repeat(MAX_TASKS_JSON_BYTES + 1);
    let err = raw_json_limit_error(&big_tasks, "[]").unwrap();
    assert_eq!(err.code, CODE_INPUT_LIMIT);
    assert_eq!(err.message, "tasks JSON byte size exceeds limit (8388608)");
    let at_limit = "x".repeat(MAX_TASKS_JSON_BYTES);
    assert!(raw_json_limit_error(&at_limit, "[]").is_none());
    let big_deps = "x".repeat(MAX_DEPS_JSON_BYTES + 1);
    let err = raw_json_limit_error("[]", &big_deps).unwrap();
    assert_eq!(err.message, "dependencies JSON byte size exceeds limit (16777216)");
}

#[test]
fn count_limits_refuse_one_more_than_allowed() {
    let start = day(2026, 6, 1);
    let tasks: Vec<GanttTask> = (0..=MAX_TASKS).map(|i| task_span(i, start, Some(start + 1))).collect();
    let err = common_graph_limit_error(&tasks, &[]).unwrap();
    assert_eq!(err.message, "task count exceeds limit (10000)");
    assert!(common_graph_limit_error(&tasks[..MAX_TASKS], &[]).is_none());
    let deps: Vec<GanttDep> = (0..=MAX_DEPS)
        .map(|i| GanttDep { blocker_task_id: "t0".to_string(), blocked_task_id: format!("t{i}") })
        .collect();
    let err = common_graph_limit_error(&tasks[..1], &deps).unwrap();
    assert_eq!(err.code, CODE_INPUT_LIMIT);
    assert_eq!(err.message, "dependency count exceeds limit (100000)");
    assert!(svg_graph_limit_error(&tasks[..1], &deps).is_some());
}

#[test]
fn latest_rendered_date_follows_end_or_next_day() {
    let start = day(2026, 6, 5);
    assert_eq!(latest_rendered_date(&task_span(0, start, Some(start + 3))), Some(start + 3));
    assert_eq!(latest_rendered_date(&task_span(0, start, Some(start - 4))), Some(start));
    assert_eq!(latest_rendered_date(&task_span(0, start, None)), Some(start + 1));
    assert_eq!(latest_rendered_date(&task_span(0, DATE_MAX_DAY, None)), None);
}

#[test]
fn headroom_is_a_week_past_the_last_rendered_date() {
    let msg = "date is too close to the maximum supported date (needs 7 days of headroom past the last rendered date)";
    // Start seven days below the maximum with no end: the derived end leaves only six days.
    let start = DATE_MAX_DAY - DATE_HEADROOM_DAYS as i32;
    let err = date_headroom_error(&[task_span(0, start, None)]).unwrap();
    assert_eq!(err.code, CODE_INPUT_LIMIT);
    assert_eq!(err.message, msg);
    assert!(date_headroom_error(&[task_span(0, start - 1, None)]).is_none());
    assert!(date_headroom_error(&[task_span(0, DATE_MAX_DAY, None)]).is_some());
    assert!(date_headroom_error(&[task_span(0, DATE_MAX_DAY - 10, Some(DATE_MAX_DAY))]).is_some());
    assert!(svg_graph_limit_error(&[task_span(0, DATE_MAX_DAY, None)], &[]).is_some());
    assert!(canvas_graph_limit_error(&[task_span(0, DATE_MAX_DAY, None)], &[]).unwrap().message.contains("date"));
}

#[test]
fn span_runs_from_earliest_start_to_latest_rendered_date() {
    let a = day(2026, 6, 1);
    let tasks = vec![task_span(0, a + 5, Some(a + 8)), task_span(1, a, Some(a + 2)), task_span(2, a + 20, None)];
    assert_eq!(rendered_date_span_days(&tasks).unwrap(), 21);
    assert_eq!(rendered_date_span_days(&[]).unwrap(), 0);
    assert_eq!(rendered_date_span_days(&[task_span(0, a, Some(a - 9))]).unwrap(), 0);
    assert!(rendered_date_span_days(&[task_span(0, DATE_MAX_DAY, None)]).is_err());
}

#[test]
fn svg_date_span_boundary_accepts_limit_and_rejects_one_more() {
    let start = day(2026, 1, 1);
    let at_limit = [task_span(0, start, Some(start + MAX_DATE_SPAN_DAYS as i32))];
    assert!(svg_graph_limit_error(&at_limit, &[]).is_none());
    let over = [task_span(0, start, Some(start + MAX_DATE_SPAN_DAYS as i32 + 1))];
    let err = svg_graph_limit_error(&over, &[]).unwrap();
    assert_eq!(err.code, CODE_INPUT_LIMIT);
    assert_eq!(err.message, "date range exceeds limit (3650 days)");
}

#[test]
fn canvas_row_limit_is_derived_from_max_side() {
    assert_eq!(MAX_CANVAS_ROWS, 407);
    assert!(MAX_CANVAS_ROWS * 40 + 80 <= MAX_CANVAS_SIDE_PX);
    assert!((MAX_CANVAS_ROWS + 1) * 40 + 80 > MAX_CANVAS_SIDE_PX);
    assert!(canvas_graph_limit_error(&canvas_tasks(MAX_CANVAS_ROWS, 1), &[]).is_none());
    let err = canvas_graph_limit_error(&canvas_tasks(MAX_CANVAS_ROWS + 1, 1), &[]).unwrap();
    assert_eq!(err.code, CODE_CANVAS_CAPACITY);
    assert_eq!(err.message, "canvas row count exceeds limit (407 rows / 16384px)");
}

#[test]
fn canvas_date_limit_is_derived_from_max_side_and_does_not_reduce_svg_limit() {
    assert_eq!(MAX_CANVAS_DATE_SPAN_DAYS, 541);
    assert!(canvas_graph_limit_error(&canvas_tasks(1, MAX_CANVAS_DATE_SPAN_DAYS as i32), &[]).is_none());
    let over = canvas_tasks(1, MAX_CANVAS_DATE_SPAN_DAYS as i32 + 1);
    let err = canvas_graph_limit_error(&over, &[]).unwrap();
    assert_eq!(err.code, CODE_CANVAS_CAPACITY);
    assert_eq!(err.message, "canvas date range exceeds limit (541 days / 16384px)");
    assert!(svg_graph_limit_error(&over, &[]).is_none());
}

#[test]
fn canvas_rejects_near_maximum_sides_when_area_is_too_large() {
    let tasks = canvas_tasks(MAX_CANVAS_ROWS, MAX_CANVAS_DATE_SPAN_DAYS as i32);
    let width = MAX_CANVAS_DATE_SPAN_DAYS as usize * 30 + 140;
    let height = MAX_CANVAS_ROWS * 40 + 80;
    assert!(width <= MAX_CANVAS_SIDE_PX && height <= MAX_CANVAS_SIDE_PX);
    assert!(width * height > MAX_CANVAS_AREA_PX);
    let err = canvas_graph_limit_error(&tasks, &[]).unwrap();
    assert_eq!(err.code, CODE_CANVAS_CAPACITY);
    assert_eq!(err.message, "canvas area exceeds limit (33554432 pixels)");
    // The area limit admits a chart whose sides are both well inside it.
    assert!(canvas_graph_limit_error(&canvas_tasks(100, 100), &[]).is_none());
}

#[test]
fn json_carries_both_code_and_message() {
    let err = RenderError::new(CODE_PARSE_ERROR, r#"parse error: bad "quote""#.to_string());
    let v: serde_json::Value = serde_json::from_str(&err.to_json()).expect("valid json");
    assert_eq!(v["code"].as_str(), Some("parse_error"));
    assert_eq!(v["error"].as_str(), Some(r#"parse error: bad "quote""#));
}

#[test]
fn json_error_produces_valid_json_with_quotes() {
    let s = RenderError::new(CODE_PARSE_ERROR, r#"parse error: bad "quote""#.to_string()).to_json();
    let v: serde_json::Value = serde_json::from_str(&s).expect("valid json");
    assert_eq!(v["error"].as_str().unwrap(), r#"parse error: bad "quote""#);
    assert_eq!(v["code"].as_str(), Some("parse_error"));
}

#[test]
fn error_json_is_the_code_then_the_message() {
    let s = RenderError::new(CODE_INPUT_LIMIT, "a \\ b\nc".to_string()).to_json();
    assert_eq!(s, r#"{"code":"input_limit","error":"a \\ b\nc"}"#);
    let assembled = koyori_arc_core::error::error_object_json("\"k\"", "\"m\"");
    assert_eq!(assembled, r#"{"code":"k","error":"m"}"#);
}

#[test]
fn canvas_acceptance_implies_svg_acceptance_on_samples() {
    for (count, days) in [(1usize, 10i32), (50, 300), (400, 541), (10, 542), (500, 10), (200, 2000)] {
        let tasks = canvas_tasks(count, days);
        if canvas_graph_limit_error(&tasks, &[]).is_none() {
            assert!(svg_graph_limit_error(&tasks, &[]).is_none(), "{count} tasks over {days} days");
        }
    }
    // Too wide for a Canvas, still drawn as SVG.
    let wide = canvas_tasks(3, 600);
    assert_eq!(canvas_graph_limit_error(&wide, &[]).unwrap().code, CODE_CANVAS_CAPACITY);
    assert!(svg_graph_limit_error(&wide, &[]).is_none());
}

#[test]
fn canvas_input_limit_refusal_is_the_svg_refusal() {
    let late = vec![task_span(0, DATE_MAX_DAY - 3, None)];
    let canvas = canvas_graph_limit_error(&late, &[]).unwrap();
    let svg = svg_graph_limit_error(&late, &[]).unwrap();
    assert_eq!(canvas.code, CODE_INPUT_LIMIT);
    assert_eq!(canvas, svg);
}

#[test]
fn canvas_capacity_refusal_always_leaves_svg_drawable() {
    // Too many rows for a Canvas and too long a range for either renderer:
    // the refusal is the shared input limit, not a capacity fallback.
    let long = canvas_tasks(MAX_CANVAS_ROWS + 1, MAX_DATE_SPAN_DAYS as i32 + 1);
    let canvas = canvas_graph_limit_error(&long, &[]).unwrap();
    assert_eq!(canvas.code, CODE_INPUT_LIMIT);
    assert_eq!(Some(canvas), svg_graph_limit_error(&long, &[]));
    // Too many rows for a Canvas only: capacity, and SVG still draws.
    let tall = canvas_tasks(MAX_CANVAS_ROWS + 1, 30);
    assert_eq!(canvas_graph_limit_error(&tall, &[]).unwrap().code, CODE_CANVAS_CAPACITY);
    assert!(svg_graph_limit_error(&tall, &[]).is_none());
}

#[test]
fn day_of_ymd_agrees_with_chrono() {
    let cases = [(2026, 6, 16), (2024, 2, 29), (2023, 2, 29), (1, 1, 1), (0, 12, 31), (-1, 3, 1), (-400, 2, 29), (1900, 2, 29),
        (MIN_YEAR, 1, 1), (MAX_YEAR, 12, 31), (MAX_YEAR + 1, 1, 1), (MIN_YEAR - 1, 12, 31), (2026, 13, 1), (2026, 4, 31), (2026, 1, 0)];
    for (y, m, d) in cases {
        let expected = chrono::NaiveDate::from_ymd_opt(y, m, d).map(|x| x.num_days_from_ce());
        assert_eq!(day_of_ymd(y, m, d), expected, "{y}-{m}-{d}");
    }
}

#[test]
fn error_json_escapes_like_serde_json() {
    let err = RenderError::new(CODE_PARSE_ERROR, "a\"b\\c\nd\te\u{1}f\u{8}\u{c}\r\u{1f}é/".to_string());
    let json = err.to_json();
    assert_eq!(json, r#"{"code":"parse_error","error":"a\"b\\c\nd\te\u0001f\b\f\r\u001fé/"}"#);
    let v: serde_json::Value = serde_json::from_str(&json).unwrap();
    assert_eq!(v["error"].as_str().unwrap(), "a\"b\\c\nd\te\u{1}f\u{8}\u{c}\r\u{1f}é/");
}

#[test]
fn earliest_start_day_is_the_minimum_start() {
    let a = task_span(0, day(2026, 3, 5), None);
    let b = task_span(1, day(2026, 1, 9), None);
    let c = task_span(2, day(2026, 2, 1), None);
    assert_eq!(koyori_arc_core::render::earliest_start_day(&[a, b, c]), Some(day(2026, 1, 9)));
    assert_eq!(koyori_arc_core::render::earliest_start_day(&[]), None);
}
