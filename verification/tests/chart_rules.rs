use chrono::{Datelike, NaiveDate};
use koyori_arc_core::display_list::arrows::dependency_arrow_path;
use koyori_arc_core::calendar::{is_representable_day, parse_today, weekday_from_monday, DATE_MAX_DAY, DATE_MIN_DAY};
use koyori_arc_core::display_list::builder::{
    chart_days, grid_label, grid_line_offsets, progress_label, task_tooltip, today_marker_x, weekly_grid_offsets,
};
use koyori_arc_core::GanttTask;

fn day(y: i32, m: u32, d: u32) -> i32 {
    NaiveDate::from_ymd_opt(y, m, d).unwrap().num_days_from_ce()
}

fn task_on(id: &str, start: i32, end: Option<i32>) -> GanttTask {
    GanttTask { id: id.to_string(), title: id.to_string(), progress_pct: 0, start, end }
}

#[test]
fn arrow_to_a_later_task_drops_and_bends_right() {
    let epoch = day(2024, 1, 1);
    let blocker = task_on("a", epoch, Some(epoch + 4));
    let blocked = task_on("b", epoch + 5, Some(epoch + 8));
    let d = dependency_arrow_path(&blocker, &blocked, 0, 1, epoch);
    assert_eq!(d, "M 170 60 V 86 a 4 4 0 0 0 4 4 L 257 90 m -4 -4 l 4 4 l -4 4");
}

#[test]
fn arrow_to_an_earlier_task_backs_off_and_loops_round() {
    let epoch = day(2024, 1, 1);
    let blocker = task_on("a", epoch + 5, Some(epoch + 9));
    let blocked = task_on("b", epoch, Some(epoch + 3));
    let d = dependency_arrow_path(&blocker, &blocked, 1, 0, epoch);
    assert_eq!(d, "M 280 100 v 6 a 4 4 0 0 1 -4 4 H 100 a 4 4 0 0 1 -4 -4 V 54 a 4 4 0 0 1 4 -4 L 107 50 m -4 -4 l 4 4 l -4 4");
}

#[test]
fn arrow_to_the_next_day_backs_off_from_the_blocker_centre() {
    let epoch = day(2024, 1, 1);
    // The blocker spans two days (60px); the blocked task starts a day later.
    let blocker = task_on("a", epoch, Some(epoch + 2));
    let blocked = task_on("b", epoch + 1, Some(epoch + 3));
    let d = dependency_arrow_path(&blocker, &blocked, 0, 1, epoch);
    // The centre 150 backs off one step to 140, then the final step gives 130.
    assert_eq!(d, "M 130 60 V 86 a 4 4 0 0 0 4 4 L 137 90 m -4 -4 l 4 4 l -4 4");
}

#[test]
fn chart_days_is_the_latest_end_and_never_negative() {
    let epoch = day(2024, 1, 1);
    let tasks = vec![task_on("a", epoch, Some(epoch + 4)), task_on("b", epoch + 10, None), task_on("c", epoch + 2, Some(epoch + 7))];
    assert_eq!(chart_days(&tasks, epoch), 11);
    assert_eq!(chart_days(&[], epoch), 0);
    let before = vec![task_on("a", epoch - 9, Some(epoch - 5))];
    assert_eq!(chart_days(&before, epoch), 0);
}

#[test]
fn today_marker_stands_only_on_the_chart() {
    let epoch = day(2024, 1, 1);
    assert_eq!(today_marker_x(Some(epoch + 3), epoch, 10), Some(210));
    assert_eq!(today_marker_x(Some(epoch), epoch, 10), Some(120));
    assert_eq!(today_marker_x(Some(epoch + 10), epoch, 10), Some(420));
    assert_eq!(today_marker_x(Some(epoch + 11), epoch, 10), None);
    assert_eq!(today_marker_x(Some(epoch - 1), epoch, 10), None);
    assert_eq!(today_marker_x(None, epoch, 10), None);
}

#[test]
fn grid_lines_fall_weekly_from_the_first_monday() {
    // 2024-01-03 is a Wednesday; the first Monday is 2024-01-08.
    let epoch = day(2024, 1, 3);
    assert_eq!(grid_line_offsets(epoch, 20), vec![5, 12, 19]);
    assert_eq!(grid_line_offsets(epoch, 4), Vec::<i64>::new());
    // A Monday epoch starts the grid at offset 0.
    let monday = day(2024, 1, 8);
    assert_eq!(grid_line_offsets(monday, 14), vec![0, 7, 14]);
}

#[test]
fn weekly_grid_steps_by_seven_and_stops_at_the_calendar_end() {
    let epoch = day(2024, 1, 3);
    assert_eq!(weekly_grid_offsets(epoch + 5, epoch, 20), vec![5, 12, 19]);
    assert_eq!(weekly_grid_offsets(epoch + 5, epoch, 19), vec![5, 12, 19]);
    assert_eq!(weekly_grid_offsets(epoch + 5, epoch, 18), vec![5, 12]);
    assert_eq!(weekly_grid_offsets(DATE_MAX_DAY, DATE_MAX_DAY - 3, 100), vec![3]);
    assert_eq!(weekly_grid_offsets(DATE_MAX_DAY + 1, 0, 1_000_000_000), Vec::<i64>::new());
}

#[test]
fn arrow_into_a_task_starting_inside_the_blocker_keeps_a_rounded_elbow() {
    let epoch = day(2026, 6, 1);
    let design = task_on("t1", day(2026, 6, 1), Some(day(2026, 6, 4)));
    let backend = task_on("t2", day(2026, 6, 2), Some(day(2026, 6, 8)));
    let d = dependency_arrow_path(&design, &backend, 0, 1, epoch);
    assert!(d.contains("a 4 4"), "expected a non-degenerate rounded elbow, got: {d}");
    assert!(d.ends_with("m -4 -4 l 4 4 l -4 4"));
    assert_eq!(d, "M 125 60 V 86 a 4 4 0 0 0 4 4 L 137 90 m -4 -4 l 4 4 l -4 4");
}

#[test]
fn tooltip_names_title_dates_and_progress() {
    let start = day(2026, 6, 1);
    assert_eq!(task_tooltip("Design", start, Some(day(2026, 6, 4)), 100), "Design: 2026-06-01 – 2026-06-04 (100%)");
    assert_eq!(task_tooltip("Build", start, None, 50), "Build: 2026-06-01 – 2026-06-02 (50%)");
    assert_eq!(task_tooltip("Odd", start, Some(start), -5), "Odd: 2026-06-01 – 2026-06-01 (0%)");
    assert_eq!(task_tooltip("Last", DATE_MAX_DAY, None, 250), "Last: +262142-12-31 – +262142-12-31 (100%)");
}

#[test]
fn progress_label_is_clamped_percent() {
    assert_eq!(progress_label(0), "0%");
    assert_eq!(progress_label(42), "42%");
    assert_eq!(progress_label(101), "100%");
    assert_eq!(progress_label(-1), "0%");
}

#[test]
fn grid_label_is_month_slash_day() {
    assert_eq!(grid_label(day(2024, 1, 8)), "1/8");
    assert_eq!(grid_label(day(2026, 12, 31)), "12/31");
    assert_eq!(grid_label(DATE_MIN_DAY), "1/1");
}

#[test]
fn today_text_parses_as_chrono_reads_it() {
    assert_eq!(parse_today(Some("2026-06-16".to_string())), Some(day(2026, 6, 16)));
    assert_eq!(parse_today(Some("2026-13-01".to_string())), None);
    assert_eq!(parse_today(Some("not a date".to_string())), None);
    assert_eq!(parse_today(None), None);
    assert_eq!(parse_today(Some("2024-02-29".to_string())), Some(day(2024, 2, 29)));
    assert_eq!(parse_today(Some("2023-02-29".to_string())), None);
}

#[test]
fn weekday_counts_from_monday_like_chrono() {
    for d in [day(2024, 1, 8), day(2024, 1, 3), day(1, 1, 1), day(-5, 3, 7), DATE_MIN_DAY, DATE_MAX_DAY, 0, -1] {
        let date = NaiveDate::from_num_days_from_ce_opt(d).unwrap();
        assert_eq!(weekday_from_monday(d), date.weekday().num_days_from_monday(), "day {d}");
    }
    assert!(is_representable_day(DATE_MAX_DAY));
    assert!(!is_representable_day(DATE_MAX_DAY + 1));
    assert!(!is_representable_day(DATE_MIN_DAY - 1));
}
