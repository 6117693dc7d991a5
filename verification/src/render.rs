//! The limits the entry points enforce before anything is drawn, and the
//! refusals they answer with.
use vstd::prelude::*;
use crate::calendar::{checked_add_days, day_in_range};
use crate::display_list::constants::{chart_height_px, chart_width_px, CHART_CHROME_H_PX, CHART_CHROME_W_PX, PX_PER_DAY_PX, ROW_H_PX};
use crate::error::{RenderError, CODE_CANVAS_CAPACITY, CODE_INPUT_LIMIT};
use crate::graph::{GanttDep, GanttTask};
use crate::text::{decimal, push_decimal};

verus! {

/// Most tasks an entry point accepts.
pub const MAX_TASKS: usize = 10_000;
/// Most dependencies an entry point accepts.
pub const MAX_DEPS: usize = 100_000;
/// About 839 bytes per task at `MAX_TASKS`: room for realistic ids and
/// titles while refusing multi-megabyte fields.
pub const MAX_TASKS_JSON_BYTES: usize = 8 * 1024 * 1024;
/// About 167 bytes per dependency at `MAX_DEPS`.
pub const MAX_DEPS_JSON_BYTES: usize = 16 * 1024 * 1024;
/// Longest date range, in days, the SVG renderer draws.
pub const MAX_DATE_SPAN_DAYS: i64 = 3_650;
/// Longest Canvas edge that common browsers all support.
pub const MAX_CANVAS_SIDE_PX: usize = 16_384;
/// Largest Canvas area, keeping the RGBA backing store near 128 MiB.
pub const MAX_CANVAS_AREA_PX: usize = 32 * 1024 * 1024;
/// Most rows whose chart height fits in `MAX_CANVAS_SIDE_PX`.
pub const MAX_CANVAS_ROWS: usize = (MAX_CANVAS_SIDE_PX - CHART_CHROME_H_PX) / ROW_H_PX;
/// Most days whose chart width fits in `MAX_CANVAS_SIDE_PX`.
pub const MAX_CANVAS_DATE_SPAN_DAYS: i64 = 541;
/// Days the last rendered date must keep below the last representable date:
/// the weekly grid steps one full week past it.
pub const DATE_HEADROOM_DAYS: i64 = 7;

/// The Canvas row and day limits are the largest counts whose chart still
/// fits the side limit.
pub proof fn lemma_canvas_limits_are_tight()
    ensures
        chart_height_px(MAX_CANVAS_ROWS as int) <= MAX_CANVAS_SIDE_PX < chart_height_px(MAX_CANVAS_ROWS + 1),
        chart_width_px(MAX_CANVAS_DATE_SPAN_DAYS as int) <= MAX_CANVAS_SIDE_PX < chart_width_px(MAX_CANVAS_DATE_SPAN_DAYS + 1),
{
}

/// A refusal as (code, message), or none.
pub open spec fn refusal_of(res: Option<RenderError>) -> Option<(Seq<char>, Seq<char>)> {
    match res {
        Some(e) => Some(e@),
        None => None,
    }
}

/// `prefix`, the decimal `n`, then `suffix`.
pub open spec fn number_text(prefix: Seq<char>, n: nat, suffix: Seq<char>) -> Seq<char> {
    prefix + decimal(n) + suffix
}

fn number_message(prefix: &str, n: u64, suffix: &str) -> (res: String)
    ensures
        res@ == number_text(prefix@, n as nat, suffix@),
{
    let mut s = String::from_str(prefix);
    push_decimal(&mut s, n);
    s.append(suffix);
    s
}

fn two_number_message(prefix: &str, n1: u64, middle: &str, n2: u64, suffix: &str) -> (res: String)
    ensures
        res@ == number_text(prefix@, n1 as nat, middle@) + decimal(n2 as nat) + suffix@,
{
    let mut s = number_message(prefix, n1, middle);
    push_decimal(&mut s, n2);
    s.append(suffix);
    s
}

pub open spec fn tasks_json_refusal() -> (Seq<char>, Seq<char>) {
    (CODE_INPUT_LIMIT@, number_text("tasks JSON byte size exceeds limit ("@, MAX_TASKS_JSON_BYTES as nat, ")"@))
}

pub open spec fn deps_json_refusal() -> (Seq<char>, Seq<char>) {
    (CODE_INPUT_LIMIT@, number_text("dependencies JSON byte size exceeds limit ("@, MAX_DEPS_JSON_BYTES as nat, ")"@))
}

pub open spec fn task_count_refusal() -> (Seq<char>, Seq<char>) {
    (CODE_INPUT_LIMIT@, number_text("task count exceeds limit ("@, MAX_TASKS as nat, ")"@))
}

pub open spec fn dep_count_refusal() -> (Seq<char>, Seq<char>) {
    (CODE_INPUT_LIMIT@, number_text("dependency count exceeds limit ("@, MAX_DEPS as nat, ")"@))
}

pub open spec fn headroom_refusal() -> (Seq<char>, Seq<char>) {
    (
        CODE_INPUT_LIMIT@,
        number_text(
            "date is too close to the maximum supported date (needs "@,
            DATE_HEADROOM_DAYS as nat,
            " days of headroom past the last rendered date)"@,
        ),
    )
}

pub open spec fn date_span_refusal() -> (Seq<char>, Seq<char>) {
    (CODE_INPUT_LIMIT@, number_text("date range exceeds limit ("@, MAX_DATE_SPAN_DAYS as nat, " days)"@))
}

pub open spec fn canvas_rows_refusal() -> (Seq<char>, Seq<char>) {
    (
        CODE_CANVAS_CAPACITY@,
        number_text("canvas row count exceeds limit ("@, MAX_CANVAS_ROWS as nat, " rows / "@) + decimal(
            MAX_CANVAS_SIDE_PX as nat,
        ) + "px)"@,
    )
}

pub open spec fn canvas_span_refusal() -> (Seq<char>, Seq<char>) {
    (
        CODE_CANVAS_CAPACITY@,
        number_text("canvas date range exceeds limit ("@, MAX_CANVAS_DATE_SPAN_DAYS as nat, " days / "@) + decimal(
            MAX_CANVAS_SIDE_PX as nat,
        ) + "px)"@,
    )
}

pub open spec fn canvas_area_refusal() -> (Seq<char>, Seq<char>) {
    (CODE_CANVAS_CAPACITY@, number_text("canvas area exceeds limit ("@, MAX_CANVAS_AREA_PX as nat, " pixels)"@))
}

/// Which refusal, if any, the raw JSON sizes (in bytes) earn.
pub open spec fn raw_json_refusal(tasks_bytes: nat, deps_bytes: nat) -> Option<(Seq<char>, Seq<char>)> {
    if tasks_bytes > MAX_TASKS_JSON_BYTES {
        Some(tasks_json_refusal())
    } else if deps_bytes > MAX_DEPS_JSON_BYTES {
        Some(deps_json_refusal())
    } else {
        None
    }
}

/// Refuse JSON texts larger than the byte limits.
pub fn raw_json_limit_error(tasks_json: &str, deps_json: &str) -> (res: Option<RenderError>)
    ensures
        refusal_of(res) == raw_json_refusal(tasks_json.len() as nat, deps_json.len() as nat),
{
    if tasks_json.len() > MAX_TASKS_JSON_BYTES {
        return Some(RenderError::new(CODE_INPUT_LIMIT, number_message("tasks JSON byte size exceeds limit (", MAX_TASKS_JSON_BYTES as u64, ")")));
    }
    if deps_json.len() > MAX_DEPS_JSON_BYTES {
        return Some(RenderError::new(CODE_INPUT_LIMIT, number_message("dependencies JSON byte size exceeds limit (", MAX_DEPS_JSON_BYTES as u64, ")")));
    }
    None
}

/// Which refusal, if any, the task and dependency counts earn on every renderer.
pub open spec fn count_refusal(n_tasks: nat, n_deps: nat) -> Option<(Seq<char>, Seq<char>)> {
    if n_tasks > MAX_TASKS {
        Some(task_count_refusal())
    } else if n_deps > MAX_DEPS {
        Some(dep_count_refusal())
    } else {
        None
    }
}

/// Refuse more tasks or dependencies than any renderer accepts.
pub fn common_graph_limit_error(tasks: &[GanttTask], deps: &[GanttDep]) -> (res: Option<RenderError>)
    ensures
        refusal_of(res) == count_refusal(tasks@.len(), deps@.len()),
{
    if tasks.len() > MAX_TASKS {
        return Some(RenderError::new(CODE_INPUT_LIMIT, number_message("task count exceeds limit (", MAX_TASKS as u64, ")")));
    }
    if deps.len() > MAX_DEPS {
        return Some(RenderError::new(CODE_INPUT_LIMIT, number_message("dependency count exceeds limit (", MAX_DEPS as u64, ")")));
    }
    None
}

/// The last date the renderer touches for a task: its end (never before its
/// start), or the day after its start when it has no end; `None` when that
/// day is not representable.
pub open spec fn latest_date(t: GanttTask) -> Option<i32> {
    match t.end {
        Some(end) => Some(if end >= t.start { end } else { t.start }),
        None => if day_in_range(t.start + 1) {
            Some((t.start + 1) as i32)
        } else {
            None
        },
    }
}

/// A week past the task's last rendered date is still representable.
pub open spec fn has_headroom(t: GanttTask) -> bool {
    match latest_date(t) {
        Some(l) => day_in_range(l + DATE_HEADROOM_DAYS),
        None => false,
    }
}

pub open spec fn all_have_headroom(tasks: Seq<GanttTask>) -> bool {
    forall|i: int| 0 <= i < tasks.len() ==> #[trigger] has_headroom(tasks[i])
}

/// The earliest start.
pub open spec fn min_start(tasks: Seq<GanttTask>) -> int
    decreases tasks.len(),
{
    if tasks.len() <= 1 {
        tasks[0].start as int
    } else {
        let m = min_start(tasks.drop_last());
        if tasks.last().start < m {
            tasks.last().start as int
        } else {
            m
        }
    }
}

/// The earliest start is a start of some task, and no task starts earlier.
pub proof fn lemma_min_start_is_least(tasks: Seq<GanttTask>)
    requires
        tasks.len() > 0,
    ensures
        forall|i: int| 0 <= i < tasks.len() ==> min_start(tasks) <= #[trigger] tasks[i].start,
        exists|i: int| 0 <= i < tasks.len() && #[trigger] tasks[i].start == min_start(tasks),
    decreases tasks.len(),
{
    if tasks.len() == 1 {
        assert(tasks[0].start == min_start(tasks));
    } else {
        let rest = tasks.drop_last();
        lemma_min_start_is_least(rest);
        assert forall|i: int| 0 <= i < tasks.len() implies min_start(tasks) <= #[trigger] tasks[i].start by {
            if i < rest.len() {
                assert(rest[i] == tasks[i]);
            }
        }
        let j = choose|i: int| 0 <= i < rest.len() && #[trigger] rest[i].start == min_start(rest);
        assert(rest[j] == tasks[j]);
        assert(tasks[tasks.len() - 1] == tasks.last());
    }
}

/// The latest rendered date is some task's, and no task's is later.
pub proof fn lemma_max_latest_is_greatest(tasks: Seq<GanttTask>)
    requires
        tasks.len() > 0,
    ensures
        forall|i: int| 0 <= i < tasks.len() ==> #[trigger] latest_value(tasks[i]) <= max_latest(tasks),
        exists|i: int| 0 <= i < tasks.len() && #[trigger] latest_value(tasks[i]) == max_latest(tasks),
    decreases tasks.len(),
{
    if tasks.len() == 1 {
        assert(latest_value(tasks[0]) == max_latest(tasks));
    } else {
        let rest = tasks.drop_last();
        lemma_max_latest_is_greatest(rest);
        assert forall|i: int| 0 <= i < tasks.len() implies #[trigger] latest_value(tasks[i]) <= max_latest(tasks) by {
            if i < rest.len() {
                assert(rest[i] == tasks[i]);
            }
        }
        let j = choose|i: int| 0 <= i < rest.len() && #[trigger] latest_value(rest[i]) == max_latest(rest);
        assert(rest[j] == tasks[j]);
        assert(tasks[tasks.len() - 1] == tasks.last());
    }
}

/// The span counts the days from the earliest start to the latest rendered
/// date over all tasks, never less than zero: it is at least the distance
/// from any task's start to any task's last rendered date, and it is attained
/// by one such pair (or is zero).
pub proof fn lemma_span_days_covers_all_tasks(tasks: Seq<GanttTask>)
    ensures
        span_days(tasks) >= 0,
        forall|i: int, j: int|
            0 <= i < tasks.len() && 0 <= j < tasks.len() ==> #[trigger] latest_value(tasks[i]) - #[trigger] tasks[j].start
                <= span_days(tasks),
        tasks.len() > 0 && span_days(tasks) > 0 ==> exists|i: int, j: int|
            0 <= i < tasks.len() && 0 <= j < tasks.len() && #[trigger] latest_value(tasks[i]) - #[trigger] tasks[j].start
                == span_days(tasks),
{
    if tasks.len() > 0 {
        lemma_min_start_is_least(tasks);
        lemma_max_latest_is_greatest(tasks);
        let a = choose|i: int| 0 <= i < tasks.len() && #[trigger] latest_value(tasks[i]) == max_latest(tasks);
        let b = choose|i: int| 0 <= i < tasks.len() && #[trigger] tasks[i].start == min_start(tasks);
        assert(latest_value(tasks[a]) - tasks[b].start == max_latest(tasks) - min_start(tasks));
    }
}

/// The chart's day 0: the earliest start of any task, or none for no tasks.
pub fn earliest_start_day(tasks: &[GanttTask]) -> (r: Option<i32>)
    ensures
        tasks@.len() == 0 <==> r is None,
        r matches Some(d) ==> d == min_start(tasks@),
        r matches Some(d) ==> forall|i: int| 0 <= i < tasks@.len() ==> d <= #[trigger] tasks@[i].start,
        r matches Some(d) ==> exists|i: int| 0 <= i < tasks@.len() && #[trigger] tasks@[i].start == d,
{
    if tasks.len() > 0 {
        proof {
            lemma_min_start_is_least(tasks@);
        }
    }
    if tasks.len() == 0 {
        return None;
    }
    let mut m: i32 = tasks[0].start;
    let mut i: usize = 1;
    while i < tasks.len()
        invariant
            1 <= i <= tasks@.len(),
            m == min_start(tasks@.take(i as int)),
        decreases tasks@.len() - i,
    {
        proof {
            assert(tasks@.take(i + 1).drop_last() =~= tasks@.take(i as int));
        }
        if tasks[i].start < m {
            m = tasks[i].start;
        }
        i += 1;
    }
    proof {
        assert(tasks@.take(tasks@.len() as int) =~= tasks@);
    }
    Some(m)
}

/// The value of a task's last rendered date.
pub open spec fn latest_value(t: GanttTask) -> int {
    match latest_date(t) {
        Some(l) => l as int,
        None => t.start as int,
    }
}

/// The latest last rendered date.
pub open spec fn max_latest(tasks: Seq<GanttTask>) -> int
    decreases tasks.len(),
{
    if tasks.len() <= 1 {
        latest_value(tasks[0])
    } else {
        let m = max_latest(tasks.drop_last());
        if latest_value(tasks.last()) > m {
            latest_value(tasks.last())
        } else {
            m
        }
    }
}

/// Days from the earliest start to the latest rendered date, at least zero.
pub open spec fn span_days(tasks: Seq<GanttTask>) -> int {
    if tasks.len() == 0 {
        0
    } else if max_latest(tasks) - min_start(tasks) > 0 {
        max_latest(tasks) - min_start(tasks)
    } else {
        0
    }
}

pub fn latest_rendered_date(task: &GanttTask) -> (res: Option<i32>)
    ensures
        res == latest_date(*task),
{
    match task.end {
        Some(end) => Some(if end >= task.start { end } else { task.start }),
        None => checked_add_days(task.start, 1),
    }
}

/// Refuse tasks whose last rendered date lacks a week of headroom.
pub fn date_headroom_error(tasks: &[GanttTask]) -> (res: Option<RenderError>)
    ensures
        refusal_of(res) == (if all_have_headroom(tasks@) {
            None
        } else {
            Some(headroom_refusal())
        }),
{
    let mut i: usize = 0;
    let mut lacks_headroom = false;
    while i < tasks.len()
        invariant
            i <= tasks@.len(),
            lacks_headroom <==> exists|k: int| 0 <= k < i && !#[trigger] has_headroom(tasks@[k]),
        decreases tasks@.len() - i,
    {
        let ok = match latest_rendered_date(&tasks[i]) {
            Some(latest) => checked_add_days(latest, DATE_HEADROOM_DAYS).is_some(),
            None => false,
        };
        if !ok {
            lacks_headroom = true;
        }
        proof {
            if !ok {
                assert(!has_headroom(tasks@[i as int]));
            }
        }
        i += 1;
    }
    if lacks_headroom {
        Some(
            RenderError::new(
                CODE_INPUT_LIMIT,
                number_message(
                    "date is too close to the maximum supported date (needs ",
                    DATE_HEADROOM_DAYS as u64,
                    " days of headroom past the last rendered date)",
                ),
            ),
        )
    } else {
        None
    }
}

/// The days the chart spans, after refusing dates without headroom.
pub fn rendered_date_span_days(tasks: &[GanttTask]) -> (res: Result<i64, RenderError>)
    ensures
        match res {
            Ok(days) => all_have_headroom(tasks@) && days == span_days(tasks@),
            Err(e) => tasks@.len() > 0 && !all_have_headroom(tasks@) && e@ == headroom_refusal(),
        },
{
    if tasks.len() == 0 {
        return Ok(0);
    }
    match date_headroom_error(tasks) {
        Some(err) => {
            return Err(err);
        },
        None => {},
    }
    let mut min_s: i32 = tasks[0].start;
    let mut max_d: i32 = match latest_rendered_date(&tasks[0]) {
        Some(d) => d,
        None => tasks[0].start,
    };
    proof {
        assert(tasks@.subrange(0, 1).len() == 1);
        assert(tasks@.subrange(0, 1)[0] == tasks@[0]);
    }
    let mut i: usize = 1;
    while i < tasks.len()
        invariant
            1 <= i <= tasks@.len(),
            min_s == min_start(tasks@.subrange(0, i as int)),
            max_d == max_latest(tasks@.subrange(0, i as int)),
        decreases tasks@.len() - i,
    {
        proof {
            assert(tasks@.subrange(0, i + 1).drop_last() =~= tasks@.subrange(0, i as int));
            assert(tasks@.subrange(0, i + 1).last() == tasks@[i as int]);
        }
        if tasks[i].start < min_s {
            min_s = tasks[i].start;
        }
        let d = match latest_rendered_date(&tasks[i]) {
            Some(d) => d,
            None => tasks[i].start,
        };
        if d > max_d {
            max_d = d;
        }
        i += 1;
    }
    proof {
        assert(tasks@.subrange(0, tasks@.len() as int) =~= tasks@);
    }
    let span = max_d as i64 - min_s as i64;
    Ok(if span > 0 { span } else { 0 })
}

/// Which refusal, if any, the SVG entry point answers.
pub open spec fn svg_refusal(tasks: Seq<GanttTask>, n_deps: nat) -> Option<(Seq<char>, Seq<char>)> {
    if count_refusal(tasks.len(), n_deps) is Some {
        count_refusal(tasks.len(), n_deps)
    } else if !all_have_headroom(tasks) {
        Some(headroom_refusal())
    } else if span_days(tasks) > MAX_DATE_SPAN_DAYS {
        Some(date_span_refusal())
    } else {
        None
    }
}

/// Refuse what the SVG renderer does not draw.
pub fn svg_graph_limit_error(tasks: &[GanttTask], deps: &[GanttDep]) -> (res: Option<RenderError>)
    ensures
        refusal_of(res) == svg_refusal(tasks@, deps@.len()),
{
    match common_graph_limit_error(tasks, deps) {
        Some(err) => {
            return Some(err);
        },
        None => {},
    }
    let span_days = match rendered_date_span_days(tasks) {
        Ok(days) => days,
        Err(err) => {
            return Some(err);
        },
    };
    if span_days > MAX_DATE_SPAN_DAYS {
        return Some(RenderError::new(CODE_INPUT_LIMIT, number_message("date range exceeds limit (", MAX_DATE_SPAN_DAYS as u64, " days)")));
    }
    None
}

/// Which refusal, if any, the Canvas entry point answers: first every
/// refusal the SVG entry point would give, then the limits of the Canvas
/// backing store. The area is the product of the chart's width and height in
/// pixels; at the sizes that reach this test both are exact whole numbers.
pub open spec fn canvas_refusal(tasks: Seq<GanttTask>, n_deps: nat) -> Option<(Seq<char>, Seq<char>)> {
    if svg_refusal(tasks, n_deps) is Some {
        svg_refusal(tasks, n_deps)
    } else if tasks.len() > MAX_CANVAS_ROWS {
        Some(canvas_rows_refusal())
    } else if span_days(tasks) > MAX_CANVAS_DATE_SPAN_DAYS {
        Some(canvas_span_refusal())
    } else if chart_width_px(span_days(tasks)) * chart_height_px(tasks.len() as int) > MAX_CANVAS_AREA_PX {
        Some(canvas_area_refusal())
    } else {
        None
    }
}

/// Refuse what a Canvas backing store cannot hold.
pub fn canvas_graph_limit_error(tasks: &[GanttTask], deps: &[GanttDep]) -> (res: Option<RenderError>)
    ensures
        refusal_of(res) == canvas_refusal(tasks@, deps@.len()),
        refusal_of(res) matches Some(r) && r.0 == CODE_CANVAS_CAPACITY@ ==> svg_refusal(tasks@, deps@.len()) is None,
{
    proof {
        lemma_canvas_capacity_leaves_svg_drawable(tasks@, deps@.len());
    }
    match svg_graph_limit_error(tasks, deps) {
        Some(err) => {
            return Some(err);
        },
        None => {},
    }
    let span_days = match rendered_date_span_days(tasks) {
        Ok(days) => days,
        Err(err) => {
            return Some(err);
        },
    };
    if tasks.len() > MAX_CANVAS_ROWS {
        return Some(
            RenderError::new(
                CODE_CANVAS_CAPACITY,
                two_number_message("canvas row count exceeds limit (", MAX_CANVAS_ROWS as u64, " rows / ", MAX_CANVAS_SIDE_PX as u64, "px)"),
            ),
        );
    }
    if span_days > MAX_CANVAS_DATE_SPAN_DAYS {
        return Some(
            RenderError::new(
                CODE_CANVAS_CAPACITY,
                two_number_message(
                    "canvas date range exceeds limit (",
                    MAX_CANVAS_DATE_SPAN_DAYS as u64,
                    " days / ",
                    MAX_CANVAS_SIDE_PX as u64,
                    "px)",
                ),
            ),
        );
    }
    let width_px: u64 = span_days as u64 * PX_PER_DAY_PX as u64 + CHART_CHROME_W_PX as u64;
    let height_px: u64 = tasks.len() as u64 * ROW_H_PX as u64 + CHART_CHROME_H_PX as u64;
    proof {
        assert(width_px * height_px <= 16370 * 16360) by (nonlinear_arith)
            requires
                width_px <= 16370,
                height_px <= 16360,
        ;
    }
    if width_px * height_px > MAX_CANVAS_AREA_PX as u64 {
        return Some(RenderError::new(CODE_CANVAS_CAPACITY, number_message("canvas area exceeds limit (", MAX_CANVAS_AREA_PX as u64, " pixels)")));
    }
    None
}

/// Whatever the Canvas entry point accepts, the SVG entry point accepts too.
pub proof fn lemma_canvas_acceptance_implies_svg_acceptance(tasks: Seq<GanttTask>, n_deps: nat)
    ensures
        canvas_refusal(tasks, n_deps) is None ==> svg_refusal(tasks, n_deps) is None,
{
}

/// A `canvas_capacity` refusal leaves the SVG renderer able to draw the
/// chart, so a caller can always fall back to SVG on it.
pub proof fn lemma_canvas_capacity_leaves_svg_drawable(tasks: Seq<GanttTask>, n_deps: nat)
    ensures
        canvas_refusal(tasks, n_deps) matches Some(r) && r.0 == CODE_CANVAS_CAPACITY@ ==> svg_refusal(tasks, n_deps) is None,
{
    reveal_strlit("input_limit");
    reveal_strlit("canvas_capacity");
    assert(CODE_INPUT_LIMIT@.len() != CODE_CANVAS_CAPACITY@.len());
}

/// When the Canvas entry point refuses for an input limit (rather than for the
/// backing store's capacity), the SVG entry point answers the same refusal.
pub proof fn lemma_canvas_input_limit_matches_svg(tasks: Seq<GanttTask>, n_deps: nat)
    ensures
        canvas_refusal(tasks, n_deps) matches Some(r) && r.0 == CODE_INPUT_LIMIT@
            ==> svg_refusal(tasks, n_deps) == canvas_refusal(tasks, n_deps),
{
    reveal_strlit("input_limit");
    reveal_strlit("canvas_capacity");
    assert(CODE_INPUT_LIMIT@.len() != CODE_CANVAS_CAPACITY@.len());
}

} // verus!
