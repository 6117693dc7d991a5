//! The decisions of the chart builder that are not geometry: how a row
//! label is shortened, which colour a progress band gets, which tasks are
//! milestones, and which rows and arrows a scroll window keeps.
use vstd::prelude::*;
use crate::calendar::{
    checked_add_days, civil_day, day_in_range, format_iso_date, is_date_text, is_valid_ymd, weekday_from_monday, weekday_of_day,
    ymd_of_day, DATE_MAX_DAY, DATE_MIN_DAY,
};
use crate::display_list::arrows::end_offset;
use crate::backend::canvas::color_tag;
use crate::display_list::constants::{
    chart_width_px, CHART_CHROME_W_PX, COLOR_BAR_BG, COLOR_TIER_DONE, COLOR_TIER_HIGH, COLOR_TIER_LOW, COLOR_TIER_MID, LABEL_W_PX,
    PX_PER_DAY_PX,
};
use crate::display_list::types::{standard_color, tier_of, ColorId, ProgressTier};
use crate::graph::GanttTask;
use crate::text::{decimal, push_char, push_decimal};

verus! {

/// The ellipsis that ends a shortened label.
pub const ELLIPSIS: char = '…';

/// A label of at most `max_chars` characters: the title itself when it
/// fits, else its first `max_chars - 1` characters and an ellipsis.
pub open spec fn truncated(s: Seq<char>, max_chars: nat) -> Seq<char> {
    if s.len() <= max_chars {
        s
    } else {
        let keep: int = if max_chars >= 1 { max_chars - 1 } else { 0 };
        s.subrange(0, keep).push(ELLIPSIS)
    }
}

pub fn truncate_title(s: &str, max_chars: usize) -> (res: String)
    ensures
        res@ == truncated(s@, max_chars as nat),
{
    let char_count = s.unicode_len();
    if char_count <= max_chars {
        String::from_str(s)
    } else {
        let keep = if max_chars >= 1 { max_chars - 1 } else { 0 };
        let mut out = String::from_str(s.substring_char(0, keep));
        push_char(&mut out, ELLIPSIS);
        out
    }
}

/// A task that ends on the day it starts is drawn as a milestone.
pub fn is_zero_duration(task: &GanttTask) -> (res: bool)
    ensures
        res == (task.end == Some(task.start)),
{
    match task.end {
        Some(end) => end == task.start,
        None => false,
    }
}

/// The colour a progress band is filled with.
pub open spec fn tier_color(tier: ProgressTier) -> ColorId {
    match tier {
        ProgressTier::NotStarted => ColorId::BarBg,
        ProgressTier::Low => ColorId::TierLow,
        ProgressTier::Mid => ColorId::TierMid,
        ProgressTier::High => ColorId::TierHigh,
        ProgressTier::Done => ColorId::TierDone,
    }
}

pub fn tier_fill_color(tier: ProgressTier) -> (res: ColorId)
    ensures
        res == tier_color(tier),
{
    match tier {
        ProgressTier::NotStarted => ColorId::BarBg,
        ProgressTier::Low => ColorId::TierLow,
        ProgressTier::Mid => ColorId::TierMid,
        ProgressTier::High => ColorId::TierHigh,
        ProgressTier::Done => ColorId::TierDone,
    }
}

/// A bar's progress band is filled with the colour of its achievement band:
/// nothing done keeps the background grey, 1–33% amber, 34–66% indigo,
/// 67–99% sky blue, 100% green (the standard palette's colours, the ones the
/// legend shows for each band).
pub proof fn lemma_band_fill_colours(pct: int)
    requires
        0 <= pct <= 100,
    ensures
        standard_color(tier_color(tier_of(pct))) == (if pct == 0 {
            COLOR_BAR_BG@
        } else if pct <= 33 {
            COLOR_TIER_LOW@
        } else if pct <= 66 {
            COLOR_TIER_MID@
        } else if pct <= 99 {
            COLOR_TIER_HIGH@
        } else {
            COLOR_TIER_DONE@
        }),
{
}

/// The fill of a band is the band's own role: its tag is the band's place
/// among the bands, counted from "not started" as 0 to "done" as 4, so
/// higher bands never share or swap colours.
pub proof fn lemma_band_fill_tag_is_band_order(pct: int)
    requires
        0 <= pct <= 100,
    ensures
        color_tag(tier_color(tier_of(pct))) == (if pct == 0 {
            0int
        } else if pct <= 33 {
            1int
        } else if pct <= 66 {
            2int
        } else if pct <= 99 {
            3int
        } else {
            4int
        }),
        forall|p: int, q: int|
            0 <= p <= 100 && 0 <= q <= 100 && p <= q ==> color_tag(#[trigger] tier_color(tier_of(p))) <= color_tag(
                #[trigger] tier_color(tier_of(q)),
            ),
{
}

/// `row` lies in the inclusive window `[first, last]`; every row does when
/// there is no window.
pub open spec fn in_window(row: int, window: Option<(usize, usize)>) -> bool {
    match window {
        None => true,
        Some((first, last)) => first <= row <= last,
    }
}

pub fn row_in_window(row: usize, window: Option<(usize, usize)>) -> (res: bool)
    ensures
        res == in_window(row as int, window),
{
    match window {
        None => true,
        Some((first, last)) => row >= first && row <= last,
    }
}

/// An arrow is kept when either of its ends lies in the window.
pub fn dep_incident_to_window(from_row: usize, to_row: usize, window: Option<(usize, usize)>) -> (res: bool)
    ensures
        res == (in_window(from_row as int, window) || in_window(to_row as int, window)),
{
    match window {
        None => true,
        Some((first, last)) => (from_row >= first && from_row <= last) || (to_row >= first && to_row <= last),
    }
}

/// The number of days the chart spans: the latest end of any task, counted
/// from `epoch`, and never less than zero.
pub open spec fn chart_span(tasks: Seq<GanttTask>, epoch: int) -> int
    decreases tasks.len(),
{
    if tasks.len() == 0 {
        0
    } else {
        let rest = chart_span(tasks.drop_last(), epoch);
        let e = end_offset(tasks.last(), epoch);
        if e > rest {
            e
        } else {
            rest
        }
    }
}

pub fn chart_days(tasks: &[GanttTask], epoch: i32) -> (days: i64)
    ensures
        days == chart_span(tasks@, epoch as int),
{
    let mut days: i64 = 0;
    let mut i: usize = 0;
    while i < tasks.len()
        invariant
            i <= tasks@.len(),
            days == chart_span(tasks@.take(i as int), epoch as int),
            0 <= days <= 0x1_0000_0001,
        decreases tasks@.len() - i,
    {
        let e = tasks[i].end_days(epoch);
        proof {
            assert(tasks@.take(i + 1).drop_last() =~= tasks@.take(i as int));
        }
        if e > days {
            days = e;
        }
        i += 1;
    }
    proof {
        assert(tasks@.take(tasks@.len() as int) =~= tasks@);
    }
    days
}

/// Where the today marker stands: its pixel column when `today` falls on the
/// chart (`days` wide, day 0 being `epoch`), else nowhere.
pub open spec fn today_column(today: Option<i32>, epoch: int, days: int) -> Option<int> {
    match today {
        Some(t) => {
            let x = LABEL_W_PX + (t - epoch) * PX_PER_DAY_PX;
            if LABEL_W_PX <= x <= chart_width_px(days) {
                Some(x)
            } else {
                None
            }
        },
        None => None,
    }
}

pub fn today_marker_x(today: Option<i32>, epoch: i32, days: i64) -> (x: Option<i64>)
    ensures
        match x {
            Some(v) => today_column(today, epoch as int, days as int) == Some(v as int),
            None => today_column(today, epoch as int, days as int) is None,
        },
{
    match today {
        Some(t) => {
            let diff: i128 = t as i128 - epoch as i128;
            assert(-0x1_0000_0000 < diff < 0x1_0000_0000);
            let day_px: i128 = PX_PER_DAY_PX as i128;
            assert(day_px == 30);
            let x: i128 = LABEL_W_PX as i128 + diff * day_px;
            let width: i128 = days as i128 * day_px + CHART_CHROME_W_PX as i128;
            if x >= LABEL_W_PX as i128 && x <= width {
                Some(x as i64)
            } else {
                None
            }
        },
        None => None,
    }
}

/// The first Monday on or after `day`, if the calendar reaches one.
pub open spec fn first_monday(day: int) -> Option<int>
    decreases DATE_MAX_DAY + 1 - day,
{
    if !day_in_range(day) {
        None
    } else if weekday_of_day(day) == 0 {
        Some(day)
    } else {
        first_monday(day + 1)
    }
}

/// Offsets from `epoch` of `monday` and each week after it, while they stay
/// within `days` and within the calendar.
pub open spec fn weekly_offsets(monday: int, epoch: int, days: int) -> Seq<int>
    decreases DATE_MAX_DAY + 7 - monday,
{
    if !day_in_range(monday) || monday - epoch > days {
        Seq::empty()
    } else {
        seq![monday - epoch] + weekly_offsets(monday + 7, epoch, days)
    }
}

/// The vertical grid: one line a week, from the first Monday on or after
/// `epoch`, for a chart `days` days wide.
pub open spec fn grid_offsets(epoch: int, days: int) -> Seq<int> {
    match first_monday(epoch) {
        Some(monday) => weekly_offsets(monday, epoch, days),
        None => Seq::empty(),
    }
}

/// Day offsets from `epoch` of the weekly grid lines.
pub fn grid_line_offsets(epoch: i32, days: i64) -> (offsets: Vec<i64>)
    requires
        day_in_range(epoch as int),
    ensures
        offsets@.map_values(|o: i64| o as int) == grid_offsets(epoch as int, days as int),
{
    let mut day: i32 = epoch;
    loop
        invariant
            day_in_range(day as int),
            first_monday(day as int) == first_monday(epoch as int),
        ensures
            day_in_range(day as int),
            first_monday(day as int) == first_monday(epoch as int),
            weekday_of_day(day as int) == 0,
        decreases DATE_MAX_DAY - day,
    {
        if weekday_from_monday(day) == 0 {
            break;
        }
        match checked_add_days(day, 1) {
            Some(next) => {
                day = next;
            },
            None => {
                let none: Vec<i64> = Vec::new();
                proof {
                    assert(first_monday(day + 1) is None);
                    assert(none@.map_values(|o: i64| o as int) =~= Seq::<int>::empty());
                }
                return none;
            },
        }
    }
    weekly_grid_offsets(day, epoch, days)
}

/// Day offsets from `epoch` of a grid line on `monday` and on each week
/// after it, up to `days`.
pub fn weekly_grid_offsets(monday: i32, epoch: i32, days: i64) -> (offsets: Vec<i64>)
    ensures
        offsets@.map_values(|o: i64| o as int) == weekly_offsets(monday as int, epoch as int, days as int),
{
    let mut offsets: Vec<i64> = Vec::new();
    if !(DATE_MIN_DAY <= monday && monday <= DATE_MAX_DAY) {
        proof {
            assert(offsets@.map_values(|o: i64| o as int) =~= Seq::<int>::empty());
        }
        return offsets;
    }
    let mut day: i32 = monday;
    loop
        invariant
            day_in_range(day as int),
            offsets@.map_values(|o: i64| o as int) + weekly_offsets(day as int, epoch as int, days as int)
                == weekly_offsets(monday as int, epoch as int, days as int),
        decreases DATE_MAX_DAY - day,
    {
        let offset: i64 = day as i64 - epoch as i64;
        if offset > days {
            proof {
                assert(weekly_offsets(day as int, epoch as int, days as int) =~= Seq::<int>::empty());
                assert(offsets@.map_values(|o: i64| o as int) + Seq::<int>::empty() =~= offsets@.map_values(|o: i64| o as int));
            }
            return offsets;
        }
        let ghost before = offsets@.map_values(|o: i64| o as int);
        offsets.push(offset);
        proof {
            assert(offsets@.map_values(|o: i64| o as int) =~= before.push(offset as int));
            vstd::seq_lib::lemma_concat_associative(before, seq![offset as int], weekly_offsets(day + 7, epoch as int, days as int));
            assert(before.push(offset as int) =~= before + seq![offset as int]);
        }
        match checked_add_days(day, 7) {
            Some(next) => {
                day = next;
            },
            None => {
                proof {
                    assert(weekly_offsets(day + 7, epoch as int, days as int) =~= Seq::<int>::empty());
                    let now = offsets@.map_values(|o: i64| o as int);
                    assert(now + Seq::<int>::empty() =~= now);
                }
                return offsets;
            },
        }
    }
}

/// Progress in percent, held to 0 through 100.
pub open spec fn clamped_pct(pct: int) -> int {
    if pct < 0 {
        0
    } else if pct > 100 {
        100
    } else {
        pct
    }
}

/// The `NN%` label of a task's progress.
pub open spec fn pct_label_text(pct: int) -> Seq<char> {
    decimal(clamped_pct(pct) as nat) + "%"@
}

pub fn progress_label(pct: i16) -> (res: String)
    ensures
        res@ == pct_label_text(pct as int),
{
    let p: i16 = if pct < 0 {
        0
    } else if pct > 100 {
        100
    } else {
        pct
    };
    let mut s = String::new();
    push_decimal(&mut s, p as u64);
    s.append("%");
    s
}

/// The last day a tooltip names: the end, or for a task without one the day
/// after its start, or the start itself where the calendar ends.
pub open spec fn end_or_next(start: int, end: Option<i32>) -> int {
    match end {
        Some(e) => e as int,
        None => if day_in_range(start + 1) {
            start + 1
        } else {
            start
        },
    }
}

/// A bar's hover text: title, the texts of its first and last day, and
/// progress.
pub open spec fn tooltip_text(title: Seq<char>, first: Seq<char>, last: Seq<char>, pct: int) -> Seq<char> {
    title + ": "@ + first + " – "@ + last + " ("@ + pct_label_text(pct) + ")"@
}

pub fn task_tooltip(title: &str, start: i32, end: Option<i32>, pct: i16) -> (res: String)
    requires
        day_in_range(start as int),
        end matches Some(e) ==> day_in_range(e as int),
    ensures
        exists|first: Seq<char>, last: Seq<char>|
            is_date_text(first, start as int) && is_date_text(last, end_or_next(start as int, end)) && res@ == tooltip_text(
                title@,
                first,
                last,
                pct as int,
            ),
{
    let last: i32 = match end {
        Some(e) => e,
        None => match checked_add_days(start, 1) {
            Some(next) => next,
            None => start,
        },
    };
    let first_text = format_iso_date(start);
    let last_text = format_iso_date(last);
    let label = progress_label(pct);
    let mut s = String::from_str(title);
    s.append(": ");
    s.append(first_text.as_str());
    s.append(" – ");
    s.append(last_text.as_str());
    s.append(" (");
    s.append(label.as_str());
    s.append(")");
    proof {
        assert(s@ =~= tooltip_text(title@, first_text@, last_text@, pct as int));
    }
    s
}

/// The `M/D` label of a weekly grid line: month and day of the date, without
/// leading zeros.
pub fn grid_label(day: i32) -> (res: String)
    requires
        day_in_range(day as int),
    ensures
        exists|y: int, m: int, d: int|
            #![trigger civil_day(y, m, d)]
            is_valid_ymd(y, m, d) && civil_day(y, m, d) == day && res@ == decimal(m as nat) + "/"@ + decimal(d as nat),
{
    let (y, m, d) = ymd_of_day(day);
    let mut s = String::new();
    push_decimal(&mut s, m as u64);
    s.append("/");
    push_decimal(&mut s, d as u64);
    proof {
        assert(s@ =~= decimal(m as nat) + "/"@ + decimal(d as nat));
        assert(civil_day(y as int, m as int, d as int) == day);
    }
    s
}

} // verus!
