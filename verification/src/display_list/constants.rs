//! The chart's integer dimensions, limits and colours. The pixel sizes are
//! whole numbers; the geometry that scales them works in floating point
//! outside this crate and reads them from here.
use vstd::prelude::*;

verus! {

/// Height of one task row.
pub const ROW_H_PX: usize = 40;
/// Height of a task bar.
pub const BAR_H_PX: usize = 20;
/// Width of one day.
pub const PX_PER_DAY_PX: usize = 30;
/// Width of the label column.
pub const LABEL_W_PX: usize = 120;
/// Height of the date header.
pub const HEADER_H_PX: usize = 30;
/// Height of the legend.
pub const LEGEND_H_PX: usize = 40;
/// Free space below the last row.
pub const CHART_BOTTOM_PADDING_PX: usize = 10;
/// Free space right of the last day.
pub const CHART_RIGHT_PADDING_PX: usize = 20;
/// Height a chart spends on everything that is not a row.
pub const CHART_CHROME_H_PX: usize = HEADER_H_PX + LEGEND_H_PX + CHART_BOTTOM_PADDING_PX;
/// Width a chart spends on everything that is not a day.
pub const CHART_CHROME_W_PX: usize = LABEL_W_PX + CHART_RIGHT_PADDING_PX;
/// Space above and below a bar inside its row.
pub const BAR_PAD_PX: usize = (ROW_H_PX - BAR_H_PX) / 2;
/// Vertical space of a row not taken by its bar.
pub const ROW_PADDING_PX: usize = ROW_H_PX - BAR_H_PX;
/// How far left of the blocked bar a dependency arrow ends.
pub const ARROW_LEAD_PX: usize = 13;
/// Radius of the bends of a dependency arrow.
pub const ARROW_CURVE_PX: usize = 4;
/// Size of a dependency arrow's head.
pub const ARROW_HEAD_PX: usize = 4;
/// Step by which a dependency arrow backs off from its blocker's centre.
pub const DEP_BACKOFF_STEP_PX: usize = 10;
/// Longest row label, in characters, before it is cut with an ellipsis.
pub const TITLE_MAX_CHARS: usize = 16;
/// Visible rows plus or minus this many rows are drawn when scrolling.
pub const ROW_BUFFER: u32 = 2;
/// Design target for the number of DOM elements of a virtualized chart.
pub const DOM_CAP: u32 = 500;
/// Most elements one row contributes.
pub const ELEMS_PER_ROW_MAX: u32 = 15;
/// Elements of everything that is not a row.
pub const ELEMS_CHROME: u32 = 200;
/// Weight of the progress label on a bar.
pub const PROGRESS_LABEL_FONT_WEIGHT: u16 = 600;
/// Font weight of text that names none of its own.
pub const DEFAULT_FONT_WEIGHT: u16 = 400;
/// Font size of text that names none of its own, the size the SVG root sets.
pub const DEFAULT_FONT_SIZE_PX: usize = 12;
/// Dash pattern of the progress status line.
pub const PROGRESS_LINE_DASH: &'static str = "6,3";

pub const COLOR_BAR_BG: &'static str = "#d1d5db";
pub const COLOR_TIER_LOW: &'static str = "#f59e0b";
pub const COLOR_TIER_MID: &'static str = "#6366f1";
pub const COLOR_TIER_HIGH: &'static str = "#0ea5e9";
pub const COLOR_TIER_DONE: &'static str = "#22c55e";
pub const COLOR_TODAY: &'static str = "#f59e0b";
pub const COLOR_HEADER_BG: &'static str = "#f3f4f6";

/// Height of a chart of `rows` rows.
pub open spec fn chart_height_px(rows: int) -> int {
    rows * ROW_H_PX + CHART_CHROME_H_PX
}

/// Width of a chart spanning `days` days.
pub open spec fn chart_width_px(days: int) -> int {
    days * PX_PER_DAY_PX + CHART_CHROME_W_PX
}

} // verus!
