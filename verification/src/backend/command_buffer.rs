//! Compact draw commands for Canvas2D replay. Coordinates are generic; the
//! palette travels with the commands so the colour tags can be resolved.
use vstd::prelude::*;
use crate::display_list::types::Palette;

verus! {

/// The commands of one chart.
#[derive(Debug, Clone, PartialEq)]
pub struct CommandBuffer<C> {
    pub viewport_width: C,
    pub viewport_height: C,
    pub ops: Vec<DrawOp<C>>,
    pub palette: Palette,
}

/// One draw command; `color_id` is the colour's tag.
#[derive(Debug, Clone, PartialEq)]
pub enum DrawOp<C> {
    FillRect { x: C, y: C, w: C, h: C, color_id: u8, radius: C },
    StrokePath { d: String, color_id: u8, width: C },
    StrokePolyline { points: Vec<(C, C)>, color_id: u8, width: C, dash: Option<String> },
    FillPolygon { points: Vec<(C, C)>, color_id: u8 },
    DrawText { x: C, y: C, text: String, color_id: u8, anchor: u8, size: C, weight: u16 },
    GroupStart { task_id: Option<String> },
    GroupEnd,
}

} // verus!
