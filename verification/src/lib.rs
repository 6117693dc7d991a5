//! Gantt chart rendering core: row assignment from the dependency graph, the
//! display-list vocabulary, the SVG, Canvas and native writers, the input
//! limits of the entry points, and benchmark fixtures.

pub mod backend;
pub mod bench_fixtures;
pub mod calendar;
pub mod display_list;
pub mod error;
pub mod graph;
pub mod graph_reach;
pub mod layout;
pub mod render;
pub mod scc;
pub mod text;

pub use backend::canvas::CanvasBackend;
pub use backend::command_buffer::{CommandBuffer, DrawOp};
pub use backend::native::{NativeBackend, NativeDrawList, NativeDrawOp};
pub use backend::svg::{empty_svg, render_svg_from_list, SvgBackend};
pub use display_list::constants::{DOM_CAP, HEADER_H_PX, ROW_H_PX};
pub use display_list::types::{
    BBox, ChartMetadata, ColorId, DisplayList, GroupPrim, Layer, LayerKind, LinePrim, LineSemantic, Palette, PathPrim,
    PathSemantic, PolygonPrim, PolygonSemantic, PolylinePrim, PolylineSemantic, Primitive, ProgressTier, RectPrim,
    RectSemantic, RoundRectPrim, RoundRectSemantic, TaskBBox, TextAnchor, TextBaseline, TextPrim, TextSemantic, Viewport,
};
pub use error::{RenderError, CODE_CANVAS_CAPACITY, CODE_INPUT_LIMIT, CODE_PARSE_ERROR, CODE_SERIALIZE_ERROR};
pub use graph::{GanttDep, GanttGraph, GanttTask};
pub use layout::{assign_rows, RowLayout};
