//! The display list: the renderer-neutral description of a chart.
pub mod arrows;
pub mod builder;
pub mod constants;
pub mod types;
