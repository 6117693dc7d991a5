//! Writers that turn a display list into something a renderer replays.
pub mod canvas;
pub mod command_buffer;
pub mod markup_scan;
pub mod native;
pub mod svg;
