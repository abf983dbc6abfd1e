//! Layout and redraw engine for streams of records and aggregate tables.
pub mod text;
pub mod layout;
pub mod renderer;
