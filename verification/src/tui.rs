//! The interactive screen's own rules: its modes and labels, the table's columns,
//! the arithmetic behind the summary surface, how keys move it, and the text
//! and tones of its cells and surfaces. Drawing belongs to the binary.

pub mod types;
pub mod summary;
pub mod columns;
pub mod rows;
pub mod legend;
pub mod panes;
pub mod theme;
pub mod heat;
pub mod screen;
pub mod cells;
pub mod surfaces;
pub mod heat_grid;
