#![verifier::loop_isolation(false)]
//! A text-rendering engine for fixed-size character-cell grids.
//!
//! The pipeline turns a sequence of styled text spans into painted grid
//! cells in four stages: a styled grapheme stream (`grapheme`), line
//! composition by truncation or word wrapping (`reflow`), selection of a
//! scrollable window of composed lines anchored at the top or bottom of
//! the content (`paragraph`), and painting each visible line into a cell
//! buffer with a horizontal alignment (`buffer`, `paragraph`).

pub mod buffer;
pub mod grapheme;
pub mod laws;
pub mod layout;
pub mod paragraph;
pub mod reflow;
pub mod style;
