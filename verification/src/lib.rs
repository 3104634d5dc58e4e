//! A single logical line of a terminal message widget.
//!
//! A [`line::Line`] stores visible text interleaved with inline style
//! directives (colors, bold, reset), reports how many terminal rows the text
//! occupies when word-wrapped to a given width, and renders itself as a list
//! of terminal cells, splitting at whitespace and skipping rows above a
//! scroll offset.

pub mod line;
pub mod props;
pub mod render;
pub mod style;
