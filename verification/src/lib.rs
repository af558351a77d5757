//! A table projector: selects rows and columns of a whitespace-delimited
//! text table by a compact index expression and renders the result as a
//! column-aligned grid.
//!
//! The expression language supports 1-based signed indices (`-1` is the last
//! element), inclusive ranges with open ends (`2~4`, `2~`, `~4`), and a
//! wildcard `_` that selects a whole axis.

pub mod errors;
pub mod expr;
pub mod laws;
pub mod render;
pub mod select;
pub mod table;
