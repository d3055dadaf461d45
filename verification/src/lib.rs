//! Axis-aligned rectangle geometry on an integer grid.
//!
//! Rectangles are positions plus strictly-positive sizes; the library answers
//! geometric queries about them: pairwise overlap, the exact area of the union
//! of a set of rectangles, and the "obscured" area that two or more rectangles
//! cover at once. Every quantity is proved against a mathematical model that
//! views a rectangle as the set of unit grid cells it covers.

pub mod rect;
pub mod cells;
pub mod area;
pub mod laws;

pub use crate::rect::{InvalidDimension, Pos, RangeExclusive, Rect, Size};
pub use crate::area::{covered_area, obscured_area};
