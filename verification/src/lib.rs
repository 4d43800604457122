//! Pixel sorting: reorders the pixels of an RGBA image inside maximal runs
//! that satisfy a per-pixel brightness/color predicate, along rows and
//! columns, in a selectable pass order.

pub mod pixel;
pub mod sorting;
pub mod line;
pub mod grid;
pub mod parse;
