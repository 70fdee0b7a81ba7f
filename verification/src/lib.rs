//! Soft wrapping of text lines into screen rows.
//!
//! [`line_ranges`] breaks one line into rows, and [`wrapped_rows`] does so for the lines of a
//! buffer; [`WrapMode`] says where rows may be broken. Rows are as wide as a viewport leaves
//! room for, which [`effective_wrap_width`] computes. What holds of all of it is stated and
//! proved in [`laws`]; [`exact`] and [`breaks`] say what fixes columns, pieces, fragments and rows.

pub mod breaks;
pub mod exact;
pub mod glyph;
pub mod laws;
pub mod layout;
pub mod rows;
pub mod segment;
pub mod text;
pub mod width;
pub mod word;
pub mod wrap;

pub use wrap::{effective_wrap_width, line_ranges, wrapped_rows, WrapMode, WrappedLine};
