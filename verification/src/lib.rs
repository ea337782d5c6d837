//! Colour markup for terminal text.
//!
//! A text may hold tags in square brackets, such as `[red]` or `[_blue_]`.
//! A [`Colorize`] replaces each tag that its table knows by the matching
//! ANSI escape sequence and leaves every other part of the text as it is.

pub mod colorize;
pub mod finder;
pub mod laws;
pub mod markup;
pub mod table;
pub mod tag;

pub use colorize::Colorize;
pub use table::ColorTable;
