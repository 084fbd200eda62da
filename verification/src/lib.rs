//! Reformats prose so that each line fits a target display width while
//! minimizing a quadratic raggedness penalty, preserving structural
//! decorations such as quote markers, comment prefixes, and box borders.

pub mod analysis;
pub mod laws;
pub mod optimize;
pub mod reformat;
pub mod text;

pub use analysis::{Block, Input, Width};
pub use reformat::{reformat, FormatMode, FormatOpts, Reformatter};
