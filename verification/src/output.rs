//! What a tool call answers with: the TOON writer and the output cutter.

pub mod toon;
pub mod truncate;

pub use toon::{Toon, ToonValue};
pub use truncate::{head_tail, truncate_with_hint};
