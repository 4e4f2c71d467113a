//! Turns a small markdown dialect into a deck of presentation slides.
//!
//! The [`scanner`] is a cursor over the characters of the text with one
//! level of backtracking. The [`parser`] reads headings and paragraph
//! lines into nodes that point into the text; those nodes are rendered as
//! markup directly, or folded into slides by [`slides`], where a deck
//! steps forward and back through them.

pub mod scanner;
pub mod parser;
pub mod slides;

pub use parser::md_to_html;
pub use slides::{md_to_slides, Slide, Slides};
