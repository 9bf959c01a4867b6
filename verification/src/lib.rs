//! Outline documents: headline lines, the tree they form, and the sections between them.
//!
//! A line that starts with one or more `*` and a space is a headline line. The number of
//! its markers is its level, and a headline stands below the nearest headline before it
//! that has a smaller level. The text between two headline lines is the section of the
//! first; the text before the first headline line is the preamble. Positions in a text
//! count its characters.

pub mod document;
pub mod headline;
pub mod keyword;
pub mod laws;
pub mod parser;
pub mod text;
pub mod tree;

pub use document::{Document, GreaterElement, Headline, Section};
pub use headline::HeadlineMatch;
pub use parser::DocumentParser;
