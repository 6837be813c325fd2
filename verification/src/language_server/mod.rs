//! What an editor needs of the source text: where a cursor stands relative to
//! the parts of a program.
pub mod position;
pub mod completions;
pub mod hover;
pub mod warnings;
