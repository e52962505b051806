//! Cleaning messy name lists: splitting raw text into entries, normalizing
//! and filtering them, collapsing duplicates with their counts, sorting, and
//! drawing weighted samples.
pub mod cli;
pub mod normalize;
pub mod sample;
pub mod text;
