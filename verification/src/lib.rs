//! A location-aware lexical scanner for a small macro/comment-annotated text
//! format.
//!
//! Source text is wrapped in a [`utils::LocatedStr`], a borrowed view of the
//! text paired with the exact line, column and byte offset at which it begins.
//! The scanners in [`parsing`] carve tokens and comment bodies out of such a
//! slice, re-anchoring the location of every piece they hand out.

pub mod chars;
pub mod parsing;
pub mod utils;
