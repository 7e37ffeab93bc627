//! In-place edits of Docmost pages.
//!
//! A page is a ProseMirror document, held as JSON. An edit finds its place by the Markdown that
//! a reader renders for the page, and changes nothing but the matched range: comment marks,
//! callouts, mentions and attributes elsewhere stay as they are. How nodes are rendered and how
//! Markdown is parsed is handed in as a [`markdown::Markdown`].

pub mod comments;
pub mod edit;
pub mod failure;
pub mod inline;
pub mod json;
pub mod laws;
pub mod markdown;
pub mod marks;
pub mod node;
pub mod operations;
pub mod order;
pub mod page_write;
pub mod rows;
pub mod spacing;
pub mod spans;
pub mod stored;
pub mod text;
pub mod types;
pub mod wording;
