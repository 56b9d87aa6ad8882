//! Verified core of a small text editor: Markdown and JSON previews, search
//! and replace, and the search-highlight overlay.

pub mod editor;
pub mod preview;
pub mod search;
pub mod text;
