//! The editor pane.

pub mod highlighter;
