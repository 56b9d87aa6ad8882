//! A small block-level Markdown parser.
//!
//! Deliberately partial: it covers what a text editor preview needs
//! (headings, paragraphs, lists, quotes, fenced code, rules, tables and the
//! common inline markers) and reads everything else as plain text.

mod block;
mod inline;
mod layout;
mod lines;
mod slug;

pub use inline::{
    emphasis_closes_at_a_closing_run, find, inline_spans, parse_inline, spans_wf,
    underscore_emphasis_closes,
};
pub use block::{fenced_code_keeps_its_lines, parse, parse_spec};
pub use layout::{
    anchor_name, column_align, fit_row, is_anchor_link, fit_row_spec, link_slug, split_words, table_columns, word_clusters, word_clusters_keep_every_word,
    word_clusters_spec, words, Word, WordV,
};
pub use lines::table_cells;
pub use slug::{
    assign_slugs, heading_text, slugify, slugify_is_per_character, slugs_are_distinct, slugs_spec,
};

use vstd::prelude::*;

verus! {

/// Inline emphasis of a run of text.
#[derive(Debug, Clone, Copy, PartialEq, Eq, Structural)]
pub enum Style {
    Plain,
    Bold,
    Italic,
    BoldItalic,
    Code,
    Link,
}

/// A run of text sharing one inline style.
#[derive(Debug, Clone, PartialEq, Eq)]
pub struct Span {
    pub text: String,
    pub style: Style,
    /// The `(url)` half of a `[label](url)` link; `None` for every other
    /// style.
    pub href: Option<String>,
}

/// What a [`Span`] holds, as plain values.
pub struct SpanV {
    pub text: Seq<char>,
    pub style: Style,
    pub href: Option<Seq<char>>,
}

pub open spec fn opt_view(o: Option<String>) -> Option<Seq<char>> {
    match o {
        Some(s) => Some(s@),
        None => None,
    }
}

impl View for Span {
    type V = SpanV;

    open spec fn view(&self) -> SpanV {
        SpanV { text: self.text@, style: self.style, href: opt_view(self.href) }
    }
}

pub open spec fn spans_view(v: Seq<Span>) -> Seq<SpanV> {
    v.map_values(|s: Span| s@)
}

impl Span {
    /// A span of `text` in `style`, with no link target.
    pub fn new(text: String, style: Style) -> (res: Self)
        ensures
            res@ == (SpanV { text: text@, style, href: None }),
    {
        Span { text, style, href: None }
    }

    /// A link span.
    pub fn link(text: String, href: String) -> (res: Self)
        ensures
            res@ == (SpanV { text: text@, style: Style::Link, href: Some(href@) }),
    {
        Span { text, style: Style::Link, href: Some(href) }
    }
}

/// A GFM table column's declared alignment (from its separator cell, e.g.
/// `:---:`).
#[derive(Debug, Clone, Copy, PartialEq, Eq, Structural)]
pub enum Align {
    Left,
    Center,
    Right,
}

/// A top-level Markdown block.
#[derive(Debug, Clone, PartialEq, Eq)]
pub enum Block {
    Heading { level: u8, spans: Vec<Span> },
    Paragraph(Vec<Span>),
    Quote(Vec<Span>),
    ListItem { depth: usize, marker: String, spans: Vec<Span> },
    Code(String),
    Rule,
    Table { alignments: Vec<Align>, header: Vec<Vec<Span>>, rows: Vec<Vec<Vec<Span>>> },
}

/// What a [`Block`] holds, as plain values.
pub enum BlockV {
    Heading { level: u8, spans: Seq<SpanV> },
    Paragraph(Seq<SpanV>),
    Quote(Seq<SpanV>),
    ListItem { depth: usize, marker: Seq<char>, spans: Seq<SpanV> },
    Code(Seq<char>),
    Rule,
    Table { alignments: Seq<Align>, header: Seq<Seq<SpanV>>, rows: Seq<Seq<Seq<SpanV>>> },
}

pub open spec fn cells_view(v: Seq<Vec<Span>>) -> Seq<Seq<SpanV>> {
    v.map_values(|c: Vec<Span>| spans_view(c@))
}

pub open spec fn rows_view(v: Seq<Vec<Vec<Span>>>) -> Seq<Seq<Seq<SpanV>>> {
    v.map_values(|r: Vec<Vec<Span>>| cells_view(r@))
}

impl View for Block {
    type V = BlockV;

    open spec fn view(&self) -> BlockV {
        match self {
            Block::Heading { level, spans } => BlockV::Heading {
                level: *level,
                spans: spans_view(spans@),
            },
            Block::Paragraph(spans) => BlockV::Paragraph(spans_view(spans@)),
            Block::Quote(spans) => BlockV::Quote(spans_view(spans@)),
            Block::ListItem { depth, marker, spans } => BlockV::ListItem {
                depth: *depth,
                marker: marker@,
                spans: spans_view(spans@),
            },
            Block::Code(code) => BlockV::Code(code@),
            Block::Rule => BlockV::Rule,
            Block::Table { alignments, header, rows } => BlockV::Table {
                alignments: alignments@,
                header: cells_view(header@),
                rows: rows_view(rows@),
            },
        }
    }
}

pub open spec fn blocks_view(v: Seq<Block>) -> Seq<BlockV> {
    v.map_values(|b: Block| b@)
}

} // verus!
