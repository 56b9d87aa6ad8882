//! Alternate renderings of the current buffer (Markdown preview, JSON tree).
//!
//! Only Markdown and JSON files get a preview; every other language stays in
//! [`ViewMode::Raw`] and shows no toolbar at all.

pub mod json;
pub mod markdown;

use vstd::prelude::*;

use crate::text::str_eq;

verus! {

/// How the editor pane renders the current buffer.
#[derive(Debug, Clone, Copy, PartialEq, Eq, Structural)]
pub enum ViewMode {
    /// The plain text editor.
    Raw,
    /// The rendered preview only (Markdown document / JSON tree).
    Preview,
    /// Editor and preview side by side. Markdown only.
    Split,
}

/// Which preview a buffer supports, derived from its language token.
#[derive(Debug, Clone, Copy, PartialEq, Eq, Structural)]
pub enum PreviewKind {
    Markdown,
    Json,
}

/// The preview of a language token: Markdown for `md`, JSON for `json`.
pub open spec fn kind_for_spec(language: Option<Seq<char>>) -> Option<PreviewKind> {
    match language {
        Some(l) => if l == seq!['m', 'd'] {
            Some(PreviewKind::Markdown)
        } else if l == seq!['j', 's', 'o', 'n'] {
            Some(PreviewKind::Json)
        } else {
            None
        },
        None => None,
    }
}

/// The preview available for a language token, if any.
pub fn kind_for(language: Option<&str>) -> (res: Option<PreviewKind>)
    ensures
        res == kind_for_spec(
            match language {
                Some(l) => Some(l@),
                None => None,
            },
        ),
{
    proof {
        reveal_strlit("md");
        reveal_strlit("json");
    }
    assert("md"@ =~= seq!['m', 'd']);
    assert("json"@ =~= seq!['j', 's', 'o', 'n']);
    match language {
        Some(l) => if str_eq(l, "md") {
            Some(PreviewKind::Markdown)
        } else if str_eq(l, "json") {
            Some(PreviewKind::Json)
        } else {
            None
        },
        None => None,
    }
}

/// The modes each preview offers, in toolbar order: split view for
/// Markdown only.
pub open spec fn modes_spec(kind: PreviewKind) -> Seq<ViewMode> {
    match kind {
        PreviewKind::Markdown => seq![ViewMode::Raw, ViewMode::Preview, ViewMode::Split],
        PreviewKind::Json => seq![ViewMode::Raw, ViewMode::Preview],
    }
}

impl PreviewKind {
    /// The modes offered by this preview, in toolbar order.
    pub fn modes(self) -> (res: &'static [ViewMode])
        ensures
            res@ == modes_spec(self),
    {
        match self {
            PreviewKind::Markdown => &[ViewMode::Raw, ViewMode::Preview, ViewMode::Split],
            PreviewKind::Json => &[ViewMode::Raw, ViewMode::Preview],
        }
    }

    /// The message key of the tooltip for `mode`: the rendered document for
    /// Markdown, the tree for JSON.
    pub fn label_key(self, mode: ViewMode) -> (res: &'static str)
        ensures
            res@ == match (self, mode) {
                (_, ViewMode::Raw) => "preview.raw"@,
                (PreviewKind::Markdown, ViewMode::Preview) => "preview.rendered"@,
                (PreviewKind::Json, ViewMode::Preview) => "preview.tree"@,
                (_, ViewMode::Split) => "preview.split"@,
            },
    {
        match (self, mode) {
            (_, ViewMode::Raw) => "preview.raw",
            (PreviewKind::Markdown, ViewMode::Preview) => "preview.rendered",
            (PreviewKind::Json, ViewMode::Preview) => "preview.tree",
            (_, ViewMode::Split) => "preview.split",
        }
    }

    /// Stacked lines for the source, a pilcrow for the rendered document, a
    /// split square for the side-by-side view, literal braces for the JSON
    /// tree: every one of them a plain, unambiguous glyph rather than a
    /// symbol that depends on a particular font's coverage.
    pub fn icon(self, mode: ViewMode) -> (res: &'static str)
        ensures
            res@ == match (self, mode) {
                (_, ViewMode::Raw) => seq!['\u{2261}'],
                (PreviewKind::Markdown, ViewMode::Preview) => seq!['\u{00B6}'],
                (PreviewKind::Json, ViewMode::Preview) => seq!['{', '}'],
                (_, ViewMode::Split) => seq!['\u{25EB}'],
            },
    {
        proof {
            reveal_strlit("\u{2261}");
            reveal_strlit("\u{00B6}");
            reveal_strlit("{}");
            reveal_strlit("\u{25EB}");
        }
        match (self, mode) {
            (_, ViewMode::Raw) => "\u{2261}",
            (PreviewKind::Markdown, ViewMode::Preview) => "\u{00B6}",
            (PreviewKind::Json, ViewMode::Preview) => "{}",
            (_, ViewMode::Split) => "\u{25EB}",
        }
    }
}

} // verus!
