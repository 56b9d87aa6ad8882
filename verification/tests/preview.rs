use simpleedit::preview::{kind_for, PreviewKind, ViewMode};

#[test]
fn only_markdown_and_json_have_a_preview() {
    assert_eq!(kind_for(Some("md")), Some(PreviewKind::Markdown));
    assert_eq!(kind_for(Some("json")), Some(PreviewKind::Json));
    assert_eq!(kind_for(Some("rs")), None);
    assert_eq!(kind_for(Some("JSON")), None);
    assert_eq!(kind_for(None), None);
}

#[test]
fn split_view_is_offered_for_markdown_only() {
    assert_eq!(
        PreviewKind::Markdown.modes(),
        &[ViewMode::Raw, ViewMode::Preview, ViewMode::Split]
    );
    assert_eq!(PreviewKind::Json.modes(), &[ViewMode::Raw, ViewMode::Preview]);
}

#[test]
fn each_mode_has_its_icon_and_label() {
    assert_eq!(PreviewKind::Markdown.icon(ViewMode::Raw), "\u{2261}");
    assert_eq!(PreviewKind::Markdown.icon(ViewMode::Preview), "\u{00B6}");
    assert_eq!(PreviewKind::Json.icon(ViewMode::Preview), "{}");
    assert_eq!(PreviewKind::Markdown.icon(ViewMode::Split), "\u{25EB}");
    assert_eq!(PreviewKind::Json.label_key(ViewMode::Raw), "preview.raw");
    assert_eq!(PreviewKind::Markdown.label_key(ViewMode::Preview), "preview.rendered");
    assert_eq!(PreviewKind::Json.label_key(ViewMode::Preview), "preview.tree");
    assert_eq!(PreviewKind::Markdown.label_key(ViewMode::Split), "preview.split");
}
