use simpleedit::preview::markdown::{
    anchor_name, assign_slugs, column_align, is_anchor_link, link_slug, parse, parse_inline, slugify, split_words, table_cells,
    table_columns, fit_row, word_clusters, Align, Block, Span, Style, Word,
};

fn span(text: &str, style: Style) -> Span {
    Span::new(text.to_string(), style)
}

fn plain(text: &str) -> Vec<Span> {
    vec![span(text, Style::Plain)]
}

#[test]
fn parses_headings() {
    assert_eq!(
        parse("# Title"),
        vec![Block::Heading {
            level: 1,
            spans: plain("Title")
        }]
    );
    assert_eq!(
        parse("### Deep"),
        vec![Block::Heading {
            level: 3,
            spans: plain("Deep")
        }]
    );
}

#[test]
fn hash_without_space_is_not_a_heading() {
    assert_eq!(parse("#hashtag"), vec![Block::Paragraph(plain("#hashtag"))]);
}

#[test]
fn joins_paragraph_lines_and_splits_on_blank() {
    assert_eq!(
        parse("one\ntwo\n\nthree"),
        vec![
            Block::Paragraph(plain("one two")),
            Block::Paragraph(plain("three")),
        ]
    );
}

#[test]
fn parses_fenced_code_verbatim() {
    let blocks = parse("```rust\nlet x = *y;\n```");
    assert_eq!(blocks, vec![Block::Code("let x = *y;".to_string())]);
}

#[test]
fn unclosed_fence_still_yields_a_code_block() {
    assert_eq!(parse("```\nabc"), vec![Block::Code("abc".to_string())]);
}

#[test]
fn parses_lists() {
    assert_eq!(
        parse("- a\n  - b\n3. c"),
        vec![
            Block::ListItem {
                depth: 0,
                marker: "\u{2022}".to_string(),
                spans: plain("a")
            },
            Block::ListItem {
                depth: 1,
                marker: "\u{2022}".to_string(),
                spans: plain("b")
            },
            Block::ListItem {
                depth: 0,
                marker: "3.".to_string(),
                spans: plain("c")
            },
        ]
    );
}

#[test]
fn parses_quotes_and_rules() {
    assert_eq!(
        parse("> quoted\n> more\n\n---"),
        vec![Block::Quote(plain("quoted more")), Block::Rule]
    );
}

#[test]
fn dashes_inside_a_list_are_not_a_rule() {
    assert!(matches!(parse("- a")[0], Block::ListItem { .. }));
}

#[test]
fn parses_inline_emphasis() {
    assert_eq!(
        parse_inline("a **b** c *d* `e` ***f***"),
        vec![
            span("a ", Style::Plain),
            span("b", Style::Bold),
            span(" c ", Style::Plain),
            span("d", Style::Italic),
            span(" ", Style::Plain),
            span("e", Style::Code),
            span(" ", Style::Plain),
            span("f", Style::BoldItalic),
        ]
    );
}

#[test]
fn unmatched_markers_stay_literal() {
    assert_eq!(parse_inline("2 * 3 * 4"), plain("2 * 3 * 4"));
    assert_eq!(parse_inline("a_b"), plain("a_b"));
    assert_eq!(parse_inline("*dangling"), plain("*dangling"));
}

#[test]
fn underscores_inside_a_word_are_literal() {
    assert_eq!(parse_inline("snake_case_name"), plain("snake_case_name"));
    assert_eq!(
        parse_inline("an _emphasized_ word"),
        vec![
            span("an ", Style::Plain),
            span("emphasized", Style::Italic),
            span(" word", Style::Plain),
        ]
    );
}

#[test]
fn parses_links_and_images() {
    assert_eq!(
        parse_inline("see [docs](http://x) and ![pic](y.png)"),
        vec![
            span("see ", Style::Plain),
            Span::link("docs".to_string(), "http://x".to_string()),
            span(" and ", Style::Plain),
            Span::link("pic".to_string(), "y.png".to_string()),
        ]
    );
}

#[test]
fn bracket_without_url_stays_literal() {
    assert_eq!(parse_inline("[todo]"), plain("[todo]"));
}

#[test]
fn backslash_escapes_markers() {
    assert_eq!(parse_inline(r"\*not bold\*"), plain("*not bold*"));
}

#[test]
fn empty_document_has_no_blocks() {
    assert!(parse("").is_empty());
    assert!(parse("\n\n").is_empty());
}

#[test]
fn parses_a_table() {
    let blocks = parse("| A | B |\n| --- | --- |\n| 1 | 2 |\n| 3 | 4 |");
    assert_eq!(
        blocks,
        vec![Block::Table {
            alignments: vec![Align::Left, Align::Left],
            header: vec![plain("A"), plain("B")],
            rows: vec![vec![plain("1"), plain("2")], vec![plain("3"), plain("4")],],
        }]
    );
}

#[test]
fn table_survives_without_outer_pipes() {
    let blocks = parse("A | B\n--- | ---\n1 | 2");
    assert_eq!(
        blocks,
        vec![Block::Table {
            alignments: vec![Align::Left, Align::Left],
            header: vec![plain("A"), plain("B")],
            rows: vec![vec![plain("1"), plain("2")]],
        }]
    );
}

#[test]
fn table_reads_column_alignment() {
    let blocks = parse("| L | C | R |\n| :--- | :---: | ---: |\n| a | b | c |");
    let Block::Table { alignments, .. } = &blocks[0] else {
        panic!("expected a table");
    };
    assert_eq!(alignments, &[Align::Left, Align::Center, Align::Right]);
}

#[test]
fn table_stops_at_a_blank_line() {
    let blocks = parse("| A |\n| --- |\n| 1 |\n\nafter");
    assert_eq!(blocks.len(), 2);
    assert!(matches!(blocks[0], Block::Table { .. }));
    assert_eq!(blocks[1], Block::Paragraph(plain("after")));
}

#[test]
fn a_lone_pipe_row_without_a_separator_stays_a_paragraph() {
    let blocks = parse("A | B\nnot a separator");
    assert_eq!(
        blocks,
        vec![Block::Paragraph(parse_inline("A | B not a separator"))]
    );
}

#[test]
fn table_cells_split_on_unescaped_pipes_only() {
    assert_eq!(
        table_cells(r"| `a|b` | c\|d |"),
        vec!["`a|b`".to_string(), r"c|d".to_string()]
    );
}

#[test]
fn ragged_rows_are_kept_as_parsed_not_padded() {
    let blocks = parse("| A | B |\n| --- | --- |\n| 1 |\n| 2 | 3 | 4 |");
    let Block::Table { rows, .. } = &blocks[0] else {
        panic!("expected a table");
    };
    assert_eq!(rows[0], vec![plain("1")]);
    assert_eq!(rows[1], vec![plain("2"), plain("3"), plain("4")]);
}

#[test]
fn slugify_matches_github() {
    assert_eq!(slugify("Bugs fonctionnels"), "bugs-fonctionnels");
    assert_eq!(
        slugify("1. Inventaire et sant\u{e9} mesur\u{e9}e"),
        "1-inventaire-et-sant\u{e9}-mesur\u{e9}e"
    );
    assert_eq!(slugify("Qualit\u{e9}, tests, CI"), "qualit\u{e9}-tests-ci");
}

#[test]
fn assign_slugs_only_tags_headings() {
    let blocks = parse("# Title\n\ntext\n\n## Title");
    let slugs = assign_slugs(&blocks);
    assert_eq!(
        slugs,
        vec![
            Some("title".to_string()),
            None,
            Some("title-1".to_string()),
        ]
    );
}

// ─── Layout decisions ───────────────────────────────────────────────────────


fn word(text: &str, style: Style) -> Word {
    Word { text: text.to_string(), style, href: None }
}

#[test]
fn words_split_on_any_whitespace() {
    assert_eq!(split_words("  a\tbc \u{a0}d  "), vec!["a", "bc", "d"]);
    assert!(split_words(" \n ").is_empty());
}

#[test]
fn punctuation_stays_glued_to_its_word() {
    // "see **bold**, then" → "see" | "bold" "," | "then"
    let spans = vec![span("see ", Style::Plain), span("bold", Style::Bold), span(", then", Style::Plain)];
    assert_eq!(
        word_clusters(&spans),
        vec![
            vec![word("see", Style::Plain)],
            vec![word("bold", Style::Bold), word(",", Style::Plain)],
            vec![word("then", Style::Plain)],
        ]
    );
}

#[test]
fn whitespace_at_a_span_edge_separates_clusters() {
    let spans = vec![span("a", Style::Plain), span(" b", Style::Italic), span("c ", Style::Code), span("d", Style::Plain)];
    assert_eq!(
        word_clusters(&spans),
        vec![
            vec![word("a", Style::Plain)],
            vec![word("b", Style::Italic), word("c", Style::Code)],
            vec![word("d", Style::Plain)],
        ]
    );
    assert!(word_clusters(&[]).is_empty());
}

#[test]
fn link_words_keep_their_target() {
    let spans = vec![Span::link("two words".to_string(), "#x".to_string())];
    let clusters = word_clusters(&spans);
    assert_eq!(clusters.len(), 2);
    assert_eq!(clusters[1][0].href.as_deref(), Some("#x"));
}

#[test]
fn a_table_is_as_wide_as_its_header() {
    // The ragged table of ragged_rows_are_kept_as_parsed_not_padded.
    let p = |s: &str| vec![span(s, Style::Plain)];
    let header = vec![p("A"), p("B")];
    let rows = vec![vec![p("1")], vec![p("2"), p("3"), p("4")]];
    let columns = table_columns(&header);
    assert_eq!(columns, 2);
    assert_eq!(fit_row(&rows[0], columns), vec![p("1"), vec![]]);
    assert_eq!(fit_row(&rows[1], columns), vec![p("2"), p("3")]);
    assert_eq!(column_align(&[Align::Right], 0), Align::Right);
    assert_eq!(column_align(&[Align::Right], 1), Align::Left);
}

#[test]
fn separator_cells_take_one_colon_at_most_on_each_side() {
    assert_eq!(
        parse("| A | B | C |\n| :--- | ---: | :---: |"),
        vec![Block::Table {
            alignments: vec![Align::Left, Align::Right, Align::Center],
            header: vec![plain("A"), plain("B"), plain("C")],
            rows: vec![],
        }]
    );
    // "::---" is no separator cell, so these lines stay a paragraph.
    assert!(matches!(parse("| A |\n| ::--- |")[0], Block::Paragraph(_)));
    assert!(matches!(parse("| A |\n| ---:: |")[0], Block::Paragraph(_)));
    assert!(matches!(parse("| A |\n| : |")[0], Block::Paragraph(_)));
}

#[test]
fn a_link_names_its_heading_slug() {
    assert_eq!(link_slug("##Intro-Part"), "intro-part");
    assert_eq!(link_slug("x#y"), "x#y");
}

#[test]
fn repeated_slugs_stay_distinct() {
    let blocks = parse("# a\n# a\n# a-1\n# a");
    let slugs = assign_slugs(&blocks);
    assert_eq!(
        slugs,
        vec![
            Some("a".to_string()),
            Some("a-1".to_string()),
            Some("a-1-1".to_string()),
            Some("a-2".to_string()),
        ]
    );
}

#[test]
fn anchor_links_and_names() {
    assert!(is_anchor_link("#intro"));
    assert!(is_anchor_link("#"));
    assert!(!is_anchor_link("https://example.com/#intro"));
    assert!(!is_anchor_link(""));
    assert_eq!(anchor_name("intro-part"), "md-anchor-intro-part");
    assert_eq!(anchor_name(&link_slug("#Intro-Part")), "md-anchor-intro-part");
    assert_eq!(anchor_name(""), "md-anchor-");
}
