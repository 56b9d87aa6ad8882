use simpleedit::editor::highlighter::{compile_regex, overlay_matches, QueryMatcher};
use simpleedit::search::find::find_matches;

fn fmt(n: u8) -> u8 {
    n
}

#[test]
fn no_matches_leaves_base_ranges_untouched() {
    let base = vec![(0..3, fmt(1)), (3..6, fmt(2))];
    let out = overlay_matches(base.clone(), &[]);
    assert_eq!(out, vec![(0..3, fmt(1), false), (3..6, fmt(2), false)]);
}

#[test]
fn a_match_splits_the_base_range_it_falls_within() {
    let base = vec![(0..9, fmt(1))];
    let out = overlay_matches(base, &[4..5]);
    assert_eq!(
        out,
        vec![(0..4, fmt(1), false), (4..5, fmt(1), true), (5..9, fmt(1), false)]
    );
}

#[test]
fn a_match_spanning_two_base_ranges_splits_both() {
    let base = vec![(0..3, fmt(1)), (3..6, fmt(2))];
    let out = overlay_matches(base, &[2..4]);
    assert_eq!(
        out,
        vec![
            (0..2, fmt(1), false),
            (2..3, fmt(1), true),
            (3..4, fmt(2), true),
            (4..6, fmt(2), false)
        ]
    );
}

#[test]
fn a_match_exactly_covering_a_base_range_needs_no_split() {
    let base = vec![(0..3, fmt(1)), (3..6, fmt(2))];
    let out = overlay_matches(base, &[3..6]);
    assert_eq!(out, vec![(0..3, fmt(1), false), (3..6, fmt(2), true)]);
}

#[test]
fn compile_regex_is_none_outside_regex_mode_or_when_empty() {
    assert!(compile_regex("abc", false, false).is_none());
    assert!(compile_regex("", false, true).is_none());
    assert!(compile_regex(r"\d+", false, true).is_some());
    assert!(compile_regex(r"[invalid", false, true).is_none());
}

// ─── Edge cases ──────────────────────────────────────────────────────────────

#[test]
fn pieces_tile_the_base_and_match_uniformly() {
    let base = vec![(0..4, 'a'), (4..5, 'b'), (5..12, 'c')];
    let matches = [1..2, 3..7, 11..12];
    let out = overlay_matches(base.clone(), &matches);
    // In order, without gaps or overlaps, over the whole line.
    assert_eq!(out[0].0.start, 0);
    assert_eq!(out[out.len() - 1].0.end, 12);
    for w in out.windows(2) {
        assert_eq!(w[0].0.end, w[1].0.start);
    }
    for (range, t, hit) in &out {
        assert!(range.start < range.end);
        for x in range.clone() {
            let owner = base.iter().find(|(r, _)| r.contains(&x)).unwrap().1;
            assert_eq!(owner, *t);
            assert_eq!(matches.iter().any(|m| m.contains(&x)), *hit);
        }
    }
}

#[test]
fn bytes_outside_every_base_range_are_dropped() {
    let out = overlay_matches(vec![(0..2, 1u8), (4..6, 2u8)], &[1..5]);
    assert_eq!(out, vec![(0..1, 1, false), (1..2, 1, true), (4..5, 2, true), (5..6, 2, false)]);
}

#[test]
fn the_line_matcher_agrees_with_the_search() {
    for (query, cs, rx) in [("ab", true, false), ("AB", false, false), (r"a\w", false, true), ("(", true, true), ("", false, false)] {
        let matcher = QueryMatcher::new(query, cs, rx);
        for line in ["ab cab", "xAbab", ""] {
            let expected = find_matches(line, query, cs, rx).unwrap_or_default();
            assert_eq!(matcher.line_matches(line), expected);
        }
    }
}

#[test]
fn updating_the_matcher_recompiles() {
    let mut matcher = QueryMatcher::new("x", true, false);
    assert!(matcher.line_matches("a1b22").is_empty());
    matcher.update(r"\d+", true, true);
    assert_eq!(matcher.line_matches("a1b22"), vec![1..2, 3..5]);
}
