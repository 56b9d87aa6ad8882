use simpleedit::search::find::find_matches;
use simpleedit::search::position::{
    advance_index, byte_range_to_line_col, byte_range_to_line_local, is_sliceable,
    line_col_to_byte, nearest_match_index,
};
use simpleedit::search::{SearchAction, SearchMessage, SearchState};

fn make_search(query: &str, replacement: &str, use_regex: bool, case_sensitive: bool) -> SearchState {
    SearchState::with_options(query, replacement, use_regex, case_sensitive)
}

#[test]
fn count_matches_literal() {
    let s = make_search("hello", "", false, true);
    assert_eq!(
        find_matches("hello world hello", s.query(), s.case_sensitive(), s.use_regex())
            .unwrap()
            .len(),
        2
    );
}

#[test]
fn count_matches_case_insensitive() {
    let s = make_search("hello", "", false, false);
    assert_eq!(
        find_matches("Hello HELLO hello", s.query(), s.case_sensitive(), s.use_regex())
            .unwrap()
            .len(),
        3
    );
}

#[test]
fn count_matches_regex() {
    let s = make_search(r"\d+", "", true, false);
    assert_eq!(
        find_matches("abc 123 def 456", s.query(), s.case_sensitive(), s.use_regex())
            .unwrap()
            .len(),
        2
    );
}

#[test]
fn count_matches_empty_query() {
    let s = make_search("", "", false, false);
    assert_eq!(
        find_matches("anything", s.query(), s.case_sensitive(), s.use_regex())
            .unwrap()
            .len(),
        0
    );
}

#[test]
fn replace_all_literal() {
    let s = make_search("foo", "bar", false, true);
    assert_eq!(s.replace_all("foo baz foo").unwrap(), "bar baz bar");
}

#[test]
fn replace_all_case_insensitive() {
    let s = make_search("hello", "hi", false, false);
    let result = s.replace_all("Hello HELLO hello").unwrap();
    assert_eq!(result, "hi hi hi");
}

#[test]
fn replace_all_regex() {
    let s = make_search(r"\d+", "NUM", true, false);
    assert_eq!(s.replace_all("abc 123 def 456").unwrap(), "abc NUM def NUM");
}

#[test]
fn replace_all_invalid_regex_returns_error() {
    let s = make_search(r"[invalid", "x", true, false);
    assert!(s.replace_all("text").is_err());
}

#[test]
fn find_matches_reports_byte_ranges() {
    let m = find_matches("ab ab", "ab", true, false).unwrap();
    assert_eq!(m, vec![0..2, 3..5]);
}

#[test]
fn find_matches_invalid_regex_is_an_error() {
    assert!(find_matches("text", "[invalid", false, true).is_err());
}

#[test]
fn line_col_to_byte_handles_multibyte_lines() {
    let text = format!("caf{}\nworld", '\u{e9}');
    let text = text.as_str();
    assert_eq!(line_col_to_byte(text, (0, 4)), 5);
    assert_eq!(line_col_to_byte(text, (1, 0)), 6);
    assert_eq!(line_col_to_byte(text, (1, 2)), 8);
}

#[test]
fn byte_range_to_line_col_round_trips_with_line_col_to_byte() {
    let text = format!("one two\nthree caf{} four", '\u{e9}');
    let text = text.as_str();
    let start = line_col_to_byte(text, (1, 6));
    let len_bytes = "caf\u{e9}".len();
    let (line, col, len) = byte_range_to_line_col(text, &(start..start + len_bytes));
    assert_eq!((line, col, len), (1, 6, 4));
}

#[test]
fn cursor_inside_a_line_reads_back_exactly() {
    let text = "a\u{e9}\ncd\n";
    // Line ends, the empty last line, and a range over a newline.
    let s = line_col_to_byte(text, (0, 2));
    assert_eq!(s, 3);
    assert_eq!(byte_range_to_line_col(text, &(s..s)), (0, 2, 0));
    assert_eq!(byte_range_to_line_col(text, &(s..6)), (0, 2, 3));
    let s = line_col_to_byte(text, (1, 2));
    assert_eq!(byte_range_to_line_col(text, &(s..s + 1)), (1, 2, 1));
    let s = line_col_to_byte(text, (2, 0));
    assert_eq!(s, 7);
    assert_eq!(byte_range_to_line_col(text, &(s..s)), (2, 0, 0));
}

#[test]
fn selected_match_is_recorded_on_its_line() {
    let mut s = make_search("x", "", false, true);
    let text = "ab\ncd x\nx";
    let a = s.update(SearchMessage::Find, text, (0, 0));
    assert_eq!(a, SearchAction::Select { line: 1, column: 3, length: 1 });
    assert_eq!(s.current_match_line(), Some((1, 3..4)));
    let _ = s.update(SearchMessage::Find, text, (0, 0));
    assert_eq!(s.current_match_line(), Some((2, 0..1)));
    let _ = s.update(SearchMessage::FindPrevious, text, (0, 0));
    assert_eq!(s.current_match_line(), Some((1, 3..4)));
}

#[test]
fn advance_index_wraps_at_both_ends() {
    assert_eq!(advance_index(0, 3, true), 1);
    assert_eq!(advance_index(2, 3, true), 0);
    assert_eq!(advance_index(0, 3, false), 2);
    assert_eq!(advance_index(1, 3, false), 0);
}

#[test]
fn nearest_match_index_picks_the_closest_match_in_direction() {
    let matches = [2..3, 4..5, 8..9];
    assert_eq!(nearest_match_index(&matches, 0, true), 0);
    assert_eq!(nearest_match_index(&matches, 3, true), 1);
    assert_eq!(nearest_match_index(&matches, 9, true), 0);
    assert_eq!(nearest_match_index(&matches, 9, false), 2);
    assert_eq!(nearest_match_index(&matches, 0, false), 2);
}

#[test]
fn jump_with_no_matches_clears_current() {
    let mut s = make_search("xyz", "", false, true);
    s.jump("nothing here", (0, 0), true);
    assert_eq!(s.current_index(), None);
    assert_eq!(s.match_count(), 0);
}

// ─── Edge cases ──────────────────────────────────────────────────────────────

#[test]
fn advance_forward_then_back_returns_to_the_same_match() {
    for len in 1..6 {
        for i in 0..len {
            assert_eq!(advance_index(advance_index(i, len, true), len, false), i);
            assert_eq!(advance_index(advance_index(i, len, false), len, true), i);
        }
    }
}

#[test]
fn line_col_past_the_last_line_is_one_past_the_end() {
    assert_eq!(line_col_to_byte("ab\ncd", (5, 0)), 6);
    assert_eq!(line_col_to_byte("ab\ncd", (0, 10)), 2);
}

#[test]
fn byte_range_past_the_end_maps_to_the_origin() {
    assert_eq!(byte_range_to_line_col("ab", &(5..6)), (0, 0, 0));
    assert_eq!(byte_range_to_line_local("ab", &(5..6)), (0, 0..0));
}

#[test]
fn byte_range_to_line_local_is_relative_to_its_line() {
    assert_eq!(byte_range_to_line_local("one\ntwo three", &(8..13)), (1, 4..9));
}

#[test]
fn sliceable_ranges_sit_on_character_boundaries() {
    let text = "caf\u{e9}!";
    assert!(is_sliceable(text, 3, 5));
    assert!(!is_sliceable(text, 4, 5));
    assert!(!is_sliceable(text, 5, 3));
    assert!(is_sliceable(text, 9, 1));
}

#[test]
fn find_then_find_previous_selects_and_wraps() {
    let mut s = SearchState::new();
    let text = "ab ab\nab";
    s.update(SearchMessage::QueryChanged("ab".to_string()), text, (0, 0));
    assert_eq!(s.highlight_query(), None);
    let a = s.update(SearchMessage::Find, text, (0, 1));
    assert_eq!(a, SearchAction::Select { line: 0, column: 3, length: 2 });
    assert_eq!(s.match_count(), 3);
    assert_eq!(s.current_index(), Some(1));
    assert_eq!(s.current_match_line(), Some((0, 3..5)));
    assert_eq!(s.highlight_query(), Some(("ab".to_string(), false, false)));
    let a = s.update(SearchMessage::Find, text, (0, 0));
    assert_eq!(a, SearchAction::Select { line: 1, column: 0, length: 2 });
    assert_eq!(s.current_match_line(), Some((1, 0..2)));
    let a = s.update(SearchMessage::Find, text, (0, 0));
    assert_eq!(a, SearchAction::Select { line: 0, column: 0, length: 2 });
    let a = s.update(SearchMessage::FindPrevious, text, (0, 0));
    assert_eq!(a, SearchAction::Select { line: 1, column: 0, length: 2 });
    assert_eq!(s.count_label("matches"), "3 / 3");
}

#[test]
fn editing_the_query_forgets_the_current_match() {
    let mut s = SearchState::new();
    s.update(SearchMessage::QueryChanged("a".to_string()), "a a", (0, 0));
    s.update(SearchMessage::Find, "a a", (0, 0));
    assert_eq!(s.current_index(), Some(0));
    s.update(SearchMessage::QueryChanged("aa".to_string()), "a a", (0, 0));
    assert_eq!(s.current_index(), None);
    assert_eq!(s.current_match_line(), None);
    assert_eq!(s.highlight_query(), None);
    assert_eq!(s.count_label("matches"), "2 matches");
    s.update(SearchMessage::Find, "a a", (0, 0));
    s.update(SearchMessage::ToggleRegex, "a a", (0, 0));
    assert!(s.use_regex());
    assert_eq!(s.current_index(), None);
    s.update(SearchMessage::ToggleCaseSensitive, "a a", (0, 0));
    assert!(s.case_sensitive());
}

#[test]
fn replace_pastes_over_the_current_match_then_finds_again() {
    let mut s = SearchState::new();
    s.update(SearchMessage::QueryChanged("x".to_string()), "x y x", (0, 0));
    s.update(SearchMessage::ReplaceChanged("z".to_string()), "x y x", (0, 0));
    // Nothing selected yet: Replace only finds.
    let a = s.update(SearchMessage::Replace, "x y x", (0, 0));
    assert_eq!(a, SearchAction::Select { line: 0, column: 0, length: 1 });
    let a = s.update(SearchMessage::Replace, "x y x", (0, 0));
    assert_eq!(a, SearchAction::PasteThenFind("z".to_string()));
    assert_eq!(s.current_index(), None);
    assert_eq!(s.highlight_query(), None);
    // The editor pasted and sends Find with its new buffer and cursor.
    let a = s.update(SearchMessage::Find, "z y x", (0, 1));
    assert_eq!(a, SearchAction::Select { line: 0, column: 4, length: 1 });
}

#[test]
fn replace_all_sets_the_new_text() {
    let mut s = make_search("o", "0", false, true);
    let a = s.update(SearchMessage::ReplaceAll, "foo bo", (0, 0));
    assert_eq!(a, SearchAction::SetText("f00 b0".to_string()));
    assert_eq!(s.last_error(), None);
}

#[test]
fn an_invalid_regex_is_reported_in_the_label() {
    let mut s = make_search("(", "", true, true);
    let a = s.update(SearchMessage::Find, "(((", (0, 0));
    assert_eq!(a, SearchAction::Idle);
    let err = s.last_error().expect("an error").to_string();
    assert!(!err.is_empty());
    assert_eq!(s.count_label("matches"), err);
    assert_eq!(s.match_count(), 0);
    let a = s.update(SearchMessage::ReplaceAll, "(((", (0, 0));
    assert_eq!(a, SearchAction::Idle);
    assert!(s.last_error().is_some());
}

#[test]
fn the_label_is_empty_without_a_query() {
    let s = SearchState::new();
    assert_eq!(s.count_label("matches"), "");
}

#[test]
fn case_insensitive_matches_are_ranges_of_the_text_itself() {
    // 'İ' is two bytes and lowercases to two characters (three bytes), so
    // offsets into the lowercased text would not fit the text.
    assert_eq!(find_matches("\u{130}a", "a", false, false).unwrap(), vec![2..3]);
    assert_eq!(find_matches("x\u{130}X", "\u{130}x", false, false).unwrap(), vec![1..4]);
    // A character only part of whose lowercase matches is no match.
    assert!(find_matches("\u{130}", "i", false, false).unwrap().is_empty());
    let s = make_search("a", "b", false, false);
    assert_eq!(s.replace_all("\u{130}a").unwrap(), "\u{130}b");
    let s = make_search("\u{130}", "I", false, false);
    assert_eq!(s.replace_all("a\u{130}b\u{130}").unwrap(), "aIbI");
}

#[test]
fn case_insensitive_search_lowercases_the_whole_text() {
    // A capital sigma at the end of a word lowercases to the final form.
    assert_eq!(find_matches("\u{391}\u{3a3} x", "\u{3b1}\u{3c2}", false, false).unwrap(), vec![0..4]);
    assert!(find_matches("\u{391}\u{3a3} x", "\u{3b1}\u{3c2}", true, false).unwrap().is_empty());
    let s = make_search("\u{3b1}\u{3c2}", "Z", false, false);
    assert_eq!(s.replace_all("\u{391}\u{3a3} x").unwrap(), "Z x");
}

#[test]
fn case_insensitive_matches_are_selected_in_the_text() {
    let mut s = make_search("x", "", false, false);
    let a = s.update(SearchMessage::Find, "\u{130}X", (0, 0));
    assert_eq!(s.match_count(), 1);
    assert_eq!(a, SearchAction::Select { line: 0, column: 1, length: 1 });
    assert_eq!(s.current_match_line(), Some((0, 2..3)));
    let a = s.update(SearchMessage::ReplaceAll, "\u{130}X", (0, 0));
    assert_eq!(a, SearchAction::SetText("\u{130}".to_string()));
}

#[test]
fn accessors_read_the_fields() {
    let mut s = make_search("q", "r", true, false);
    assert_eq!(s.query(), "q");
    assert_eq!(s.replacement(), "r");
    assert!(s.use_regex());
    assert!(!s.case_sensitive());
    s.update(SearchMessage::Find, "q q", (0, 0));
    assert_eq!(s.match_count(), 2);
    assert_eq!(s.last_error(), None);
}

#[test]
fn find_then_find_previous_restores_the_selection() {
    let text = "ab\nab ab";
    let mut s = make_search("ab", "", false, true);
    let first = s.update(SearchMessage::Find, text, (1, 1));
    let line = s.current_match_line();
    let label = s.count_label("matches");
    assert_eq!(label, "3 / 3");
    s.update(SearchMessage::Find, text, (0, 0));
    let back = s.update(SearchMessage::FindPrevious, text, (0, 0));
    assert_eq!(back, first);
    assert_eq!(s.current_match_line(), line);
    assert_eq!(s.count_label("matches"), label);
}

#[test]
fn the_stored_line_range_maps_back_to_the_match() {
    let text = "x\u{e9}\nyy ab";
    let mut s = make_search("ab", "", false, true);
    s.update(SearchMessage::Find, text, (0, 0));
    let (line, range) = s.current_match_line().unwrap();
    let offset: usize = text.split('\n').take(line).map(|l| l.len() + 1).sum();
    assert_eq!(offset + range.start..offset + range.end, 7..9);
    assert_eq!(&text[7..9], "ab");
}
