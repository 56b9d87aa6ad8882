//! Find and replace over the editor buffer.
//!
//! [`SearchState`] holds the search bar's fields and the matches of the last
//! search. It never touches the editor itself: [`SearchState::update`] takes
//! the buffer's text and cursor, and answers with a [`SearchAction`] for the
//! editor to carry out.

pub mod find;
pub mod position;

use vstd::prelude::*;

use self::find::{find_matches, find_matches_spec, ranges_view, replace_all_in, replace_all_spec};
use self::position::{
    advance_index, advance_round_trip, byte_range_to_line_col, byte_range_to_line_col_spec,
    byte_range_to_line_local, is_boundary, is_sliceable, lemma_line_of_byte_bound, lemma_nearest_in_range,
    line_col_to_byte, line_col_to_byte_spec, line_local_maps_back, line_local_spec,
    nearest_match_index, nearest_spec, line_offset, nl_pieces, on_line_offsets, sliceable,
    starts_of,
};
use crate::text::{byte_len, decimal, push_decimal, push_str, str_byte_len};

verus! {

#[derive(Debug, Clone)]
pub enum SearchMessage {
    QueryChanged(String),
    ReplaceChanged(String),
    /// Enter in the query field, or the "Find" button: (re)runs the search
    /// against the current buffer and jumps to the next match.
    Find,
    /// Shift+Enter, or the up-arrow button.
    FindPrevious,
    /// Replaces the current match only, then advances to the next one.
    Replace,
    ReplaceAll,
    ToggleRegex,
    ToggleCaseSensitive,
}

/// What the editor has to do once a [`SearchMessage`] was handled.
#[derive(Debug, Clone, PartialEq, Eq)]
pub enum SearchAction {
    /// Nothing.
    Idle,
    /// Put this text in place of the whole buffer.
    SetText(String),
    /// Select `length` characters starting at character `column` of line
    /// `line`.
    Select { line: usize, column: usize, length: usize },
    /// Paste this text over the current selection, then send
    /// [`SearchMessage::Find`] with the edited buffer.
    PasteThenFind(String),
}

/// The model of a [`SearchAction`].
pub enum ActionView {
    Idle,
    SetText(Seq<char>),
    Select(int, int, int),
    PasteThenFind(Seq<char>),
}

impl View for SearchAction {
    type V = ActionView;

    open spec fn view(&self) -> ActionView {
        match self {
            SearchAction::Idle => ActionView::Idle,
            SearchAction::SetText(s) => ActionView::SetText(s@),
            SearchAction::Select { line, column, length } => ActionView::Select(
                *line as int,
                *column as int,
                *length as int,
            ),
            SearchAction::PasteThenFind(s) => ActionView::PasteThenFind(s@),
        }
    }
}

pub struct SearchState {
    query: String,
    replacement: String,
    use_regex: bool,
    case_sensitive: bool,
    match_count: usize,
    last_error: Option<String>,
    /// Byte ranges of every match found by the last `Find`/`FindPrevious`.
    matches: Vec<std::ops::Range<usize>>,
    /// Index into `matches` of the one currently selected in the editor.
    current: Option<usize>,
    /// (line index, byte range within that line) of the current match, for
    /// the editor's highlighter, which only sees one line at a time.
    current_line: Option<(usize, std::ops::Range<usize>)>,
    /// Whether `query`/`case_sensitive`/`use_regex` reflect a search that
    /// actually ran, as opposed to being mid-edit.
    committed: bool,
}

/// The model of a [`SearchState`]: its fields, strings as characters and
/// ranges as pairs of integers.
pub struct SearchView {
    pub query: Seq<char>,
    pub replacement: Seq<char>,
    pub use_regex: bool,
    pub case_sensitive: bool,
    pub match_count: int,
    pub last_error: Option<Seq<char>>,
    pub matches: Seq<(int, int)>,
    pub current: Option<int>,
    pub current_line: Option<(int, int, int)>,
    pub committed: bool,
}

pub open spec fn opt_str_view(o: Option<String>) -> Option<Seq<char>> {
    match o {
        Some(s) => Some(s@),
        None => None,
    }
}

impl View for SearchState {
    type V = SearchView;

    closed spec fn view(&self) -> SearchView {
        SearchView {
            query: self.query@,
            replacement: self.replacement@,
            use_regex: self.use_regex,
            case_sensitive: self.case_sensitive,
            match_count: self.match_count as int,
            last_error: opt_str_view(self.last_error),
            matches: ranges_view(self.matches@),
            current: match self.current {
                Some(i) => Some(i as int),
                None => None,
            },
            current_line: match self.current_line {
                Some((l, r)) => Some((l as int, r.start as int, r.end as int)),
                None => None,
            },
            committed: self.committed,
        }
    }
}

/// The search's invariant: a search that ran has a current match, which is
/// one of the matches, and knows its line, and it counted its matches and
/// reported no error; one that did not has neither match nor line.
pub open spec fn view_wf(s: SearchView) -> bool {
    &&& s.committed == s.current.is_some()
    &&& s.current.is_some() == s.current_line.is_some()
    &&& (s.current matches Some(i) ==> 0 <= i < s.matches.len())
    &&& (s.committed ==> s.last_error is None && s.match_count == s.matches.len())
}

/// The state with no search under way: matches kept, nothing current.
pub open spec fn uncommitted(s: SearchView) -> SearchView {
    SearchView { current: None, current_line: None, committed: false, ..s }
}

/// The state after the query or its options changed.
pub open spec fn cleared(s: SearchView) -> SearchView {
    SearchView { matches: Seq::empty(), current: None, current_line: None, committed: false, ..s }
}

/// The match index to move to from `current` among `len` matches, wrapping
/// at either end.
pub open spec fn advance_spec(current: int, len: int, forward: bool) -> int {
    if forward {
        (current + 1) % len
    } else {
        (current + len - 1) % len
    }
}

/// (Re)finds every match of the query in `text`, then moves to the next
/// (`forward`) or previous match, wrapping around either end; without a
/// current match, to the one nearest the `cursor` (line, column) in that
/// direction. The match is selected when its range can be cut out of the
/// text.
pub open spec fn jump_spec(s: SearchView, text: Seq<char>, cursor: (int, int), forward: bool) -> (
    SearchView,
    ActionView,
) {
    match find_matches_spec(text, s.query, s.case_sensitive, s.use_regex) {
        Err(e) => (
            SearchView { match_count: 0, last_error: Some(e), ..cleared(s) },
            ActionView::Idle,
        ),
        Ok(m) => {
            if m.len() == 0 {
                (
                    SearchView { matches: m, match_count: 0, last_error: None, ..uncommitted(s) },
                    ActionView::Idle,
                )
            } else {
                let next = match s.current {
                    Some(i) => advance_spec(i, m.len() as int, forward),
                    None => nearest_spec(
                        m.map_values(|p: (int, int)| p.0),
                        line_col_to_byte_spec(text, cursor.0 as nat, cursor.1 as nat),
                        forward,
                    ),
                };
                let (start, end) = m[next];
                let local = line_local_spec(text, start, end);
                let st = SearchView {
                    matches: m,
                    match_count: m.len() as int,
                    last_error: None,
                    current: Some(next),
                    current_line: Some(local),
                    committed: true,
                    ..s
                };
                if sliceable(text, start, end) {
                    let (line, column, length) = byte_range_to_line_col_spec(text, start, end);
                    (st, ActionView::Select(line, column, length))
                } else {
                    (st, ActionView::Idle)
                }
            }
        },
    }
}

/// Where the selected match lies, with the text split at every `\n`: on the
/// line recorded for it, at the recorded offsets from that line's first
/// byte, starting within that line.
pub open spec fn selection_on_its_line(t: Seq<char>, s: SearchView) -> bool {
    match (s.current, s.current_line) {
        (Some(i), Some((l, a, b))) => {
            &&& 0 <= l < nl_pieces(t).len()
            &&& line_offset(t, l) + a == s.matches[i].0
            &&& line_offset(t, l) + b == s.matches[i].1
            &&& line_offset(t, l) <= s.matches[i].0 <= line_offset(t, l) + byte_len(nl_pieces(t)[l])
        },
        _ => true,
    }
}

/// What handling `msg` does to the search and asks of the editor, whose
/// text is `text` and cursor `cursor`. Editing the query or toggling an
/// option forgets the matches; `Replace` pastes over the current match, or
/// finds one first; `ReplaceAll` swaps in the new text, or reports the
/// regex's error.
pub open spec fn update_spec(s: SearchView, msg: SearchMessage, text: Seq<char>, cursor: (int, int)) -> (
    SearchView,
    ActionView,
) {
    match msg {
        SearchMessage::QueryChanged(q) => (
            SearchView { query: q@, last_error: None, ..cleared(s) },
            ActionView::Idle,
        ),
        SearchMessage::ReplaceChanged(r) => (SearchView { replacement: r@, ..s }, ActionView::Idle),
        SearchMessage::ToggleRegex => (
            SearchView { use_regex: !s.use_regex, ..cleared(s) },
            ActionView::Idle,
        ),
        SearchMessage::ToggleCaseSensitive => (
            SearchView { case_sensitive: !s.case_sensitive, ..cleared(s) },
            ActionView::Idle,
        ),
        SearchMessage::ReplaceAll => match replace_all_spec(
            text,
            s.query,
            s.replacement,
            s.case_sensitive,
            s.use_regex,
        ) {
            Ok(t) => (cleared(s), ActionView::SetText(t)),
            Err(e) => (SearchView { last_error: Some(e), ..cleared(s) }, ActionView::Idle),
        },
        SearchMessage::Find => jump_spec(s, text, cursor, true),
        SearchMessage::FindPrevious => jump_spec(s, text, cursor, false),
        SearchMessage::Replace => {
            if s.current is None || s.matches.len() == 0 {
                jump_spec(s, text, cursor, true)
            } else {
                (uncommitted(s), ActionView::PasteThenFind(s.replacement))
            }
        },
    }
}

/// The status shown beside the search fields: the last error; else, with a
/// query, "current / count" or "count matches"; else nothing.
pub open spec fn count_label_spec(s: SearchView, matches_word: Seq<char>) -> Seq<char> {
    match s.last_error {
        Some(e) => e,
        None => {
            if s.query.len() == 0 {
                Seq::empty()
            } else {
                match s.current {
                    Some(i) => decimal((i + 1) as nat) + seq![' ', '/', ' '] + decimal(
                        s.match_count as nat,
                    ),
                    None => decimal(s.match_count as nat) + seq![' '] + matches_word,
                }
            }
        },
    }
}

impl SearchState {
    pub open spec fn wf(&self) -> bool {
        view_wf(self@)
    }

    pub fn new() -> (res: Self)
        ensures
            res@ == (SearchView {
                query: Seq::empty(),
                replacement: Seq::empty(),
                use_regex: false,
                case_sensitive: false,
                match_count: 0,
                last_error: None,
                matches: Seq::empty(),
                current: None,
                current_line: None,
                committed: false,
            }),
            res.wf(),
    {
        let res = SearchState {
            query: String::new(),
            replacement: String::new(),
            use_regex: false,
            case_sensitive: false,
            match_count: 0,
            last_error: None,
            matches: Vec::new(),
            current: None,
            current_line: None,
            committed: false,
        };
        assert(ranges_view(res.matches@) =~= Seq::<(int, int)>::empty());
        res
    }

    /// A search for `query`, to be replaced by `replacement`, with the given
    /// options, before it has run.
    pub fn with_options(query: &str, replacement: &str, use_regex: bool, case_sensitive: bool) -> (res:
        Self)
        ensures
            res@ == (SearchView {
                query: query@,
                replacement: replacement@,
                use_regex,
                case_sensitive,
                match_count: 0,
                last_error: None,
                matches: Seq::empty(),
                current: None,
                current_line: None,
                committed: false,
            }),
            res.wf(),
    {
        let res = SearchState {
            query: String::from_str(query),
            replacement: String::from_str(replacement),
            use_regex,
            case_sensitive,
            match_count: 0,
            last_error: None,
            matches: Vec::new(),
            current: None,
            current_line: None,
            committed: false,
        };
        assert(ranges_view(res.matches@) =~= Seq::<(int, int)>::empty());
        res
    }

    pub fn query(&self) -> (res: &str)
        ensures
            res@ == self@.query,
    {
        self.query.as_str()
    }

    pub fn replacement(&self) -> (res: &str)
        ensures
            res@ == self@.replacement,
    {
        self.replacement.as_str()
    }

    pub fn use_regex(&self) -> (res: bool)
        ensures
            res == self@.use_regex,
    {
        self.use_regex
    }

    pub fn case_sensitive(&self) -> (res: bool)
        ensures
            res == self@.case_sensitive,
    {
        self.case_sensitive
    }

    pub fn match_count(&self) -> (res: usize)
        ensures
            res == self@.match_count,
    {
        self.match_count
    }

    pub fn last_error(&self) -> (res: Option<&str>)
        ensures
            match res {
                Some(e) => self@.last_error == Some(e@),
                None => self@.last_error is None,
            },
    {
        match &self.last_error {
            Some(e) => Some(e.as_str()),
            None => None,
        }
    }

    /// Index of the current match among the matches of the last search.
    pub fn current_index(&self) -> (res: Option<usize>)
        ensures
            match res {
                Some(i) => self@.current == Some(i as int),
                None => self@.current is None,
            },
    {
        self.current
    }

    /// The current match's (line index, byte range within that line), for
    /// the editor's highlighter to style apart from the other matches.
    pub fn current_match_line(&self) -> (res: Option<(usize, std::ops::Range<usize>)>)
        ensures
            match res {
                Some((l, r)) => self@.current_line == Some((l as int, r.start as int, r.end as int)),
                None => self@.current_line is None,
            },
    {
        match &self.current_line {
            Some((l, r)) => Some((*l, r.start..r.end)),
            None => None,
        }
    }

    /// The query the editor's highlighter should match against, with its
    /// case sensitivity and regex mode; `None` while the field is being
    /// edited but no search has run yet.
    pub fn highlight_query(&self) -> (res: Option<(String, bool, bool)>)
        ensures
            match res {
                Some((q, cs, rx)) => self@.committed && q@ == self@.query && cs
                    == self@.case_sensitive && rx == self@.use_regex,
                None => !self@.committed,
            },
    {
        if self.committed {
            Some((self.query.clone(), self.case_sensitive, self.use_regex))
        } else {
            None
        }
    }

    fn clear_matches(&mut self)
        ensures
            final(self)@ == cleared(old(self)@),
    {
        self.matches = Vec::new();
        self.current = None;
        self.current_line = None;
        self.committed = false;
        assert(ranges_view(self.matches@) =~= Seq::<(int, int)>::empty());
    }

    /// Handles `msg` against a buffer holding `text` with its cursor at
    /// `cursor` (line, column, both counted in characters), and says what the
    /// editor must do next.
    pub fn update(&mut self, msg: SearchMessage, text: &str, cursor: (usize, usize)) -> (res:
        SearchAction)
        requires
            byte_len(text@) < usize::MAX,
        ensures
            (final(self)@, res@) == update_spec(
                old(self)@,
                msg,
                text@,
                (cursor.0 as int, cursor.1 as int),
            ),
            view_wf(old(self)@) ==> view_wf(final(self)@),
            (msg is Find || msg is FindPrevious) && final(self)@.committed ==> selection_on_its_line(
                text@,
                final(self)@,
            ),
    {
        match msg {
            SearchMessage::QueryChanged(q) => {
                self.query = q;
                self.last_error = None;
                self.clear_matches();
                SearchAction::Idle
            },
            SearchMessage::ReplaceChanged(r) => {
                self.replacement = r;
                SearchAction::Idle
            },
            SearchMessage::ToggleRegex => {
                self.use_regex = !self.use_regex;
                self.clear_matches();
                SearchAction::Idle
            },
            SearchMessage::ToggleCaseSensitive => {
                self.case_sensitive = !self.case_sensitive;
                self.clear_matches();
                SearchAction::Idle
            },
            SearchMessage::ReplaceAll => {
                let mut action = SearchAction::Idle;
                match self.replace_all(text) {
                    Ok(new_text) => {
                        action = SearchAction::SetText(new_text);
                    },
                    Err(e) => {
                        self.last_error = Some(e);
                    },
                }
                self.clear_matches();
                action
            },
            SearchMessage::Find => self.jump(text, cursor, true),
            SearchMessage::FindPrevious => self.jump(text, cursor, false),
            SearchMessage::Replace => self.replace_current(text, cursor),
        }
    }

    /// Replaces the current match (the one selected in the editor by a prior
    /// `Find`/`FindPrevious`) by asking the editor to paste the replacement
    /// over it and search again. With no current match, this is a `Find`.
    fn replace_current(&mut self, text: &str, cursor: (usize, usize)) -> (res: SearchAction)
        requires
            byte_len(text@) < usize::MAX,
        ensures
            (final(self)@, res@) == update_spec(
                old(self)@,
                SearchMessage::Replace,
                text@,
                (cursor.0 as int, cursor.1 as int),
            ),
            view_wf(old(self)@) ==> view_wf(final(self)@),
    {
        if self.current.is_none() || self.matches.len() == 0 {
            return self.jump(text, cursor, true);
        }
        self.current = None;
        self.current_line = None;
        self.committed = false;
        SearchAction::PasteThenFind(self.replacement.clone())
    }

    /// (Re)finds every match, then moves to the next one (`forward`) or the
    /// previous one, wrapping around either end. The first move after a
    /// fresh search goes to whichever match is nearest the cursor.
    pub fn jump(&mut self, text: &str, cursor: (usize, usize), forward: bool) -> (res: SearchAction)
        requires
            byte_len(text@) < usize::MAX,
        ensures
            (final(self)@, res@) == jump_spec(
                old(self)@,
                text@,
                (cursor.0 as int, cursor.1 as int),
                forward,
            ),
            view_wf(old(self)@) ==> view_wf(final(self)@),
            final(self)@.committed ==> selection_on_its_line(text@, final(self)@),
    {
        match find_matches(text, self.query.as_str(), self.case_sensitive, self.use_regex) {
            Ok(matches) => {
                self.matches = matches;
                self.match_count = self.matches.len();
                self.last_error = None;
            },
            Err(e) => {
                self.clear_matches();
                self.match_count = 0;
                self.last_error = Some(e);
                return SearchAction::Idle;
            },
        }
        if self.matches.len() == 0 {
            self.current = None;
            self.current_line = None;
            self.committed = false;
            return SearchAction::Idle;
        }
        let ghost m = ranges_view(self.matches@);
        let next = self.next_index(text, cursor, forward);
        assert(m[next as int] == (
            self.matches@[next as int].start as int,
            self.matches@[next as int].end as int,
        ));
        assert(is_boundary(text@, self.matches@[next as int].start as int));
        self.select(text, next)
    }

    /// The match to move to: the next (`forward`) or previous one after the
    /// current one, wrapping; without a current match, the one nearest the
    /// cursor in that direction.
    fn next_index(&self, text: &str, cursor: (usize, usize), forward: bool) -> (res: usize)
        requires
            self.matches@.len() > 0,
            byte_len(text@) < usize::MAX,
        ensures
            res < self.matches@.len(),
            res == match self@.current {
                Some(i) => advance_spec(i, self@.matches.len() as int, forward),
                None => nearest_spec(
                    self@.matches.map_values(|p: (int, int)| p.0),
                    line_col_to_byte_spec(text@, cursor.0 as nat, cursor.1 as nat),
                    forward,
                ),
            },
    {
        match self.current {
            Some(i) => advance_index(i, self.matches.len(), forward),
            None => {
                let at = line_col_to_byte(text, cursor);
                proof {
                    assert(starts_of(self.matches@) =~= ranges_view(self.matches@).map_values(
                        |p: (int, int)| p.0,
                    ));
                }
                nearest_match_index(self.matches.as_slice(), at, forward)
            },
        }
    }

    /// Makes match `next` the current one, records its line, and asks the
    /// editor to select it where its range can be cut out of the text.
    fn select(&mut self, text: &str, next: usize) -> (res: SearchAction)
        requires
            next < old(self).matches@.len(),
            old(self).matches@[next as int].start <= old(self).matches@[next as int].end,
            is_boundary(text@, old(self).matches@[next as int].start as int),
        ensures
            ({
                let st = old(self).matches@[next as int].start as int;
                let en = old(self).matches@[next as int].end as int;
                &&& final(self)@ == SearchView {
                    current: Some(next as int),
                    current_line: Some(line_local_spec(text@, st, en)),
                    committed: true,
                    ..old(self)@
                }
                &&& res@ == if sliceable(text@, st, en) {
                    let (line, column, length) = byte_range_to_line_col_spec(text@, st, en);
                    ActionView::Select(line, column, length)
                } else {
                    ActionView::Idle
                }
                &&& selection_on_its_line(text@, final(self)@)
            }),
    {
        let range = self.matches[next].start..self.matches[next].end;
        proof {
            lemma_line_of_byte_bound(text@, range.start as int);
            line_local_maps_back(text@, range.start as int, range.end as int);
            let loc = line_local_spec(text@, range.start as int, range.end as int);
            on_line_offsets(text@, range.start as int, range.end as int, loc.0, loc.1, loc.2);
        }
        self.current = Some(next);
        self.current_line = Some(byte_range_to_line_local(text, &range));
        self.committed = true;
        if is_sliceable(text, range.start, range.end) {
            let (line, column, length) = byte_range_to_line_col(text, &range);
            SearchAction::Select { line, column, length }
        } else {
            SearchAction::Idle
        }
    }

    /// The buffer `text` with every match of the query replaced.
    pub fn replace_all(&self, text: &str) -> (res: Result<String, String>)
        ensures
            match res {
                Ok(s) => replace_all_spec(
                    text@,
                    self@.query,
                    self@.replacement,
                    self@.case_sensitive,
                    self@.use_regex,
                ) == Ok::<Seq<char>, Seq<char>>(s@),
                Err(e) => replace_all_spec(
                    text@,
                    self@.query,
                    self@.replacement,
                    self@.case_sensitive,
                    self@.use_regex,
                ) == Err::<Seq<char>, Seq<char>>(e@),
            },
    {
        replace_all_in(
            text,
            self.query.as_str(),
            self.replacement.as_str(),
            self.case_sensitive,
            self.use_regex,
        )
    }

    /// The status shown beside the search fields; `matches_word` is the
    /// (translated) word for "matches".
    pub fn count_label(&self, matches_word: &str) -> (res: String)
        requires
            self.wf(),
        ensures
            res@ == count_label_spec(self@, matches_word@),
    {
        match &self.last_error {
            Some(e) => e.clone(),
            None => {
                let mut out = String::new();
                proof {
                    crate::text::lemma_byte_len_ge_len(self.query@);
                    if self.query@.len() == 0 {
                        assert(byte_len(self.query@) == 0);
                    }
                }
                if str_byte_len(self.query.as_str()) == 0 {
                    assert(out@ =~= Seq::<char>::empty());
                    return out;
                }
                match self.current {
                    Some(i) => {
                        assert(view_wf(self@));
                        assert(self@.current == Some(i as int));
                        assert(self@.matches.len() == self.matches@.len());
                        let n = self.matches.len();
                        assert(i < n);
                        push_decimal(&mut out, i + 1);
                        push_str(&mut out, " / ");
                        push_decimal(&mut out, self.match_count);
                        proof {
                            reveal_strlit(" / ");
                        }
                        assert(out@ =~= count_label_spec(self@, matches_word@));
                    },
                    None => {
                        push_decimal(&mut out, self.match_count);
                        push_str(&mut out, " ");
                        push_str(&mut out, matches_word);
                        proof {
                            reveal_strlit(" ");
                        }
                        assert(out@ =~= count_label_spec(self@, matches_word@));
                    },
                }
                out
            },
        }
    }
}

// ─── Laws ───────────────────────────────────────────────────────────────────

/// What each message does to the query the highlighter sees: editing the
/// query, toggling an option or replacing everything withdraws it; a
/// search shows it exactly when it found something; editing the
/// replacement leaves it; `Replace` withdraws it unless it only searched.
pub proof fn highlight_after_update(s: SearchView, msg: SearchMessage, text: Seq<char>, cursor: (
    int,
    int,
))
    ensures
        update_spec(s, msg, text, cursor).0.committed == match msg {
            SearchMessage::QueryChanged(_) => false,
            SearchMessage::ToggleRegex => false,
            SearchMessage::ToggleCaseSensitive => false,
            SearchMessage::ReplaceAll => false,
            SearchMessage::ReplaceChanged(_) => s.committed,
            SearchMessage::Find => found_some(s, text),
            SearchMessage::FindPrevious => found_some(s, text),
            SearchMessage::Replace => (s.current is None || s.matches.len() == 0) && found_some(
                s,
                text,
            ),
        },
{
}

/// Whether searching `text` for the query finds at least one match.
pub open spec fn found_some(s: SearchView, text: Seq<char>) -> bool {
    match find_matches_spec(text, s.query, s.case_sensitive, s.use_regex) {
        Ok(m) => m.len() > 0,
        Err(_) => false,
    }
}

/// Replacing everything, end to end: the editor gets the replaced text,
/// or the search reports why there is none; the query, the replacement
/// and the options stay; no match is current or highlighted afterwards.
pub proof fn replace_all_end_to_end(s: SearchView, text: Seq<char>, cursor: (int, int))
    ensures
        ({
            let (s1, act) = update_spec(s, SearchMessage::ReplaceAll, text, cursor);
            &&& s1.query == s.query && s1.replacement == s.replacement
            &&& s1.use_regex == s.use_regex && s1.case_sensitive == s.case_sensitive
            &&& !s1.committed && s1.current is None && s1.current_line is None
            &&& match replace_all_spec(
                text,
                s.query,
                s.replacement,
                s.case_sensitive,
                s.use_regex,
            ) {
                Ok(t) => act == ActionView::SetText(t) && s1.last_error == s.last_error,
                Err(e) => act == ActionView::Idle && s1.last_error == Some(e),
            }
        }),
{
}

/// While a match is selected, the search reported no error, found at
/// least one match, and the label's position `k / n` has `1 <= k <= n`.
pub proof fn selected_match_is_counted(s: SearchView)
    requires
        view_wf(s),
        s.current is Some,
    ensures
        s.last_error is None,
        s.match_count >= 1,
        1 <= s.current->0 + 1 <= s.match_count,
{
}

/// [`find_then_previous_restores`] over the search step itself.
proof fn jump_then_back(
    s: SearchView,
    text: Seq<char>,
    c0: (int, int),
    c1: (int, int),
    c2: (int, int),
    forward: bool,
)
    requires
        jump_spec(s, text, c0, forward).0.committed,
    ensures
        ({
            let (s1, a1) = jump_spec(s, text, c0, forward);
            let s2 = jump_spec(s1, text, c1, true).0;
            jump_spec(s2, text, c2, false) == (s1, a1)
        }),
{
    let (s1, a1) = jump_spec(s, text, c0, forward);
    let m = find_matches_spec(text, s.query, s.case_sensitive, s.use_regex)->Ok_0;
    let len = m.len() as int;
    let n = s1.current->0;
    assert(0 <= n < len) by {
        match s.current {
            Some(i) => {
                assert(n == advance_spec(i, len, forward));
            },
            None => {
                lemma_nearest_in_range(
                    m.map_values(|p: (int, int)| p.0),
                    line_col_to_byte_spec(text, c0.0 as nat, c0.1 as nat),
                    forward,
                );
            },
        }
    }
    advance_round_trip(n, len);
    let s2 = jump_spec(s1, text, c1, true).0;
    assert(s2.current == Some((n + 1) % len));
    assert(jump_spec(s2, text, c2, false) == (s1, a1));
}

/// Once a search (`Find` or `FindPrevious`, as `forward` says) selected a
/// match, `Find` then `FindPrevious` on the same text (wherever the cursor
/// is) give back the same state and selection.
pub proof fn find_then_previous_restores(
    s: SearchView,
    text: Seq<char>,
    c0: (int, int),
    c1: (int, int),
    c2: (int, int),
    forward: bool,
)
    requires
        update_spec(
            s,
            if forward { SearchMessage::Find } else { SearchMessage::FindPrevious },
            text,
            c0,
        ).0.committed,
    ensures
        ({
            let (s1, a1) = update_spec(
                s,
                if forward { SearchMessage::Find } else { SearchMessage::FindPrevious },
                text,
                c0,
            );
            let s2 = update_spec(s1, SearchMessage::Find, text, c1).0;
            update_spec(s2, SearchMessage::FindPrevious, text, c2) == (s1, a1)
        }),
{
    update_search_is_jump(s, text, c0);
    let s1 = jump_spec(s, text, c0, forward).0;
    update_search_is_jump(s1, text, c1);
    let s2 = jump_spec(s1, text, c1, true).0;
    update_search_is_jump(s2, text, c2);
    jump_then_back(s, text, c0, c1, c2, forward);
}

proof fn update_search_is_jump(s: SearchView, text: Seq<char>, c: (int, int))
    ensures
        update_spec(s, SearchMessage::Find, text, c) == jump_spec(s, text, c, true),
        update_spec(s, SearchMessage::FindPrevious, text, c) == jump_spec(s, text, c, false),
{
}

} // verus!
