//! Inline markers: emphasis, code spans, links and escapes.

use vstd::prelude::*;

use super::{Span, SpanV, Style, spans_view};
use crate::text::{
    chars_of, matches_at, occurs_at, is_alnum, is_alphanumeric, is_whitespace, is_ws, leading_run, push_char,
    slice_chars, string_of,
};

verus! {

// ─── Specification ──────────────────────────────────────────────────────────

/// The first `j >= i` at which `needle` occurs in `chars`.
pub open spec fn first_occurrence(chars: Seq<char>, i: int, needle: Seq<char>) -> Option<int>
    decreases chars.len() - i,
{
    if i < 0 || i + needle.len() > chars.len() {
        None
    } else if needle.len() == 0 || occurs_at(chars, i, needle) {
        Some(i)
    } else {
        first_occurrence(chars, i + 1, needle)
    }
}

/// Index of the next occurrence of `needle` at or after `from`; never found
/// from past the end or for an empty needle.
pub open spec fn find_spec(chars: Seq<char>, from: int, needle: Seq<char>) -> Option<int> {
    if from >= chars.len() || needle.len() == 0 {
        None
    } else {
        first_occurrence(chars, from, needle)
    }
}

pub proof fn lemma_first_occurrence(chars: Seq<char>, i: int, needle: Seq<char>)
    requires
        0 <= i,
    ensures
        first_occurrence(chars, i, needle) matches Some(j) ==> i <= j && occurs_at(
            chars,
            j,
            needle,
        ) && forall|k: int| i <= k < j ==> !occurs_at(chars, k, needle),
        first_occurrence(chars, i, needle) is None ==> forall|k: int|
            i <= k ==> !occurs_at(chars, k, needle),
    decreases chars.len() - i,
{
    if i < 0 || i + needle.len() > chars.len() {
    } else if needle.len() == 0 || occurs_at(chars, i, needle) {
        if needle.len() == 0 {
            assert(chars.subrange(i, i + needle.len()) =~= needle);
        }
    } else {
        lemma_first_occurrence(chars, i + 1, needle);
    }
}

pub proof fn lemma_find_bounds(chars: Seq<char>, from: int, needle: Seq<char>)
    ensures
        find_spec(chars, from, needle) matches Some(j) ==> from <= j && 0 <= j && j
            + needle.len() <= chars.len() && needle.len() > 0,
{
    if 0 <= from < chars.len() && needle.len() > 0 {
        lemma_first_occurrence(chars, from, needle);
    }
}

/// `run` copies of `c`.
pub open spec fn repeat_char(c: char, run: nat) -> Seq<char> {
    Seq::new(run, |k: int| c)
}

/// Whether the delimiter found at `end` closes an emphasis of `run` copies
/// of `marker`: the text it closes must not end in whitespace, and a `_`
/// delimiter must not be followed by a letter or digit.
pub open spec fn closes_at(chars: Seq<char>, end: int, marker: char, run: int) -> bool {
    &&& !is_ws(chars[end - 1])
    &&& (marker != '_' || end + run >= chars.len() || !is_alnum(chars[end + run]))
}

/// The first closing delimiter of the emphasis at or after `from`.
pub open spec fn emphasis_scan(chars: Seq<char>, from: int, marker: char, run: nat) -> Option<int>
    decreases chars.len() - from,
{
    match find_spec(chars, from, repeat_char(marker, run)) {
        None => None,
        Some(end) => {
            proof {
                lemma_find_bounds(chars, from, repeat_char(marker, run));
            }
            if closes_at(chars, end, marker, run as int) {
                Some(end)
            } else {
                emphasis_scan(chars, end + 1, marker, run)
            }
        },
    }
}

/// Where the emphasis opened at `i` by `run` copies of `marker` closes, if
/// it does: the delimiters must hug the emphasized text, and `_` only opens
/// at a word boundary.
pub open spec fn emphasis_end_spec(chars: Seq<char>, i: int, marker: char, run: nat) -> Option<
    int,
> {
    let start = i + run;
    if start >= chars.len() || is_ws(chars[start]) {
        None
    } else if marker == '_' && i > 0 && is_alnum(chars[i - 1]) {
        None
    } else {
        emphasis_scan(chars, start + 1, marker, run)
    }
}

/// An emphasis opened by `run` underscores at `i` (at a word boundary, and
/// before a character that is not whitespace) closes at the first later run
/// of as many underscores that directly follows a character other than
/// whitespace and is followed by anything but a letter or digit:
/// punctuation, whitespace or the end of the text.
pub proof fn underscore_emphasis_closes(chars: Seq<char>, i: int, run: nat, end: int)
    requires
        0 <= i,
        1 <= run,
        i + run < chars.len(),
        !is_ws(chars[i + run]),
        i == 0 || !is_alnum(chars[i - 1]),
        i + run + 1 <= end,
        occurs_at(chars, end, repeat_char('_', run)),
        forall|k: int| i + run + 1 <= k < end ==> !occurs_at(chars, k, repeat_char('_', run)),
        !is_ws(chars[end - 1]),
        end + run >= chars.len() || !is_alnum(chars[end + run]),
    ensures
        emphasis_end_spec(chars, i, '_', run) == Some(end),
{
    let needle = repeat_char('_', run);
    let from = i + run + 1;
    lemma_first_occurrence(chars, from, needle);
    assert(find_spec(chars, from, needle) == Some(end));
}

proof fn lemma_scan_found(chars: Seq<char>, from: int, marker: char, run: nat)
    requires
        0 <= from,
    ensures
        emphasis_scan(chars, from, marker, run) matches Some(end) ==> from <= end && occurs_at(
            chars,
            end,
            repeat_char(marker, run),
        ) && closes_at(chars, end, marker, run as int),
    decreases chars.len() - from,
{
    let needle = repeat_char(marker, run);
    lemma_find_bounds(chars, from, needle);
    if 0 <= from < chars.len() && needle.len() > 0 {
        lemma_first_occurrence(chars, from, needle);
    }
    match find_spec(chars, from, needle) {
        None => {},
        Some(end) => {
            if !closes_at(chars, end, marker, run as int) {
                lemma_scan_found(chars, end + 1, marker, run);
            }
        },
    }
}

/// Where an emphasis closes is always a run of as many delimiters as opened
/// it, after the emphasized text's first character, right after a character
/// other than whitespace; for `_`, one that no letter or digit follows (so
/// `snake_case_name` holds no emphasis).
pub proof fn emphasis_closes_at_a_closing_run(chars: Seq<char>, i: int, marker: char, run: nat)
    requires
        0 <= i,
    ensures
        emphasis_end_spec(chars, i, marker, run) matches Some(end) ==> {
            &&& i + run + 1 <= end
            &&& occurs_at(chars, end, repeat_char(marker, run))
            &&& !is_ws(chars[end - 1])
            &&& (marker == '_' && end + run < chars.len() ==> !is_alnum(chars[end + run]))
        },
{
    lemma_scan_found(chars, i + run + 1, marker, run);
}

/// `[label](url)` starting at the `[` at `start`: the label, the url and the
/// index just past the closing `)`.
pub open spec fn link_spec(chars: Seq<char>, start: int) -> Option<(Seq<char>, Seq<char>, int)> {
    match find_spec(chars, start + 1, seq![']']) {
        None => None,
        Some(close) => if close + 1 < chars.len() && chars[close + 1] == '(' {
            match find_spec(chars, close + 2, seq![')']) {
                None => None,
                Some(end) => Some(
                    (chars.subrange(start + 1, close), chars.subrange(close + 2, end), end + 1),
                ),
            }
        } else {
            None
        },
    }
}

pub open spec fn plain(text: Seq<char>) -> SpanV {
    SpanV { text, style: Style::Plain, href: None }
}

/// `spans` with the pending plain text `buf` closed off as a span.
pub open spec fn flush_plain(spans: Seq<SpanV>, buf: Seq<char>) -> Seq<SpanV> {
    if buf.len() > 0 {
        spans.push(plain(buf))
    } else {
        spans
    }
}

pub open spec fn emphasis_style(run: nat) -> Style {
    if run == 1 {
        Style::Italic
    } else if run == 2 {
        Style::Bold
    } else {
        Style::BoldItalic
    }
}

/// Length of the run of `c` at `i`, capped at three.
pub open spec fn marker_run(chars: Seq<char>, i: int, c: char) -> nat {
    let n = leading_run(chars.skip(i), c);
    if n < 3 {
        n
    } else {
        3
    }
}

/// The spans of `chars` from `i` on, given the spans already closed and the
/// plain text `buf` read since the last of them.
pub open spec fn inline_from(chars: Seq<char>, i: int, spans: Seq<SpanV>, buf: Seq<char>) -> Seq<
    SpanV,
>
    decreases chars.len() - i,
{
    if i < 0 || i >= chars.len() {
        flush_plain(spans, buf)
    } else {
        let c = chars[i];
        if c == '\\' && i + 1 < chars.len() {
            inline_from(chars, i + 2, spans, buf.push(chars[i + 1]))
        } else if c == '`' {
            match find_spec(chars, i + 1, seq!['`']) {
                Some(end) => {
                    proof {
                        lemma_find_bounds(chars, i + 1, seq!['`']);
                    }
                    inline_from(
                        chars,
                        end + 1,
                        flush_plain(spans, buf).push(
                            SpanV {
                                text: chars.subrange(i + 1, end),
                                style: Style::Code,
                                href: None,
                            },
                        ),
                        Seq::empty(),
                    )
                },
                None => inline_from(chars, i + 1, spans, buf.push(c)),
            }
        } else if c == '*' || c == '_' {
            let run = marker_run(chars, i, c);
            match emphasis_end_spec(chars, i, c, run) {
                Some(end) => {
                    proof {
                        lemma_emphasis_end_bounds(chars, i, c, run);
                    }
                    inline_from(
                        chars,
                        end + run,
                        flush_plain(spans, buf).push(
                            SpanV {
                                text: chars.subrange(i + run, end),
                                style: emphasis_style(run),
                                href: None,
                            },
                        ),
                        Seq::empty(),
                    )
                },
                None => inline_from(chars, i + 1, spans, buf.push(c)),
            }
        } else if c == '[' || c == '!' {
            let open = if c == '!' {
                i + 1
            } else {
                i
            };
            if open < chars.len() && chars[open] == '[' {
                match link_spec(chars, open) {
                    Some(l) => {
                        proof {
                            lemma_link_bounds(chars, open);
                        }
                        inline_from(
                            chars,
                            l.2,
                            flush_plain(spans, buf).push(
                                SpanV { text: l.0, style: Style::Link, href: Some(l.1) },
                            ),
                            Seq::empty(),
                        )
                    },
                    None => inline_from(chars, i + 1, spans, buf.push(c)),
                }
            } else {
                inline_from(chars, i + 1, spans, buf.push(c))
            }
        } else {
            inline_from(chars, i + 1, spans, buf.push(c))
        }
    }
}

/// The styled spans of a line of Markdown.
pub open spec fn inline_spans(s: Seq<char>) -> Seq<SpanV> {
    inline_from(s, 0, Seq::empty(), Seq::empty())
}

/// The shape every span list the inline parser produces has: a link target
/// exactly on links, no empty plain run, and never two plain runs in a row.
pub open spec fn spans_wf(spans: Seq<SpanV>) -> bool {
    &&& forall|k: int|
        0 <= k < spans.len() ==> ((#[trigger] spans[k]).style == Style::Link) == (
        spans[k].href is Some)
    &&& forall|k: int|
        0 <= k < spans.len() && (#[trigger] spans[k]).style == Style::Plain ==> spans[k].text.len()
            > 0
    &&& forall|k: int|
        #![trigger spans[k], spans[k + 1]]
        0 <= k < spans.len() - 1 && spans[k].style == Style::Plain ==> spans[k + 1].style
            != Style::Plain
}

pub proof fn lemma_emphasis_scan_bounds(chars: Seq<char>, from: int, marker: char, run: nat)
    ensures
        emphasis_scan(chars, from, marker, run) matches Some(end) ==> from <= end && end + run
            <= chars.len() && run > 0,
    decreases chars.len() - from,
{
    lemma_find_bounds(chars, from, repeat_char(marker, run));
    match find_spec(chars, from, repeat_char(marker, run)) {
        None => {},
        Some(end) => {
            if !closes_at(chars, end, marker, run as int) {
                lemma_emphasis_scan_bounds(chars, end + 1, marker, run);
            }
        },
    }
}

pub proof fn lemma_emphasis_end_bounds(chars: Seq<char>, i: int, marker: char, run: nat)
    ensures
        emphasis_end_spec(chars, i, marker, run) matches Some(end) ==> i + run + 1 <= end && end
            + run <= chars.len() && run > 0,
{
    lemma_emphasis_scan_bounds(chars, i + run + 1, marker, run);
}

pub proof fn lemma_link_bounds(chars: Seq<char>, start: int)
    ensures
        link_spec(chars, start) matches Some(l) ==> start + 1 <= l.2 <= chars.len(),
{
    lemma_find_bounds(chars, start + 1, seq![']']);
    match find_spec(chars, start + 1, seq![']']) {
        None => {},
        Some(close) => {
            lemma_find_bounds(chars, close + 2, seq![')']);
        },
    }
}

// ─── Implementation ─────────────────────────────────────────────────────────

/// Index of the next occurrence of `needle` at or after `from`.
pub fn find(chars: &[char], from: usize, needle: &str) -> (res: Option<usize>)
    requires
        from > 0 || needle@.len() <= chars@.len() || chars@.len() == 0,
    ensures
        res matches Some(j) ==> find_spec(chars@, from as int, needle@) == Some(j as int),
        res is None ==> find_spec(chars@, from as int, needle@) is None,
{
    let needle = chars_of(needle);
    find_chars(chars, from, needle.as_slice())
}

fn find_chars(chars: &[char], from: usize, needle: &[char]) -> (res: Option<usize>)
    ensures
        res matches Some(j) ==> find_spec(chars@, from as int, needle@) == Some(j as int),
        res is None ==> find_spec(chars@, from as int, needle@) is None,
{
    if from >= chars.len() || needle.len() == 0 {
        return None;
    }
    if needle.len() > chars.len() {
        return None;
    }
    let last = chars.len() - needle.len();
    assert(chars.len() == chars@.len());
    let mut i = from;
    while i <= last
        invariant
            chars@.len() <= usize::MAX,
            from <= i,
            last + needle@.len() == chars@.len(),
            needle@.len() > 0,
            first_occurrence(chars@, i as int, needle@) == first_occurrence(
                chars@,
                from as int,
                needle@,
            ),
        decreases last + 1 - i,
    {
        if matches_at(chars, i, needle) {
            return Some(i);
        }
        i = i + 1;
    }
    None
}

fn one_char(c: char) -> (res: Vec<char>)
    ensures
        res@ == seq![c],
{
    let mut v = Vec::new();
    v.push(c);
    assert(v@ =~= seq![c]);
    v
}

/// Characters `from..to` of `chars`, as a `String`.
pub fn collect(chars: &[char], from: usize, to: usize) -> (res: String)
    requires
        from <= to <= chars@.len(),
    ensures
        res@ == chars@.subrange(from as int, to as int),
{
    let v = slice_chars(chars, from, to);
    string_of(v.as_slice())
}

/// Closes off the pending plain text `buf` as a span, if there is any.
pub fn push_plain(spans: &mut Vec<Span>, buf: &mut String)
    ensures
        spans_view(final(spans)@) == flush_plain(spans_view(old(spans)@), old(buf)@),
        final(buf)@.len() == 0,
{
    let ghost before = spans_view(spans@);
    if !buf.as_str().is_empty() {
        let mut text = String::new();
        std::mem::swap(&mut text, buf);
        spans.push(Span::new(text, Style::Plain));
        assert(spans_view(spans@) =~= before.push(plain(old(buf)@)));
    }
}

/// Where the emphasis opened at `i` closes, if it does.
///
/// Follows the two rules that matter in practice: the delimiters must hug the
/// emphasized text (so `2 * 3 * 4` stays arithmetic), and `_` only delimits at
/// a word boundary (so `snake_case_name` stays one word).
pub fn emphasis_end(chars: &[char], i: usize, marker: char, run: usize) -> (res: Option<usize>)
    requires
        1 <= run <= 3,
        i + run <= chars@.len(),
    ensures
        res matches Some(end) ==> emphasis_end_spec(chars@, i as int, marker, run as nat) == Some(
            end as int,
        ),
        res is None ==> emphasis_end_spec(chars@, i as int, marker, run as nat) is None,
{
    assert(chars.len() == chars@.len());
    let start = i + run;
    if start >= chars.len() || is_whitespace(chars[start]) {
        return None;
    }
    if marker == '_' && i > 0 && is_alphanumeric(chars[i - 1]) {
        return None;
    }
    let mut delim: Vec<char> = Vec::new();
    let mut k: usize = 0;
    while k < run
        invariant
            k <= run,
            delim@ == repeat_char(marker, k as nat),
        decreases run - k,
    {
        delim.push(marker);
        assert(delim@ =~= repeat_char(marker, (k + 1) as nat));
        k = k + 1;
    }
    let mut from = start + 1;
    while from < chars.len()
        invariant
            1 <= run <= 3,
            start + 1 <= from,
            start < chars@.len(),
            delim@ == repeat_char(marker, run as nat),
            emphasis_scan(chars@, from as int, marker, run as nat) == emphasis_end_spec(
                chars@,
                i as int,
                marker,
                run as nat,
            ),
        decreases chars@.len() - from,
    {
        proof {
            lemma_find_bounds(chars@, from as int, delim@);
        }
        match find_chars(chars, from, delim.as_slice()) {
            None => {
                return None;
            },
            Some(end) => {
                let closes = !is_whitespace(chars[end - 1]) && (marker != '_' || end + run
                    >= chars.len() || !is_alphanumeric(chars[end + run]));
                if closes {
                    return Some(end);
                }
                from = end + 1;
            },
        }
    }
    proof {
        lemma_find_bounds(chars@, from as int, delim@);
    }
    None
}

/// Parses `[label](url)` starting at the `[`; returns the label, the url,
/// and the index just past the closing `)`.
pub fn link(chars: &[char], start: usize) -> (res: Option<(String, String, usize)>)
    requires
        start < chars@.len(),
    ensures
        res matches Some(l) ==> link_spec(chars@, start as int) == Some((l.0@, l.1@, l.2 as int)),
        res is None ==> link_spec(chars@, start as int) is None,
{
    assert(chars.len() == chars@.len());
    proof {
        lemma_find_bounds(chars@, start + 1, seq![']']);
    }
    let close = match find_chars(chars, start + 1, one_char(']').as_slice()) {
        Some(c) => c,
        None => {
            return None;
        },
    };
    if !(close + 1 < chars.len() && chars[close + 1] == '(') {
        return None;
    }
    proof {
        lemma_find_bounds(chars@, close + 2, seq![')']);
    }
    let end = match find_chars(chars, close + 2, one_char(')').as_slice()) {
        Some(e) => e,
        None => {
            return None;
        },
    };
    Some((collect(chars, start + 1, close), collect(chars, close + 2, end), end + 1))
}

/// Length of the run of `c` at `i`, capped at three.
fn marker_run_len(chars: &[char], i: usize, c: char) -> (res: usize)
    requires
        i < chars@.len(),
        chars@[i as int] == c,
    ensures
        res == marker_run(chars@, i as int, c),
        1 <= res <= 3,
        i + res <= chars@.len(),
{
    let mut j = i;
    assert(chars@.skip(i as int) =~= chars@.skip(i as int));
    while j < chars.len() && chars[j] == c && j - i < 3
        invariant
            i <= j <= chars@.len(),
            j - i <= 3,
            leading_run(chars@.skip(i as int), c) == (j - i) + leading_run(chars@.skip(j as int), c),
        decreases chars@.len() - j,
    {
        assert(chars@.skip(j as int).drop_first() =~= chars@.skip(j + 1));
        j = j + 1;
    }
    proof {
        if j < chars@.len() {
            assert(chars@.skip(j as int)[0] == chars@[j as int]);
        }
    }
    assert(chars@.skip(i as int)[0] == c);
    j - i
}

/// Splits a line into styled inline spans.
pub fn parse_inline(src: &str) -> (res: Vec<Span>)
    ensures
        spans_view(res@) == inline_spans(src@),
        spans_wf(spans_view(res@)),
{
    let chars = chars_of(src);
    parse_inline_chars(chars.as_slice())
}

pub fn parse_inline_chars(chars: &[char]) -> (res: Vec<Span>)
    ensures
        spans_view(res@) == inline_spans(chars@),
        spans_wf(spans_view(res@)),
{
    let mut spans: Vec<Span> = Vec::new();
    let mut buf = String::new();
    let mut i: usize = 0;
    assert(spans_view(spans@) =~= Seq::<SpanV>::empty());
    while i < chars.len()
        invariant
            i <= chars@.len(),
            inline_from(chars@, i as int, spans_view(spans@), buf@) == inline_spans(chars@),
            spans_wf(spans_view(spans@)),
            spans@.len() > 0 ==> spans@.last().style != Style::Plain,
        decreases chars@.len() - i,
    {
        i = inline_step(chars, i, &mut spans, &mut buf);
    }
    proof {
        lemma_flush_wf(spans_view(spans@), buf@);
    }
    push_plain(&mut spans, &mut buf);
    spans
}

/// Whether a span is a marked-up (not plain) one whose link target is set
/// exactly when it is a link.
pub open spec fn marked_span(sp: SpanV) -> bool {
    sp.style != Style::Plain && (sp.style == Style::Link) == (sp.href is Some)
}

proof fn lemma_flush_wf(spans: Seq<SpanV>, buf: Seq<char>)
    requires
        spans_wf(spans),
        spans.len() > 0 ==> spans.last().style != Style::Plain,
    ensures
        spans_wf(flush_plain(spans, buf)),
{
}

proof fn lemma_push_marked(spans: Seq<SpanV>, buf: Seq<char>, sp: SpanV)
    requires
        spans_wf(spans),
        spans.len() > 0 ==> spans.last().style != Style::Plain,
        marked_span(sp),
    ensures
        spans_wf(flush_plain(spans, buf).push(sp)),
        flush_plain(spans, buf).push(sp).last().style != Style::Plain,
{
    lemma_flush_wf(spans, buf);
    let f = flush_plain(spans, buf);
    let g = f.push(sp);
    assert forall|k: int| 0 <= k < g.len() - 1 && g[k].style == Style::Plain implies #[trigger] g[k
        + 1].style != Style::Plain by {
        if k < f.len() - 1 {
            assert(g[k] == f[k] && g[k + 1] == f[k + 1]);
        }
    }
}

/// Appends `sp` after closing off `buf`.
fn push_marked(spans: &mut Vec<Span>, buf: &mut String, sp: Span)
    requires
        spans_wf(spans_view(old(spans)@)),
        old(spans)@.len() > 0 ==> old(spans)@.last().style != Style::Plain,
        marked_span(sp@),
    ensures
        spans_view(final(spans)@) == flush_plain(spans_view(old(spans)@), old(buf)@).push(sp@),
        spans_wf(spans_view(final(spans)@)),
        final(spans)@.len() > 0 && final(spans)@.last().style != Style::Plain,
        final(buf)@ == Seq::<char>::empty(),
{
    proof {
        lemma_push_marked(spans_view(spans@), buf@, sp@);
    }
    push_plain(spans, buf);
    let ghost mid = spans_view(spans@);
    spans.push(sp);
    assert(spans_view(spans@) =~= mid.push(sp@));
    assert(buf@ =~= Seq::<char>::empty());
}

/// One step of the scanner: reads the construct that starts at `i`.
#[verifier::rlimit(40)]
fn inline_step(chars: &[char], i: usize, spans: &mut Vec<Span>, buf: &mut String) -> (next: usize)
    requires
        i < chars@.len(),
        spans_wf(spans_view(old(spans)@)),
        old(spans)@.len() > 0 ==> old(spans)@.last().style != Style::Plain,
    ensures
        i < next <= chars@.len(),
        inline_from(chars@, next as int, spans_view(final(spans)@), final(buf)@) == inline_from(
            chars@,
            i as int,
            spans_view(old(spans)@),
            old(buf)@,
        ),
        spans_wf(spans_view(final(spans)@)),
        final(spans)@.len() > 0 ==> final(spans)@.last().style != Style::Plain,
{
    assert(chars.len() == chars@.len());
    let c = chars[i];
    if c == '\\' && i + 1 < chars.len() {
        push_char(buf, chars[i + 1]);
        return i + 2;
    }
    if c == '`' {
        proof {
            lemma_find_bounds(chars@, i + 1, seq!['`']);
        }
        match find_chars(chars, i + 1, one_char('`').as_slice()) {
            Some(end) => {
                let sp = Span::new(collect(chars, i + 1, end), Style::Code);
                push_marked(spans, buf, sp);
                return end + 1;
            },
            None => {
                push_char(buf, c);
                return i + 1;
            },
        }
    }
    if c == '*' || c == '_' {
        let run = marker_run_len(chars, i, c);
        proof {
            lemma_emphasis_end_bounds(chars@, i as int, c, run as nat);
        }
        match emphasis_end(chars, i, c, run) {
            Some(end) => {
                let style = if run == 1 {
                    Style::Italic
                } else if run == 2 {
                    Style::Bold
                } else {
                    Style::BoldItalic
                };
                let sp = Span::new(collect(chars, i + run, end), style);
                push_marked(spans, buf, sp);
                return end + run;
            },
            None => {
                push_char(buf, c);
                return i + 1;
            },
        }
    }
    if c == '[' || c == '!' {
        let open = if c == '!' {
            i + 1
        } else {
            i
        };
        if open < chars.len() && chars[open] == '[' {
            proof {
                lemma_link_bounds(chars@, open as int);
            }
            match link(chars, open) {
                Some(l) => {
                    let (label, href, end) = l;
                    let sp = Span::link(label, href);
                    push_marked(spans, buf, sp);
                    return end;
                },
                None => {},
            }
        }
    }
    push_char(buf, c);
    i + 1
}

} // verus!
