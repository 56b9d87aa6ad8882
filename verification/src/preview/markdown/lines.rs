//! Classifiers for single lines of Markdown: fences, rules, headings, list
//! items and table rows.

use vstd::prelude::*;

use super::Align;
use crate::text::{
    byte_len, char_width, chars_of, contains_char, has_prefix, is_whitespace, is_ws,
    leading_run, push_char, starts_with, starts_with_char, ends_with_char,
    string_of, trim, trim_chars, trim_start, trim_start_chars,
    lemma_byte_len_push,
};

verus! {

// ─── Fences and rules ───────────────────────────────────────────────────────

pub open spec fn ticks() -> Seq<char> {
    seq!['`', '`', '`']
}

pub open spec fn tildes() -> Seq<char> {
    seq!['~', '~', '~']
}

/// A line that opens or closes a fenced code block.
pub open spec fn is_fence_spec(line: Seq<char>) -> bool {
    starts_with(line, ticks()) || starts_with(line, tildes())
}

/// The characters of `s` that are not whitespace.
pub open spec fn non_ws(s: Seq<char>) -> Seq<char>
    decreases s.len(),
{
    if s.len() == 0 {
        Seq::empty()
    } else if is_ws(s.last()) {
        non_ws(s.drop_last())
    } else {
        non_ws(s.drop_last()).push(s.last())
    }
}

pub open spec fn all_are(s: Seq<char>, c: char) -> bool {
    forall|k: int| 0 <= k < s.len() ==> s[k] == c
}

/// A thematic break: at least three bytes of one of `-`, `*`, `_` once the
/// whitespace is removed, and nothing else.
pub open spec fn is_rule_spec(line: Seq<char>) -> bool {
    let st = non_ws(line);
    byte_len(st) >= 3 && (all_are(st, '-') || all_are(st, '*') || all_are(st, '_'))
}

pub fn is_fence(line: &[char]) -> (res: bool)
    ensures
        res == is_fence_spec(line@),
{
    let mut t: Vec<char> = Vec::new();
    t.push('`');
    t.push('`');
    t.push('`');
    let mut w: Vec<char> = Vec::new();
    w.push('~');
    w.push('~');
    w.push('~');
    assert(t@ =~= ticks());
    assert(w@ =~= tildes());
    has_prefix(line, t.as_slice()) || has_prefix(line, w.as_slice())
}

fn all_chars_are(s: &[char], c: char) -> (res: bool)
    ensures
        res == all_are(s@, c),
{
    let mut i: usize = 0;
    while i < s.len()
        invariant
            i <= s@.len(),
            forall|k: int| 0 <= k < i ==> s@[k] == c,
        decreases s@.len() - i,
    {
        if s[i] != c {
            return false;
        }
        i = i + 1;
    }
    true
}

pub fn is_rule(line: &[char]) -> (res: bool)
    ensures
        res == is_rule_spec(line@),
{
    let mut stripped: Vec<char> = Vec::new();
    let mut i: usize = 0;
    assert(line@.take(0) =~= Seq::<char>::empty());
    while i < line.len()
        invariant
            i <= line@.len(),
            stripped@ == non_ws(line@.take(i as int)),
        decreases line@.len() - i,
    {
        assert(line@.take(i + 1).drop_last() =~= line@.take(i as int));
        if !is_whitespace(line[i]) {
            stripped.push(line[i]);
        }
        i = i + 1;
    }
    assert(line@.take(line@.len() as int) =~= line@);
    // The byte length of the stripped text, counted only as far as 3.
    let mut total: usize = 0;
    let mut j: usize = 0;
    assert(stripped@.take(0) =~= Seq::<char>::empty());
    while j < stripped.len() && total < 3
        invariant
            j <= stripped@.len(),
            total == byte_len(stripped@.take(j as int)),
            total < 3 || j > 0,
            total <= 6,
        decreases stripped@.len() - j,
    {
        proof {
            assert(stripped@.take(j + 1) =~= stripped@.take(j as int).push(stripped@[j as int]));
            lemma_byte_len_push(stripped@.take(j as int), stripped@[j as int]);
        }
        total = total + char_width(stripped[j]);
        j = j + 1;
    }
    proof {
        if total >= 3 {
            crate::text::lemma_byte_len_take_mono(stripped@, j as int, stripped@.len() as int);
            assert(stripped@.take(stripped@.len() as int) =~= stripped@);
        } else {
            assert(stripped@.take(j as int) =~= stripped@);
        }
    }
    total >= 3 && (all_chars_are(stripped.as_slice(), '-') || all_chars_are(
        stripped.as_slice(),
        '*',
    ) || all_chars_are(stripped.as_slice(), '_'))
}

// ─── Headings ───────────────────────────────────────────────────────────────

/// `## Title` → `(2, "Title")`: one to six `#`, then the end of the line or a
/// space.
pub open spec fn heading_spec(line: Seq<char>) -> Option<(u8, Seq<char>)> {
    let n = leading_run(line, '#');
    if n == 0 || n > 6 {
        None
    } else {
        let rest = line.skip(n as int);
        if rest.len() == 0 {
            Some((n as u8, Seq::empty()))
        } else if rest[0] == ' ' {
            Some((n as u8, trim_start(rest.drop_first())))
        } else {
            None
        }
    }
}

/// Length of the run of `c` that starts `s`.
fn run_of(s: &[char], c: char) -> (res: usize)
    ensures
        res == leading_run(s@, c),
        res <= s@.len(),
{
    let mut i: usize = 0;
    assert(s@.skip(0) =~= s@);
    while i < s.len() && s[i] == c
        invariant
            i <= s@.len(),
            leading_run(s@, c) == i + leading_run(s@.skip(i as int), c),
        decreases s@.len() - i,
    {
        assert(s@.skip(i as int).drop_first() =~= s@.skip(i + 1));
        i = i + 1;
    }
    proof {
        if i < s@.len() {
            assert(s@.skip(i as int)[0] == s@[i as int]);
        }
    }
    i
}

/// `## Title` → `(2, "Title")`.
pub fn heading(line: &[char]) -> (res: Option<(u8, Vec<char>)>)
    ensures
        res matches Some(h) ==> heading_spec(line@) == Some((h.0, h.1@)),
        res is None ==> heading_spec(line@) is None,
{
    let level = run_of(line, '#');
    if level == 0 || level > 6 {
        return None;
    }
    let rest = crate::text::slice_chars(line, level, line.len());
    assert(rest@ =~= line@.skip(level as int));
    if rest.len() == 0 {
        let empty: Vec<char> = Vec::new();
        assert(empty@ =~= Seq::<char>::empty());
        return Some((level as u8, empty));
    }
    if rest[0] == ' ' {
        let body = crate::text::slice_chars(rest.as_slice(), 1, rest.len());
        assert(body@ =~= rest@.drop_first());
        return Some((level as u8, trim_start_chars(body.as_slice())));
    }
    None
}

// ─── List items ─────────────────────────────────────────────────────────────

/// Indentation of `s` in columns: a tab counts four, a space one.
pub open spec fn indent_width(s: Seq<char>) -> nat
    decreases s.len(),
{
    if s.len() > 0 && (s[0] == ' ' || s[0] == '\t') {
        (if s[0] == '\t' {
            4nat
        } else {
            1nat
        }) + indent_width(s.drop_first())
    } else {
        0
    }
}

/// Length of the run of ASCII digits that starts `s`.
pub open spec fn digit_run(s: Seq<char>) -> nat
    decreases s.len(),
{
    if s.len() > 0 && '0' <= s[0] && s[0] <= '9' {
        1 + digit_run(s.drop_first())
    } else {
        0
    }
}

pub open spec fn is_bullet(c: char) -> bool {
    c == '-' || c == '*' || c == '+'
}

/// `  - item` → `(depth, "•", "item")`; `2. item` → `(depth, "2.", "item")`.
/// The depth is half the indentation; an ordered marker has one to nine
/// digits and a `.` or `)`; the marker must be followed by a space.
pub open spec fn list_item_spec(line: Seq<char>) -> Option<(usize, Seq<char>, Seq<char>)> {
    let depth = (indent_width(line) / 2) as usize;
    let rest = trim_start(line);
    if rest.len() >= 2 && is_bullet(rest[0]) && rest[1] == ' ' {
        Some((depth, seq!['\u{2022}'], trim_start(rest.skip(2))))
    } else {
        let d = digit_run(rest);
        if d == 0 || d > 9 {
            None
        } else {
            let after = rest.skip(d as int);
            if after.len() >= 2 && (after[0] == '.' || after[0] == ')') && after[1] == ' ' {
                Some((depth, rest.take(d as int).push(after[0]), trim_start(after.skip(2))))
            } else {
                None
            }
        }
    }
}

pub proof fn lemma_indent_width_bound(s: Seq<char>)
    ensures
        indent_width(s) <= 4 * s.len(),
    decreases s.len(),
{
    if s.len() > 0 && (s[0] == ' ' || s[0] == '\t') {
        lemma_indent_width_bound(s.drop_first());
    }
}

/// `  - item` → `(depth, "•", "item")`; `2. item` → `(depth, "2.", "item")`.
pub fn list_item(line: &[char]) -> (res: Option<(usize, Vec<char>, Vec<char>)>)
    requires
        line@.len() <= usize::MAX / 4,
    ensures
        res matches Some(l) ==> list_item_spec(line@) == Some((l.0, l.1@, l.2@)),
        res is None ==> list_item_spec(line@) is None,
{
    let mut indent: usize = 0;
    let mut i: usize = 0;
    assert(line@.skip(0) =~= line@);
    proof {
        lemma_indent_width_bound(line@);
    }
    while i < line.len() && (line[i] == ' ' || line[i] == '\t')
        invariant
            i <= line@.len() <= usize::MAX / 4,
            indent_width(line@) == indent + indent_width(line@.skip(i as int)),
            indent <= 4 * i,
        decreases line@.len() - i,
    {
        assert(line@.skip(i as int).drop_first() =~= line@.skip(i + 1));
        if line[i] == '\t' {
            indent = indent + 4;
        } else {
            indent = indent + 1;
        }
        i = i + 1;
    }
    proof {
        if i < line@.len() {
            assert(line@.skip(i as int)[0] == line@[i as int]);
        }
    }
    let depth = indent / 2;
    let rest = trim_start_chars(line);
    if rest.len() >= 2 && (rest[0] == '-' || rest[0] == '*' || rest[0] == '+') && rest[1] == ' ' {
        let body = crate::text::slice_chars(rest.as_slice(), 2, rest.len());
        assert(body@ =~= rest@.skip(2));
        let mut marker: Vec<char> = Vec::new();
        marker.push('\u{2022}');
        assert(marker@ =~= seq!['\u{2022}']);
        return Some((depth, marker, trim_start_chars(body.as_slice())));
    }
    let mut d: usize = 0;
    assert(rest@.skip(0) =~= rest@);
    while d < rest.len() && '0' <= rest[d] && rest[d] <= '9'
        invariant
            d <= rest@.len(),
            digit_run(rest@) == d + digit_run(rest@.skip(d as int)),
        decreases rest@.len() - d,
    {
        assert(rest@.skip(d as int).drop_first() =~= rest@.skip(d + 1));
        d = d + 1;
    }
    proof {
        if d < rest@.len() {
            assert(rest@.skip(d as int)[0] == rest@[d as int]);
        }
    }
    if d == 0 || d > 9 {
        return None;
    }
    let after = crate::text::slice_chars(rest.as_slice(), d, rest.len());
    assert(after@ =~= rest@.skip(d as int));
    if after.len() >= 2 && (after[0] == '.' || after[0] == ')') && after[1] == ' ' {
        let mut marker = crate::text::slice_chars(rest.as_slice(), 0, d);
        marker.push(after[0]);
        assert(marker@ =~= rest@.take(d as int).push(after@[0]));
        let body = crate::text::slice_chars(after.as_slice(), 2, after.len());
        assert(body@ =~= after@.skip(2));
        return Some((depth, marker, trim_start_chars(body.as_slice())));
    }
    None
}

// ─── Tables ─────────────────────────────────────────────────────────────────

/// A line that could plausibly be a table row — the real test is whether the
/// next line is a valid separator.
pub open spec fn is_table_row_spec(line: Seq<char>) -> bool {
    line.contains('|')
}

/// Whether `line` could be a table row: it holds a pipe.
pub fn is_table_row(line: &[char]) -> (res: bool)
    ensures
        res == is_table_row_spec(line@),
{
    contains_char(line, '|')
}

/// Splits `t` into cells from `i` on: `cell` is the cell being read, `cells`
/// those already closed. A `\|` stands for a literal pipe, and a pipe inside
/// a `` `code span` `` does not split.
pub open spec fn cells_scan(
    t: Seq<char>,
    i: int,
    in_code: bool,
    cell: Seq<char>,
    cells: Seq<Seq<char>>,
) -> Seq<Seq<char>>
    decreases t.len() - i,
{
    if i < 0 || i >= t.len() {
        cells.push(trim(cell))
    } else if t[i] == '\\' && i + 1 < t.len() && t[i + 1] == '|' {
        cells_scan(t, i + 2, in_code, cell.push('|'), cells)
    } else if t[i] == '`' {
        cells_scan(t, i + 1, !in_code, cell.push('`'), cells)
    } else if t[i] == '|' && !in_code {
        cells_scan(t, i + 1, in_code, Seq::empty(), cells.push(trim(cell)))
    } else {
        cells_scan(t, i + 1, in_code, cell.push(t[i]), cells)
    }
}

/// The cell texts of a table row, without the conventional outer pipes.
pub open spec fn table_cells_spec(line: Seq<char>) -> Seq<Seq<char>> {
    let t = trim(line);
    let raw = cells_scan(t, 0, false, Seq::empty(), Seq::empty());
    let a = if starts_with_char(t, '|') && raw.len() > 0 && raw[0].len() == 0 {
        raw.drop_first()
    } else {
        raw
    };
    if ends_with_char(t, '|') && a.len() > 0 && a.last().len() == 0 {
        a.drop_last()
    } else {
        a
    }
}

/// A separator cell without its one optional leading colon and its one
/// optional trailing colon.
pub open spec fn sep_dashes(cell: Seq<char>) -> Seq<char> {
    let a = if starts_with_char(cell, ':') {
        cell.drop_first()
    } else {
        cell
    };
    if ends_with_char(a, ':') {
        a.drop_last()
    } else {
        a
    }
}

/// A separator cell: dashes, optionally with one leading and/or one
/// trailing colon.
pub open spec fn sep_ok(cell: Seq<char>) -> bool {
    sep_dashes(cell).len() > 0 && all_are(sep_dashes(cell), '-')
}

pub open spec fn sep_align(cell: Seq<char>) -> Align {
    let left = starts_with_char(cell, ':');
    let right = ends_with_char(cell, ':');
    if left && right {
        Align::Center
    } else if right {
        Align::Right
    } else {
        Align::Left
    }
}

/// `| :--- | ---: | :---: |` → one [`Align`] per column; `None` if the line
/// isn't a valid separator row.
pub open spec fn table_separator_spec(line: Seq<char>) -> Option<Seq<Align>> {
    if !is_table_row_spec(line) {
        None
    } else {
        let cells = table_cells_spec(line);
        if cells.len() == 0 {
            None
        } else if forall|k: int| 0 <= k < cells.len() ==> sep_ok(#[trigger] cells[k]) {
            Some(cells.map_values(|c: Seq<char>| sep_align(c)))
        } else {
            None
        }
    }
}

pub open spec fn cells_view(v: Seq<Vec<char>>) -> Seq<Seq<char>> {
    v.map_values(|c: Vec<char>| c@)
}

/// Splits a table row into its cell texts.
pub fn table_cells_chars(line: &[char]) -> (res: Vec<Vec<char>>)
    ensures
        cells_view(res@) == table_cells_spec(line@),
{
    let t = trim_chars(line);
    let mut cells: Vec<Vec<char>> = Vec::new();
    let mut cell: Vec<char> = Vec::new();
    let mut in_code = false;
    let mut i: usize = 0;
    assert(cells_view(cells@) =~= Seq::<Seq<char>>::empty());
    while i < t.len()
        invariant
            i <= t@.len(),
            t@ == trim(line@),
            cells_scan(t@, i as int, in_code, cell@, cells_view(cells@)) == cells_scan(
                t@,
                0,
                false,
                Seq::empty(),
                Seq::empty(),
            ),
        decreases t@.len() - i,
    {
        if t[i] == '\\' && i + 1 < t.len() && t[i + 1] == '|' {
            cell.push('|');
            i = i + 2;
        } else if t[i] == '`' {
            in_code = !in_code;
            cell.push('`');
            i = i + 1;
        } else if t[i] == '|' && !in_code {
            let ghost before = cells_view(cells@);
            let trimmed = trim_chars(cell.as_slice());
            cells.push(trimmed);
            assert(cells_view(cells@) =~= before.push(trim(cell@)));
            cell = Vec::new();
            assert(cell@ =~= Seq::<char>::empty());
            i = i + 1;
        } else {
            cell.push(t[i]);
            i = i + 1;
        }
    }
    let ghost before = cells_view(cells@);
    let trimmed = trim_chars(cell.as_slice());
    cells.push(trimmed);
    assert(cells_view(cells@) =~= before.push(trim(cell@)));
    let ghost raw = cells_view(cells@);
    let n = t.len();
    if n > 0 && t[0] == '|' && cells.len() > 0 && cells[0].len() == 0 {
        cells.remove(0);
        assert(cells_view(cells@) =~= raw.drop_first());
    }
    let ghost a = cells_view(cells@);
    let m = cells.len();
    if n > 0 && t[n - 1] == '|' && m > 0 && cells[m - 1].len() == 0 {
        cells.pop();
        assert(cells_view(cells@) =~= a.drop_last());
    }
    cells
}

/// Splits a table row into its cell texts: drops one leading/trailing `|`
/// (the conventional outer pipes), and keeps a `|` from splitting the row
/// when it's escaped (`\|`) or inside a `` `code span` ``.
pub fn table_cells(line: &str) -> (res: Vec<String>)
    ensures
        res@.len() == table_cells_spec(line@).len(),
        forall|k: int| 0 <= k < res@.len() ==> #[trigger] res@[k]@ == table_cells_spec(line@)[k],
{
    let chars = chars_of(line);
    let cells = table_cells_chars(chars.as_slice());
    let mut out: Vec<String> = Vec::new();
    let mut k: usize = 0;
    while k < cells.len()
        invariant
            k <= cells@.len(),
            cells_view(cells@) == table_cells_spec(line@),
            out@.len() == k,
            forall|j: int| 0 <= j < k ==> #[trigger] out@[j]@ == cells@[j]@,
        decreases cells@.len() - k,
    {
        out.push(string_of(cells[k].as_slice()));
        k = k + 1;
    }
    proof {
        assert forall|j: int| 0 <= j < out@.len() implies #[trigger] out@[j]@ == table_cells_spec(
            line@,
        )[j] by {
            assert(cells_view(cells@)[j] == cells@[j]@);
        }
    }
    out
}

/// A separator cell without its one optional colon at each end.
fn sep_dashes_of(cell: &[char]) -> (res: Vec<char>)
    ensures
        res@ == sep_dashes(cell@),
{
    let n = cell.len();
    let lo: usize = if n > 0 && cell[0] == ':' {
        1
    } else {
        0
    };
    let hi: usize = if n > lo && cell[n - 1] == ':' {
        n - 1
    } else {
        n
    };
    let res = crate::text::slice_chars(cell, lo, hi);
    let ghost a = if starts_with_char(cell@, ':') {
        cell@.drop_first()
    } else {
        cell@
    };
    assert(a =~= cell@.subrange(lo as int, n as int));
    assert(res@ =~= sep_dashes(cell@));
    res
}

/// `| :--- | ---: | :---: |` → one [`Align`] per column; `None` if the line
/// isn't a valid separator row (each cell must be dashes, optionally with a
/// leading and/or trailing colon).
pub fn table_separator(line: &[char]) -> (res: Option<Vec<Align>>)
    ensures
        res matches Some(a) ==> table_separator_spec(line@) == Some(a@),
        res is None ==> table_separator_spec(line@) is None,
{
    if !is_table_row(line) {
        return None;
    }
    let cells = table_cells_chars(line);
    if cells.len() == 0 {
        return None;
    }
    let ghost cv = cells_view(cells@);
    let mut out: Vec<Align> = Vec::new();
    let mut k: usize = 0;
    while k < cells.len()
        invariant
            k <= cells@.len(),
            cv == cells_view(cells@),
            cv == table_cells_spec(line@),
            out@.len() == k,
            forall|j: int| 0 <= j < k ==> sep_ok(#[trigger] cv[j]),
            forall|j: int| 0 <= j < k ==> #[trigger] out@[j] == sep_align(cv[j]),
        decreases cells@.len() - k,
    {
        let cell = cells[k].as_slice();
        assert(cv[k as int] == cell@);
        let dashes = sep_dashes_of(cell);
        if !(dashes.len() > 0 && all_chars_are(dashes.as_slice(), '-')) {
            assert(!sep_ok(cv[k as int]));
            return None;
        }
        let n = cell.len();
        let left = n > 0 && cell[0] == ':';
        let right = n > 0 && cell[n - 1] == ':';
        let a = if left && right {
            Align::Center
        } else if right {
            Align::Right
        } else {
            Align::Left
        };
        out.push(a);
        k = k + 1;
    }
    assert(out@ =~= cv.map_values(|c: Seq<char>| sep_align(c)));
    Some(out)
}

} // verus!
