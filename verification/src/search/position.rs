//! Conversions between the editor's (line, column) positions, counted in
//! characters, and byte offsets into the buffer.

use vstd::prelude::*;

use crate::text::{
    byte_len, char_width, chars_of, str_byte_len, lemma_byte_len_concat, lemma_byte_len_push,
    lemma_byte_len_take_mono, lemma_byte_len_take_step,
    utf8_width,
};

verus! {

/// Byte offset of character `k` of `t`.
pub open spec fn bo(t: Seq<char>, k: int) -> int {
    byte_len(t.take(k)) as int
}

/// Whether byte offset `b` falls between two characters of `t` (or at
/// either end).
pub open spec fn is_boundary(t: Seq<char>, b: int) -> bool {
    exists|k: int| 0 <= k <= t.len() && bo(t, k) == b
}

/// The character index whose byte offset is `b`.
pub open spec fn char_at_byte(t: Seq<char>, b: int) -> int {
    choose|k: int| 0 <= k <= t.len() && bo(t, k) == b
}

pub proof fn lemma_bo_strict(t: Seq<char>, i: int, j: int)
    requires
        0 <= i < j <= t.len(),
    ensures
        bo(t, i) < bo(t, j),
{
    lemma_byte_len_take_mono(t, i, j);
    crate::text::lemma_byte_len_ge_len(t.subrange(i, j));
}

pub proof fn lemma_char_at_byte(t: Seq<char>, k: int)
    requires
        0 <= k <= t.len(),
    ensures
        is_boundary(t, bo(t, k)),
        char_at_byte(t, bo(t, k)) == k,
{
    let b = bo(t, k);
    assert(0 <= k <= t.len() && bo(t, k) == b);
    let c = char_at_byte(t, b);
    if c < k {
        lemma_bo_strict(t, c, k);
    } else if c > k {
        lemma_bo_strict(t, k, c);
    }
}

/// Scanning `t` from character `i`: skips `line` newlines, then up to `col`
/// characters of that line; the byte offset reached, or one past the end of
/// the text if `t` has too few lines.
pub open spec fn line_col_from(t: Seq<char>, i: int, line: nat, col: nat) -> int
    decreases t.len() - i, col,
{
    if i < 0 || i >= t.len() {
        if line > 0 {
            (byte_len(t) + 1) as int
        } else {
            bo(t, i)
        }
    } else if line > 0 {
        if t[i] == '\n' {
            line_col_from(t, i + 1, (line - 1) as nat, col)
        } else {
            line_col_from(t, i + 1, line, col)
        }
    } else if col == 0 || t[i] == '\n' {
        bo(t, i)
    } else {
        line_col_from(t, i + 1, 0, (col - 1) as nat)
    }
}

/// The byte offset of the cursor at (`line`, `col`), both counted in
/// characters: `col` is clamped to the end of its line, and a line past the
/// last gives one byte past the end of the text.
pub open spec fn line_col_to_byte_spec(t: Seq<char>, line: nat, col: nat) -> int {
    line_col_from(t, 0, line, col)
}

/// Converts a `text_editor` cursor position (line, column — both in chars)
/// to a byte offset into `text`.
pub fn line_col_to_byte(text: &str, pos: (usize, usize)) -> (res: usize)
    requires
        byte_len(text@) < usize::MAX,
    ensures
        res == line_col_to_byte_spec(text@, pos.0 as nat, pos.1 as nat),
{
    let (line, col) = pos;
    let t = chars_of(text);
    let mut i: usize = 0;
    let mut b: usize = 0;
    let mut l = line;
    let mut c = col;
    while i < t.len()
        invariant
            i <= t@.len(),
            t@ == text@,
            line == pos.0,
            col == pos.1,
            byte_len(t@) < usize::MAX,
            b == bo(t@, i as int),
            line_col_from(t@, i as int, l as nat, c as nat) == line_col_to_byte_spec(
                t@,
                line as nat,
                col as nat,
            ),
        decreases t@.len() - i, c,
    {
        proof {
            lemma_byte_len_take_step(t@, i as int);
            lemma_byte_len_take_mono(t@, i + 1, t@.len() as int);
            assert(t@.take(t@.len() as int) =~= t@);
        }
        if l > 0 {
            if t[i] == '\n' {
                l = l - 1;
            }
        } else if c == 0 || t[i] == '\n' {
            assert(line_col_from(t@, i as int, l as nat, c as nat) == bo(t@, i as int));
            return b;
        } else {
            c = c - 1;
        }
        b = b + char_width(t[i]);
        i = i + 1;
    }
    assert(t@.take(t@.len() as int) =~= t@);
    if l > 0 {
        b + 1
    } else {
        b
    }
}

/// Number of newlines in `s`.
pub open spec fn nl_count(s: Seq<char>) -> nat
    decreases s.len(),
{
    if s.len() == 0 {
        0
    } else {
        nl_count(s.drop_last()) + if s.last() == '\n' {
            1nat
        } else {
            0nat
        }
    }
}

/// Character index just past the last newline of `s` (0 if it has none).
pub open spec fn last_line_start(s: Seq<char>) -> int
    decreases s.len(),
{
    if s.len() == 0 {
        0
    } else if s.last() == '\n' {
        s.len() as int
    } else {
        last_line_start(s.drop_last())
    }
}

/// (line, start column, length) of the byte range `start..end`, all in
/// characters; `(0, 0, 0)` when `start` is past the end of the text.
pub open spec fn byte_range_to_line_col_spec(t: Seq<char>, start: int, end: int) -> (
    int,
    int,
    int,
) {
    if start > byte_len(t) {
        (0, 0, 0)
    } else {
        let cs = char_at_byte(t, start);
        let ce = char_at_byte(t, end);
        (nl_count(t.take(cs)) as int, cs - last_line_start(t.take(cs)), ce - cs)
    }
}

/// The range can be sliced out of the text (what `byte_range_to_line_col`
/// needs when the range starts inside the text).
pub open spec fn sliceable(t: Seq<char>, start: int, end: int) -> bool {
    start <= byte_len(t) ==> (is_boundary(t, start) && is_boundary(t, end) && start <= end)
}

proof fn lemma_nl_step(t: Seq<char>, i: int)
    requires
        0 <= i < t.len(),
    ensures
        nl_count(t.take(i + 1)) == nl_count(t.take(i)) + if t[i] == '\n' {
            1nat
        } else {
            0nat
        },
        last_line_start(t.take(i + 1)) == if t[i] == '\n' {
            i + 1
        } else {
            last_line_start(t.take(i))
        },
{
    assert(t.take(i + 1).drop_last() =~= t.take(i));
}

proof fn lemma_nl_bound(s: Seq<char>)
    ensures
        nl_count(s) <= s.len(),
        0 <= last_line_start(s) <= s.len(),
    decreases s.len(),
{
    if s.len() > 0 {
        lemma_nl_bound(s.drop_last());
    }
}

/// Converts a byte range into (line, start column, length) — all in chars,
/// what `text_editor`'s `Motion::Right` steps over.
pub fn byte_range_to_line_col(text: &str, range: &std::ops::Range<usize>) -> (res: (
    usize,
    usize,
    usize,
))
    requires
        sliceable(text@, range.start as int, range.end as int),
    ensures
        (res.0 as int, res.1 as int, res.2 as int) == byte_range_to_line_col_spec(
            text@,
            range.start as int,
            range.end as int,
        ),
{
    let total = str_byte_len(text);
    let t = chars_of(text);
    let start = range.start;
    let end = range.end;
    let mut i: usize = 0;
    let mut b: usize = 0;
    let mut line: usize = 0;
    let mut line_start: usize = 0;
    // Walk to the character at which the range starts.
    while i < t.len() && b < start
        invariant
            i <= t@.len(),
            t@ == text@,
            b == bo(t@, i as int),
            byte_len(t@) <= usize::MAX,
            line as int == nl_count(t@.take(i as int)),
            line_start as int == last_line_start(t@.take(i as int)),
            forall|k: int| 0 <= k < i ==> bo(t@, k) < start,
        decreases t@.len() - i,
    {
        proof {
            lemma_byte_len_take_step(t@, i as int);
            lemma_nl_step(t@, i as int);
            lemma_nl_bound(t@.take(i as int));
            lemma_byte_len_take_mono(t@, i + 1, t@.len() as int);
            assert(t@.take(t@.len() as int) =~= t@);
            crate::text::lemma_byte_len_ge_len(t@);
        }
        if t[i] == '\n' {
            line = line + 1;
            line_start = i + 1;
        }
        b = b + char_width(t[i]);
        i = i + 1;
    }
    if b != start {
        // `start` is past the end of the text: no line holds it.
        proof {
            if i < t@.len() {
                // b > start with every earlier offset below start: start is
                // no boundary, so it must lie beyond the text.
                assert(b > start);
                if is_boundary(t@, start as int) {
                    let k = choose|k: int| 0 <= k <= t@.len() && bo(t@, k) == start;
                    if k < i {
                    } else if k == i {
                    } else {
                        lemma_bo_strict(t@, i as int, k);
                    }
                }
                assert(!is_boundary(t@, start as int));
                assert(start > byte_len(t@)) by {
                    if start <= byte_len(t@) {
                        assert(t@.take(t@.len() as int) =~= t@);
                    }
                }
            } else {
                assert(t@.take(t@.len() as int) =~= t@);
            }
        }
        return (0, 0, 0);
    }
    proof {
        lemma_char_at_byte(t@, i as int);
        lemma_nl_bound(t@.take(i as int));
        if start > byte_len(t@) {
            lemma_byte_len_take_mono(t@, i as int, t@.len() as int);
            assert(t@.take(t@.len() as int) =~= t@);
        }
    }
    let cs = i;
    // Walk on to the character at which the range ends.
    let ghost ce = char_at_byte(t@, end as int);
    proof {
        let k = choose|k: int| 0 <= k <= t@.len() && bo(t@, k) == end;
        lemma_char_at_byte(t@, k);
        if k < cs {
            lemma_bo_strict(t@, k, cs as int);
        }
    }
    proof {
        lemma_char_at_byte(t@, ce);
    }
    while i < t.len() && b < end
        invariant
            cs <= i <= ce <= t@.len(),
            t@ == text@,
            b == bo(t@, i as int),
            bo(t@, ce) == end,
            byte_len(t@) <= usize::MAX,
        decreases t@.len() - i,
    {
        proof {
            lemma_byte_len_take_step(t@, i as int);
            if i == ce {
                assert(false);
            }
            lemma_byte_len_take_mono(t@, i + 1, ce);
            lemma_byte_len_take_mono(t@, i + 1, t@.len() as int);
            assert(t@.take(t@.len() as int) =~= t@);
        }
        b = b + char_width(t[i]);
        i = i + 1;
    }
    proof {
        if i < ce {
            lemma_bo_strict(t@, i as int, ce);
        }
    }
    (line, cs - line_start, i - cs)
}

/// (line index, start byte of that line) for byte offset `s`: the line is
/// the number of newlines that sit before `s`.
pub open spec fn line_of_byte(t: Seq<char>, s: int) -> (nat, int)
    decreases t.len(),
{
    if t.len() == 0 {
        (0, 0)
    } else {
        let prev = line_of_byte(t.drop_last(), s);
        let off = byte_len(t.drop_last()) as int;
        if t.last() == '\n' && off < s {
            (prev.0 + 1, off + 1)
        } else {
            prev
        }
    }
}

/// (line index, byte range within that line) of `start..end`, or
/// `(0, 0..0)` when `start` is past the end of the text.
pub open spec fn line_local_spec(t: Seq<char>, start: int, end: int) -> (int, int, int) {
    if start > byte_len(t) {
        (0, 0, 0)
    } else {
        let (line, off) = line_of_byte(t, start);
        (line as int, start - off, end - off)
    }
}

pub proof fn lemma_line_of_byte_bound(t: Seq<char>, s: int)
    ensures
        line_of_byte(t, s).0 <= t.len(),
        0 <= line_of_byte(t, s).1,
        line_of_byte(t, s).1 <= s || line_of_byte(t, s).1 == 0,
    decreases t.len(),
{
    if t.len() > 0 {
        lemma_line_of_byte_bound(t.drop_last(), s);
    }
}

/// Converts a byte range into (line index, byte range within that line) —
/// what the editor's highlighter matches its own per-line, byte-based
/// search results against.
pub fn byte_range_to_line_local(text: &str, range: &std::ops::Range<usize>) -> (res: (
    usize,
    std::ops::Range<usize>,
))
    requires
        range.start <= byte_len(text@) ==> line_of_byte(text@, range.start as int).1
            <= range.end,
    ensures
        (res.0 as int, res.1.start as int, res.1.end as int) == line_local_spec(
            text@,
            range.start as int,
            range.end as int,
        ),
{
    let total = str_byte_len(text);
    let t = chars_of(text);
    let start = range.start;
    let end = range.end;
    let mut i: usize = 0;
    let mut b: usize = 0;
    let mut line: usize = 0;
    let mut off: usize = 0;
    assert(t@.take(0) =~= Seq::<char>::empty());
    while i < t.len() && b <= start
        invariant
            i <= t@.len(),
            t@ == text@,
            b == bo(t@, i as int),
            byte_len(t@) <= usize::MAX,
            (line as nat, off as int) == line_of_byte(t@.take(i as int), start as int),
            line <= i,
        decreases t@.len() - i,
    {
        proof {
            lemma_byte_len_take_step(t@, i as int);
            assert(t@.take(i + 1).drop_last() =~= t@.take(i as int));
            lemma_byte_len_take_mono(t@, i + 1, t@.len() as int);
            assert(t@.take(t@.len() as int) =~= t@);
        }
        if t[i] == '\n' && b < start {
            line = line + 1;
            off = b + 1;
        }
        b = b + char_width(t[i]);
        i = i + 1;
    }
    proof {
        // The newlines from `i` on all sit at or past `start`, so they do not
        // move the line.
        lemma_line_of_byte_tail(t@, i as int, start as int);
        assert(t@.take(t@.len() as int) =~= t@);
        lemma_line_of_byte_bound(t@, start as int);
    }
    if start > b && i == t.len() {
        assert(t@.take(t@.len() as int) =~= t@);
        return (0, 0..0);
    }
    proof {
        if start > byte_len(t@) {
            lemma_byte_len_take_mono(t@, i as int, t@.len() as int);
            assert(t@.take(t@.len() as int) =~= t@);
        }
    }
    (line, (start - off)..(end - off))
}

/// Past the first character whose offset exceeds `s`, the later newlines do
/// not change the line of `s`.
proof fn lemma_line_of_byte_tail(t: Seq<char>, i: int, s: int)
    requires
        0 <= i <= t.len(),
        i == t.len() || bo(t, i) > s,
    ensures
        line_of_byte(t, s) == line_of_byte(t.take(i), s),
    decreases t.len() - i,
{
    if i < t.len() {
        lemma_line_of_byte_tail_rec(t, t.len() as int, i, s);
        assert(t.take(t.len() as int) =~= t);
    } else {
        assert(t.take(i) =~= t);
    }
}

proof fn lemma_line_of_byte_tail_rec(t: Seq<char>, n: int, i: int, s: int)
    requires
        0 <= i <= n <= t.len(),
        i == n || bo(t, i) > s,
    ensures
        line_of_byte(t.take(n), s) == line_of_byte(t.take(i), s),
    decreases n - i,
{
    if n > i {
        lemma_line_of_byte_tail_rec(t, n - 1, i, s);
        assert(t.take(n).drop_last() =~= t.take(n - 1));
        if n - 1 > i {
            lemma_bo_strict(t, i, n - 1);
        }
        assert(byte_len(t.take(n).drop_last()) as int == bo(t, n - 1));
        assert(bo(t, n - 1) > s);
        assert(line_of_byte(t.take(n), s) == line_of_byte(t.take(n).drop_last(), s));
    }
}

/// The next match index, wrapping at either end of a non-empty `matches`.
pub fn advance_index(current: usize, len: usize, forward: bool) -> (res: usize)
    requires
        len > 0,
    ensures
        forward ==> res == (current + 1) % (len as int),
        !forward ==> res == (current + len - 1) % (len as int),
        res < len,
{
    let r = current % len;
    if forward {
        let res = if r + 1 == len {
            0
        } else {
            r + 1
        };
        assert(res == (current + 1) % (len as int)) by (nonlinear_arith)
            requires
                r == current % len,
                len > 0,
                res == if r + 1 == len {
                    0
                } else {
                    r + 1
                },
        ;
        res
    } else {
        let res = if r == 0 {
            len - 1
        } else {
            r - 1
        };
        assert(res == (current + len - 1) % (len as int)) by (nonlinear_arith)
            requires
                r == current % len,
                len > 0,
                res == if r == 0 {
                    len - 1
                } else {
                    r - 1
                },
        ;
        res
    }
}

/// The index of whichever match in `matches` sits closest to `cursor` in
/// the search direction: forward, the first starting at or after it (else
/// the first); backward, the last starting at or before it (else the last).
pub open spec fn nearest_spec(starts: Seq<int>, cursor: int, forward: bool) -> int {
    if forward {
        if exists|k: int| 0 <= k < starts.len() && starts[k] >= cursor {
            choose|k: int|
                0 <= k < starts.len() && starts[k] >= cursor && forall|j: int|
                    0 <= j < k ==> starts[j] < cursor
        } else {
            0
        }
    } else {
        if exists|k: int| 0 <= k < starts.len() && starts[k] <= cursor {
            choose|k: int|
                0 <= k < starts.len() && starts[k] <= cursor && forall|j: int|
                    k < j < starts.len() ==> starts[j] > cursor
        } else {
            starts.len() - 1
        }
    }
}

proof fn lemma_nearest_forward(st: Seq<int>, cursor: int, i: int)
    requires
        0 <= i < st.len() && st[i] >= cursor && forall|j: int| 0 <= j < i ==> st[j] < cursor,
    ensures
        nearest_spec(st, cursor, true) == i,
{
    let k = choose|k: int|
        0 <= k < st.len() && st[k] >= cursor && forall|j: int| 0 <= j < k ==> st[j] < cursor;
    if k < i {
        assert(st[k] < cursor);
    } else if k > i {
        assert(st[i] < cursor);
    }
}

proof fn lemma_nearest_backward(st: Seq<int>, cursor: int, i: int)
    requires
        0 <= i < st.len() && st[i] <= cursor && forall|j: int| i < j < st.len() ==> st[j] > cursor,
    ensures
        nearest_spec(st, cursor, false) == i,
{
    let k = choose|k: int|
        0 <= k < st.len() && st[k] <= cursor && forall|j: int| k < j < st.len() ==> st[j] > cursor;
    if k < i {
        assert(st[i] > cursor);
    } else if k > i {
        assert(st[k] > cursor);
    }
}

proof fn lemma_first_at_least(st: Seq<int>, cursor: int, k: int) -> (m: int)
    requires
        0 <= k < st.len(),
        st[k] >= cursor,
    ensures
        0 <= m <= k,
        st[m] >= cursor,
        forall|j: int| 0 <= j < m ==> st[j] < cursor,
    decreases k,
{
    if exists|j: int| 0 <= j < k && st[j] >= cursor {
        let j = choose|j: int| 0 <= j < k && st[j] >= cursor;
        lemma_first_at_least(st, cursor, j)
    } else {
        k
    }
}

proof fn lemma_last_at_most(st: Seq<int>, cursor: int, k: int) -> (m: int)
    requires
        0 <= k < st.len(),
        st[k] <= cursor,
    ensures
        k <= m < st.len(),
        st[m] <= cursor,
        forall|j: int| m < j < st.len() ==> st[j] > cursor,
    decreases st.len() - k,
{
    if exists|j: int| k < j < st.len() && st[j] <= cursor {
        let j = choose|j: int| k < j < st.len() && st[j] <= cursor;
        lemma_last_at_most(st, cursor, j)
    } else {
        k
    }
}

/// Among a non-empty list of matches, the nearest one is one of them.
pub proof fn lemma_nearest_in_range(starts: Seq<int>, cursor: int, forward: bool)
    requires
        starts.len() > 0,
    ensures
        0 <= nearest_spec(starts, cursor, forward) < starts.len(),
{
    if forward {
        if exists|k: int| 0 <= k < starts.len() && starts[k] >= cursor {
            let k = choose|k: int| 0 <= k < starts.len() && starts[k] >= cursor;
            let m = lemma_first_at_least(starts, cursor, k);
            lemma_nearest_forward(starts, cursor, m);
        }
    } else {
        if exists|k: int| 0 <= k < starts.len() && starts[k] <= cursor {
            let k = choose|k: int| 0 <= k < starts.len() && starts[k] <= cursor;
            let m = lemma_last_at_most(starts, cursor, k);
            lemma_nearest_backward(starts, cursor, m);
        }
    }
}

pub open spec fn starts_of(m: Seq<std::ops::Range<usize>>) -> Seq<int> {
    m.map_values(|r: std::ops::Range<usize>| r.start as int)
}

/// The index of whichever match in `matches` (sorted by position, non-empty)
/// sits closest to `cursor` in the search direction, wrapping to the far end
/// if the cursor is past the last match (searching forward) or before the
/// first (searching backward).
pub fn nearest_match_index(matches: &[std::ops::Range<usize>], cursor: usize, forward: bool) -> (res: usize)
    requires
        !forward ==> matches@.len() > 0,
    ensures
        res == nearest_spec(starts_of(matches@), cursor as int, forward),
        matches@.len() > 0 ==> res < matches@.len(),
{
    let ghost st = starts_of(matches@);
    if forward {
        let mut i: usize = 0;
        while i < matches.len()
            invariant
                i <= matches@.len(),
                forward,
                st == starts_of(matches@),
                forall|j: int| 0 <= j < i ==> st[j] < cursor,
            decreases matches@.len() - i,
        {
            if matches[i].start >= cursor {
                assert(st[i as int] >= cursor);
                assert(0 <= i < st.len() && st[i as int] >= cursor && forall|j: int|
                    0 <= j < i ==> st[j] < cursor);
                proof {
                    lemma_nearest_forward(st, cursor as int, i as int);
                }
                return i;
            }
            i = i + 1;
        }
        0
    } else {
        let mut i: usize = matches.len();
        while i > 0
            invariant
                i <= matches@.len(),
                !forward,
                st == starts_of(matches@),
                forall|j: int| i <= j < matches@.len() ==> st[j] > cursor,
            decreases i,
        {
            if matches[i - 1].start <= cursor {
                assert(st[i - 1] <= cursor);
                assert(0 <= i - 1 < st.len() && st[i - 1] <= cursor && forall|j: int|
                    i - 1 < j < st.len() ==> st[j] > cursor);
                proof {
                    lemma_nearest_backward(st, cursor as int, i - 1);
                }
                return i - 1;
            }
            i = i - 1;
        }
        matches.len() - 1
    }
}

/// Going forward from a match and then back (or back, then forward) lands
/// on the match we started from.
pub proof fn advance_round_trip(current: int, len: int)
    requires
        0 <= current < len,
    ensures
        ((current + 1) % len + len - 1) % len == current,
        ((current + len - 1) % len + 1) % len == current,
{
    if current + 1 < len {
        assert((current + 1) % len == current + 1) by (nonlinear_arith)
            requires
                0 <= current + 1 < len,
        ;
    } else {
        assert((current + 1) % len == 0) by (nonlinear_arith)
            requires
                current + 1 == len,
                0 <= current,
        ;
    }
    assert(((current + 1) % len + len - 1) % len == current) by (nonlinear_arith)
        requires
            0 <= current < len,
            (current + 1) % len == if current + 1 < len {
                current + 1
            } else {
                0
            },
    ;
    assert(((current + len - 1) % len + 1) % len == current) by (nonlinear_arith)
        requires
            0 <= current < len,
    ;
}

/// Byte offsets of every character of `t`, and of its end.
pub(crate) fn char_offsets(t: &[char]) -> (res: Vec<usize>)
    requires
        byte_len(t@) <= usize::MAX,
    ensures
        res@.len() == t@.len() + 1,
        forall|k: int| 0 <= k <= t@.len() ==> #[trigger] res@[k] == bo(t@, k),
{
    let mut out: Vec<usize> = Vec::new();
    let mut b: usize = 0;
    let mut i: usize = 0;
    assert(t@.take(0) =~= Seq::<char>::empty());
    while i < t.len()
        invariant
            i <= t@.len(),
            b == bo(t@, i as int),
            byte_len(t@) <= usize::MAX,
            out@.len() == i,
            forall|k: int| 0 <= k < i ==> #[trigger] out@[k] == bo(t@, k),
        decreases t@.len() - i,
    {
        proof {
            lemma_byte_len_take_step(t@, i as int);
            lemma_byte_len_take_mono(t@, i + 1, t@.len() as int);
            assert(t@.take(t@.len() as int) =~= t@);
        }
        out.push(b);
        b = b + char_width(t[i]);
        i = i + 1;
    }
    out.push(b);
    out
}

/// The character index of byte offset `b`, if it is a boundary of `t`.
pub(crate) fn index_of_byte(t: &[char], offs: &Vec<usize>, b: usize) -> (res: Option<usize>)
    requires
        offs@.len() == t@.len() + 1,
        forall|k: int| 0 <= k <= t@.len() ==> #[trigger] offs@[k] == bo(t@, k),
    ensures
        res matches Some(k) ==> k <= t@.len() && is_boundary(t@, b as int) && char_at_byte(t@, b as int) == k,
        res is None ==> !is_boundary(t@, b as int),
{
    let mut k: usize = 0;
    while k < offs.len()
        invariant
            k <= offs@.len(),
            offs@.len() == t@.len() + 1,
            forall|m: int| 0 <= m <= t@.len() ==> #[trigger] offs@[m] == bo(t@, m),
            forall|m: int| 0 <= m < k ==> bo(t@, m) != b,
        decreases offs@.len() - k,
    {
        if offs[k] == b {
            proof {
                lemma_char_at_byte(t@, k as int);
            }
            return Some(k);
        }
        k = k + 1;
    }
    None
}

// ─── From (line, column) to bytes and back ──────────────────────────────────

/// The column phase of the scan: from character `i`, up to `col` characters
/// of the line, stopping at its end. Returns the character index reached.
proof fn lemma_col_scan(t: Seq<char>, i: int, col: nat) -> (m: int)
    requires
        0 <= i <= t.len(),
    ensures
        i <= m <= t.len(),
        m - i <= col,
        line_col_from(t, i, 0, col) == bo(t, m),
        forall|k: int| i <= k < m ==> t[k] != '\n',
        m - i == col || m == t.len() || t[m] == '\n',
    decreases t.len() - i, col,
{
    if i == t.len() || col == 0 || t[i] == '\n' {
        i
    } else {
        lemma_col_scan(t, i + 1, (col - 1) as nat)
    }
}

/// The line phase of the scan: from character `i`, past `line` more
/// newlines. Returns the index just after the last of them.
proof fn lemma_line_scan(t: Seq<char>, i: int, line: nat, col: nat) -> (j: int)
    requires
        0 <= i <= t.len(),
        line > 0,
        nl_count(t.take(i)) + line <= nl_count(t),
    ensures
        i < j <= t.len(),
        t[j - 1] == '\n',
        nl_count(t.take(j)) == nl_count(t.take(i)) + line,
        line_col_from(t, i, line, col) == line_col_from(t, j, 0, col),
    decreases t.len() - i,
{
    if i == t.len() {
        assert(t.take(i) =~= t);
        assert(false);
        i
    } else {
        lemma_nl_step(t, i);
        if t[i] == '\n' {
            if line == 1 {
                i + 1
            } else {
                lemma_line_scan(t, i + 1, (line - 1) as nat, col)
            }
        } else {
            lemma_line_scan(t, i + 1, line, col)
        }
    }
}

/// Past a run without newlines, the line count and the line start stay.
proof fn lemma_no_newline_run(t: Seq<char>, j: int, m: int)
    requires
        0 <= j <= m <= t.len(),
        forall|k: int| j <= k < m ==> t[k] != '\n',
    ensures
        nl_count(t.take(m)) == nl_count(t.take(j)),
        last_line_start(t.take(m)) == last_line_start(t.take(j)),
    decreases m - j,
{
    if m > j {
        lemma_no_newline_run(t, j, m - 1);
        lemma_nl_step(t, m - 1);
    }
}

/// A cursor (`line`, `col`) on one of the text's lines turns into a byte
/// offset that reads back as the same line, and as the same column unless
/// that line is shorter, where it stops at the line's end.
pub proof fn line_col_round_trip(t: Seq<char>, line: nat, col: nat)
    requires
        line <= nl_count(t),
    ensures
        is_boundary(t, line_col_to_byte_spec(t, line, col)),
        byte_range_to_line_col_spec(
            t,
            line_col_to_byte_spec(t, line, col),
            line_col_to_byte_spec(t, line, col),
        ).0 == line,
        byte_range_to_line_col_spec(
            t,
            line_col_to_byte_spec(t, line, col),
            line_col_to_byte_spec(t, line, col),
        ).1 <= col,
        byte_range_to_line_col_spec(
            t,
            line_col_to_byte_spec(t, line, col),
            line_col_to_byte_spec(t, line, col),
        ).2 == 0,
        ({
            let k = char_at_byte(t, line_col_to_byte_spec(t, line, col));
            byte_range_to_line_col_spec(
                t,
                line_col_to_byte_spec(t, line, col),
                line_col_to_byte_spec(t, line, col),
            ).1 == col || k == t.len() || t[k] == '\n'
        }),
{
    assert(t.take(0) =~= Seq::<char>::empty());
    let j = if line == 0 {
        0
    } else {
        lemma_line_scan(t, 0, line, col)
    };
    assert(nl_count(t.take(j)) == line);
    assert(last_line_start(t.take(j)) == j) by {
        if j > 0 {
            lemma_nl_step(t, j - 1);
        }
    }
    let m = lemma_col_scan(t, j, col);
    lemma_no_newline_run(t, j, m);
    let b = bo(t, m);
    assert(line_col_to_byte_spec(t, line, col) == b);
    lemma_char_at_byte(t, m);
    if m < t.len() {
        lemma_bo_strict(t, m, t.len() as int);
    }
    assert(t.take(t.len() as int) =~= t);
}

proof fn lemma_nl_take_mono(t: Seq<char>, a: int, b: int)
    requires
        0 <= a <= b <= t.len(),
    ensures
        nl_count(t.take(a)) <= nl_count(t.take(b)),
    decreases b - a,
{
    if a < b {
        lemma_nl_step(t, b - 1);
        lemma_nl_take_mono(t, a, b - 1);
    }
}

/// Where the line holding character `k` starts: just after a newline (or
/// at 0), with no newline from there up to `k`.
proof fn lemma_line_start(t: Seq<char>, k: int)
    requires
        0 <= k <= t.len(),
    ensures
        0 <= last_line_start(t.take(k)) <= k,
        last_line_start(t.take(k)) > 0 ==> t[last_line_start(t.take(k)) - 1] == '\n',
        last_line_start(t.take(k)) == 0 <==> nl_count(t.take(k)) == 0,
        forall|p: int| last_line_start(t.take(k)) <= p < k ==> t[p] != '\n',
        nl_count(t.take(last_line_start(t.take(k)))) == nl_count(t.take(k)),
    decreases k,
{
    if k == 0 {
        assert(t.take(0) =~= Seq::<char>::empty());
    } else {
        lemma_line_start(t, k - 1);
        lemma_nl_step(t, k - 1);
        if t[k - 1] != '\n' {
            let l = last_line_start(t.take(k - 1));
            lemma_no_newline_run(t, l, k);
        }
    }
}

/// The line and column that a boundary of the text reads as lead back to
/// that boundary.
pub proof fn byte_range_round_trip(t: Seq<char>, start: int, end: int)
    requires
        is_boundary(t, start),
        is_boundary(t, end),
    ensures
        ({
            let lc = byte_range_to_line_col_spec(t, start, end);
            &&& line_col_to_byte_spec(t, lc.0 as nat, lc.1 as nat) == start
            &&& bo(t, char_at_byte(t, start) + lc.2) == end
        }),
{
    let k = char_at_byte(t, start);
    let e = char_at_byte(t, end);
    assert(0 <= k <= t.len() && bo(t, k) == start);
    assert(0 <= e <= t.len() && bo(t, e) == end);
    if k < t.len() {
        lemma_bo_strict(t, k, t.len() as int);
    }
    assert(t.take(t.len() as int) =~= t);
    lemma_line_start(t, k);
    let l = nl_count(t.take(k));
    let ls = last_line_start(t.take(k));
    let c = (k - ls) as nat;
    assert(byte_range_to_line_col_spec(t, start, end) == (l as int, c as int, e - k));
    assert(t.take(0) =~= Seq::<char>::empty());
    let j = if l == 0 {
        0
    } else {
        lemma_nl_take_mono(t, k, t.len() as int);
        lemma_line_scan(t, 0, l, c)
    };
    assert(j == ls) by {
        if l > 0 {
            if j < ls {
                lemma_nl_step(t, ls - 1);
                lemma_nl_take_mono(t, j, ls - 1);
            } else if j > ls {
                lemma_nl_step(t, j - 1);
                lemma_nl_take_mono(t, ls, j - 1);
            }
        }
    }
    let m = lemma_col_scan(t, j, c);
    assert(m == k) by {
        if m < k {
            assert(t[m] != '\n');
        }
    }
}

/// `line_of_byte` at an offset `s` that falls after character `k - 1`
/// starts and no later than character `k` starts: the newlines before `k`,
/// and the byte offset of the line holding `k`.
proof fn lemma_line_of_byte(t: Seq<char>, s: int, k: int)
    requires
        0 <= k <= t.len(),
        k == 0 || bo(t, k - 1) < s,
        k == t.len() || s <= bo(t, k),
    ensures
        line_of_byte(t, s) == (nl_count(t.take(k)), bo(t, last_line_start(t.take(k)))),
    decreases t.len(),
{
    if t.len() == 0 {
        assert(t.take(0) =~= Seq::<char>::empty());
    } else {
        let u = t.drop_last();
        assert(forall|j: int| 0 <= j <= u.len() ==> #[trigger] u.take(j) =~= t.take(j));
        lemma_line_start(t, k);
        if k <= u.len() {
            if k < u.len() {
                lemma_bo_strict(t, k, u.len() as int);
            }
            lemma_line_of_byte(u, s, k);
            assert(u.take(u.len() as int) =~= u);
            assert(bo(u, last_line_start(u.take(k))) == bo(t, last_line_start(t.take(k))));
        } else {
            assert(u.take(u.len() as int) =~= u);
            assert(t.take(k) =~= t);
            lemma_line_of_byte(u, s, u.len() as int);
            lemma_nl_step(t, u.len() as int);
            lemma_line_start(t, u.len() as int);
            if t.last() == '\n' {
                lemma_byte_len_take_step(t, u.len() as int);
            }
        }
    }
}

/// `line` is the line holding byte `start` of `t`, and `a..b` is
/// `start..end` counted from that line's first byte: the line begins just
/// after the text's `line`-th newline (or at 0), and no newline lies between
/// its beginning and `start`.
pub open spec fn on_line(t: Seq<char>, start: int, end: int, line: int, a: int, b: int) -> bool {
    &&& is_boundary(t, start)
    &&& exists|ls: int|
        #![trigger bo(t, ls)]
        {
            &&& 0 <= ls <= t.len()
            &&& nl_count(t.take(ls)) == line
            &&& (ls > 0 ==> t[ls - 1] == '\n')
            &&& 0 <= a
            &&& bo(t, ls) + a == start
            &&& bo(t, ls) + b == end
            &&& forall|p: int| ls <= p < char_at_byte(t, start) ==> t[p] != '\n'
        }
}

/// The line and line-local range that a match starting at a boundary is
/// stored as lead back to it: the line holding the match's first
/// character, starting right after a newline (or at 0), and offsets that
/// added to the line's start give the match's own byte range.
pub proof fn line_local_maps_back(t: Seq<char>, start: int, end: int)
    requires
        is_boundary(t, start),
    ensures
        ({
            let k = char_at_byte(t, start);
            let ls = last_line_start(t.take(k));
            let loc = line_local_spec(t, start, end);
            &&& loc.0 == nl_count(t.take(k))
            &&& 0 <= loc.1
            &&& bo(t, ls) + loc.1 == start
            &&& bo(t, ls) + loc.2 == end
            &&& (ls > 0 ==> t[ls - 1] == '\n')
            &&& forall|p: int| ls <= p < k ==> t[p] != '\n'
        }),
        ({
            let loc = line_local_spec(t, start, end);
            on_line(t, start, end, loc.0, loc.1, loc.2)
        }),
{
    let k = char_at_byte(t, start);
    assert(0 <= k <= t.len() && bo(t, k) == start);
    if k > 0 {
        lemma_bo_strict(t, k - 1, k);
    }
    if k < t.len() {
        lemma_bo_strict(t, k, t.len() as int);
    }
    assert(t.take(t.len() as int) =~= t);
    lemma_line_of_byte(t, start, k);
    lemma_line_start(t, k);
    let ls = last_line_start(t.take(k));
    if ls < k {
        lemma_bo_strict(t, ls, k);
    }
    assert(bo(t, ls) + line_local_spec(t, start, end).1 == start);
}

/// The pieces of `t` between its newlines, as splitting at every `\n` gives
/// them: one more than there are newlines.
pub open spec fn nl_pieces(t: Seq<char>) -> Seq<Seq<char>>
    decreases t.len(),
{
    if t.len() == 0 {
        seq![Seq::empty()]
    } else {
        let p = nl_pieces(t.drop_last());
        if t.last() == '\n' {
            p.push(Seq::empty())
        } else {
            p.update(p.len() - 1, p.last().push(t.last()))
        }
    }
}

proof fn lemma_nl_pieces_shape(s: Seq<char>)
    ensures
        nl_pieces(s).len() == nl_count(s) + 1,
        nl_pieces(s).last().len() == s.len() - last_line_start(s),
        0 <= last_line_start(s) <= s.len(),
        nl_pieces(s).last() == s.subrange(last_line_start(s), s.len() as int),
    decreases s.len(),
{
    if s.len() > 0 {
        lemma_nl_pieces_shape(s.drop_last());
        if s.last() != '\n' {
            let l = last_line_start(s.drop_last());
            assert(s.subrange(l, s.len() as int) =~= s.drop_last().subrange(
                l,
                s.len() - 1,
            ).push(s.last()));
        } else {
            assert(s.subrange(s.len() as int, s.len() as int) =~= Seq::<char>::empty());
        }
    }
}

/// The bytes the first `l` pieces take, each with the newline after it.
pub open spec fn pieces_bytes(p: Seq<Seq<char>>, l: int) -> int
    decreases l,
{
    if l <= 0 {
        0
    } else {
        pieces_bytes(p, l - 1) + byte_len(p[l - 1]) + 1
    }
}

/// The byte offset at which line `l` of `t` starts: the bytes of every line
/// before it, each with its newline.
pub open spec fn line_offset(t: Seq<char>, l: int) -> int {
    pieces_bytes(nl_pieces(t), l)
}

proof fn lemma_pieces_bytes_same(p: Seq<Seq<char>>, q: Seq<Seq<char>>, l: int)
    requires
        0 <= l <= p.len(),
        l <= q.len(),
        forall|j: int| 0 <= j < l ==> p[j] == q[j],
    ensures
        pieces_bytes(p, l) == pieces_bytes(q, l),
    decreases l,
{
    if l > 0 {
        lemma_pieces_bytes_same(p, q, l - 1);
    }
}

/// The closed lines of `s` take exactly the bytes up to its last line.
proof fn lemma_pieces_bytes_prefix(s: Seq<char>)
    ensures
        pieces_bytes(nl_pieces(s), nl_count(s) as int) == byte_len(s.take(last_line_start(s))),
    decreases s.len(),
{
    if s.len() == 0 {
        assert(s.take(0) =~= Seq::<char>::empty());
    } else {
        let d = s.drop_last();
        let p = nl_pieces(d);
        lemma_nl_pieces_shape(d);
        lemma_pieces_bytes_prefix(d);
        let n = nl_count(d) as int;
        let l = last_line_start(d);
        if s.last() != '\n' {
            lemma_pieces_bytes_same(nl_pieces(s), p, n);
            assert(s.take(l) =~= d.take(l));
        } else {
            assert(nl_pieces(s) == p.push(Seq::<char>::empty()));
            lemma_pieces_bytes_same(nl_pieces(s), p, n);
            assert(nl_pieces(s)[n] == p.last());
            assert(d =~= d.take(l) + d.subrange(l, d.len() as int));
            lemma_byte_len_concat(d.take(l), d.subrange(l, d.len() as int));
            assert(s.take(s.len() as int) =~= s);
            assert(s.drop_last() == d);
        }
    }
}

/// The piece that a prefix of `t` ends in grows into line `l` of `t`.
proof fn lemma_piece_grows(t: Seq<char>, i: int, l: int)
    requires
        0 <= i <= t.len(),
        l == nl_count(t.take(i)),
    ensures
        l < nl_pieces(t).len(),
        byte_len(nl_pieces(t.take(i))[l]) <= byte_len(nl_pieces(t)[l]),
    decreases t.len() - i,
{
    lemma_nl_pieces_shape(t.take(i));
    if i == t.len() {
        assert(t.take(i) =~= t);
    } else {
        lemma_nl_step(t, i);
        assert(t.take(i + 1).drop_last() =~= t.take(i));
        lemma_nl_pieces_shape(t.take(i + 1));
        if t[i] == '\n' {
            lemma_nl_pieces_stable(t, i + 1, l);
            lemma_nl_pieces_shape(t);
            lemma_nl_count_mono(t, i + 1);
            assert(t.take(t.len() as int) =~= t);
        } else {
            lemma_piece_grows(t, i + 1, l);
            lemma_byte_len_push(nl_pieces(t.take(i))[l], t[i]);
        }
    }
}

/// A line that a prefix of `t` already closed is a line of `t` as it is.
proof fn lemma_nl_pieces_stable(t: Seq<char>, i: int, l: int)
    requires
        0 <= i <= t.len(),
        0 <= l < nl_count(t.take(i)),
    ensures
        nl_pieces(t)[l] == nl_pieces(t.take(i))[l],
    decreases t.len() - i,
{
    if i == t.len() {
        assert(t.take(i) =~= t);
    } else {
        lemma_nl_step(t, i);
        lemma_nl_pieces_stable(t, i + 1, l);
        assert(t.take(i + 1).drop_last() =~= t.take(i));
        lemma_nl_pieces_shape(t.take(i));
    }
}

/// A cursor (`line`, `col`) on one of the text's lines, `col` at most that
/// line's length, turns into a byte offset from which a range up to any
/// later character boundary reads back as that line, that column, and the
/// range's length in characters.
pub proof fn cursor_range_round_trip(t: Seq<char>, line: nat, col: nat, end: int)
    requires
        line < nl_pieces(t).len(),
        col <= nl_pieces(t)[line as int].len(),
        is_boundary(t, end),
        line_col_to_byte_spec(t, line, col) <= end,
    ensures
        byte_range_to_line_col_spec(t, line_col_to_byte_spec(t, line, col), end) == (
            line as int,
            col as int,
            char_at_byte(t, end) - char_at_byte(t, line_col_to_byte_spec(t, line, col)),
        ),
{
    lemma_nl_pieces_shape(t);
    line_col_round_trip(t, line, col);
    let b = line_col_to_byte_spec(t, line, col);
    let k = char_at_byte(t, b);
    lemma_char_at_byte(t, k);
    assert(0 <= k <= t.len() && bo(t, k) == b);
    lemma_byte_len_take_mono(t, k, t.len() as int);
    assert(t.take(t.len() as int) =~= t);
    let lc = byte_range_to_line_col_spec(t, b, end);
    assert(lc.0 == nl_count(t.take(k)) && lc.1 == k - last_line_start(t.take(k)));
    if lc.1 != col {
        assert(k == t.len() || t[k] == '\n');
        lemma_nl_pieces_shape(t.take(k));
        assert(nl_pieces(t.take(k))[line as int].len() == lc.1);
        if k == t.len() {
            assert(t.take(k) =~= t);
        } else {
            lemma_nl_step(t, k);
            assert(t.take(k + 1).drop_last() =~= t.take(k));
            lemma_nl_pieces_stable(t, k + 1, line as int);
        }
        assert(false);
    }
}

/// A match recorded on line `line` at `a..b` from that line's first byte
/// (as [`on_line`] says) lies, with the text split at every `\n`, at
/// `line_offset(t, line) + a .. line_offset(t, line) + b`, and starts within
/// that line: at most its length past the line's first byte.
pub proof fn on_line_offsets(t: Seq<char>, start: int, end: int, line: int, a: int, b: int)
    requires
        on_line(t, start, end, line, a, b),
    ensures
        0 <= line < nl_pieces(t).len(),
        line_offset(t, line) + a == start,
        line_offset(t, line) + b == end,
        line_offset(t, line) <= start <= line_offset(t, line) + byte_len(nl_pieces(t)[line]),
{
    let ls = choose|ls: int|
        #![trigger bo(t, ls)]
        {
            &&& 0 <= ls <= t.len()
            &&& nl_count(t.take(ls)) == line
            &&& (ls > 0 ==> t[ls - 1] == '\n')
            &&& 0 <= a
            &&& bo(t, ls) + a == start
            &&& bo(t, ls) + b == end
            &&& forall|p: int| ls <= p < char_at_byte(t, start) ==> t[p] != '\n'
        };
    let k = char_at_byte(t, start);
    assert(0 <= k <= t.len() && bo(t, k) == start);
    if k < ls {
        lemma_bo_strict(t, k, ls);
    }
    // The line starts at `ls`: the closed lines before it take `bo(t, ls)` bytes.
    let u = t.take(ls);
    if ls == 0 {
        assert(u =~= Seq::<char>::empty());
    } else {
        assert(u.last() == '\n');
    }
    assert(last_line_start(u) == ls);
    assert(u.take(ls) =~= u);
    lemma_pieces_bytes_prefix(u);
    lemma_nl_pieces_shape(u);
    lemma_nl_pieces_shape(t);
    lemma_nl_count_mono(t, ls);
    assert(t.take(t.len() as int) =~= t);
    assert forall|j: int| 0 <= j < line implies nl_pieces(t)[j] == nl_pieces(u)[j] by {
        lemma_nl_pieces_stable(t, ls, j);
    }
    lemma_pieces_bytes_same(nl_pieces(t), nl_pieces(u), line);
    // The line reaches at least to the match's first character.
    lemma_no_newline_run(t, ls, k);
    let w = t.take(k);
    lemma_nl_pieces_shape(w);
    assert(w.subrange(ls, k) =~= t.subrange(ls, k));
    lemma_byte_len_take_mono(t, ls, k);
    lemma_piece_grows(t, k, line);
}

/// A cursor on a line past the last one turns into one byte past the end of
/// the text.
pub proof fn line_col_past_the_end(t: Seq<char>, line: nat, col: nat)
    requires
        line > nl_count(t),
    ensures
        line_col_to_byte_spec(t, line, col) == byte_len(t) + 1,
{
    lemma_line_col_past(t, 0, line, col);
}

proof fn lemma_line_col_past(t: Seq<char>, i: int, line: nat, col: nat)
    requires
        0 <= i <= t.len(),
        nl_count(t.take(i)) + line > nl_count(t),
    ensures
        line_col_from(t, i, line, col) == byte_len(t) + 1,
    decreases t.len() - i,
{
    if i == t.len() {
        assert(t.take(i) =~= t);
    } else {
        lemma_nl_step(t, i);
        lemma_nl_bound(t.take(i + 1));
        lemma_nl_count_mono(t, i + 1);
        if t[i] == '\n' {
            lemma_line_col_past(t, i + 1, (line - 1) as nat, col);
        } else {
            lemma_line_col_past(t, i + 1, line, col);
        }
    }
}

proof fn lemma_nl_count_mono(t: Seq<char>, i: int)
    requires
        0 <= i <= t.len(),
    ensures
        nl_count(t.take(i)) <= nl_count(t),
    decreases t.len() - i,
{
    if i == t.len() {
        assert(t.take(i) =~= t);
    } else {
        lemma_nl_step(t, i);
        lemma_nl_count_mono(t, i + 1);
    }
}

/// Whether the byte range `start..end` can be sliced out of `text` (or
/// starts past its end, where nothing is sliced).
pub fn is_sliceable(text: &str, start: usize, end: usize) -> (res: bool)
    ensures
        res == sliceable(text@, start as int, end as int),
{
    let tb = str_byte_len(text);
    if start > tb {
        return true;
    }
    if start > end {
        return false;
    }
    let t = chars_of(text);
    let offs = char_offsets(t.as_slice());
    index_of_byte(t.as_slice(), &offs, start).is_some() && index_of_byte(t.as_slice(), &offs, end).is_some()
}

} // verus!
