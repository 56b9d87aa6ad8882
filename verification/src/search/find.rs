//! Finding matches of a search query (literal, case-insensitive or regular
//! expression) and replacing them.

use vstd::prelude::*;

use regex::Regex;

use super::position::{
    bo, char_at_byte, char_offsets, index_of_byte, is_boundary, lemma_bo_strict, lemma_char_at_byte,
};
use crate::text::{
    byte_len, char_lower, char_to_lowercase, char_width, chars_of, lemma_byte_len_take_mono,
    lemma_byte_len_take_step, matches_at, occurs_at, push_char, push_chars, push_str,
    str_byte_len, str_lower, str_to_lowercase,
};

verus! {

// ─── The regex crate ────────────────────────────────────────────────────────

#[verifier::external_type_specification]
#[verifier::external_body]
pub struct ExRegex(regex::Regex);

/// The message `Regex::new` fails with for `pattern`, or `None` when the
/// pattern compiles.
pub uninterp spec fn regex_error(pattern: Seq<char>) -> Option<Seq<char>>;

/// The pattern a compiled regex was built from (what `Regex::as_str`
/// returns).
pub uninterp spec fn regex_source(re: Regex) -> Seq<char>;

/// The byte ranges of the successive non-overlapping matches that
/// `Regex::find_iter` reports for `pattern` in `text`.
pub uninterp spec fn regex_find_all(pattern: Seq<char>, text: Seq<char>) -> Seq<(int, int)>;

/// What `Regex::replace_all` returns for `pattern`, `text` and the
/// replacement string `rep` (whose `$name` groups it expands).
pub uninterp spec fn regex_replace_all(pattern: Seq<char>, text: Seq<char>, rep: Seq<char>) -> Seq<
    char,
>;

/// `Regex::new`, with the error rendered by its `Display` impl. The contract
/// claims that the outcome and the message depend on the pattern alone, and
/// that a compiled regex remembers its pattern.
#[verifier::external_body]
fn compile_regex_pattern(pattern: &str) -> (res: Result<Regex, String>)
    ensures
        match res {
            Ok(re) => regex_error(pattern@) is None && regex_source(re) == pattern@,
            Err(e) => regex_error(pattern@) == Some(e@),
        },
{
    Regex::new(pattern).map_err(|e| e.to_string())
}

/// `Regex::find_iter`, as byte ranges. Besides naming the result, the
/// contract states what the crate documents of every match: it starts no
/// later than it ends, both ends fall on character boundaries of the
/// haystack, and the matches come in order without overlapping.
#[verifier::external_body]
pub(crate) fn regex_find_ranges(re: &Regex, text: &str) -> (res: Vec<std::ops::Range<usize>>)
    ensures
        ranges_view(res@) == regex_find_all(regex_source(*re), text@),
        forall|k: int|
            0 <= k < res@.len() ==> (#[trigger] res@[k]).start <= res@[k].end && is_boundary(
                text@,
                res@[k].start as int,
            ) && is_boundary(text@, res@[k].end as int),
        forall|k: int, m: int| 0 <= k < m < res@.len() ==> res@[k].end <= res@[m].start,
{
    re.find_iter(text).map(|m| m.start()..m.end()).collect()
}

/// `Regex::replace_all` with a string replacement.
#[verifier::external_body]
fn regex_replace(re: &Regex, text: &str, rep: &str) -> (res: String)
    ensures
        res@ == regex_replace_all(regex_source(*re), text@, rep@),
{
    re.replace_all(text, rep).into_owned()
}

/// The inline flag that makes a pattern case-insensitive, unless the search
/// is case-sensitive.
pub open spec fn flags(case_sensitive: bool) -> Seq<char> {
    if case_sensitive {
        Seq::empty()
    } else {
        seq!['(', '?', 'i', ')']
    }
}

/// A regex search or replace hands the regex engine the query itself when
/// case matters, and the query behind the inline flag `(?i)` when it does
/// not: what it finds, replaces or reports as an error is what that pattern
/// finds, replaces or fails to compile with.
pub proof fn regex_search_pattern(text: Seq<char>, query: Seq<char>, replacement: Seq<char>)
    requires
        query.len() > 0,
    ensures
        find_matches_spec(text, query, false, true) == match regex_error(
            seq!['(', '?', 'i', ')'] + query,
        ) {
            Some(e) => Err::<Seq<(int, int)>, Seq<char>>(e),
            None => Ok(regex_find_all(seq!['(', '?', 'i', ')'] + query, text)),
        },
        find_matches_spec(text, query, true, true) == match regex_error(query) {
            Some(e) => Err::<Seq<(int, int)>, Seq<char>>(e),
            None => Ok(regex_find_all(query, text)),
        },
        replace_all_spec(text, query, replacement, false, true) == match regex_error(
            seq!['(', '?', 'i', ')'] + query,
        ) {
            Some(e) => Err::<Seq<char>, Seq<char>>(e),
            None => Ok(regex_replace_all(seq!['(', '?', 'i', ')'] + query, text, replacement)),
        },
        replace_all_spec(text, query, replacement, true, true) == match regex_error(query) {
            Some(e) => Err::<Seq<char>, Seq<char>>(e),
            None => Ok(regex_replace_all(query, text, replacement)),
        },
{
    assert(flags(true) + query =~= query);
}

/// Compiles `query` as a regex, case-insensitively unless `case_sensitive`.
pub fn compile_query(query: &str, case_sensitive: bool) -> (res: Result<Regex, String>)
    ensures
        match res {
            Ok(re) => regex_error(flags(case_sensitive) + query@) is None && regex_source(re)
                == flags(case_sensitive) + query@,
            Err(e) => regex_error(flags(case_sensitive) + query@) == Some(e@),
        },
{
    let mut pattern = String::new();
    if !case_sensitive {
        push_char(&mut pattern, '(');
        push_char(&mut pattern, '?');
        push_char(&mut pattern, 'i');
        push_char(&mut pattern, ')');
    }
    push_str(&mut pattern, query);
    assert(pattern@ =~= flags(case_sensitive) + query@);
    compile_regex_pattern(pattern.as_str())
}

// ─── Literal matching ───────────────────────────────────────────────────────

pub open spec fn ranges_view(v: Seq<std::ops::Range<usize>>) -> Seq<(int, int)> {
    v.map_values(|r: std::ops::Range<usize>| (r.start as int, r.end as int))
}

/// The byte ranges of the non-overlapping occurrences of `q` in `t` from
/// character `i` on, each taken at the leftmost place it can start. An empty
/// `q` occurs (emptily) at every character boundary.
pub open spec fn lit_from(t: Seq<char>, q: Seq<char>, i: int) -> Seq<(int, int)>
    decreases t.len() + 1 - i,
{
    if i < 0 || i > t.len() {
        Seq::empty()
    } else if q.len() == 0 {
        seq![(bo(t, i), bo(t, i))] + lit_from(t, q, i + 1)
    } else if i + q.len() > t.len() {
        Seq::empty()
    } else if occurs_at(t, i, q) {
        seq![(bo(t, i), bo(t, i) + byte_len(q))] + lit_from(t, q, i + q.len())
    } else {
        lit_from(t, q, i + 1)
    }
}

/// What `str::match_indices` reports, as byte ranges.
pub open spec fn literal_ranges(t: Seq<char>, q: Seq<char>) -> Seq<(int, int)> {
    lit_from(t, q, 0)
}

/// The byte ranges of the occurrences of `q` in `t` (see [`literal_ranges`]).
pub fn literal_matches(t: &[char], q: &[char], qb: usize) -> (res: Vec<std::ops::Range<usize>>)
    requires
        byte_len(t@) <= usize::MAX,
        qb == byte_len(q@),
    ensures
        ranges_view(res@) == literal_ranges(t@, q@),
        forall|k: int|
            0 <= k < res@.len() ==> (#[trigger] res@[k]).start <= res@[k].end <= byte_len(t@),
{
    let mut out: Vec<std::ops::Range<usize>> = Vec::new();
    let mut i: usize = 0;
    let mut b: usize = 0;
    assert(t@.take(0) =~= Seq::<char>::empty());
    assert(ranges_view(out@) =~= Seq::<(int, int)>::empty());
    if q.len() == 0 {
        while i < t.len()
            invariant
                i <= t@.len(),
                q@.len() == 0,
                b == bo(t@, i as int),
                byte_len(t@) <= usize::MAX,
                ranges_view(out@) + lit_from(t@, q@, i as int) == literal_ranges(t@, q@),
                forall|k: int|
                    0 <= k < out@.len() ==> (#[trigger] out@[k]).start <= out@[k].end <= byte_len(
                        t@,
                    ),
            decreases t@.len() - i,
        {
            proof {
                lemma_byte_len_take_step(t@, i as int);
                lemma_byte_len_take_mono(t@, i as int, t@.len() as int);
                lemma_byte_len_take_mono(t@, i + 1, t@.len() as int);
                assert(t@.take(t@.len() as int) =~= t@);
            }
            let ghost before = ranges_view(out@);
            out.push(b..b);
            assert(ranges_view(out@) =~= before.push((b as int, b as int)));
            assert(ranges_view(out@) + lit_from(t@, q@, i + 1) =~= before + lit_from(
                t@,
                q@,
                i as int,
            ));
            b = b + char_width(t[i]);
            i = i + 1;
        }
        proof {
            assert(t@.take(t@.len() as int) =~= t@);
        }
        let ghost before = ranges_view(out@);
        out.push(b..b);
        assert(ranges_view(out@) =~= before.push((b as int, b as int)));
        assert(lit_from(t@, q@, i + 1) =~= Seq::<(int, int)>::empty());
        assert(ranges_view(out@) =~= before + lit_from(t@, q@, i as int));
        return out;
    }
    while q.len() <= t.len() - i
        invariant
            i <= t@.len(),
            q@.len() > 0,
            qb == byte_len(q@),
            b == bo(t@, i as int),
            byte_len(t@) <= usize::MAX,
            ranges_view(out@) + lit_from(t@, q@, i as int) == literal_ranges(t@, q@),
            forall|k: int|
                0 <= k < out@.len() ==> (#[trigger] out@[k]).start <= out@[k].end <= byte_len(t@),
        decreases t@.len() - i,
    {
        let ghost before = ranges_view(out@);
        if matches_at(t, i, q) {
            proof {
                lemma_byte_len_take_mono(t@, i as int, i + q@.len());
                lemma_byte_len_take_mono(t@, i + q@.len(), t@.len() as int);
                assert(t@.take(t@.len() as int) =~= t@);
            }
            let e = b + qb;
            out.push(b..e);
            assert(ranges_view(out@) =~= before.push((b as int, e as int)));
            assert(ranges_view(out@) + lit_from(t@, q@, i + q@.len()) =~= before + lit_from(
                t@,
                q@,
                i as int,
            ));
            b = e;
            i = i + q.len();
        } else {
            proof {
                lemma_byte_len_take_step(t@, i as int);
                lemma_byte_len_take_mono(t@, i + 1, t@.len() as int);
                assert(t@.take(t@.len() as int) =~= t@);
            }
            b = b + char_width(t[i]);
            i = i + 1;
        }
    }
    assert(lit_from(t@, q@, i as int) =~= Seq::<(int, int)>::empty());
    assert(ranges_view(out@) + Seq::<(int, int)>::empty() =~= ranges_view(out@));
    out
}

/// `t` with every non-overlapping occurrence of `q` replaced by `r`, taken
/// left to right (what `str::replace` does for a non-empty pattern).
pub open spec fn lit_replace(t: Seq<char>, q: Seq<char>, r: Seq<char>) -> Seq<char>
    decreases t.len(),
{
    if q.len() == 0 || t.len() < q.len() {
        t
    } else if t.take(q.len() as int) == q {
        r + lit_replace(t.skip(q.len() as int), q, r)
    } else {
        seq![t[0]] + lit_replace(t.skip(1), q, r)
    }
}

/// `text` with every occurrence of `q` replaced by `r` (see
/// [`lit_replace`]).
pub fn replace_literal(text: &str, q: &str, r: &str) -> (res: String)
    ensures
        res@ == lit_replace(text@, q@, r@),
{
    let t = chars_of(text);
    let qv = chars_of(q);
    let rv = chars_of(r);
    let mut out = String::new();
    if qv.len() == 0 {
        push_chars(&mut out, t.as_slice());
        assert(out@ =~= text@);
        return out;
    }
    let mut i: usize = 0;
    assert(t@.skip(0) =~= t@);
    while qv.len() <= t.len() - i
        invariant
            i <= t@.len(),
            t@ == text@,
            qv@ == q@,
            rv@ == r@,
            qv@.len() > 0,
            out@ + lit_replace(t@.skip(i as int), q@, r@) == lit_replace(text@, q@, r@),
        decreases t@.len() - i,
    {
        let ghost rest = t@.skip(i as int);
        if matches_at(t.as_slice(), i, qv.as_slice()) {
            assert(rest.take(q@.len() as int) =~= t@.subrange(i as int, i + q@.len()));
            assert(rest.skip(q@.len() as int) =~= t@.skip(i + q@.len()));
            let ghost before = out@;
            push_chars(&mut out, rv.as_slice());
            assert(out@ + lit_replace(t@.skip(i + q@.len()), q@, r@) =~= before + lit_replace(
                rest,
                q@,
                r@,
            ));
            i = i + qv.len();
        } else {
            assert(rest.take(q@.len() as int) =~= t@.subrange(i as int, i + q@.len()));
            assert(rest.skip(1) =~= t@.skip(i + 1));
            let ghost before = out@;
            push_char(&mut out, t[i]);
            assert(out@ + lit_replace(t@.skip(i + 1), q@, r@) =~= before + lit_replace(
                rest,
                q@,
                r@,
            ));
            i = i + 1;
        }
    }
    let ghost before = out@;
    let mut k = i;
    while k < t.len()
        invariant
            i <= k <= t@.len(),
            out@ == before + t@.subrange(i as int, k as int),
        decreases t@.len() - k,
    {
        push_char(&mut out, t[k]);
        assert(t@.subrange(i as int, k + 1) =~= t@.subrange(i as int, k as int).push(t@[k as int]));
        k = k + 1;
    }
    assert(t@.subrange(i as int, t@.len() as int) =~= t@.skip(i as int));
    out
}

// ─── Case-insensitive matching ──────────────────────────────────────────────

/// The characters of `s`, each lowercased on its own (`char::to_lowercase`).
pub open spec fn lower_chars(s: Seq<char>) -> Seq<char>
    decreases s.len(),
{
    if s.len() == 0 {
        Seq::empty()
    } else {
        lower_chars(s.drop_last()) + char_lower(s.last())
    }
}

/// The byte offset of character `k` of `t` once each character before it
/// is lowercased: where that character's lowercase starts in the lowercased
/// text.
pub open spec fn lower_offset(t: Seq<char>, k: int) -> int {
    byte_len(lower_chars(t.take(k))) as int
}

/// The first character, from `k` on, whose lowercase starts at byte `b` of
/// the lowercased text.
pub open spec fn lower_char_from(t: Seq<char>, b: int, k: int) -> Option<int>
    decreases t.len() + 1 - k,
{
    if k < 0 || k > t.len() {
        None
    } else if lower_offset(t, k) == b {
        Some(k)
    } else {
        lower_char_from(t, b, k + 1)
    }
}

pub open spec fn lower_char(t: Seq<char>, b: int) -> Option<int> {
    lower_char_from(t, b, 0)
}

/// The byte ranges `ms` of the lowercased text, from the `n`-th on, taken
/// back to character ranges of `t`; a range that does not start and end
/// between the lowercases of two characters of `t` is skipped.
pub open spec fn back_from(t: Seq<char>, ms: Seq<(int, int)>, n: int) -> Seq<(int, int)>
    decreases ms.len() - n,
{
    if n < 0 || n >= ms.len() {
        Seq::empty()
    } else {
        let rest = back_from(t, ms, n + 1);
        match (lower_char(t, ms[n].0), lower_char(t, ms[n].1)) {
            (Some(i), Some(j)) => seq![(i, j)] + rest,
            _ => rest,
        }
    }
}

/// The case-insensitive matches of `query` in `text`, as character ranges
/// of `text`: the occurrences of the lowercased query in the lowercased
/// text, taken back to the characters they came from.
pub open spec fn ci_char_ranges(text: Seq<char>, query: Seq<char>) -> Seq<(int, int)> {
    back_from(text, literal_ranges(str_lower(text), str_lower(query)), 0)
}

/// Character ranges as byte ranges of `t`.
pub open spec fn char_ranges_to_bytes(t: Seq<char>, rs: Seq<(int, int)>) -> Seq<(int, int)> {
    rs.map_values(|p: (int, int)| (bo(t, p.0), bo(t, p.1)))
}

/// `t` from character `last` on, with the character ranges `rs` (from the
/// `k`-th on) replaced by `r`; a range that does not lie after the previous
/// one is left alone.
pub open spec fn splice_chars(t: Seq<char>, rs: Seq<(int, int)>, r: Seq<char>, k: int, last: int) -> Seq<char>
    decreases rs.len() - k,
{
    if k < 0 || k >= rs.len() {
        t.subrange(last, t.len() as int)
    } else if last <= rs[k].0 <= rs[k].1 <= t.len() {
        t.subrange(last, rs[k].0) + r + splice_chars(t, rs, r, k + 1, rs[k].1)
    } else {
        splice_chars(t, rs, r, k + 1, last)
    }
}

proof fn lemma_lower_offset_step(t: Seq<char>, k: int)
    requires
        0 <= k < t.len(),
    ensures
        lower_offset(t, k + 1) == lower_offset(t, k) + byte_len(char_lower(t[k])),
{
    assert(t.take(k + 1).drop_last() =~= t.take(k));
    crate::text::lemma_byte_len_concat(lower_chars(t.take(k)), char_lower(t[k]));
}

proof fn lemma_lower_offset_mono(t: Seq<char>, i: int, j: int)
    requires
        0 <= i <= j <= t.len(),
    ensures
        lower_offset(t, i) <= lower_offset(t, j),
    decreases j - i,
{
    if i < j {
        lemma_lower_offset_step(t, j - 1);
        lemma_lower_offset_mono(t, i, j - 1);
    }
}

proof fn lemma_lower_char_found(t: Seq<char>, b: int, s: int, k: int)
    requires
        0 <= s <= k <= t.len(),
        lower_offset(t, k) == b,
        forall|j: int| s <= j < k ==> lower_offset(t, j) != b,
    ensures
        lower_char_from(t, b, s) == Some(k),
    decreases k - s,
{
    if s < k {
        lemma_lower_char_found(t, b, s + 1, k);
    }
}

proof fn lemma_lower_char_missing(t: Seq<char>, b: int, s: int)
    requires
        0 <= s,
        forall|j: int| s <= j <= t.len() ==> lower_offset(t, j) != b,
    ensures
        lower_char_from(t, b, s) is None,
    decreases t.len() + 1 - s,
{
    if s <= t.len() {
        lemma_lower_char_missing(t, b, s + 1);
    }
}

proof fn lemma_lower_char_bounds(t: Seq<char>, b: int, s: int)
    ensures
        lower_char_from(t, b, s) matches Some(k) ==> s <= k <= t.len() && lower_offset(t, k) == b,
    decreases t.len() + 1 - s,
{
    if 0 <= s <= t.len() && lower_offset(t, s) != b {
        lemma_lower_char_bounds(t, b, s + 1);
    }
}

/// Where the lowercase of each character of `t` starts, for as long as
/// that fits a machine word.
fn lower_offsets(t: &[char]) -> (res: Vec<usize>)
    ensures
        1 <= res@.len() <= t@.len() + 1,
        forall|k: int| 0 <= k < res@.len() ==> #[trigger] res@[k] == lower_offset(t@, k),
        res@.len() < t@.len() + 1 ==> lower_offset(t@, res@.len() as int) > usize::MAX,
{
    let mut out: Vec<usize> = Vec::new();
    let mut b: usize = 0;
    assert(t@.take(0) =~= Seq::<char>::empty());
    out.push(0);
    let mut i: usize = 0;
    while i < t.len()
        invariant
            i <= t@.len(),
            out@.len() == i + 1,
            b == lower_offset(t@, i as int),
            forall|k: int| 0 <= k < out@.len() ==> #[trigger] out@[k] == lower_offset(t@, k),
        decreases t@.len() - i,
    {
        let l = char_to_lowercase(t[i]);
        proof {
            lemma_lower_offset_step(t@, i as int);
        }
        let mut k: usize = 0;
        let mut w: usize = b;
        while k < l.len()
            invariant
                k <= l@.len(),
                i < t@.len(),
                l@ == char_lower(t@[i as int]),
                out@.len() == i + 1,
                b == lower_offset(t@, i as int),
                lower_offset(t@, i + 1) == b + byte_len(l@),
                forall|m: int| 0 <= m < out@.len() ==> #[trigger] out@[m] == lower_offset(t@, m),
                w == b + byte_len(l@.take(k as int)),
            decreases l@.len() - k,
        {
            proof {
                crate::text::lemma_byte_len_take_step(l@, k as int);
            }
            let c = char_width(l[k]);
            if w > usize::MAX - c {
                proof {
                    crate::text::lemma_byte_len_take_mono(l@, k + 1, l@.len() as int);
                    assert(l@.take(l@.len() as int) =~= l@);
                }
                return out;
            }
            w = w + c;
            k = k + 1;
        }
        assert(l@.take(k as int) =~= l@);
        b = w;
        out.push(b);
        i = i + 1;
    }
    out
}

/// The first character of `t` whose lowercase starts at byte `b` of the
/// lowercased text (binary search in the increasing `offs`).
fn lower_char_at(t: &[char], offs: &Vec<usize>, b: usize) -> (res: Option<usize>)
    requires
        1 <= offs@.len() <= t@.len() + 1,
        forall|k: int| 0 <= k < offs@.len() ==> #[trigger] offs@[k] == lower_offset(t@, k),
        offs@.len() < t@.len() + 1 ==> lower_offset(t@, offs@.len() as int) > usize::MAX,
    ensures
        match res {
            Some(k) => lower_char(t@, b as int) == Some(k as int),
            None => lower_char(t@, b as int) is None,
        },
{
    // The first index whose offset reaches `b`.
    let mut lo: usize = 0;
    let mut hi: usize = offs.len();
    while lo < hi
        invariant
            0 <= lo <= hi <= offs@.len(),
            1 <= offs@.len() <= t@.len() + 1,
            forall|k: int| 0 <= k < offs@.len() ==> #[trigger] offs@[k] == lower_offset(t@, k),
            forall|k: int| 0 <= k < lo ==> lower_offset(t@, k) < b,
            forall|k: int| hi <= k < offs@.len() ==> lower_offset(t@, k) >= b,
        decreases hi - lo,
    {
        let mid = lo + (hi - lo) / 2;
        if offs[mid] < b {
            proof {
                assert forall|k: int| 0 <= k <= mid implies lower_offset(t@, k) < b by {
                    lemma_lower_offset_mono(t@, k, mid as int);
                }
            }
            lo = mid + 1;
        } else {
            proof {
                assert forall|k: int| mid <= k < offs@.len() implies lower_offset(t@, k) >= b by {
                    lemma_lower_offset_mono(t@, mid as int, k);
                }
            }
            hi = mid;
        }
    }
    if lo < offs.len() && offs[lo] == b {
        proof {
            lemma_lower_char_found(t@, b as int, 0, lo as int);
        }
        Some(lo)
    } else {
        proof {
            assert forall|j: int| 0 <= j <= t@.len() implies lower_offset(t@, j) != b by {
                if j >= offs@.len() {
                    lemma_lower_offset_mono(t@, offs@.len() as int, j);
                } else if j > lo {
                    lemma_lower_offset_mono(t@, lo as int, j);
                }
            }
            lemma_lower_char_missing(t@, b as int, 0);
        }
        None
    }
}

pub open spec fn pairs_view(v: Seq<(usize, usize)>) -> Seq<(int, int)> {
    v.map_values(|p: (usize, usize)| (p.0 as int, p.1 as int))
}

/// The case-insensitive matches of `query` in `text`, as character ranges.
fn ci_char_matches(text: &str, query: &str) -> (res: Vec<(usize, usize)>)
    ensures
        pairs_view(res@) == ci_char_ranges(text@, query@),
        forall|k: int| 0 <= k < res@.len() ==> (#[trigger] res@[k]).0 <= res@[k].1 <= text@.len(),
{
    let lower_text = str_to_lowercase(text);
    let lower_query = str_to_lowercase(query);
    let _lb = str_byte_len(lower_text.as_str());
    let lqb = str_byte_len(lower_query.as_str());
    let lt = chars_of(lower_text.as_str());
    let lq = chars_of(lower_query.as_str());
    let ms = literal_matches(lt.as_slice(), lq.as_slice(), lqb);
    let t = chars_of(text);
    let offs = lower_offsets(t.as_slice());
    let ghost mv = ranges_view(ms@);
    let mut out: Vec<(usize, usize)> = Vec::new();
    let mut n: usize = ms.len();
    assert(pairs_view(out@) =~= Seq::<(int, int)>::empty());
    // Built from the last match back, so each step puts a range in front.
    while n > 0
        invariant
            n <= ms@.len(),
            mv == ranges_view(ms@),
            mv == literal_ranges(str_lower(text@), str_lower(query@)),
            t@ == text@,
            1 <= offs@.len() <= t@.len() + 1,
            forall|k: int| 0 <= k < offs@.len() ==> #[trigger] offs@[k] == lower_offset(t@, k),
            offs@.len() < t@.len() + 1 ==> lower_offset(t@, offs@.len() as int) > usize::MAX,
            forall|k: int| 0 <= k < ms@.len() ==> (#[trigger] ms@[k]).start <= ms@[k].end,
            pairs_view(out@) == back_from(t@, mv, n as int),
            forall|k: int| 0 <= k < out@.len() ==> (#[trigger] out@[k]).0 <= out@[k].1 <= text@.len(),
        decreases n,
    {
        n = n - 1;
        let a = ms[n].start;
        let b = ms[n].end;
        assert(mv[n as int] == (a as int, b as int));
        let ghost rest = pairs_view(out@);
        match (lower_char_at(t.as_slice(), &offs, a), lower_char_at(t.as_slice(), &offs, b)) {
            (Some(i), Some(j)) => {
                proof {
                    lemma_lower_char_bounds(t@, a as int, 0);
                    lemma_lower_char_bounds(t@, b as int, 0);
                    if j < i {
                        lemma_lower_offset_mono(t@, j as int, i as int);
                        assert(lower_offset(t@, j as int) == a);
                        assert(lower_char_from(t@, a as int, 0) == Some(i as int));
                        lemma_lower_char_first(t@, a as int, 0, j as int);
                    }
                }
                let mut v: Vec<(usize, usize)> = Vec::new();
                v.push((i, j));
                let ghost old_out = out@;
                v.append(&mut out);
                out = v;
                assert(pairs_view(out@) =~= seq![(i as int, j as int)] + rest);
                assert(forall|k: int| 0 < k < out@.len() ==> out@[k] == old_out[k - 1]);
            },
            _ => {},
        }
    }
    out
}

/// The first character whose lowercase starts at `b` comes no later than
/// any other such character.
proof fn lemma_lower_char_first(t: Seq<char>, b: int, s: int, j: int)
    requires
        0 <= s <= j <= t.len(),
        lower_offset(t, j) == b,
    ensures
        lower_char_from(t, b, s) matches Some(k) && k <= j,
    decreases j - s,
{
    if lower_offset(t, s) != b {
        lemma_lower_char_first(t, b, s + 1, j);
    }
}

// ─── Every case-insensitive match is replaced ───────────────────────────────

/// Ranges inside `0..n`, in order, each ending no later than the next one
/// starts (two may touch).
pub open spec fn ordered_ranges(rs: Seq<(int, int)>, n: int) -> bool {
    &&& forall|i: int| 0 <= i < rs.len() ==> 0 <= (#[trigger] rs[i]).0 <= rs[i].1 <= n
    &&& forall|i: int, j: int| 0 <= i < j < rs.len() ==> (#[trigger] rs[i]).1 <= (#[trigger] rs[j]).0
}

proof fn lemma_splice_last(t: Seq<char>, rs: Seq<(int, int)>, r: Seq<char>, k: int, last: int)
    requires
        ordered_ranges(rs, t.len() as int),
        0 <= k < rs.len(),
        0 <= last <= rs[k].0,
    ensures
        splice_chars(t, rs, r, k, last) == splice_chars(
            t.take(rs.last().0),
            rs.drop_last(),
            r,
            k,
            last,
        ) + r + t.skip(rs.last().1),
    decreases rs.len() - k,
{
    let x = rs.last();
    let n = rs.len() - 1;
    assert(rs[n] == x);
    if k == n {
        assert(0 <= x.0 <= x.1 <= t.len());
        assert(splice_chars(t, rs, r, k + 1, x.1) == t.subrange(x.1, t.len() as int));
        assert(splice_chars(t, rs, r, k, last) == t.subrange(last, x.0) + r + t.subrange(
            x.1,
            t.len() as int,
        ));
        assert(t.subrange(x.1, t.len() as int) =~= t.skip(x.1));
        assert(t.take(x.0).len() == x.0);
        assert(splice_chars(t.take(x.0), rs.drop_last(), r, k, last) == t.take(x.0).subrange(
            last,
            x.0,
        ));
        assert(t.take(x.0).subrange(last, x.0) =~= t.subrange(last, x.0));
    } else {
        assert(rs[k].1 <= rs[n].0);
        assert(rs[k].1 <= rs[k + 1].0);
        lemma_splice_last(t, rs, r, k + 1, rs[k].1);
        assert(rs.drop_last()[k] == rs[k]);
        assert(t.take(x.0).subrange(last, rs[k].0) =~= t.subrange(last, rs[k].0));
        let tail = splice_chars(t.take(x.0), rs.drop_last(), r, k + 1, rs[k].1);
        assert(t.subrange(last, rs[k].0) + r + (tail + r + t.skip(x.1)) =~= t.subrange(
            last,
            rs[k].0,
        ) + r + tail + r + t.skip(x.1));
    }
}

/// Splicing replaces every one of a run of ordered ranges, touching ones
/// included: with no range the text is left as it is, and the last range is
/// replaced after the others are spliced into the text before it.
pub proof fn splice_replaces_every_range(t: Seq<char>, rs: Seq<(int, int)>, r: Seq<char>)
    requires
        ordered_ranges(rs, t.len() as int),
    ensures
        rs.len() == 0 ==> splice_chars(t, rs, r, 0, 0) == t,
        rs.len() > 0 ==> splice_chars(t, rs, r, 0, 0) == splice_chars(
            t.take(rs.last().0),
            rs.drop_last(),
            r,
            0,
            0,
        ) + r + t.skip(rs.last().1),
{
    if rs.len() == 0 {
        assert(t.subrange(0, t.len() as int) =~= t);
    } else {
        assert(0 <= rs[0].0);
        lemma_splice_last(t, rs, r, 0, 0);
    }
}

#[verifier::spinoff_prover]
#[verifier::rlimit(40)]
proof fn lemma_lit_ordered(t: Seq<char>, q: Seq<char>, i: int)
    requires
        0 <= i,
    ensures
        ordered_ranges(lit_from(t, q, i), byte_len(t) as int),
        forall|k: int| 0 <= k < lit_from(t, q, i).len() ==> bo(t, i) <= (#[trigger] lit_from(t, q, i)[k]).0,
    decreases t.len() + 1 - i,
{
    let m = lit_from(t, q, i);
    if i > t.len() {
    } else {
        lemma_byte_len_take_mono(t, i, t.len() as int);
        assert(t.take(t.len() as int) =~= t);
        if q.len() == 0 {
            lemma_lit_ordered(t, q, i + 1);
            let rest = lit_from(t, q, i + 1);
            if i + 1 <= t.len() {
                lemma_byte_len_take_mono(t, i, i + 1);
            }
            assert forall|k: int| 0 < k < m.len() implies m[k] == rest[k - 1] && bo(t, i) <= m[k].0 by {
            }
        } else if i + q.len() > t.len() {
        } else if occurs_at(t, i, q) {
            let e = i + q.len();
            lemma_lit_ordered(t, q, e);
            let rest = lit_from(t, q, e);
            lemma_byte_len_take_mono(t, i, e);
            assert(bo(t, i) + byte_len(q) == bo(t, e));
            lemma_byte_len_take_mono(t, e, t.len() as int);
            assert forall|k: int| 0 < k < m.len() implies m[k] == rest[k - 1] && bo(t, e) <= m[k].0 by {
            }
        } else {
            lemma_lit_ordered(t, q, i + 1);
            lemma_byte_len_take_mono(t, i, i + 1);
        }
    }
}

/// Taking byte offsets of the lowercased text back to characters keeps
/// their order.
proof fn lemma_lower_char_mono(t: Seq<char>, b1: int, b2: int)
    requires
        b1 <= b2,
        lower_char(t, b1) is Some,
        lower_char(t, b2) is Some,
    ensures
        lower_char(t, b1)->0 <= lower_char(t, b2)->0,
{
    let i = lower_char(t, b1)->0;
    let j = lower_char(t, b2)->0;
    lemma_lower_char_bounds(t, b1, 0);
    lemma_lower_char_bounds(t, b2, 0);
    if j < i {
        lemma_lower_offset_mono(t, j, i);
        lemma_lower_char_first(t, b1, 0, j);
    }
}

proof fn lemma_back_ordered(t: Seq<char>, ms: Seq<(int, int)>, n: int, bound: int)
    requires
        0 <= n,
        ordered_ranges(ms, bound),
    ensures
        ordered_ranges(back_from(t, ms, n), t.len() as int),
        forall|k: int|
            0 <= k < back_from(t, ms, n).len() ==> exists|p: int|
                n <= p < ms.len() && lower_char(t, ms[p].0) == Some((#[trigger] back_from(t, ms, n)[k]).0)
                    && lower_char(t, ms[p].1) == Some(back_from(t, ms, n)[k].1),
    decreases ms.len() - n,
{
    if n < ms.len() {
        lemma_back_ordered(t, ms, n + 1, bound);
        let rest = back_from(t, ms, n + 1);
        match (lower_char(t, ms[n].0), lower_char(t, ms[n].1)) {
            (Some(i), Some(j)) => {
                let out = back_from(t, ms, n);
                assert(out == seq![(i, j)] + rest);
                lemma_lower_char_bounds(t, ms[n].0, 0);
                lemma_lower_char_bounds(t, ms[n].1, 0);
                lemma_lower_char_mono(t, ms[n].0, ms[n].1);
                assert forall|k: int| 0 < k < out.len() implies out[k] == rest[k - 1] && j <= out[k].0 by {
                    let p = choose|p: int|
                        n + 1 <= p < ms.len() && lower_char(t, ms[p].0) == Some((#[trigger] rest[k - 1]).0)
                            && lower_char(t, ms[p].1) == Some(rest[k - 1].1);
                    assert(ms[n].1 <= ms[p].0);
                    lemma_lower_char_mono(t, ms[n].1, ms[p].0);
                }
                assert forall|k: int| 0 <= k < out.len() implies exists|p: int|
                    n <= p < ms.len() && lower_char(t, ms[p].0) == Some((#[trigger] out[k]).0)
                        && lower_char(t, ms[p].1) == Some(out[k].1) by {
                    if k == 0 {
                        assert(n <= n < ms.len());
                    } else {
                        assert(out[k] == rest[k - 1]);
                    }
                }
            },
            _ => {},
        }
    }
}

/// Ignoring case, a plain-text replace replaces every match that a search
/// reports: those matches lie in order in the text, and each of them,
/// touching ones included, is replaced (see
/// [`splice_replaces_every_range`]).
pub proof fn ci_replace_replaces_every_match(text: Seq<char>, query: Seq<char>, replacement: Seq<char>)
    requires
        query.len() > 0,
    ensures
        ordered_ranges(ci_char_ranges(text, query), text.len() as int),
        find_matches_spec(text, query, false, false) == Ok::<Seq<(int, int)>, Seq<char>>(
            char_ranges_to_bytes(text, ci_char_ranges(text, query)),
        ),
        ({
            let rs = ci_char_ranges(text, query);
            &&& rs.len() == 0 ==> replace_all_spec(text, query, replacement, false, false) == Ok::<
                Seq<char>,
                Seq<char>,
            >(text)
            &&& rs.len() > 0 ==> replace_all_spec(text, query, replacement, false, false) == Ok::<
                Seq<char>,
                Seq<char>,
            >(
                splice_chars(text.take(rs.last().0), rs.drop_last(), replacement, 0, 0) + replacement
                    + text.skip(rs.last().1),
            )
        }),
{
    let lt = str_lower(text);
    lemma_lit_ordered(lt, str_lower(query), 0);
    lemma_back_ordered(text, literal_ranges(lt, str_lower(query)), 0, byte_len(lt) as int);
    splice_replaces_every_range(text, ci_char_ranges(text, query), replacement);
}

/// `t` with the character ranges `rs` replaced by `r`.
fn splice_char_ranges(t: &[char], rs: &Vec<(usize, usize)>, r: &str) -> (res: String)
    ensures
        res@ == splice_chars(t@, pairs_view(rs@), r@, 0, 0),
{
    let ghost rv = pairs_view(rs@);
    let mut out = String::new();
    let mut last: usize = 0;
    let mut k: usize = 0;
    while k < rs.len()
        invariant
            k <= rs@.len(),
            rv == pairs_view(rs@),
            last <= t@.len(),
            out@ + splice_chars(t@, rv, r@, k as int, last as int) == splice_chars(
                t@,
                rv,
                r@,
                0,
                0,
            ),
        decreases rs@.len() - k,
    {
        let (i, j) = rs[k];
        assert(rv[k as int] == (i as int, j as int));
        let ghost before = out@;
        if last <= i && i <= j && j <= t.len() {
            let piece = crate::text::slice_chars(t, last, i);
            push_chars(&mut out, piece.as_slice());
            push_str(&mut out, r);
            assert(out@ + splice_chars(t@, rv, r@, k + 1, j as int) =~= before + splice_chars(
                t@,
                rv,
                r@,
                k as int,
                last as int,
            ));
            last = j;
        }
        k = k + 1;
    }
    let ghost before = out@;
    let piece = crate::text::slice_chars(t, last, t.len());
    push_chars(&mut out, piece.as_slice());
    assert(out@ =~= before + splice_chars(t@, rv, r@, k as int, last as int));
    out
}

// ─── Finding and replacing ──────────────────────────────────────────────────

/// Every match of `query` in `text`, as byte ranges: none for an empty
/// query; for a regex, what it finds (or the message it fails to compile
/// with); literally, the occurrences of the query; ignoring case, the
/// occurrences of the lowercased query in the lowercased text, taken back to
/// byte ranges of the text itself (see [`ci_char_ranges`]).
pub open spec fn find_matches_spec(text: Seq<char>, query: Seq<char>, case_sensitive: bool, use_regex: bool) -> Result<
    Seq<(int, int)>,
    Seq<char>,
> {
    if query.len() == 0 {
        Ok(Seq::empty())
    } else if use_regex {
        let pattern = flags(case_sensitive) + query;
        match regex_error(pattern) {
            Some(e) => Err(e),
            None => Ok(regex_find_all(pattern, text)),
        }
    } else if case_sensitive {
        Ok(literal_ranges(text, query))
    } else {
        Ok(char_ranges_to_bytes(text, ci_char_ranges(text, query)))
    }
}

/// Every match of `query` in `text`, as byte ranges. `Err` only for an
/// invalid regex; an empty query yields no matches rather than an error.
pub fn find_matches(text: &str, query: &str, case_sensitive: bool, use_regex: bool) -> (res: Result<
    Vec<std::ops::Range<usize>>,
    String,
>)
    ensures
        match res {
            Ok(m) => find_matches_spec(text@, query@, case_sensitive, use_regex) == Ok::<
                Seq<(int, int)>,
                Seq<char>,
            >(ranges_view(m@)),
            Err(e) => find_matches_spec(text@, query@, case_sensitive, use_regex) == Err::<
                Seq<(int, int)>,
                Seq<char>,
            >(e@),
        },
        res matches Ok(m) ==> forall|k: int| 0 <= k < m@.len() ==> (#[trigger] m@[k]).start <= m@[k].end,
        res matches Ok(m) ==> forall|k: int|
            0 <= k < m@.len() ==> is_boundary(text@, (#[trigger] m@[k]).start as int),
{
    if query.as_bytes().len() == 0 {
        let empty: Vec<std::ops::Range<usize>> = Vec::new();
        proof {
            crate::text::lemma_encode_utf8_len(query@);
            crate::text::lemma_byte_len_ge_len(query@);
        }
        assert(ranges_view(empty@) =~= Seq::<(int, int)>::empty());
        return Ok(empty);
    }
    proof {
        crate::text::lemma_encode_utf8_len(query@);
        if query@.len() == 0 {
            assert(byte_len(query@) == 0);
        }
    }
    if use_regex {
        match compile_query(query, case_sensitive) {
            Ok(re) => Ok(regex_find_ranges(&re, text)),
            Err(e) => Err(e),
        }
    } else if case_sensitive {
        let tb = str_byte_len(text);
        let qb = str_byte_len(query);
        let t = chars_of(text);
        let q = chars_of(query);
        let m = literal_matches(t.as_slice(), q.as_slice(), qb);
        proof {
            assert forall|k: int| 0 <= k < m@.len() implies is_boundary(text@, (#[trigger] m@[k]).start as int) by {
                lemma_literal_starts_are_boundaries(t@, q@, 0, k);
                assert(ranges_view(m@)[k] == (m@[k].start as int, m@[k].end as int));
            }
        }
        Ok(m)
    } else {
        let tb = str_byte_len(text);
        let t = chars_of(text);
        let offs = char_offsets(t.as_slice());
        let rs = ci_char_matches(text, query);
        let ghost rv = pairs_view(rs@);
        let mut out: Vec<std::ops::Range<usize>> = Vec::new();
        let mut k: usize = 0;
        while k < rs.len()
            invariant
                k <= rs@.len(),
                rv == pairs_view(rs@),
                rv == ci_char_ranges(text@, query@),
                t@ == text@,
                offs@.len() == t@.len() + 1,
                forall|m: int| 0 <= m <= t@.len() ==> #[trigger] offs@[m] == bo(t@, m),
                forall|m: int| 0 <= m < rs@.len() ==> (#[trigger] rs@[m]).0 <= rs@[m].1 <= text@.len(),
                ranges_view(out@) == char_ranges_to_bytes(t@, rv).take(k as int),
                forall|m: int| 0 <= m < out@.len() ==> is_boundary(text@, (#[trigger] out@[m]).start as int)
                    && out@[m].start <= out@[m].end,
            decreases rs@.len() - k,
        {
            let (i, j) = rs[k];
            assert(rv[k as int] == (i as int, j as int));
            proof {
                lemma_char_at_byte(t@, i as int);
                if i < j {
                    lemma_bo_strict(t@, i as int, j as int);
                }
            }
            let ghost before = ranges_view(out@);
            out.push(offs[i]..offs[j]);
            assert(ranges_view(out@) =~= before.push((bo(t@, i as int), bo(t@, j as int))));
            assert(ranges_view(out@) =~= char_ranges_to_bytes(t@, rv).take(k + 1));
            k = k + 1;
        }
        assert(char_ranges_to_bytes(t@, rv).take(k as int) =~= char_ranges_to_bytes(t@, rv));
        Ok(out)
    }
}

proof fn lemma_literal_starts_are_boundaries(t: Seq<char>, q: Seq<char>, i: int, k: int)
    requires
        0 <= k < lit_from(t, q, i).len(),
    ensures
        is_boundary(t, lit_from(t, q, i)[k].0),
    decreases t.len() + 1 - i,
{
    if i < 0 || i > t.len() {
    } else if q.len() == 0 {
        if k == 0 {
            assert(0 <= i <= t.len() && bo(t, i) == lit_from(t, q, i)[k].0);
        } else {
            lemma_literal_starts_are_boundaries(t, q, i + 1, k - 1);
        }
    } else if i + q.len() > t.len() {
    } else if occurs_at(t, i, q) {
        if k == 0 {
            assert(0 <= i <= t.len() && bo(t, i) == lit_from(t, q, i)[k].0);
        } else {
            lemma_literal_starts_are_boundaries(t, q, i + q.len(), k - 1);
        }
    } else {
        lemma_literal_starts_are_boundaries(t, q, i + 1, k);
    }
}

/// `text` with every match of `query` replaced by `replacement`; `Err` with
/// the regex's message when it does not compile. Ignoring case, the text's
/// characters under each case-insensitive match (see [`ci_char_ranges`])
/// are replaced, and the rest of the text is kept as it is.
pub open spec fn replace_all_spec(text: Seq<char>, query: Seq<char>, replacement: Seq<char>, case_sensitive: bool, use_regex: bool) -> Result<
    Seq<char>,
    Seq<char>,
> {
    if query.len() == 0 {
        Ok(text)
    } else if use_regex {
        let pattern = flags(case_sensitive) + query;
        match regex_error(pattern) {
            Some(e) => Err(e),
            None => Ok(regex_replace_all(pattern, text, replacement)),
        }
    } else if case_sensitive {
        Ok(lit_replace(text, query, replacement))
    } else {
        Ok(splice_chars(text, ci_char_ranges(text, query), replacement, 0, 0))
    }
}

/// `text` with every match of `query` replaced by `replacement`.
pub fn replace_all_in(text: &str, query: &str, replacement: &str, case_sensitive: bool, use_regex: bool) -> (res: Result<String, String>)
    ensures
        match res {
            Ok(s) => replace_all_spec(text@, query@, replacement@, case_sensitive, use_regex) == Ok::<Seq<char>, Seq<char>>(s@),
            Err(e) => replace_all_spec(text@, query@, replacement@, case_sensitive, use_regex) == Err::<Seq<char>, Seq<char>>(e@),
        },
{
    let qb = str_byte_len(query);
    proof {
        crate::text::lemma_byte_len_ge_len(query@);
        if query@.len() == 0 {
            assert(byte_len(query@) == 0);
        }
    }
    if qb == 0 {
        return Ok(chars_to_string(text));
    }
    if use_regex {
        match compile_query(query, case_sensitive) {
            Ok(re) => Ok(regex_replace(&re, text, replacement)),
            Err(e) => Err(e),
        }
    } else if case_sensitive {
        Ok(replace_literal(text, query, replacement))
    } else {
        let t = chars_of(text);
        let rs = ci_char_matches(text, query);
        Ok(splice_char_ranges(t.as_slice(), &rs, replacement))
    }
}

/// A search and a replacement fail alike, and only for a regex query that
/// does not compile; an empty query finds nothing and replaces nothing.
pub proof fn only_a_bad_regex_fails(
    text: Seq<char>,
    query: Seq<char>,
    replacement: Seq<char>,
    case_sensitive: bool,
    use_regex: bool,
)
    ensures
        find_matches_spec(text, query, case_sensitive, use_regex) is Err <==> (use_regex
            && query.len() > 0 && regex_error(flags(case_sensitive) + query) is Some),
        replace_all_spec(text, query, replacement, case_sensitive, use_regex) is Err
            <==> find_matches_spec(text, query, case_sensitive, use_regex) is Err,
        query.len() == 0 ==> find_matches_spec(text, query, case_sensitive, use_regex) == Ok::<
            Seq<(int, int)>,
            Seq<char>,
        >(Seq::empty()),
        query.len() == 0 ==> replace_all_spec(text, query, replacement, case_sensitive, use_regex)
            == Ok::<Seq<char>, Seq<char>>(text),
{
}

fn chars_to_string(text: &str) -> (res: String)
    ensures
        res@ == text@,
{
    let mut s = String::new();
    push_str(&mut s, text);
    assert(s@ =~= text@);
    s
}

} // verus!
