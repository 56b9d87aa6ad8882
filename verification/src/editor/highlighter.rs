//! The second highlighting pass that marks whatever the current search
//! query matches, on top of the syntax colours.
//!
//! The editor highlights one line at a time: [`QueryMatcher::line_matches`]
//! finds the query on a line, and [`overlay_matches`] cuts the line's syntax
//! spans at the match boundaries so each piece can be tagged with both its
//! syntax format and whether a match covers it.

use vstd::prelude::*;

use regex::Regex;

use crate::search::find::{
    compile_query, find_matches, find_matches_spec, flags, ranges_view, regex_error,
    regex_find_ranges, regex_source,
};
use crate::text::{byte_len, str_byte_len};

verus! {

// ─── The query, compiled once ───────────────────────────────────────────────

/// Whether `regex` is what compiling the query gives: a regex only in regex
/// mode, for a non-empty query that compiles, built from the query with its
/// case flag.
pub open spec fn compiled(query: Seq<char>, case_sensitive: bool, use_regex: bool, regex: Option<
    Regex,
>) -> bool {
    let pattern = flags(case_sensitive) + query;
    match regex {
        Some(re) => use_regex && query.len() > 0 && regex_error(pattern) is None && regex_source(re)
            == pattern,
        None => !(use_regex && query.len() > 0 && regex_error(pattern) is None),
    }
}

/// The regex for the query: `None` outside regex mode, for an empty query,
/// or when the pattern does not compile.
pub fn compile_regex(query: &str, case_sensitive: bool, use_regex: bool) -> (res: Option<Regex>)
    ensures
        compiled(query@, case_sensitive, use_regex, res),
{
    proof {
        crate::text::lemma_byte_len_ge_len(query@);
        if query@.len() == 0 {
            assert(byte_len(query@) == 0);
        }
    }
    if !use_regex || str_byte_len(query) == 0 {
        return None;
    }
    match compile_query(query, case_sensitive) {
        Ok(re) => Some(re),
        Err(_) => None,
    }
}

/// The search query the highlighter marks, with its regex compiled once
/// rather than on every line.
pub struct QueryMatcher {
    query: String,
    case_sensitive: bool,
    use_regex: bool,
    regex: Option<Regex>,
}

impl View for QueryMatcher {
    /// The query, whether it is case-sensitive, and whether it is a regex.
    type V = (Seq<char>, bool, bool);

    closed spec fn view(&self) -> (Seq<char>, bool, bool) {
        (self.query@, self.case_sensitive, self.use_regex)
    }
}

impl QueryMatcher {
    #[verifier::type_invariant]
    spec fn inv(&self) -> bool {
        compiled(self.query@, self.case_sensitive, self.use_regex, self.regex)
    }

    pub fn new(query: &str, case_sensitive: bool, use_regex: bool) -> (res: Self)
        ensures
            res@ == (query@, case_sensitive, use_regex),
    {
        let regex = compile_regex(query, case_sensitive, use_regex);
        QueryMatcher { query: query.to_string(), case_sensitive, use_regex, regex }
    }

    /// Takes a new query and options, compiling the regex anew.
    pub fn update(&mut self, query: &str, case_sensitive: bool, use_regex: bool)
        ensures
            final(self)@ == (query@, case_sensitive, use_regex),
    {
        *self = QueryMatcher::new(query, case_sensitive, use_regex);
    }

    /// The byte ranges of the query's matches on `line`: what the search
    /// finds there, and nothing where the search reports an error.
    pub fn line_matches(&self, line: &str) -> (res: Vec<std::ops::Range<usize>>)
        ensures
            ranges_view(res@) == match find_matches_spec(line@, self@.0, self@.1, self@.2) {
                Ok(m) => m,
                Err(_) => Seq::empty(),
            },
    {
        proof {
            use_type_invariant(self);
            crate::text::lemma_byte_len_ge_len(self.query@);
            if self.query@.len() == 0 {
                assert(byte_len(self.query@) == 0);
            }
        }
        if str_byte_len(self.query.as_str()) == 0 {
            let empty: Vec<std::ops::Range<usize>> = Vec::new();
            assert(ranges_view(empty@) =~= Seq::<(int, int)>::empty());
            return empty;
        }
        if self.use_regex {
            match &self.regex {
                Some(re) => regex_find_ranges(re, line),
                None => {
                    let empty: Vec<std::ops::Range<usize>> = Vec::new();
                    assert(ranges_view(empty@) =~= Seq::<(int, int)>::empty());
                    empty
                },
            }
        } else {
            match find_matches(line, self.query.as_str(), self.case_sensitive, false) {
                Ok(m) => m,
                Err(_) => Vec::new(),
            }
        }
    }
}

// ─── Cutting the syntax spans at the matches ────────────────────────────────

/// Whether `c` is strictly increasing.
pub open spec fn increasing(c: Seq<int>) -> bool {
    forall|i: int, j: int| 0 <= i < j < c.len() ==> c[i] < c[j]
}

/// Whether `x` starts or ends one of the first `n` base ranges.
pub open spec fn base_end<T>(base: Seq<(std::ops::Range<usize>, T)>, n: int, x: int) -> bool {
    exists|i: int| 0 <= i < n && ((#[trigger] base[i]).0.start == x || base[i].0.end == x)
}

/// Whether `x` starts or ends one of the first `n` matches.
pub open spec fn match_end(matches: Seq<std::ops::Range<usize>>, n: int, x: int) -> bool {
    exists|j: int| 0 <= j < n && ((#[trigger] matches[j]).start == x || matches[j].end == x)
}

/// Every start and end of the base ranges and of the matches.
pub open spec fn endpoints<T>(base: Seq<(std::ops::Range<usize>, T)>, matches: Seq<
    std::ops::Range<usize>,
>) -> Set<int> {
    Set::new(|x: int| base_end(base, base.len() as int, x) || match_end(matches, matches.len() as int, x))
}

/// The endpoints in increasing order, each once.
pub open spec fn cut_points<T>(base: Seq<(std::ops::Range<usize>, T)>, matches: Seq<
    std::ops::Range<usize>,
>) -> Seq<int> {
    choose|c: Seq<int>| increasing(c) && c.to_set() == endpoints(base, matches)
}

/// What the first base range (from `i` on) holding byte `a` carries.
pub open spec fn first_cover<T>(base: Seq<(std::ops::Range<usize>, T)>, a: int, i: int) -> Option<T>
    decreases base.len() - i,
{
    if 0 <= i < base.len() {
        if base[i].0.start <= a < base[i].0.end {
            Some(base[i].1)
        } else {
            first_cover(base, a, i + 1)
        }
    } else {
        None
    }
}

/// Whether a match holds byte `a`.
pub open spec fn covered(matches: Seq<std::ops::Range<usize>>, a: int) -> bool {
    exists|j: int| 0 <= j < matches.len() && (#[trigger] matches[j]).start <= a < matches[j].end
}

/// The pieces between consecutive cuts from cut `k` on: each that some base
/// range holds, with what the first such range carries and whether a match
/// holds it.
pub open spec fn pieces<T>(
    cuts: Seq<int>,
    base: Seq<(std::ops::Range<usize>, T)>,
    matches: Seq<std::ops::Range<usize>>,
    k: int,
) -> Seq<(int, int, T, bool)>
    decreases cuts.len() - k,
{
    if 0 <= k && k + 1 < cuts.len() {
        let a = cuts[k];
        let b = cuts[k + 1];
        let rest = pieces(cuts, base, matches, k + 1);
        if a < b {
            match first_cover(base, a, 0) {
                Some(t) => seq![(a, b, t, covered(matches, a))] + rest,
                None => rest,
            }
        } else {
            rest
        }
    } else {
        Seq::empty()
    }
}

/// The base ranges cut at every boundary of the matches: untouched (and
/// unmarked) without matches; else the pieces between consecutive
/// endpoints of the base ranges and the matches.
pub open spec fn overlay_spec<T>(base: Seq<(std::ops::Range<usize>, T)>, matches: Seq<
    std::ops::Range<usize>,
>) -> Seq<(int, int, T, bool)> {
    if matches.len() == 0 {
        untouched(base)
    } else {
        pieces(cut_points(base, matches), base, matches, 0)
    }
}

/// The base ranges as they are, none of them marked.
pub open spec fn untouched<T>(base: Seq<(std::ops::Range<usize>, T)>) -> Seq<(int, int, T, bool)> {
    base.map_values(|p: (std::ops::Range<usize>, T)| (p.0.start as int, p.0.end as int, p.1, false))
}

pub open spec fn tagged_view<T>(v: Seq<(std::ops::Range<usize>, T, bool)>) -> Seq<(int, int, T, bool)> {
    v.map_values(|p: (std::ops::Range<usize>, T, bool)| (p.0.start as int, p.0.end as int, p.1, p.2))
}

pub open spec fn cuts_view(v: Seq<usize>) -> Seq<int> {
    v.map_values(|x: usize| x as int)
}

/// Puts `x` among the increasing `cuts`, unless it is there already.
fn insert_cut(cuts: &mut Vec<usize>, x: usize)
    requires
        increasing(cuts_view(old(cuts)@)),
    ensures
        increasing(cuts_view(final(cuts)@)),
        cuts_view(final(cuts)@).to_set() == cuts_view(old(cuts)@).to_set().insert(x as int),
{
    let ghost c0 = cuts_view(cuts@);
    let mut p: usize = 0;
    while p < cuts.len() && cuts[p] < x
        invariant
            p <= cuts@.len(),
            c0 == cuts_view(cuts@),
            forall|j: int| 0 <= j < p ==> c0[j] < x,
        decreases cuts@.len() - p,
    {
        p = p + 1;
    }
    if p < cuts.len() && cuts[p] == x {
        assert(c0[p as int] == x);
        assert(c0.to_set().insert(x as int) =~= c0.to_set());
        return;
    }
    cuts.insert(p, x);
    let ghost c1 = cuts_view(cuts@);
    assert(c1 =~= c0.insert(p as int, x as int));
    assert forall|i: int, j: int| 0 <= i < j < c1.len() implies c1[i] < c1[j] by {
        if j < p {
        } else if j == p {
        } else if i < p {
            assert(c0[p as int] >= x);
            if j - 1 > p {
                assert(c0[p as int] < c0[j - 1]);
            }
        } else if i == p {
            assert(c0[j - 1] >= x && c0[j - 1] != x) by {
                if j - 1 > p {
                    assert(c0[p as int] < c0[j - 1]);
                }
            }
        } else {
        }
    }
    assert forall|y: int| c1.to_set().contains(y) == c0.to_set().insert(x as int).contains(y) by {
        if c1.contains(y) {
            let i = choose|i: int| 0 <= i < c1.len() && c1[i] == y;
            if i < p {
                assert(c0[i] == y);
            } else if i > p {
                assert(c0[i - 1] == y);
            }
        }
        if c0.contains(y) {
            let i = choose|i: int| 0 <= i < c0.len() && c0[i] == y;
            if i < p {
                assert(c1[i] == y);
            } else {
                assert(c1[i + 1] == y);
            }
        }
        if y == x {
            assert(c1[p as int] == y);
        }
    }
    assert(c1.to_set() =~= c0.to_set().insert(x as int));
}

proof fn lemma_drop_first_set(a: Seq<int>)
    requires
        increasing(a),
        a.len() > 0,
    ensures
        a.drop_first().to_set() == a.to_set().remove(a[0]),
{
    assert forall|x: int| a.drop_first().to_set().contains(x) == a.to_set().remove(a[0]).contains(
        x,
    ) by {
        if a.drop_first().contains(x) {
            let i = choose|i: int| 0 <= i < a.drop_first().len() && a.drop_first()[i] == x;
            assert(a[i + 1] == x);
            assert(a[0] < a[i + 1]);
        }
        if a.contains(x) && x != a[0] {
            let i = choose|i: int| 0 <= i < a.len() && a[i] == x;
            assert(i > 0);
            assert(a.drop_first()[i - 1] == x);
        }
    }
    assert(a.drop_first().to_set() =~= a.to_set().remove(a[0]));
}

/// Two increasing sequences with the same elements are the same.
proof fn lemma_increasing_unique(a: Seq<int>, b: Seq<int>)
    requires
        increasing(a),
        increasing(b),
        a.to_set() == b.to_set(),
    ensures
        a == b,
    decreases a.len(),
{
    if a.len() == 0 {
        if b.len() > 0 {
            assert(b.to_set().contains(b[0]));
        }
        assert(a =~= b);
    } else if b.len() == 0 {
        assert(a.to_set().contains(a[0]));
    } else {
        assert(a.to_set().contains(a[0]));
        assert(b.to_set().contains(b[0]));
        let j = choose|j: int| 0 <= j < b.len() && b[j] == a[0];
        let i = choose|i: int| 0 <= i < a.len() && a[i] == b[0];
        assert(a[0] == b[0]) by {
            if a[0] < b[0] {
                assert(j > 0 ==> b[0] < b[j]);
            } else if a[0] > b[0] {
                assert(i > 0 ==> a[0] < a[i]);
            }
        }
        lemma_drop_first_set(a);
        lemma_drop_first_set(b);
        lemma_increasing_unique(a.drop_first(), b.drop_first());
        assert(a =~= b) by {
            assert forall|k: int| 0 <= k < a.len() implies a[k] == b[k] by {
                if k > 0 {
                    assert(a[k] == a.drop_first()[k - 1]);
                    assert(b[k] == b.drop_first()[k - 1]);
                }
            }
        }
    }
}

/// Splits `base` (ranges tiling a line, each carrying a `T`) at every
/// boundary in `matches` (non-overlapping ranges into the same line),
/// producing the minimal set of sub-ranges needed to tag each one with both
/// its underlying `T` and whether a match covers it.
pub fn overlay_matches<T: Copy>(base: Vec<(std::ops::Range<usize>, T)>, matches: &[std::ops::Range<usize>]) -> (res: Vec<(std::ops::Range<usize>, T, bool)>)
    ensures
        tagged_view(res@) == overlay_spec(base@, matches@),
{
    let mut out: Vec<(std::ops::Range<usize>, T, bool)> = Vec::new();
    if matches.len() == 0 {
        let mut i: usize = 0;
        while i < base.len()
            invariant
                i <= base@.len(),
                matches@.len() == 0,
                tagged_view(out@) == untouched(base@).take(i as int),
            decreases base@.len() - i,
        {
            let ghost before = tagged_view(out@);
            let t = base[i].1;
            let r = base[i].0.start..base[i].0.end;
            assert(t == base@[i as int].1);
            assert(r.start == base@[i as int].0.start && r.end == base@[i as int].0.end);
            out.push((r, t, false));
            assert(tagged_view(out@) =~= before.push((r.start as int, r.end as int, t, false)));
            assert(untouched(base@).take(i + 1) =~= untouched(base@).take(i as int).push(untouched(base@)[i as int]));
            assert(tagged_view(out@) =~= untouched(base@).take(i + 1));
            i = i + 1;
        }
        assert(untouched(base@).take(i as int) =~= untouched(base@));
        return out;
    }
    // Every endpoint, in increasing order, each once.
    let mut cuts: Vec<usize> = Vec::new();
    assert(cuts_view(cuts@).to_set() =~= Set::<int>::empty());
    let mut i: usize = 0;
    while i < base.len()
        invariant
            i <= base@.len(),
            increasing(cuts_view(cuts@)),
            cuts_view(cuts@).to_set() == Set::new(|x: int| base_end(base@, i as int, x)),
        decreases base@.len() - i,
    {
        let ghost s0 = cuts_view(cuts@).to_set();
        insert_cut(&mut cuts, base[i].0.start);
        insert_cut(&mut cuts, base[i].0.end);
        assert forall|x: int| cuts_view(cuts@).to_set().contains(x) == base_end(base@, i + 1, x) by {
            if base_end(base@, i + 1, x) && !base_end(base@, i as int, x) {
                let w = choose|w: int| 0 <= w < i + 1 && (base@[w].0.start == x || base@[w].0.end == x);
                assert(w == i);
            }
            if base_end(base@, i as int, x) {
                let w = choose|w: int| 0 <= w < i && (base@[w].0.start == x || base@[w].0.end == x);
                assert(0 <= w < i + 1);
            }
            if x == base@[i as int].0.start || x == base@[i as int].0.end {
                assert(0 <= i < i + 1);
            }
        }
        assert(cuts_view(cuts@).to_set() =~= Set::new(|x: int| base_end(base@, i + 1, x)));
        i = i + 1;
    }
    let mut j: usize = 0;
    while j < matches.len()
        invariant
            j <= matches@.len(),
            increasing(cuts_view(cuts@)),
            cuts_view(cuts@).to_set() == Set::new(
                |x: int| base_end(base@, base@.len() as int, x) || match_end(matches@, j as int, x),
            ),
        decreases matches@.len() - j,
    {
        insert_cut(&mut cuts, matches[j].start);
        insert_cut(&mut cuts, matches[j].end);
        assert forall|x: int| cuts_view(cuts@).to_set().contains(x) == (base_end(
            base@,
            base@.len() as int,
            x,
        ) || match_end(matches@, j + 1, x)) by {
            if match_end(matches@, j + 1, x) && !match_end(matches@, j as int, x) {
                let w = choose|w: int| 0 <= w < j + 1 && (matches@[w].start == x || matches@[w].end == x);
                assert(w == j);
            }
            if match_end(matches@, j as int, x) {
                let w = choose|w: int| 0 <= w < j && (matches@[w].start == x || matches@[w].end == x);
                assert(0 <= w < j + 1);
            }
            if x == matches@[j as int].start || x == matches@[j as int].end {
                assert(0 <= j < j + 1);
            }
        }
        assert(cuts_view(cuts@).to_set() =~= Set::new(
            |x: int| base_end(base@, base@.len() as int, x) || match_end(matches@, j + 1, x),
        ));
        j = j + 1;
    }
    let ghost cv = cuts_view(cuts@);
    proof {
        assert(cv.to_set() =~= endpoints(base@, matches@));
        lemma_increasing_unique(cv, cut_points(base@, matches@));
    }
    // The pieces between consecutive cuts.
    let mut k: usize = 0;
    while cuts.len() > 0 && k < cuts.len() - 1
        invariant
            k <= cuts@.len(),
            cv == cuts_view(cuts@),
            cv == cut_points(base@, matches@),
            tagged_view(out@) + pieces(cv, base@, matches@, k as int) == pieces(cv, base@, matches@, 0),
        decreases cuts@.len() - k,
    {
        let a = cuts[k];
        let b = cuts[k + 1];
        let ghost before = tagged_view(out@);
        if a < b {
            let mut f: usize = 0;
            while f < base.len() && !(base[f].0.start <= a && a < base[f].0.end)
                invariant
                    f <= base@.len(),
                    first_cover(base@, a as int, f as int) == first_cover(base@, a as int, 0),
                decreases base@.len() - f,
            {
                f = f + 1;
            }
            if f < base.len() {
                let t = base[f].1;
                let mut m: usize = 0;
                let mut hit = false;
                while m < matches.len()
                    invariant
                        m <= matches@.len(),
                        hit == exists|w: int| 0 <= w < m && (#[trigger] matches@[w]).start <= a && a < matches@[w].end,
                    decreases matches@.len() - m,
                {
                    if matches[m].start <= a && a < matches[m].end {
                        hit = true;
                    }
                    m = m + 1;
                }
                out.push((a..b, t, hit));
                assert(tagged_view(out@) =~= before.push((a as int, b as int, t, hit)));
                assert(tagged_view(out@) + pieces(cv, base@, matches@, k + 1) =~= before + pieces(
                    cv,
                    base@,
                    matches@,
                    k as int,
                ));
            } else {
                assert(first_cover(base@, a as int, f as int) is None);
            }
        }
        k = k + 1;
    }
    proof {
        if cv.len() > 0 {
            assert(k + 1 >= cv.len());
        }
        assert(pieces(cv, base@, matches@, k as int) =~= Seq::<(int, int, T, bool)>::empty());
        assert(tagged_view(out@) =~= tagged_view(out@) + pieces(cv, base@, matches@, k as int));
    }
    out
}

// ─── Laws of the overlay ────────────────────────────────────────────────────

/// `x` put in its place among the increasing `c`, unless already there.
pub open spec fn sorted_insert(c: Seq<int>, x: int) -> Seq<int>
    decreases c.len(),
{
    if c.len() == 0 {
        seq![x]
    } else if x < c[0] {
        seq![x] + c
    } else if x == c[0] {
        c
    } else {
        seq![c[0]] + sorted_insert(c.drop_first(), x)
    }
}

/// The elements of `xs`, increasing, each once.
pub open spec fn sorted_set(xs: Seq<int>) -> Seq<int>
    decreases xs.len(),
{
    if xs.len() == 0 {
        Seq::empty()
    } else {
        sorted_insert(sorted_set(xs.drop_last()), xs.last())
    }
}

proof fn lemma_sorted_insert(c: Seq<int>, x: int)
    requires
        increasing(c),
    ensures
        increasing(sorted_insert(c, x)),
        sorted_insert(c, x).to_set() == c.to_set().insert(x),
        sorted_insert(c, x).len() > 0,
        sorted_insert(c, x)[0] == if c.len() == 0 || x < c[0] {
            x
        } else {
            c[0]
        },
    decreases c.len(),
{
    let r = sorted_insert(c, x);
    if c.len() == 0 {
        lemma_set_of_single(x);
    } else if x < c[0] {
        assert forall|i: int, j: int| 0 <= i < j < r.len() implies r[i] < r[j] by {
            if i > 0 {
                assert(r[i] == c[i - 1] && r[j] == c[j - 1]);
            } else if j > 1 {
                assert(c[0] < c[j - 1]);
            }
        }
        assert forall|y: int| r.to_set().contains(y) == c.to_set().insert(x).contains(y) by {
            if r.contains(y) {
                let i = choose|i: int| 0 <= i < r.len() && r[i] == y;
                if i > 0 {
                    assert(c[i - 1] == y);
                }
            }
            if c.contains(y) {
                let i = choose|i: int| 0 <= i < c.len() && c[i] == y;
                assert(r[i + 1] == y);
            }
            if y == x {
                assert(r[0] == y);
            }
        }
        assert(r.to_set() =~= c.to_set().insert(x));
    } else if x == c[0] {
        assert(c.to_set().contains(x));
        assert(c.to_set().insert(x) =~= c.to_set());
    } else {
        let d = c.drop_first();
        assert(increasing(d)) by {
            assert forall|i: int, j: int| 0 <= i < j < d.len() implies d[i] < d[j] by {
                assert(d[i] == c[i + 1] && d[j] == c[j + 1]);
            }
        }
        lemma_sorted_insert(d, x);
        let t = sorted_insert(d, x);
        assert(r == seq![c[0]] + t);
        assert forall|i: int, j: int| 0 <= i < j < r.len() implies r[i] < r[j] by {
            if i > 0 {
                assert(r[i] == t[i - 1] && r[j] == t[j - 1]);
            } else {
                assert(r[j] == t[j - 1]);
                assert(t.to_set().contains(t[j - 1]));
                assert(d.to_set().insert(x).contains(t[j - 1]));
                if d.contains(t[j - 1]) {
                    let m = choose|m: int| 0 <= m < d.len() && d[m] == t[j - 1];
                    assert(c[0] < c[m + 1]);
                }
            }
        }
        assert forall|y: int| r.to_set().contains(y) == c.to_set().insert(x).contains(y) by {
            if r.contains(y) {
                let i = choose|i: int| 0 <= i < r.len() && r[i] == y;
                if i > 0 {
                    assert(t[i - 1] == y);
                    assert(t.to_set().contains(y));
                    if d.contains(y) {
                        let m = choose|m: int| 0 <= m < d.len() && d[m] == y;
                        assert(c[m + 1] == y);
                    }
                } else {
                    assert(c[0] == y);
                }
            }
            if c.contains(y) {
                let m = choose|m: int| 0 <= m < c.len() && c[m] == y;
                if m == 0 {
                    assert(r[0] == y);
                } else {
                    assert(d[m - 1] == y);
                    assert(t.to_set().contains(y));
                    let i = choose|i: int| 0 <= i < t.len() && t[i] == y;
                    assert(r[i + 1] == y);
                }
            }
            if y == x {
                assert(t.to_set().contains(y));
                let i = choose|i: int| 0 <= i < t.len() && t[i] == y;
                assert(r[i + 1] == y);
            }
        }
        assert(r.to_set() =~= c.to_set().insert(x));
    }
}

proof fn lemma_set_of_single(x: int)
    ensures
        seq![x].to_set() == Set::<int>::empty().insert(x),
{
    assert forall|y: int| seq![x].to_set().contains(y) == Set::<int>::empty().insert(x).contains(y) by {
        if y == x {
            assert(seq![x][0] == y);
        }
    }
    assert(seq![x].to_set() =~= Set::<int>::empty().insert(x));
}

proof fn lemma_sorted_set(xs: Seq<int>)
    ensures
        increasing(sorted_set(xs)),
        sorted_set(xs).to_set() == xs.to_set(),
    decreases xs.len(),
{
    if xs.len() == 0 {
        assert(sorted_set(xs).to_set() =~= xs.to_set());
    } else {
        lemma_sorted_set(xs.drop_last());
        lemma_sorted_insert(sorted_set(xs.drop_last()), xs.last());
        assert(xs =~= xs.drop_last().push(xs.last()));
        xs.drop_last().lemma_push_to_set_commute(xs.last());
    }
}

/// The endpoints of the base ranges and the matches, as a list.
pub open spec fn end_list<T>(base: Seq<(std::ops::Range<usize>, T)>, matches: Seq<
    std::ops::Range<usize>,
>) -> Seq<int> {
    base.map_values(|p: (std::ops::Range<usize>, T)| p.0.start as int) + base.map_values(
        |p: (std::ops::Range<usize>, T)| p.0.end as int,
    ) + matches.map_values(|r: std::ops::Range<usize>| r.start as int) + matches.map_values(
        |r: std::ops::Range<usize>| r.end as int,
    )
}

/// The endpoints can always be put in increasing order, so the cuts are
/// well defined.
proof fn lemma_cut_points<T>(base: Seq<(std::ops::Range<usize>, T)>, matches: Seq<
    std::ops::Range<usize>,
>)
    ensures
        increasing(cut_points(base, matches)),
        cut_points(base, matches).to_set() == endpoints(base, matches),
{
    let xs = end_list(base, matches);
    let nb = base.len() as int;
    let nm = matches.len() as int;
    assert forall|x: int| xs.to_set().contains(x) == endpoints(base, matches).contains(x) by {
        if xs.contains(x) {
            let k = choose|k: int| 0 <= k < xs.len() && xs[k] == x;
            if k < nb {
                assert(base[k].0.start == x);
                assert(base_end(base, nb, x));
            } else if k < 2 * nb {
                assert(base[k - nb].0.end == x);
                assert(base_end(base, nb, x));
            } else if k < 2 * nb + nm {
                assert(matches[k - 2 * nb].start == x);
                assert(match_end(matches, nm, x));
            } else {
                assert(matches[k - 2 * nb - nm].end == x);
                assert(match_end(matches, nm, x));
            }
        }
        if base_end(base, nb, x) {
            let i = choose|i: int| 0 <= i < nb && ((#[trigger] base[i]).0.start == x || base[i].0.end == x);
            if base[i].0.start == x {
                assert(xs[i] == x);
            } else {
                assert(xs[nb + i] == x);
            }
        }
        if match_end(matches, nm, x) {
            let j = choose|j: int| 0 <= j < nm && ((#[trigger] matches[j]).start == x || matches[j].end == x);
            if matches[j].start == x {
                assert(xs[2 * nb + j] == x);
            } else {
                assert(xs[2 * nb + nm + j] == x);
            }
        }
    }
    assert(xs.to_set() =~= endpoints(base, matches));
    lemma_sorted_set(xs);
    assert(increasing(sorted_set(xs)) && sorted_set(xs).to_set() == endpoints(base, matches));
}

/// No endpoint lies strictly between two consecutive cuts.
proof fn lemma_no_cut_between(c: Seq<int>, k: int, y: int)
    requires
        increasing(c),
        0 <= k,
        k + 1 < c.len(),
        c.to_set().contains(y),
        c[k] < y,
    ensures
        c[k + 1] <= y,
{
    let m = choose|m: int| 0 <= m < c.len() && c[m] == y;
    if m < k {
        assert(c[m] < c[k]);
    } else if m > k + 1 {
        assert(c[k + 1] < c[m]);
    }
}

/// Where the piece at `idx` of `pieces(c, .., k0)` comes from: the cut
/// index `m` it starts at.
proof fn lemma_piece_source<T>(
    c: Seq<int>,
    base: Seq<(std::ops::Range<usize>, T)>,
    matches: Seq<std::ops::Range<usize>>,
    k0: int,
    idx: int,
) -> (m: int)
    requires
        0 <= k0,
        0 <= idx < pieces(c, base, matches, k0).len(),
    ensures
        k0 <= m,
        m + 1 < c.len(),
        c[m] < c[m + 1],
        first_cover(base, c[m], 0) == Some(pieces(c, base, matches, k0)[idx].2),
        pieces(c, base, matches, k0)[idx] == (
            c[m],
            c[m + 1],
            pieces(c, base, matches, k0)[idx].2,
            covered(matches, c[m]),
        ),
    decreases c.len() - k0,
{
    let rest = pieces(c, base, matches, k0 + 1);
    if c[k0] < c[k0 + 1] && first_cover(base, c[k0], 0) is Some {
        if idx == 0 {
            k0
        } else {
            let m = lemma_piece_source(c, base, matches, k0 + 1, idx - 1);
            assert(pieces(c, base, matches, k0)[idx] == rest[idx - 1]);
            m
        }
    } else {
        lemma_piece_source(c, base, matches, k0 + 1, idx)
    }
}

/// The pieces from cut `k0` on start no earlier than it, and come in order
/// without overlapping.
proof fn lemma_pieces_sorted<T>(
    c: Seq<int>,
    base: Seq<(std::ops::Range<usize>, T)>,
    matches: Seq<std::ops::Range<usize>>,
    k0: int,
)
    requires
        0 <= k0,
        increasing(c),
    ensures
        forall|i: int|
            0 <= i < pieces(c, base, matches, k0).len() ==> c[k0] <= (#[trigger] pieces(
                c,
                base,
                matches,
                k0,
            )[i]).0,
        forall|i: int, j: int|
            0 <= i < j < pieces(c, base, matches, k0).len() ==> (#[trigger] pieces(
                c,
                base,
                matches,
                k0,
            )[i]).1 <= (#[trigger] pieces(c, base, matches, k0)[j]).0,
    decreases c.len() - k0,
{
    let p = pieces(c, base, matches, k0);
    if k0 + 1 < c.len() {
        lemma_pieces_sorted(c, base, matches, k0 + 1);
        let rest = pieces(c, base, matches, k0 + 1);
        assert forall|i: int| 0 <= i < p.len() implies c[k0] <= (#[trigger] p[i]).0 by {
            let m = lemma_piece_source(c, base, matches, k0, i);
            if m > k0 {
                assert(c[k0] < c[m]);
            }
        }
        assert forall|i: int, j: int| 0 <= i < j < p.len() implies (#[trigger] p[i]).1 <= (
        #[trigger] p[j]).0 by {
            if c[k0] < c[k0 + 1] && first_cover(base, c[k0], 0) is Some {
                assert(p[j] == rest[j - 1]);
                if i == 0 {
                    assert(p[0].1 == c[k0 + 1]);
                    assert(c[k0 + 1] <= rest[j - 1].0);
                } else {
                    assert(p[i] == rest[i - 1]);
                }
            } else {
                assert(p == rest);
            }
        }
    }
}

/// Base ranges that hold a cut hold everything up to the next cut.
proof fn lemma_first_cover_same<T>(
    base: Seq<(std::ops::Range<usize>, T)>,
    matches: Seq<std::ops::Range<usize>>,
    c: Seq<int>,
    k: int,
    x: int,
    i: int,
)
    requires
        increasing(c),
        c.to_set() == endpoints(base, matches),
        0 <= k,
        k + 1 < c.len(),
        c[k] <= x < c[k + 1],
        0 <= i,
    ensures
        first_cover(base, x, i) == first_cover(base, c[k], i),
    decreases base.len() - i,
{
    if i < base.len() {
        let r = base[i].0;
        assert(base_end(base, base.len() as int, r.start as int));
        assert(base_end(base, base.len() as int, r.end as int));
        assert(c.to_set().contains(r.start as int));
        assert(c.to_set().contains(r.end as int));
        if r.end > c[k] {
            lemma_no_cut_between(c, k, r.end as int);
        }
        if r.start > c[k] {
            lemma_no_cut_between(c, k, r.start as int);
        }
        lemma_first_cover_same(base, matches, c, k, x, i + 1);
    }
}

proof fn lemma_covered_same<T>(
    base: Seq<(std::ops::Range<usize>, T)>,
    matches: Seq<std::ops::Range<usize>>,
    c: Seq<int>,
    k: int,
    x: int,
)
    requires
        increasing(c),
        c.to_set() == endpoints(base, matches),
        0 <= k,
        k + 1 < c.len(),
        c[k] <= x < c[k + 1],
    ensures
        covered(matches, x) == covered(matches, c[k]),
{
    assert forall|j: int| 0 <= j < matches.len() implies ((#[trigger] matches[j]).start <= x
        < matches[j].end) == (matches[j].start <= c[k] < matches[j].end) by {
        let r = matches[j];
        assert(match_end(matches, matches.len() as int, r.start as int));
        assert(match_end(matches, matches.len() as int, r.end as int));
        assert(c.to_set().contains(r.start as int));
        assert(c.to_set().contains(r.end as int));
        if r.end > c[k] {
            lemma_no_cut_between(c, k, r.end as int);
        }
        if r.start > c[k] {
            lemma_no_cut_between(c, k, r.start as int);
        }
    }
    if covered(matches, x) {
        let j = choose|j: int| 0 <= j < matches.len() && (#[trigger] matches[j]).start <= x < matches[j].end;
        assert(matches[j].start <= c[k] < matches[j].end);
    }
    if covered(matches, c[k]) {
        let j = choose|j: int| 0 <= j < matches.len() && (#[trigger] matches[j]).start <= c[k] < matches[j].end;
        assert(matches[j].start <= x < matches[j].end);
    }
}

/// Every piece is uniform: each of its bytes lies in the same base ranges
/// (so carries the same `T`) and is held by a match exactly when the piece
/// is marked.
pub proof fn overlay_pieces_are_uniform<T>(
    base: Seq<(std::ops::Range<usize>, T)>,
    matches: Seq<std::ops::Range<usize>>,
    k: int,
    x: int,
)
    requires
        matches.len() > 0,
        0 <= k < overlay_spec(base, matches).len(),
        overlay_spec(base, matches)[k].0 <= x < overlay_spec(base, matches)[k].1,
    ensures
        first_cover(base, x, 0) == Some(overlay_spec(base, matches)[k].2),
        covered(matches, x) == overlay_spec(base, matches)[k].3,
{
    let c = cut_points(base, matches);
    lemma_cut_points(base, matches);
    let m = lemma_piece_source(c, base, matches, 0, k);
    lemma_first_cover_same(base, matches, c, m, x, 0);
    lemma_covered_same(base, matches, c, m, x);
}

/// The pieces come in order, without overlapping.
pub proof fn overlay_pieces_are_ordered<T>(
    base: Seq<(std::ops::Range<usize>, T)>,
    matches: Seq<std::ops::Range<usize>>,
    i: int,
    j: int,
)
    requires
        matches.len() > 0,
        0 <= i < j < overlay_spec(base, matches).len(),
    ensures
        overlay_spec(base, matches)[i].0 < overlay_spec(base, matches)[i].1 <= overlay_spec(
            base,
            matches,
        )[j].0,
{
    let c = cut_points(base, matches);
    lemma_cut_points(base, matches);
    lemma_pieces_sorted(c, base, matches, 0);
    let m = lemma_piece_source(c, base, matches, 0, i);
    assert(pieces(c, base, matches, 0)[i].1 <= pieces(c, base, matches, 0)[j].0);
}

/// The piece at cut `m` is among the pieces from cut `k0` on.
proof fn lemma_piece_present<T>(
    c: Seq<int>,
    base: Seq<(std::ops::Range<usize>, T)>,
    matches: Seq<std::ops::Range<usize>>,
    k0: int,
    m: int,
)
    requires
        0 <= k0 <= m,
        m + 1 < c.len(),
        c[m] < c[m + 1],
        first_cover(base, c[m], 0) is Some,
    ensures
        exists|i: int|
            0 <= i < pieces(c, base, matches, k0).len() && (#[trigger] pieces(
                c,
                base,
                matches,
                k0,
            )[i]).0 == c[m] && pieces(c, base, matches, k0)[i].1 == c[m + 1],
    decreases m - k0,
{
    let p = pieces(c, base, matches, k0);
    if k0 == m {
        assert(p[0].0 == c[m] && p[0].1 == c[m + 1]);
    } else {
        lemma_piece_present(c, base, matches, k0 + 1, m);
        let rest = pieces(c, base, matches, k0 + 1);
        let i = choose|i: int| 0 <= i < rest.len() && (#[trigger] rest[i]).0 == c[m] && rest[i].1 == c[m + 1];
        if c[k0] < c[k0 + 1] && first_cover(base, c[k0], 0) is Some {
            assert(p[i + 1] == rest[i]);
        } else {
            assert(p == rest);
        }
    }
}

/// Every byte that a base range holds lies in a piece.
pub proof fn overlay_covers_base<T>(
    base: Seq<(std::ops::Range<usize>, T)>,
    matches: Seq<std::ops::Range<usize>>,
    x: int,
)
    requires
        matches.len() > 0,
        first_cover(base, x, 0) is Some,
    ensures
        exists|k: int|
            0 <= k < overlay_spec(base, matches).len() && (#[trigger] overlay_spec(
                base,
                matches,
            )[k]).0 <= x < overlay_spec(base, matches)[k].1,
{
    let c = cut_points(base, matches);
    lemma_cut_points(base, matches);
    // The base range that holds `x`.
    let i = lemma_first_cover_index(base, x, 0);
    let r = base[i].0;
    assert(base_end(base, base.len() as int, r.start as int));
    assert(base_end(base, base.len() as int, r.end as int));
    assert(c.to_set().contains(r.start as int));
    assert(c.to_set().contains(r.end as int));
    let s = choose|s: int| 0 <= s < c.len() && c[s] == r.start as int;
    let e = choose|e: int| 0 <= e < c.len() && c[e] == r.end as int;
    assert(s < e) by {
        if s >= e {
            if s > e {
                assert(c[e] < c[s]);
            }
        }
    }
    // The last cut at or before `x`.
    let m = lemma_last_cut_before(c, x, s, e);
    lemma_first_cover_same(base, matches, c, m, x, 0);
    lemma_piece_present(c, base, matches, 0, m);
    let p = pieces(c, base, matches, 0);
    assert(overlay_spec(base, matches) == p);
    let k = choose|k: int| 0 <= k < p.len() && (#[trigger] p[k]).0 == c[m] && p[k].1 == c[m + 1];
    assert(p[k].0 <= x < p[k].1);
}

/// The index of the first base range from `i` on that holds `a`.
proof fn lemma_first_cover_index<T>(base: Seq<(std::ops::Range<usize>, T)>, a: int, i: int) -> (k: int)
    requires
        0 <= i,
        first_cover(base, a, i) is Some,
    ensures
        i <= k < base.len(),
        base[k].0.start <= a < base[k].0.end,
    decreases base.len() - i,
{
    if base[i].0.start <= a < base[i].0.end {
        i
    } else {
        lemma_first_cover_index(base, a, i + 1)
    }
}

/// Between cuts `s` and `e` that surround `x`, the last cut at or before it.
proof fn lemma_last_cut_before(c: Seq<int>, x: int, s: int, e: int) -> (m: int)
    requires
        increasing(c),
        0 <= s < e < c.len(),
        c[s] <= x < c[e],
    ensures
        s <= m,
        m + 1 <= e,
        c[m] <= x < c[m + 1],
    decreases e - s,
{
    if c[s + 1] > x {
        s
    } else {
        lemma_last_cut_before(c, x, s + 1, e)
    }
}

} // verus!
