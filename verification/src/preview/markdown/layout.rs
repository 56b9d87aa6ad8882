//! What the renderer decides before it builds widgets: how the words of a
//! run of spans group for wrapping, how wide a table is, and which heading a
//! link points at.

use vstd::prelude::*;

use super::{cells_view, opt_view, spans_view, Align, Span, SpanV, Style};
use crate::text::{
    chars_of, is_whitespace, is_ws, push_char, push_str, str_lower, str_to_lowercase, string_of,
    strip_leading,
};

verus! {

/// One word of a span, with the span's style and link target.
#[derive(Debug, Clone, PartialEq, Eq)]
pub struct Word {
    pub text: String,
    pub style: Style,
    pub href: Option<String>,
}

pub struct WordV {
    pub text: Seq<char>,
    pub style: Style,
    pub href: Option<Seq<char>>,
}

impl View for Word {
    type V = WordV;

    open spec fn view(&self) -> WordV {
        WordV { text: self.text@, style: self.style, href: opt_view(self.href) }
    }
}

pub open spec fn words_view(v: Seq<Word>) -> Seq<WordV> {
    v.map_values(|w: Word| w@)
}

pub open spec fn clusters_view(v: Seq<Vec<Word>>) -> Seq<Seq<WordV>> {
    v.map_values(|c: Vec<Word>| words_view(c@))
}

// ─── Words ──────────────────────────────────────────────────────────────────

/// The words of `s` from character `i` on, given the word `cur` under way
/// and the words `done` before it: the maximal runs of characters that are
/// not whitespace (what `str::split_whitespace` yields).
pub open spec fn words_from(s: Seq<char>, i: int, cur: Seq<char>, done: Seq<Seq<char>>) -> Seq<
    Seq<char>,
>
    decreases s.len() - i,
{
    if i < 0 || i >= s.len() {
        if cur.len() > 0 {
            done.push(cur)
        } else {
            done
        }
    } else if is_ws(s[i]) {
        words_from(
            s,
            i + 1,
            Seq::empty(),
            if cur.len() > 0 {
                done.push(cur)
            } else {
                done
            },
        )
    } else {
        words_from(s, i + 1, cur.push(s[i]), done)
    }
}

pub open spec fn words(s: Seq<char>) -> Seq<Seq<char>> {
    words_from(s, 0, Seq::empty(), Seq::empty())
}

pub open spec fn strs_view(v: Seq<String>) -> Seq<Seq<char>> {
    v.map_values(|s: String| s@)
}

/// The words of `text`.
pub fn split_words(text: &str) -> (res: Vec<String>)
    ensures
        strs_view(res@) == words(text@),
{
    let t = chars_of(text);
    let mut out: Vec<String> = Vec::new();
    let mut cur: Vec<char> = Vec::new();
    let mut i: usize = 0;
    assert(strs_view(out@) =~= Seq::<Seq<char>>::empty());
    while i < t.len()
        invariant
            i <= t@.len(),
            t@ == text@,
            words_from(t@, i as int, cur@, strs_view(out@)) == words(text@),
        decreases t@.len() - i,
    {
        if is_whitespace(t[i]) {
            if cur.len() > 0 {
                let w = string_of(cur.as_slice());
                let ghost before = strs_view(out@);
                out.push(w);
                assert(strs_view(out@) =~= before.push(cur@));
            }
            cur = Vec::new();
            assert(cur@ =~= Seq::<char>::empty());
        } else {
            cur.push(t[i]);
        }
        i = i + 1;
    }
    if cur.len() > 0 {
        let w = string_of(cur.as_slice());
        let ghost before = strs_view(out@);
        out.push(w);
        assert(strs_view(out@) =~= before.push(cur@));
    }
    out
}

// ─── Clusters ───────────────────────────────────────────────────────────────

/// `done` with the cluster `cur` closed, if it holds anything.
pub open spec fn close(done: Seq<Seq<WordV>>, cur: Seq<WordV>) -> Seq<Seq<WordV>> {
    if cur.len() > 0 {
        done.push(cur)
    } else {
        done
    }
}

pub open spec fn starts_ws(s: Seq<char>) -> bool {
    s.len() > 0 && is_ws(s[0])
}

pub open spec fn ends_ws(s: Seq<char>) -> bool {
    s.len() > 0 && is_ws(s.last())
}

/// Takes words `i..` of a span: the first joins the cluster under way, each
/// later one starts a new cluster.
pub open spec fn take_words(
    done: Seq<Seq<WordV>>,
    cur: Seq<WordV>,
    ws: Seq<Seq<char>>,
    span: SpanV,
    i: int,
) -> (Seq<Seq<WordV>>, Seq<WordV>)
    decreases ws.len() - i,
{
    if i < 0 || i >= ws.len() {
        (done, cur)
    } else {
        let w = WordV { text: ws[i], style: span.style, href: span.href };
        if i == 0 {
            take_words(done, cur.push(w), ws, span, i + 1)
        } else {
            take_words(close(done, cur), seq![w], ws, span, i + 1)
        }
    }
}

/// Takes one span: whitespace at its start or end separates its words
/// from the neighbouring spans' words.
pub open spec fn take_span(done: Seq<Seq<WordV>>, cur: Seq<WordV>, span: SpanV) -> (
    Seq<Seq<WordV>>,
    Seq<WordV>,
) {
    let d1 = if starts_ws(span.text) {
        close(done, cur)
    } else {
        done
    };
    let c1 = if starts_ws(span.text) {
        Seq::empty()
    } else {
        cur
    };
    let taken = take_words(d1, c1, words(span.text), span, 0);
    if ends_ws(span.text) {
        (close(taken.0, taken.1), Seq::empty())
    } else {
        taken
    }
}

/// Takes spans `k..`.
pub open spec fn take_spans(done: Seq<Seq<WordV>>, cur: Seq<WordV>, spans: Seq<SpanV>, k: int) -> (
    Seq<Seq<WordV>>,
    Seq<WordV>,
)
    decreases spans.len() - k,
{
    if k < 0 || k >= spans.len() {
        (done, cur)
    } else {
        let next = take_span(done, cur, spans[k]);
        take_spans(next.0, next.1, spans, k + 1)
    }
}

/// The words of `spans` in clusters that wrap as one: words the source
/// separates by whitespace fall in different clusters, fragments it does
/// not (`**bold**,`) stay together.
pub open spec fn word_clusters_spec(spans: Seq<SpanV>) -> Seq<Seq<WordV>> {
    let last = take_spans(Seq::empty(), Seq::empty(), spans, 0);
    close(last.0, last.1)
}

fn close_cluster(done: &mut Vec<Vec<Word>>, cur: &mut Vec<Word>)
    ensures
        clusters_view(final(done)@) == close(clusters_view(old(done)@), words_view(old(cur)@)),
        final(cur)@.len() == 0,
{
    if cur.len() > 0 {
        let mut c: Vec<Word> = Vec::new();
        std::mem::swap(&mut c, cur);
        let ghost before = clusters_view(done@);
        done.push(c);
        assert(clusters_view(done@) =~= before.push(words_view(c@)));
    }
}

fn clone_opt(o: &Option<String>) -> (res: Option<String>)
    ensures
        opt_view(res) == opt_view(*o),
{
    match o {
        Some(s) => Some(s.clone()),
        None => None,
    }
}

/// Takes one span into the clusters (see [`take_span`]).
fn push_span(done: &mut Vec<Vec<Word>>, cur: &mut Vec<Word>, span: &Span)
    ensures
        (clusters_view(final(done)@), words_view(final(cur)@)) == take_span(
            clusters_view(old(done)@),
            words_view(old(cur)@),
            span@,
        ),
{
    let ghost s = span@;
    let t = chars_of(span.text.as_str());
    let ends = t.len() > 0 && is_whitespace(t[t.len() - 1]);
    if t.len() > 0 && is_whitespace(t[0]) {
        close_cluster(done, cur);
        assert(words_view(cur@) =~= Seq::<WordV>::empty());
    }
    let ghost d1 = clusters_view(done@);
    let ghost c1 = words_view(cur@);
    let ws = split_words(span.text.as_str());
    let ghost wsv = strs_view(ws@);
    let mut i: usize = 0;
    while i < ws.len()
        invariant
            i <= ws@.len(),
            wsv == strs_view(ws@),
            s == span@,
            take_words(clusters_view(done@), words_view(cur@), wsv, s, i as int) == take_words(
                d1,
                c1,
                wsv,
                s,
                0,
            ),
        decreases ws@.len() - i,
    {
        let w = Word { text: ws[i].clone(), style: span.style, href: clone_opt(&span.href) };
        assert(w@ == (WordV { text: wsv[i as int], style: s.style, href: s.href }));
        if i == 0 {
            let ghost before = words_view(cur@);
            cur.push(w);
            assert(words_view(cur@) =~= before.push(w@));
        } else {
            close_cluster(done, cur);
            cur.push(w);
            assert(words_view(cur@) =~= seq![w@]);
        }
        i = i + 1;
    }
    if ends {
        close_cluster(done, cur);
        assert(words_view(cur@) =~= Seq::<WordV>::empty());
    }
}

/// Groups the words of `spans` for wrapping (see [`word_clusters_spec`]).
pub fn word_clusters(spans: &[Span]) -> (res: Vec<Vec<Word>>)
    ensures
        clusters_view(res@) == word_clusters_spec(spans_view(spans@)),
{
    let ghost sv = spans_view(spans@);
    let mut done: Vec<Vec<Word>> = Vec::new();
    let mut cur: Vec<Word> = Vec::new();
    assert(clusters_view(done@) =~= Seq::<Seq<WordV>>::empty());
    assert(words_view(cur@) =~= Seq::<WordV>::empty());
    let mut k: usize = 0;
    while k < spans.len()
        invariant
            k <= spans@.len(),
            sv == spans_view(spans@),
            take_spans(clusters_view(done@), words_view(cur@), sv, k as int) == take_spans(
                Seq::empty(),
                Seq::empty(),
                sv,
                0,
            ),
        decreases spans@.len() - k,
    {
        assert(sv[k as int] == spans@[k as int]@);
        push_span(&mut done, &mut cur, &spans[k]);
        k = k + 1;
    }
    close_cluster(&mut done, &mut cur);
    done
}

// ─── Tables and links ───────────────────────────────────────────────────────

/// The number of columns of a table: that of its header row. Body rows
/// are padded or cut to it when drawn (see [`fit_row`]).
pub fn table_columns(header: &[Vec<Span>]) -> (res: usize)
    ensures
        res == header@.len(),
{
    header.len()
}

/// A row laid out over `width` columns: its cells, cut at `width`, then
/// empty cells.
pub open spec fn fit_row_spec(row: Seq<Seq<SpanV>>, width: nat) -> Seq<Seq<SpanV>> {
    Seq::new(width, |c: int| if c < row.len() {
        row[c]
    } else {
        Seq::empty()
    })
}

fn copy_span(s: &Span) -> (res: Span)
    ensures
        res@ == s@,
{
    Span { text: s.text.clone(), style: s.style, href: clone_opt(&s.href) }
}

fn copy_spans(v: &[Span]) -> (res: Vec<Span>)
    ensures
        spans_view(res@) == spans_view(v@),
{
    let mut out: Vec<Span> = Vec::new();
    let mut i: usize = 0;
    while i < v.len()
        invariant
            i <= v@.len(),
            spans_view(out@) == spans_view(v@).take(i as int),
        decreases v@.len() - i,
    {
        let ghost before = spans_view(out@);
        let sp = copy_span(&v[i]);
        out.push(sp);
        assert(spans_view(out@) =~= before.push(sp@));
        assert(spans_view(out@) =~= spans_view(v@).take(i + 1));
        i = i + 1;
    }
    assert(spans_view(v@).take(i as int) =~= spans_view(v@));
    out
}

/// The cells of `row` laid out over `width` columns: a ragged row is padded
/// with empty cells or cut to fit.
pub fn fit_row(row: &[Vec<Span>], width: usize) -> (res: Vec<Vec<Span>>)
    ensures
        cells_view(res@) == fit_row_spec(cells_view(row@), width as nat),
{
    let ghost rv = cells_view(row@);
    let mut out: Vec<Vec<Span>> = Vec::new();
    let mut c: usize = 0;
    while c < width
        invariant
            c <= width,
            rv == cells_view(row@),
            cells_view(out@) == fit_row_spec(rv, width as nat).take(c as int),
        decreases width - c,
    {
        let cell = if c < row.len() {
            copy_spans(row[c].as_slice())
        } else {
            Vec::new()
        };
        assert(c < row@.len() ==> rv[c as int] == spans_view(row@[c as int]@));
        assert(spans_view(cell@) == fit_row_spec(rv, width as nat)[c as int]) by {
            if c >= row@.len() {
                assert(spans_view(cell@) =~= Seq::<SpanV>::empty());
            }
        }
        let ghost before = cells_view(out@);
        let ghost cv = spans_view(cell@);
        out.push(cell);
        assert(cells_view(out@) =~= before.push(cv));
        assert(cells_view(out@) =~= fit_row_spec(rv, width as nat).take(c + 1));
        c = c + 1;
    }
    assert(fit_row_spec(rv, width as nat).take(c as int) =~= fit_row_spec(rv, width as nat));
    out
}

/// The alignment of column `col`: as declared, or left where the separator
/// row declared none.
pub fn column_align(alignments: &[Align], col: usize) -> (res: Align)
    ensures
        res == if col < alignments@.len() {
            alignments@[col as int]
        } else {
            Align::Left
        },
{
    if col < alignments.len() {
        alignments[col]
    } else {
        Align::Left
    }
}

/// The slug an in-document link (`#some-slug`) points at: the link without
/// its leading `#`s, lowercased.
pub fn link_slug(href: &str) -> (res: String)
    ensures
        res@ == str_lower(strip_leading(href@, '#')),
{
    let t = chars_of(href);
    let mut i: usize = 0;
    assert(t@.skip(0) =~= t@);
    while i < t.len() && t[i] == '#'
        invariant
            i <= t@.len(),
            t@ == href@,
            strip_leading(t@.skip(i as int), '#') == strip_leading(href@, '#'),
        decreases t@.len() - i,
    {
        assert(t@.skip(i as int).drop_first() =~= t@.skip(i + 1));
        i = i + 1;
    }
    let rest = string_of(crate::text::slice_chars(t.as_slice(), i, t.len()).as_slice());
    assert(t@.subrange(i as int, t@.len() as int) =~= t@.skip(i as int));
    str_to_lowercase(rest.as_str())
}

/// Whether a link points inside the document (`#some-slug`); only such a
/// link jumps anywhere when clicked.
pub fn is_anchor_link(href: &str) -> (res: bool)
    ensures
        res == (href@.len() > 0 && href@[0] == '#'),
{
    let t = chars_of(href);
    t.len() > 0 && t[0] == '#'
}

/// The widget name under which the heading with `slug` is found:
/// `md-anchor-` followed by the slug.
pub fn anchor_name(slug: &str) -> (res: String)
    ensures
        res@ == seq!['m', 'd', '-', 'a', 'n', 'c', 'h', 'o', 'r', '-'] + slug@,
{
    let prefix = "md-anchor-";
    proof {
        reveal_strlit("md-anchor-");
    }
    let mut out = string_of(chars_of(prefix).as_slice());
    push_str(&mut out, slug);
    out
}

// ─── Every word lands in exactly one cluster ────────────────────────────────

/// The words `ws` of `span`, with its style and link target.
pub open spec fn tagged_words(ws: Seq<Seq<char>>, span: SpanV) -> Seq<WordV> {
    ws.map_values(|w: Seq<char>| WordV { text: w, style: span.style, href: span.href })
}

/// The words of spans `k..`, in order.
pub open spec fn all_words(spans: Seq<SpanV>, k: int) -> Seq<WordV>
    decreases spans.len() - k,
{
    if 0 <= k < spans.len() {
        tagged_words(words(spans[k].text), spans[k]) + all_words(spans, k + 1)
    } else {
        Seq::empty()
    }
}

pub open spec fn nonempty_clusters(cl: Seq<Seq<WordV>>) -> bool {
    forall|i: int| 0 <= i < cl.len() ==> (#[trigger] cl[i]).len() > 0
}

proof fn lemma_close(done: Seq<Seq<WordV>>, cur: Seq<WordV>)
    ensures
        close(done, cur).flatten() == done.flatten() + cur,
        nonempty_clusters(done) ==> nonempty_clusters(close(done, cur)),
{
    if cur.len() > 0 {
        done.lemma_flatten_push(cur);
    } else {
        assert(done.flatten() + cur =~= done.flatten());
    }
}

proof fn lemma_take_words(
    done: Seq<Seq<WordV>>,
    cur: Seq<WordV>,
    ws: Seq<Seq<char>>,
    span: SpanV,
    i: int,
)
    requires
        0 <= i <= ws.len(),
        i > 0 ==> cur.len() > 0,
    ensures
        take_words(done, cur, ws, span, i).0.flatten() + take_words(done, cur, ws, span, i).1
            == done.flatten() + cur + tagged_words(ws, span).skip(i),
        nonempty_clusters(done) ==> nonempty_clusters(take_words(done, cur, ws, span, i).0),
    decreases ws.len() - i,
{
    let tw = tagged_words(ws, span);
    if i == ws.len() {
        assert(tw.skip(i) =~= Seq::<WordV>::empty());
        assert(done.flatten() + cur + tw.skip(i) =~= done.flatten() + cur);
    } else {
        let w = WordV { text: ws[i], style: span.style, href: span.href };
        assert(tw[i] == w);
        assert(tw.skip(i) =~= seq![w] + tw.skip(i + 1));
        if i == 0 {
            lemma_take_words(done, cur.push(w), ws, span, i + 1);
            assert(done.flatten() + cur.push(w) + tw.skip(i + 1) =~= done.flatten() + cur + tw.skip(
                i,
            ));
        } else {
            lemma_close(done, cur);
            lemma_take_words(close(done, cur), seq![w], ws, span, i + 1);
            assert(close(done, cur).flatten() + seq![w] + tw.skip(i + 1) =~= done.flatten() + cur
                + tw.skip(i));
        }
    }
}

proof fn lemma_take_span(done: Seq<Seq<WordV>>, cur: Seq<WordV>, span: SpanV)
    ensures
        take_span(done, cur, span).0.flatten() + take_span(done, cur, span).1 == done.flatten()
            + cur + tagged_words(words(span.text), span),
        nonempty_clusters(done) ==> nonempty_clusters(take_span(done, cur, span).0),
{
    let ws = words(span.text);
    let tw = tagged_words(ws, span);
    lemma_close(done, cur);
    let d1 = if starts_ws(span.text) {
        close(done, cur)
    } else {
        done
    };
    let c1 = if starts_ws(span.text) {
        Seq::<WordV>::empty()
    } else {
        cur
    };
    assert(d1.flatten() + c1 == done.flatten() + cur) by {
        if starts_ws(span.text) {
            assert(close(done, cur).flatten() + Seq::<WordV>::empty() =~= close(done, cur).flatten());
        }
    }
    lemma_take_words(d1, c1, ws, span, 0);
    assert(tw.skip(0) =~= tw);
    let taken = take_words(d1, c1, ws, span, 0);
    lemma_close(taken.0, taken.1);
    if ends_ws(span.text) {
        assert(close(taken.0, taken.1).flatten() + Seq::<WordV>::empty() =~= close(
            taken.0,
            taken.1,
        ).flatten());
    }
}

proof fn lemma_take_spans(done: Seq<Seq<WordV>>, cur: Seq<WordV>, spans: Seq<SpanV>, k: int)
    requires
        0 <= k <= spans.len(),
    ensures
        take_spans(done, cur, spans, k).0.flatten() + take_spans(done, cur, spans, k).1
            == done.flatten() + cur + all_words(spans, k),
        nonempty_clusters(done) ==> nonempty_clusters(take_spans(done, cur, spans, k).0),
    decreases spans.len() - k,
{
    if k == spans.len() {
        assert(done.flatten() + cur + all_words(spans, k) =~= done.flatten() + cur);
    } else {
        let next = take_span(done, cur, spans[k]);
        lemma_take_span(done, cur, spans[k]);
        lemma_take_spans(next.0, next.1, spans, k + 1);
        assert(next.0.flatten() + next.1 + all_words(spans, k + 1) =~= done.flatten() + cur
            + all_words(spans, k));
    }
}

/// Grouping words for wrapping loses, repeats and reorders none of them,
/// and makes no empty cluster.
pub proof fn word_clusters_keep_every_word(spans: Seq<SpanV>)
    ensures
        word_clusters_spec(spans).flatten() == all_words(spans, 0),
        nonempty_clusters(word_clusters_spec(spans)),
{
    let e1 = Seq::<Seq<WordV>>::empty();
    let e2 = Seq::<WordV>::empty();
    assert(e1.flatten() =~= e2);
    lemma_take_spans(e1, e2, spans, 0);
    let last = take_spans(e1, e2, spans, 0);
    lemma_close(last.0, last.1);
    assert(e1.flatten() + e2 + all_words(spans, 0) =~= all_words(spans, 0));
}

} // verus!
