//! Heading anchors: the slugs GitHub derives from heading text, which
//! in-document links (`[Bugs](#4-bugs)`) point at.

use vstd::prelude::*;

use super::{Block, BlockV, Span, SpanV, blocks_view, spans_view};
use crate::text::{
    char_lower, digit_char, char_to_lowercase, chars_of, chars_eq, concat, decimal, is_alnum,
    is_alphanumeric, push_char, push_chars, push_decimal, string_of,
};

verus! {

/// GitHub's heading-to-anchor algorithm: letters and digits lowercased,
/// spaces and hyphens turned into hyphens, everything else dropped.
pub open spec fn slugify_spec(s: Seq<char>) -> Seq<char>
    decreases s.len(),
{
    if s.len() == 0 {
        Seq::empty()
    } else {
        let prev = slugify_spec(s.drop_last());
        let c = s.last();
        if is_alnum(c) {
            prev + char_lower(c)
        } else if c == ' ' || c == '-' {
            prev.push('-')
        } else {
            prev
        }
    }
}

/// Slugging goes character by character, with no memory of what came
/// before: the slug of one text followed by another is the two slugs one
/// after the other. A space or a hyphen (neither is a letter or digit) adds
/// exactly one hyphen to the slug of whatever precedes it, so runs of them
/// are kept, not collapsed; a letter or digit adds its lowercase; anything
/// else adds nothing.
pub proof fn slugify_is_per_character(a: Seq<char>, b: Seq<char>, c: char)
    ensures
        slugify_spec(a + b) == slugify_spec(a) + slugify_spec(b),
        (c == ' ' || c == '-') && !is_alnum(c) ==> slugify_spec(a.push(c)) == slugify_spec(a).push(
            '-',
        ),
        is_alnum(c) ==> slugify_spec(a.push(c)) == slugify_spec(a) + char_lower(c),
        !is_alnum(c) && c != ' ' && c != '-' ==> slugify_spec(a.push(c)) == slugify_spec(a),
    decreases b.len(),
{
    assert(a.push(c).drop_last() =~= a);
    if b.len() == 0 {
        assert(a + b =~= a);
        assert(slugify_spec(a) + slugify_spec(b) =~= slugify_spec(a));
    } else {
        assert((a + b).drop_last() =~= a + b.drop_last());
        slugify_is_per_character(a, b.drop_last(), c);
        let x = slugify_spec(a);
        let y = slugify_spec(b.drop_last());
        let d = b.last();
        if is_alnum(d) {
            assert(x + y + char_lower(d) =~= x + (y + char_lower(d)));
        } else if d == ' ' || d == '-' {
            assert((x + y).push('-') =~= x + y.push('-'));
        }
    }
}

/// The plain text of a heading: its spans' texts, markers already stripped.
pub open spec fn heading_text_spec(spans: Seq<SpanV>) -> Seq<char> {
    concat(spans.map_values(|s: SpanV| s.text))
}

/// The slug a block's heading text gives, before collisions are resolved.
pub open spec fn base_slug(b: BlockV) -> Option<Seq<char>> {
    match b {
        BlockV::Heading { spans, .. } => Some(slugify_spec(heading_text_spec(spans))),
        _ => None,
    }
}

/// `base` with collision number `n`: `base-n`.
pub open spec fn numbered(base: Seq<char>, n: nat) -> Seq<char> {
    base + seq!['-'] + decimal(n)
}

/// The first of `base-k`, `base-(k+1)`, ... that is not among `used`,
/// trying `fuel` of them; the next one when all of those are.
pub open spec fn free_from(used: Seq<Seq<char>>, base: Seq<char>, k: nat, fuel: nat) -> Seq<char>
    decreases fuel,
{
    if fuel == 0 || !used.contains(numbered(base, k)) {
        numbered(base, k)
    } else {
        free_from(used, base, k + 1, (fuel - 1) as nat)
    }
}

/// GitHub's rule for a heading with base slug `base`, given the slugs
/// `used` so far: the base itself if it is free, else the first free
/// `base-k` (trying `used.len()` of them is always enough).
pub open spec fn slug_for(used: Seq<Seq<char>>, base: Seq<char>) -> Seq<char> {
    if !used.contains(base) {
        base
    } else {
        free_from(used, base, 1, (used.len() - 1) as nat)
    }
}

/// The slugs of blocks `i..`, with `used` handed out before them.
pub open spec fn slugs_from(blocks: Seq<BlockV>, i: int, used: Seq<Seq<char>>) -> Seq<
    Option<Seq<char>>,
>
    decreases blocks.len() - i,
{
    if i < 0 || i >= blocks.len() {
        Seq::empty()
    } else {
        match base_slug(blocks[i]) {
            Some(base) => {
                let r = slug_for(used, base);
                seq![Some(r)] + slugs_from(blocks, i + 1, used.push(r))
            },
            None => seq![None] + slugs_from(blocks, i + 1, used),
        }
    }
}

/// One anchor per block: `None` unless it is a heading (see
/// [`slug_for`]).
pub open spec fn slugs_spec(blocks: Seq<BlockV>) -> Seq<Option<Seq<char>>> {
    slugs_from(blocks, 0, Seq::empty())
}

/// GitHub's heading-to-anchor algorithm: lowercase, drop anything but
/// letters/digits/spaces/hyphens, turn spaces into hyphens.
pub fn slugify(text: &str) -> (res: String)
    ensures
        res@ == slugify_spec(text@),
{
    let chars = chars_of(text);
    let mut slug = String::new();
    let mut i: usize = 0;
    assert(chars@.take(0) =~= Seq::<char>::empty());
    while i < chars.len()
        invariant
            i <= chars@.len(),
            slug@ == slugify_spec(chars@.take(i as int)),
        decreases chars@.len() - i,
    {
        let c = chars[i];
        assert(chars@.take(i + 1).drop_last() =~= chars@.take(i as int));
        if is_alphanumeric(c) {
            let lower = char_to_lowercase(c);
            push_chars(&mut slug, lower.as_slice());
        } else if c == ' ' || c == '-' {
            push_char(&mut slug, '-');
        }
        i = i + 1;
    }
    assert(chars@.take(chars@.len() as int) =~= chars@);
    slug
}

/// The plain text of a heading's spans.
pub fn heading_text(spans: &[Span]) -> (res: String)
    ensures
        res@ == heading_text_spec(spans_view(spans@)),
{
    let ghost sv = spans_view(spans@);
    let mut out = String::new();
    let mut i: usize = 0;
    assert(sv.map_values(|s: SpanV| s.text).take(0) =~= Seq::<Seq<char>>::empty());
    while i < spans.len()
        invariant
            i <= spans@.len(),
            sv == spans_view(spans@),
            out@ == concat(sv.map_values(|s: SpanV| s.text).take(i as int)),
        decreases spans@.len() - i,
    {
        let t = chars_of(spans[i].text.as_str());
        push_chars(&mut out, t.as_slice());
        proof {
            let m = sv.map_values(|s: SpanV| s.text);
            assert(m.take(i + 1).drop_last() =~= m.take(i as int));
            assert(m[i as int] == spans@[i as int].text@);
        }
        i = i + 1;
    }
    assert(sv.map_values(|s: SpanV| s.text).take(spans@.len() as int) =~= sv.map_values(
        |s: SpanV| s.text,
    ));
    out
}

fn base_of(block: &Block) -> (res: Option<Vec<char>>)
    ensures
        res matches Some(b) ==> base_slug(block@) == Some(b@),
        res is None ==> base_slug(block@) is None,
{
    match block {
        Block::Heading { spans, .. } => {
            let text = heading_text(spans.as_slice());
            let slug = slugify(text.as_str());
            Some(chars_of(slug.as_str()))
        },
        _ => None,
    }
}

pub open spec fn opt_slugs_view(v: Seq<Option<String>>) -> Seq<Option<Seq<char>>> {
    v.map_values(
        |o: Option<String>|
            match o {
                Some(s) => Some(s@),
                None => None,
            },
    )
}

pub open spec fn used_view(v: Seq<Vec<char>>) -> Seq<Seq<char>> {
    v.map_values(|e: Vec<char>| e@)
}

/// Whether `key` is among `used`.
fn is_used(used: &Vec<Vec<char>>, key: &[char]) -> (res: bool)
    ensures
        res == used_view(used@).contains(key@),
{
    let ghost uv = used_view(used@);
    let mut k: usize = 0;
    while k < used.len()
        invariant
            k <= used@.len(),
            uv == used_view(used@),
            forall|j: int| 0 <= j < k ==> uv[j] != key@,
        decreases used@.len() - k,
    {
        assert(uv[k as int] == used@[k as int]@);
        if chars_eq(used[k].as_slice(), key) {
            return true;
        }
        k = k + 1;
    }
    false
}

fn numbered_of(base: &[char], n: usize) -> (res: Vec<char>)
    ensures
        res@ == numbered(base@, n as nat),
{
    let mut out = crate::text::slice_chars(base, 0, base.len());
    out.push('-');
    let mut digits = String::new();
    push_decimal(&mut digits, n);
    let d = chars_of(digits.as_str());
    let mut j: usize = 0;
    let ghost pre = out@;
    while j < d.len()
        invariant
            j <= d@.len(),
            out@ == pre + d@.take(j as int),
        decreases d@.len() - j,
    {
        out.push(d[j]);
        assert(d@.take(j + 1) =~= d@.take(j as int).push(d@[j as int]));
        j = j + 1;
    }
    assert(d@.take(j as int) =~= d@);
    assert(out@ =~= numbered(base@, n as nat));
    out
}

/// The slug GitHub's rule gives a heading with base slug `base`.
fn next_slug(used: &Vec<Vec<char>>, base: &[char]) -> (res: Vec<char>)
    ensures
        res@ == slug_for(used_view(used@), base@),
{
    let ghost uv = used_view(used@);
    if !is_used(used, base) {
        return crate::text::slice_chars(base, 0, base.len());
    }
    let n = used.len();
    let mut k: usize = 1;
    while k < n && is_used(used, numbered_of(base, k).as_slice())
        invariant
            1 <= k <= n,
            uv == used_view(used@),
            free_from(uv, base@, k as nat, (n - k) as nat) == free_from(
                uv,
                base@,
                1,
                (n - 1) as nat,
            ),
        decreases n - k,
    {
        k = k + 1;
    }
    numbered_of(base, k)
}

/// One slug per block — `Some` only for headings — with GitHub's collision
/// rule: a heading whose slug was handed out already gets `-1`, `-2`, ...
/// appended, skipping any that were handed out too.
pub fn assign_slugs(blocks: &[Block]) -> (res: Vec<Option<String>>)
    ensures
        opt_slugs_view(res@) == slugs_spec(blocks_view(blocks@)),
{
    let ghost bv = blocks_view(blocks@);
    let mut used: Vec<Vec<char>> = Vec::new();
    let mut out: Vec<Option<String>> = Vec::new();
    let mut i: usize = 0;
    assert(used_view(used@) =~= Seq::<Seq<char>>::empty());
    assert(opt_slugs_view(out@) =~= Seq::<Option<Seq<char>>>::empty());
    while i < blocks.len()
        invariant
            i <= blocks@.len(),
            bv == blocks_view(blocks@),
            opt_slugs_view(out@) + slugs_from(bv, i as int, used_view(used@)) == slugs_spec(bv),
        decreases blocks@.len() - i,
    {
        assert(bv[i as int] == blocks@[i as int]@);
        let ghost before = opt_slugs_view(out@);
        let ghost u = used_view(used@);
        match base_of(&blocks[i]) {
            Some(b) => {
                let r = next_slug(&used, b.as_slice());
                let slug = string_of(r.as_slice());
                out.push(Some(slug));
                assert(opt_slugs_view(out@) =~= before.push(Some(r@)));
                used.push(r);
                assert(used_view(used@) =~= u.push(slug@));
            },
            None => {
                out.push(None);
                assert(opt_slugs_view(out@) =~= before.push(None));
            },
        }
        assert(opt_slugs_view(out@) + slugs_from(bv, i + 1, used_view(used@)) =~= before
            + slugs_from(bv, i as int, u));
        i = i + 1;
    }
    assert(opt_slugs_view(out@) =~= opt_slugs_view(out@) + slugs_from(
        bv,
        i as int,
        used_view(used@),
    ));
    out
}

// ─── Every heading gets its own slug ────────────────────────────────────────

proof fn lemma_decimal_len(n: nat)
    ensures
        decimal(n).len() >= 1,
        n >= 10 ==> decimal(n).len() >= 2,
    decreases n,
{
    if n >= 10 {
        lemma_decimal_len(n / 10);
    }
}

proof fn lemma_digit_injective(x: nat, y: nat)
    requires
        x < 10,
        y < 10,
        digit_char(x) == digit_char(y),
    ensures
        x == y,
{
}

proof fn lemma_decimal_injective(a: nat, b: nat)
    requires
        decimal(a) == decimal(b),
    ensures
        a == b,
    decreases a,
{
    lemma_decimal_len(a);
    lemma_decimal_len(b);
    if a < 10 && b < 10 {
        assert(decimal(a) == seq![digit_char(a)]);
        assert(decimal(b) == seq![digit_char(b)]);
        assert(seq![digit_char(a)][0] == digit_char(a));
        assert(seq![digit_char(b)][0] == digit_char(b));
        assert(digit_char(a) == digit_char(b));
        lemma_digit_injective(a, b);
    } else if a >= 10 && b >= 10 {
        assert(decimal(a).last() == decimal(b).last());
        assert(decimal(a).last() == digit_char(a % 10));
        assert(decimal(b).last() == digit_char(b % 10));
        lemma_digit_injective(a % 10, b % 10);
        assert(decimal(a).drop_last() == decimal(b).drop_last());
        assert(decimal(a).drop_last() =~= decimal(a / 10));
        assert(decimal(b).drop_last() =~= decimal(b / 10));
        lemma_decimal_injective(a / 10, b / 10);
        assert(a % 10 == b % 10);
    } else {
        assert(decimal(a).len() == decimal(b).len());
    }
}

proof fn lemma_numbered_distinct(base: Seq<char>, a: nat, b: nat)
    ensures
        numbered(base, a) != base,
        numbered(base, a) == numbered(base, b) ==> a == b,
{
    lemma_decimal_len(a);
    if numbered(base, a) == numbered(base, b) {
        let k = base.len() as int + 1;
        assert(numbered(base, a).skip(k) =~= decimal(a));
        assert(numbered(base, b).skip(k) =~= decimal(b));
        lemma_decimal_injective(a, b);
    }
}

proof fn lemma_free_from(used: Seq<Seq<char>>, base: Seq<char>, k: nat, fuel: nat)
    ensures
        used.contains(free_from(used, base, k, fuel)) ==> forall|j: nat|
            k <= j <= k + fuel ==> used.contains(#[trigger] numbered(base, j)),
    decreases fuel,
{
    if fuel > 0 && used.contains(numbered(base, k)) {
        lemma_free_from(used, base, k + 1, (fuel - 1) as nat);
    }
}

/// The slug a heading gets was not handed out before.
proof fn lemma_slug_for_fresh(used: Seq<Seq<char>>, base: Seq<char>)
    ensures
        !used.contains(slug_for(used, base)),
{
    if used.contains(base) {
        let n = used.len();
        let r = slug_for(used, base);
        lemma_free_from(used, base, 1, (n - 1) as nat);
        if used.contains(r) {
            let c = seq![base] + Seq::new(n, |j: int| numbered(base, (j + 1) as nat));
            assert(c.no_duplicates()) by {
                assert forall|p: int, q: int| 0 <= p < c.len() && 0 <= q < c.len() && p != q implies c[p]
                    != c[q] by {
                    if p == 0 {
                        lemma_numbered_distinct(base, q as nat, q as nat);
                    } else if q == 0 {
                        lemma_numbered_distinct(base, p as nat, p as nat);
                    } else {
                        lemma_numbered_distinct(base, p as nat, q as nat);
                    }
                }
            }
            assert(c.to_set().subset_of(used.to_set())) by {
                assert forall|x: Seq<char>| c.to_set().contains(x) implies used.to_set().contains(
                    x,
                ) by {
                    let p = choose|p: int| 0 <= p < c.len() && c[p] == x;
                    if p > 0 {
                        assert(numbered(base, p as nat) == x);
                        assert(1 <= p <= n);
                    }
                }
            }
            c.unique_seq_to_set();
            used.lemma_cardinality_of_set();
            vstd::set_lib::lemma_len_subset(c.to_set(), used.to_set());
        }
    }
}

proof fn lemma_slugs_from_fresh(blocks: Seq<BlockV>, i: int, used: Seq<Seq<char>>)
    ensures
        ({
            let out = slugs_from(blocks, i, used);
            &&& out.len() == if 0 <= i <= blocks.len() {
                blocks.len() - i
            } else {
                0
            }
            &&& forall|p: int|
                0 <= p < out.len() ==> ((#[trigger] out[p]) is Some <==> base_slug(blocks[i + p]) is Some)
            &&& forall|p: int|
                0 <= p < out.len() && (#[trigger] out[p]) is Some ==> !used.contains(out[p]->0)
            &&& forall|p: int, q: int|
                0 <= p < q < out.len() && (#[trigger] out[p]) is Some && (#[trigger] out[q]) is Some
                    ==> out[p] != out[q]
        }),
    decreases blocks.len() - i,
{
    if 0 <= i < blocks.len() {
        let out = slugs_from(blocks, i, used);
        match base_slug(blocks[i]) {
            Some(base) => {
                let r = slug_for(used, base);
                lemma_slug_for_fresh(used, base);
                lemma_slugs_from_fresh(blocks, i + 1, used.push(r));
                let rest = slugs_from(blocks, i + 1, used.push(r));
                assert forall|p: int| 0 <= p < out.len() && (#[trigger] out[p]) is Some implies !used.contains(
                    out[p]->0,
                ) by {
                    if p > 0 {
                        assert(out[p] == rest[p - 1]);
                        if used.contains(out[p]->0) {
                            let w = choose|w: int| 0 <= w < used.len() && used[w] == out[p]->0;
                            assert(used.push(r)[w] == out[p]->0);
                        }
                    }
                }
                assert forall|p: int, q: int|
                    0 <= p < q < out.len() && (#[trigger] out[p]) is Some && (#[trigger] out[q]) is Some
                        implies out[p] != out[q] by {
                    assert(out[q] == rest[q - 1]);
                    if p == 0 {
                        assert(used.push(r)[used.len() as int] == r);
                    } else {
                        assert(out[p] == rest[p - 1]);
                    }
                }
                assert forall|p: int| 0 <= p < out.len() implies ((#[trigger] out[p]) is Some
                    <==> base_slug(blocks[i + p]) is Some) by {
                    if p > 0 {
                        assert(out[p] == rest[p - 1]);
                    }
                }
            },
            None => {
                lemma_slugs_from_fresh(blocks, i + 1, used);
                let rest = slugs_from(blocks, i + 1, used);
                assert forall|p: int| 0 <= p < out.len() && (#[trigger] out[p]) is Some implies !used.contains(
                    out[p]->0,
                ) by {
                    assert(out[p] == rest[p - 1]);
                }
                assert forall|p: int, q: int|
                    0 <= p < q < out.len() && (#[trigger] out[p]) is Some && (#[trigger] out[q]) is Some
                        implies out[p] != out[q] by {
                    assert(out[p] == rest[p - 1]);
                    assert(out[q] == rest[q - 1]);
                }
                assert forall|p: int| 0 <= p < out.len() implies ((#[trigger] out[p]) is Some
                    <==> base_slug(blocks[i + p]) is Some) by {
                    if p > 0 {
                        assert(out[p] == rest[p - 1]);
                    }
                }
            },
        }
    }
}

/// Every block gets an anchor slot, filled exactly for headings, and no
/// two headings of a document share a slug.
pub proof fn slugs_are_distinct(blocks: Seq<BlockV>)
    ensures
        slugs_spec(blocks).len() == blocks.len(),
        forall|p: int|
            0 <= p < blocks.len() ==> ((#[trigger] slugs_spec(blocks)[p]) is Some <==> blocks[p] is Heading),
        forall|p: int, q: int|
            0 <= p < q < blocks.len() && (#[trigger] slugs_spec(blocks)[p]) is Some
                && (#[trigger] slugs_spec(blocks)[q]) is Some ==> slugs_spec(blocks)[p]
                != slugs_spec(blocks)[q],
{
    lemma_slugs_from_fresh(blocks, 0, Seq::empty());
}

} // verus!
