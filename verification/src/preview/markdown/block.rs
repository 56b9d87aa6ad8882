//! The block-level parser: splits a document into headings, paragraphs,
//! quotes, list items, fenced code, rules and tables.

use vstd::prelude::*;

use super::{Align, Block, BlockV, Span, SpanV, blocks_view, cells_view, rows_view, spans_view};
use super::inline::{inline_spans, parse_inline_chars, spans_wf};
use super::lines::{
    cells_view as text_cells_view, heading, heading_spec, is_fence, is_fence_spec, is_rule,
    is_rule_spec, is_table_row, is_table_row_spec, list_item, list_item_spec, table_cells_chars,
    table_cells_spec, table_separator, table_separator_spec,
};
use crate::text::{
    chars_of, join, lines, split_lines, starts_with_char, string_of, trim,
    trim_chars, trim_end, trim_end_chars, trim_start, trim_start_chars,
};

verus! {

// ─── Specification ──────────────────────────────────────────────────────────

/// The parser's state between two lines: the blocks already closed, the
/// lines of the paragraph and of the quote being read, and the lines of the
/// open fenced code block, if one is open.
pub struct MdState {
    pub blocks: Seq<BlockV>,
    pub para: Seq<Seq<char>>,
    pub quote: Seq<Seq<char>>,
    pub code: Option<Seq<Seq<char>>>,
}

pub open spec fn space() -> Seq<char> {
    seq![' ']
}

pub open spec fn newline() -> Seq<char> {
    seq!['\n']
}

/// `blocks` with the pending paragraph lines closed off as one paragraph.
pub open spec fn flush_para_spec(blocks: Seq<BlockV>, para: Seq<Seq<char>>) -> Seq<BlockV> {
    if para.len() > 0 {
        blocks.push(BlockV::Paragraph(inline_spans(join(para, space()))))
    } else {
        blocks
    }
}

/// `blocks` with the pending quote lines closed off as one quote.
pub open spec fn flush_quote_spec(blocks: Seq<BlockV>, quote: Seq<Seq<char>>) -> Seq<BlockV> {
    if quote.len() > 0 {
        blocks.push(BlockV::Quote(inline_spans(join(quote, space()))))
    } else {
        blocks
    }
}

/// `st` with both the pending paragraph and the pending quote closed off.
pub open spec fn flush_both(st: MdState) -> MdState {
    MdState {
        blocks: flush_quote_spec(flush_para_spec(st.blocks, st.para), st.quote),
        para: Seq::empty(),
        quote: Seq::empty(),
        code: st.code,
    }
}

pub open spec fn with_block(st: MdState, b: BlockV) -> MdState {
    MdState { blocks: st.blocks.push(b), para: st.para, quote: st.quote, code: st.code }
}

pub open spec fn row_cells(row: Seq<char>) -> Seq<Seq<SpanV>> {
    table_cells_spec(row).map_values(|c: Seq<char>| inline_spans(c))
}

/// The body rows of a table from line `j` on: every following non-blank line
/// that holds a pipe. Returns the index of the first line past the table.
pub open spec fn table_rows_spec(lines: Seq<Seq<char>>, j: int) -> (int, Seq<Seq<Seq<SpanV>>>)
    decreases lines.len() - j,
{
    if j < 0 || j >= lines.len() {
        (j, Seq::empty())
    } else {
        let row = trim(lines[j]);
        if row.len() == 0 || !is_table_row_spec(row) {
            (j, Seq::empty())
        } else {
            let r = table_rows_spec(lines, j + 1);
            (r.0, seq![row_cells(row)] + r.1)
        }
    }
}

/// Reads the line at `idx` inside an open fenced block.
pub open spec fn code_step(lines: Seq<Seq<char>>, idx: int, st: MdState, buf: Seq<Seq<char>>) -> (
    int,
    MdState,
) {
    let raw = lines[idx];
    if is_fence_spec(trim_start(raw)) {
        (
            idx + 1,
            MdState {
                blocks: st.blocks.push(BlockV::Code(join(buf, newline()))),
                para: st.para,
                quote: st.quote,
                code: None,
            },
        )
    } else {
        (idx + 1, MdState { blocks: st.blocks, para: st.para, quote: st.quote, code: Some(buf.push(raw)) })
    }
}

/// Reads the line (or, for a table, the lines) at `idx` outside any fenced
/// block, and returns the index of the next line to read.
pub open spec fn text_step(lines: Seq<Seq<char>>, idx: int, st: MdState) -> (int, MdState) {
    let line = trim_end(lines[idx]);
    let t = trim_start(line);
    if is_fence_spec(t) {
        let f = flush_both(st);
        (idx + 1, MdState { blocks: f.blocks, para: f.para, quote: f.quote, code: Some(Seq::empty()) })
    } else if t.len() == 0 {
        (idx + 1, flush_both(st))
    } else if is_rule_spec(t) {
        (idx + 1, with_block(flush_both(st), BlockV::Rule))
    } else if heading_spec(t) is Some {
        let h = heading_spec(t).unwrap();
        (idx + 1, with_block(flush_both(st), BlockV::Heading { level: h.0, spans: inline_spans(h.1) }))
    } else if starts_with_char(t, '>') {
        (
            idx + 1,
            MdState {
                blocks: flush_para_spec(st.blocks, st.para),
                para: Seq::empty(),
                quote: st.quote.push(trim_start(t.drop_first())),
                code: st.code,
            },
        )
    } else if is_table_row_spec(t) && idx + 1 < lines.len() && table_separator_spec(lines[idx + 1]) is Some {
        let alignments = table_separator_spec(lines[idx + 1]).unwrap();
        let header = row_cells(t);
        let r = table_rows_spec(lines, idx + 2);
        (r.0, with_block(flush_both(st), BlockV::Table { alignments, header, rows: r.1 }))
    } else if list_item_spec(line) is Some {
        let l = list_item_spec(line).unwrap();
        (
            idx + 1,
            with_block(flush_both(st), BlockV::ListItem { depth: l.0, marker: l.1, spans: inline_spans(l.2) }),
        )
    } else {
        (
            idx + 1,
            MdState {
                blocks: flush_quote_spec(st.blocks, st.quote),
                para: st.para.push(t),
                quote: Seq::empty(),
                code: st.code,
            },
        )
    }
}

pub open spec fn md_step(lines: Seq<Seq<char>>, idx: int, st: MdState) -> (int, MdState) {
    match st.code {
        Some(buf) => code_step(lines, idx, st, buf),
        None => text_step(lines, idx, st),
    }
}

/// The blocks once the input is exhausted: an unclosed fence still yields
/// its code block, then the pending paragraph and quote are closed off.
pub open spec fn finish(st: MdState) -> Seq<BlockV> {
    let b = match st.code {
        Some(buf) => st.blocks.push(BlockV::Code(join(buf, newline()))),
        None => st.blocks,
    };
    flush_quote_spec(flush_para_spec(b, st.para), st.quote)
}

pub open spec fn parse_from(lines: Seq<Seq<char>>, idx: int, st: MdState) -> Seq<BlockV>
    decreases lines.len() - idx,
{
    if idx < 0 || idx >= lines.len() {
        finish(st)
    } else {
        let n = md_step(lines, idx, st);
        if idx < n.0 <= lines.len() {
            parse_from(lines, n.0, n.1)
        } else {
            finish(n.1)
        }
    }
}

pub open spec fn empty_state() -> MdState {
    MdState { blocks: Seq::empty(), para: Seq::empty(), quote: Seq::empty(), code: None }
}

/// The blocks of a Markdown document.
pub open spec fn parse_spec(src: Seq<char>) -> Seq<BlockV> {
    parse_from(lines(src), 0, empty_state())
}

// ─── Implementation ─────────────────────────────────────────────────────────

pub open spec fn lines_view(v: Seq<Vec<char>>) -> Seq<Seq<char>> {
    v.map_values(|l: Vec<char>| l@)
}

pub open spec fn opt_lines_view(o: Option<Vec<Vec<char>>>) -> Option<Seq<Seq<char>>> {
    match o {
        Some(v) => Some(lines_view(v@)),
        None => None,
    }
}

/// The executable parser state.
pub struct Parser {
    pub blocks: Vec<Block>,
    pub para: Vec<Vec<char>>,
    pub quote: Vec<Vec<char>>,
    pub code: Option<Vec<Vec<char>>>,
}

impl Parser {
    pub open spec fn state(&self) -> MdState {
        MdState {
            blocks: blocks_view(self.blocks@),
            para: lines_view(self.para@),
            quote: lines_view(self.quote@),
            code: opt_lines_view(self.code),
        }
    }
}

/// `parts` joined with `sep` between consecutive ones.
fn join_chars(parts: &Vec<Vec<char>>, sep: char) -> (res: Vec<char>)
    ensures
        res@ == join(lines_view(parts@), seq![sep]),
{
    let ghost pv = lines_view(parts@);
    let mut out: Vec<char> = Vec::new();
    let mut i: usize = 0;
    assert(pv.take(0) =~= Seq::<Seq<char>>::empty());
    while i < parts.len()
        invariant
            i <= parts@.len(),
            pv == lines_view(parts@),
            out@ == join(pv.take(i as int), seq![sep]),
        decreases parts@.len() - i,
    {
        let part = &parts[i];
        assert(pv[i as int] == part@);
        let ghost before = out@;
        if i > 0 {
            out.push(sep);
        }
        let mut k: usize = 0;
        let ghost mid = out@;
        while k < part.len()
            invariant
                k <= part@.len(),
                out@ == mid + part@.take(k as int),
            decreases part@.len() - k,
        {
            out.push(part[k]);
            assert(part@.take(k + 1) =~= part@.take(k as int).push(part@[k as int]));
            assert(out@ =~= mid + part@.take(k + 1));
            k = k + 1;
        }
        assert(part@.take(part@.len() as int) =~= part@);
        proof {
            let t = pv.take(i + 1);
            assert(t.drop_last() =~= pv.take(i as int));
            assert(t.last() == part@);
            if i == 0 {
                assert(out@ =~= part@);
            } else {
                assert(out@ =~= before + seq![sep] + part@);
            }
        }
        i = i + 1;
    }
    assert(pv.take(parts@.len() as int) =~= pv);
    out
}

/// Closes off the pending paragraph lines as one paragraph.
fn flush_para(para: &mut Vec<Vec<char>>, blocks: &mut Vec<Block>)
    ensures
        blocks_view(final(blocks)@) == flush_para_spec(blocks_view(old(blocks)@), lines_view(old(para)@)),
        final(para)@.len() == 0,
{
    if para.len() > 0 {
        let joined = join_chars(para, ' ');
        assert(seq![' '] =~= space());
        let spans = parse_inline_chars(joined.as_slice());
        let ghost before = blocks_view(blocks@);
        blocks.push(Block::Paragraph(spans));
        assert(blocks_view(blocks@) =~= before.push(BlockV::Paragraph(inline_spans(join(lines_view(old(para)@), space())))));
        para.clear();
    }
}

/// Closes off the pending quote lines as one quote.
fn flush_quote(quote: &mut Vec<Vec<char>>, blocks: &mut Vec<Block>)
    ensures
        blocks_view(final(blocks)@) == flush_quote_spec(blocks_view(old(blocks)@), lines_view(old(quote)@)),
        final(quote)@.len() == 0,
{
    if quote.len() > 0 {
        let joined = join_chars(quote, ' ');
        assert(seq![' '] =~= space());
        let spans = parse_inline_chars(joined.as_slice());
        let ghost before = blocks_view(blocks@);
        blocks.push(Block::Quote(spans));
        assert(blocks_view(blocks@) =~= before.push(BlockV::Quote(inline_spans(join(lines_view(old(quote)@), space())))));
        quote.clear();
    }
}

impl Parser {
    fn flush_both(&mut self)
        ensures
            final(self).state() == flush_both(old(self).state()),
    {
        flush_para(&mut self.para, &mut self.blocks);
        flush_quote(&mut self.quote, &mut self.blocks);
        assert(lines_view(self.para@) =~= Seq::<Seq<char>>::empty());
        assert(lines_view(self.quote@) =~= Seq::<Seq<char>>::empty());
    }

    fn push_block(&mut self, b: Block)
        ensures
            final(self).state() == with_block(old(self).state(), b@),
    {
        let ghost before = blocks_view(self.blocks@);
        self.blocks.push(b);
        assert(blocks_view(self.blocks@) =~= before.push(b@));
    }
}

/// The inline spans of each cell of a table row.
fn row_spans(row: &[char]) -> (res: Vec<Vec<Span>>)
    ensures
        cells_view(res@) == row_cells(row@),
{
    let cells = table_cells_chars(row);
    let ghost cv = text_cells_view(cells@);
    let mut out: Vec<Vec<Span>> = Vec::new();
    let mut k: usize = 0;
    while k < cells.len()
        invariant
            k <= cells@.len(),
            cv == text_cells_view(cells@),
            cv == table_cells_spec(row@),
            out@.len() == k,
            forall|j: int| 0 <= j < k ==> spans_view(#[trigger] out@[j]@) == inline_spans(cv[j]),
        decreases cells@.len() - k,
    {
        assert(cv[k as int] == cells@[k as int]@);
        out.push(parse_inline_chars(cells[k].as_slice()));
        k = k + 1;
    }
    assert(cells_view(out@) =~= row_cells(row@));
    out
}

/// Reads the body rows of a table starting at line `start`.
fn table_rows(lines: &Vec<Vec<char>>, start: usize) -> (res: (usize, Vec<Vec<Vec<Span>>>))
    requires
        start <= lines@.len(),
    ensures
        table_rows_spec(lines_view(lines@), start as int) == (res.0 as int, rows_view(res.1@)),
        start <= res.0 <= lines@.len(),
{
    let ghost lv = lines_view(lines@);
    let mut rows: Vec<Vec<Vec<Span>>> = Vec::new();
    let mut idx = start;
    assert(rows_view(rows@) =~= Seq::<Seq<Seq<SpanV>>>::empty());
    let mut done = false;
    while idx < lines.len() && !done
        invariant
            start <= idx <= lines@.len(),
            lv == lines_view(lines@),
            table_rows_spec(lv, start as int) == (
                table_rows_spec(lv, idx as int).0,
                rows_view(rows@) + table_rows_spec(lv, idx as int).1,
            ),
            done ==> table_rows_spec(lv, idx as int) == (idx as int, Seq::<Seq<Seq<SpanV>>>::empty()),
        decreases lines@.len() - idx + (if done { 0int } else { 1int }),
    {
        assert(lv[idx as int] == lines@[idx as int]@);
        let row = trim_chars(lines[idx].as_slice());
        if row.len() == 0 || !is_table_row(row.as_slice()) {
            done = true;
            continue;
        }
        let ghost before = rows_view(rows@);
        rows.push(row_spans(row.as_slice()));
        assert(rows_view(rows@) =~= before.push(row_cells(row@)));
        assert(rows_view(rows@) + table_rows_spec(lv, idx + 1).1 =~= before + (seq![row_cells(row@)] + table_rows_spec(lv, idx + 1).1));
        idx = idx + 1;
    }
    assert(rows_view(rows@) + Seq::<Seq<Seq<SpanV>>>::empty() =~= rows_view(rows@));
    (idx, rows)
}

impl Parser {
    /// Reads the line at `idx` inside an open fenced block.
    fn code_line(&mut self, lines: &Vec<Vec<char>>, idx: usize) -> (next: usize)
        requires
            idx < lines@.len(),
            old(self).code is Some,
        ensures
            (next as int, final(self).state()) == md_step(lines_view(lines@), idx as int, old(self).state()),
    {
        let ghost lv = lines_view(lines@);
        let n = lines.len();
        assert(lv[idx as int] == lines@[idx as int]@);
        let raw = &lines[idx];
        let t = trim_start_chars(raw.as_slice());
        let mut code = None;
        std::mem::swap(&mut code, &mut self.code);
        let mut buf = match code {
            Some(b) => b,
            None => Vec::new(),
        };
        let ghost bv = lines_view(buf@);
        if is_fence(t.as_slice()) {
            let joined = join_chars(&buf, '\n');
            assert(seq!['\n'] =~= newline());
            let ghost before = blocks_view(self.blocks@);
            self.blocks.push(Block::Code(string_of(joined.as_slice())));
            assert(blocks_view(self.blocks@) =~= before.push(BlockV::Code(join(bv, newline()))));
        } else {
            let mut copy: Vec<char> = Vec::new();
            let mut k: usize = 0;
            while k < raw.len()
                invariant
                    k <= raw@.len(),
                    copy@ == raw@.take(k as int),
                decreases raw@.len() - k,
            {
                copy.push(raw[k]);
                assert(raw@.take(k + 1) =~= raw@.take(k as int).push(raw@[k as int]));
                k = k + 1;
            }
            assert(raw@.take(raw@.len() as int) =~= raw@);
            buf.push(copy);
            assert(lines_view(buf@) =~= bv.push(raw@));
            self.code = Some(buf);
        }
        idx + 1
    }

    /// Reads the line (or lines, for a table) at `idx` outside any fence.
    #[verifier::rlimit(60)]
    fn text_line(&mut self, lines: &Vec<Vec<char>>, idx: usize) -> (next: usize)
        requires
            idx < lines@.len(),
            old(self).code is None,
            forall|k: int| 0 <= k < lines@.len() ==> (#[trigger] lines@[k])@.len() <= usize::MAX / 4,
        ensures
            (next as int, final(self).state()) == md_step(lines_view(lines@), idx as int, old(self).state()),
            idx < next <= lines@.len(),
    {
        let ghost lv = lines_view(lines@);
        let n = lines.len();
        let ghost st = self.state();
        assert(lv[idx as int] == lines@[idx as int]@);
        let line = trim_end_chars(lines[idx].as_slice());
        let t = trim_start_chars(line.as_slice());
        if is_fence(t.as_slice()) {
            self.flush_both();
            let empty: Vec<Vec<char>> = Vec::new();
            self.code = Some(empty);
            assert(lines_view(empty@) =~= Seq::<Seq<char>>::empty());
            return idx + 1;
        }
        if t.len() == 0 {
            self.flush_both();
            return idx + 1;
        }
        if is_rule(t.as_slice()) {
            self.flush_both();
            self.push_block(Block::Rule);
            return idx + 1;
        }
        match heading(t.as_slice()) {
            Some(h) => {
                self.flush_both();
                let (level, rest) = h;
                let spans = parse_inline_chars(rest.as_slice());
                self.push_block(Block::Heading { level, spans });
                return idx + 1;
            },
            None => {},
        }
        if t[0] == '>' {
            flush_para(&mut self.para, &mut self.blocks);
            let body = crate::text::slice_chars(t.as_slice(), 1, t.len());
            assert(body@ =~= t@.drop_first());
            let rest = trim_start_chars(body.as_slice());
            let ghost qv = lines_view(self.quote@);
            self.quote.push(rest);
            assert(lines_view(self.quote@) =~= qv.push(trim_start(t@.drop_first())));
            assert(lines_view(self.para@) =~= Seq::<Seq<char>>::empty());
            return idx + 1;
        }
        if is_table_row(t.as_slice()) && idx + 1 < n {
            assert(lv[idx + 1] == lines@[idx + 1]@);
            match table_separator(lines[idx + 1].as_slice()) {
                Some(alignments) => {
                    self.flush_both();
                    let header = row_spans(t.as_slice());
                    let (end, rows) = table_rows(lines, idx + 2);
                    self.push_block(Block::Table { alignments, header, rows });
                    return end;
                },
                None => {},
            }
        }
        match list_item(line.as_slice()) {
            Some(l) => {
                self.flush_both();
                let (depth, marker_chars, rest) = l;
                let spans = parse_inline_chars(rest.as_slice());
                let marker = string_of(marker_chars.as_slice());
                self.push_block(Block::ListItem { depth, marker, spans });
                return idx + 1;
            },
            None => {},
        }
        flush_quote(&mut self.quote, &mut self.blocks);
        let ghost pv = lines_view(self.para@);
        self.para.push(t);
        assert(lines_view(self.para@) =~= pv.push(trim_start(trim_end(lv[idx as int]))));
        assert(lines_view(self.quote@) =~= Seq::<Seq<char>>::empty());
        idx + 1
    }

    fn finish(self) -> (res: Vec<Block>)
        ensures
            blocks_view(res@) == finish(self.state()),
    {
        let mut p = self;
        let mut code = None;
        std::mem::swap(&mut code, &mut p.code);
        match code {
            Some(buf) => {
                let joined = join_chars(&buf, '\n');
                assert(seq!['\n'] =~= newline());
                let ghost before = blocks_view(p.blocks@);
                p.blocks.push(Block::Code(string_of(joined.as_slice())));
                assert(blocks_view(p.blocks@) =~= before.push(BlockV::Code(join(lines_view(buf@), newline()))));
            },
            None => {},
        }
        flush_para(&mut p.para, &mut p.blocks);
        flush_quote(&mut p.quote, &mut p.blocks);
        p.blocks
    }
}

/// Splits a Markdown document into blocks. A tab counts as four columns of
/// indentation, so each line's columns must fit in a `usize`.
pub fn parse(src: &str) -> (res: Vec<Block>)
    requires
        forall|k: int| 0 <= k < lines(src@).len() ==> (#[trigger] lines(src@)[k]).len() <= usize::MAX / 4,
    ensures
        blocks_view(res@) == parse_spec(src@),
{
    let chars = chars_of(src);
    let src_lines = split_lines(chars.as_slice());
    let ghost lv = lines_view(src_lines@);
    assert(lv =~= lines(src@));
    assert forall|k: int| 0 <= k < src_lines@.len() implies (#[trigger] src_lines@[k])@.len() <= usize::MAX / 4 by {
        assert(lv[k] == src_lines@[k]@);
    }
    let mut p = Parser { blocks: Vec::new(), para: Vec::new(), quote: Vec::new(), code: None };
    assert(blocks_view(p.blocks@) =~= Seq::<BlockV>::empty());
    assert(lines_view(p.para@) =~= Seq::<Seq<char>>::empty());
    assert(lines_view(p.quote@) =~= Seq::<Seq<char>>::empty());
    assert(p.state() == empty_state());
    let mut idx: usize = 0;
    while idx < src_lines.len()
        invariant
            idx <= src_lines@.len(),
            lv == lines_view(src_lines@),
            lv == lines(src@),
            forall|k: int| 0 <= k < src_lines@.len() ==> (#[trigger] src_lines@[k])@.len() <= usize::MAX / 4,
            parse_from(lv, idx as int, p.state()) == parse_spec(src@),
        decreases src_lines@.len() - idx,
    {
        let is_code = p.code.is_some();
        let next = if is_code {
            p.code_line(&src_lines, idx)
        } else {
            p.text_line(&src_lines, idx)
        };
        idx = next;
    }
    p.finish()
}

// ─── Fenced code keeps its lines ────────────────────────────────────────────

/// Inside an open fence, lines that are not fences are collected as they are.
proof fn lemma_code_run(lines: Seq<Seq<char>>, i: int, m: int, st: MdState)
    requires
        st.code is Some,
        0 <= i <= m <= lines.len(),
        forall|k: int| i <= k < m ==> !is_fence_spec(trim_start(#[trigger] lines[k])),
    ensures
        parse_from(lines, i, st) == parse_from(
            lines,
            m,
            MdState { code: Some(st.code.unwrap() + lines.subrange(i, m)), ..st },
        ),
    decreases m - i,
{
    let buf = st.code.unwrap();
    if i == m {
        assert(buf + lines.subrange(i, m) =~= buf);
        assert(MdState { code: Some(buf + lines.subrange(i, m)), ..st } == st);
    } else {
        let st1 = MdState { code: Some(buf.push(lines[i])), ..st };
        assert(md_step(lines, i, st) == (i + 1, st1));
        lemma_code_run(lines, i + 1, m, st1);
        assert(buf.push(lines[i]) + lines.subrange(i + 1, m) =~= buf + lines.subrange(i, m));
    }
}

/// A fenced code block holds exactly the lines between its fences, one
/// after the other with a `\n` between two of them: read from the start of
/// a document, an opening fence, lines none of which is a fence, and a
/// closing fence give that one code block, the same one the fence gives when
/// the document ends before it is closed.
pub proof fn fenced_code_keeps_its_lines(open: Seq<char>, body: Seq<Seq<char>>, close: Seq<char>)
    requires
        is_fence_spec(trim_start(trim_end(open))),
        is_fence_spec(trim_start(close)),
        forall|k: int| 0 <= k < body.len() ==> !is_fence_spec(trim_start(#[trigger] body[k])),
    ensures
        parse_from(seq![open] + body + seq![close], 0, empty_state()) == seq![
            BlockV::Code(join(body, seq!['\n'])),
        ],
        parse_from(seq![open] + body, 0, empty_state()) == seq![
            BlockV::Code(join(body, seq!['\n'])),
        ],
{
    let opened = MdState {
        blocks: Seq::empty(),
        para: Seq::empty(),
        quote: Seq::empty(),
        code: Some(Seq::empty()),
    };
    let n = body.len() as int;
    // Closed by a fence.
    let l1 = seq![open] + body + seq![close];
    assert(l1[0] == open);
    assert(flush_both(empty_state()) == empty_state());
    assert(md_step(l1, 0, empty_state()) == (1int, opened));
    assert forall|k: int| 1 <= k < n + 1 implies !is_fence_spec(trim_start(#[trigger] l1[k])) by {
        assert(l1[k] == body[k - 1]);
    }
    lemma_code_run(l1, 1, n + 1, opened);
    assert(l1.subrange(1, n + 1) =~= body);
    let full = MdState { code: Some(body), ..opened };
    assert(Seq::<Seq<char>>::empty() + body =~= body);
    assert(l1[n + 1] == close);
    let closed = MdState { blocks: seq![BlockV::Code(join(body, newline()))], code: None, ..opened };
    assert(md_step(l1, n + 1, full) == (n + 2, closed));
    assert(seq!['\n'] =~= newline());
    assert(finish(closed) =~= seq![BlockV::Code(join(body, seq!['\n']))]);
    assert(parse_from(l1, n + 2, closed) == finish(closed));
    assert(parse_from(l1, n + 1, full) == parse_from(l1, n + 2, closed));
    assert(parse_from(l1, 0, empty_state()) == parse_from(l1, 1, opened));
    // Left open at the end of the document.
    let l2 = seq![open] + body;
    assert(l2[0] == open);
    assert(md_step(l2, 0, empty_state()) == (1int, opened));
    assert forall|k: int| 1 <= k < n + 1 implies !is_fence_spec(trim_start(#[trigger] l2[k])) by {
        assert(l2[k] == body[k - 1]);
    }
    lemma_code_run(l2, 1, n + 1, opened);
    assert(l2.subrange(1, n + 1) =~= body);
    assert(finish(full) =~= seq![BlockV::Code(join(body, seq!['\n']))]);
    assert(parse_from(l2, n + 1, full) == finish(full));
    assert(parse_from(l2, 0, empty_state()) == parse_from(l2, 1, opened));
}

} // verus!
