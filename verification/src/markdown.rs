//! The subset of markdown that the scripting reference is written in, parsed into blocks.
//!
//! Supported: headings (`#`, `##`, `###`), fenced code blocks, table rows, notes (`> `),
//! bullets (`- `, `* `), horizontal rules, and inside bullets and paragraphs `inline code`
//! and **bold** spans. Blank lines become spacing.
use vstd::prelude::*;
use crate::text::{chars_of, lead_end_at, push_range, slice_chars, text_of, trim, trim_chars, trim_start};

verus! {

/// How a span of inline text is set.
#[derive(PartialEq, Eq, Structural, Clone, Copy, Debug)]
pub enum SpanKind {
    Plain,
    Code,
    Bold,
}

/// A span of inline text.
#[derive(Clone, Debug, PartialEq, Eq)]
pub struct Span {
    pub kind: SpanKind,
    pub text: String,
}

/// A block of the parsed text; `S` is the type of its text and `L` that of its inline spans.
#[derive(Clone, Debug, PartialEq, Eq)]
pub enum Block<S, L> {
    /// The lines of a fenced code block, joined by line feeds.
    Code(S),
    /// A blank line.
    Space,
    /// A horizontal rule.
    Rule,
    /// A heading of level 1 to 3 and its text.
    Heading(usize, S),
    /// A table row, as written.
    TableRow(S),
    /// A note (`> `) and its text.
    Note(S),
    /// A bullet and its spans.
    Bullet(L),
    /// A paragraph line and its spans.
    Paragraph(L),
}

/// A span as kind and characters.
pub open spec fn span_view(s: Span) -> (SpanKind, Seq<char>) {
    (s.kind, s.text@)
}

/// Spans as kinds and characters.
pub open spec fn spans_view(v: Seq<Span>) -> Seq<(SpanKind, Seq<char>)> {
    v.map_values(|s: Span| span_view(s))
}

/// A block with its texts as characters.
pub open spec fn block_view(b: Block<String, Vec<Span>>) -> Block<Seq<char>, Seq<(SpanKind, Seq<char>)>> {
    match b {
        Block::Code(s) => Block::Code(s@),
        Block::Space => Block::Space,
        Block::Rule => Block::Rule,
        Block::Heading(n, s) => Block::Heading(n, s@),
        Block::TableRow(s) => Block::TableRow(s@),
        Block::Note(s) => Block::Note(s@),
        Block::Bullet(l) => Block::Bullet(spans_view(l@)),
        Block::Paragraph(l) => Block::Paragraph(spans_view(l@)),
    }
}

/// Blocks with their texts as characters.
pub open spec fn blocks_view(v: Seq<Block<String, Vec<Span>>>) -> Seq<Block<Seq<char>, Seq<(SpanKind, Seq<char>)>>> {
    v.map_values(|b: Block<String, Vec<Span>>| block_view(b))
}

// ---------------------------------------------------------------------------------------------
// Inline spans
// ---------------------------------------------------------------------------------------------

/// The pending plain text `seg` as a span, if it is not empty.
pub open spec fn flush(seg: Seq<char>) -> Seq<(SpanKind, Seq<char>)> {
    if seg.len() == 0 {
        Seq::empty()
    } else {
        seq![(SpanKind::Plain, seg)]
    }
}

/// Index of the first backquote at or after `k`, or the end of the text.
pub open spec fn code_close(c: Seq<char>, k: int) -> int
    decreases c.len() - k,
{
    if k >= c.len() {
        c.len() as int
    } else if c[k] == '`' {
        k
    } else {
        code_close(c, k + 1)
    }
}

/// Index of the first `**` at or after `k`; when none follows, `k` or the index of the last
/// character, whichever is greater.
pub open spec fn bold_close(c: Seq<char>, k: int) -> int
    decreases c.len() - k,
{
    if k + 1 >= c.len() || (c[k] == '*' && c[k + 1] == '*') {
        k
    } else {
        bold_close(c, k + 1)
    }
}

/// `**` starts at `i`.
pub open spec fn bold_at(c: Seq<char>, i: int) -> bool {
    0 <= i && i + 1 < c.len() && c[i] == '*' && c[i + 1] == '*'
}

/// The spans of `c` from index `i` on, with the plain text `seg` pending before `i`.
pub open spec fn spans_from(c: Seq<char>, i: int, seg: Seq<char>) -> Seq<(SpanKind, Seq<char>)>
    decreases c.len() - i,
{
    if i < 0 || i >= c.len() {
        flush(seg)
    } else if c[i] == '`' {
        let e = code_close(c, i + 1);
        let next = if e < c.len() { e + 1 } else { e };
        if i < next <= c.len() {
            flush(seg) + seq![(SpanKind::Code, c.subrange(i + 1, e))] + spans_from(c, next, Seq::empty())
        } else {
            flush(seg)
        }
    } else if bold_at(c, i) {
        let e = bold_close(c, i + 2);
        let next = if e + 1 < c.len() { e + 2 } else { e };
        if i < next <= c.len() {
            flush(seg) + seq![(SpanKind::Bold, c.subrange(i + 2, e))] + spans_from(c, next, Seq::empty())
        } else {
            flush(seg)
        }
    } else {
        spans_from(c, i + 1, seg.push(c[i]))
    }
}

/// The inline spans of a line of text.
pub open spec fn inline_spans(c: Seq<char>) -> Seq<(SpanKind, Seq<char>)> {
    spans_from(c, 0, Seq::empty())
}

proof fn lemma_plain_from(c: Seq<char>, i: int, seg: Seq<char>)
    requires
        0 <= i <= c.len(),
        forall|j: int| 0 <= j < c.len() ==> c[j] != '`' && c[j] != '*',
    ensures
        spans_from(c, i, seg) == flush(seg + c.skip(i)),
    decreases c.len() - i,
{
    if i < c.len() {
        lemma_plain_from(c, i + 1, seg.push(c[i]));
        assert(seg.push(c[i]) + c.skip(i + 1) =~= seg + c.skip(i));
    } else {
        assert(seg + c.skip(i) =~= seg);
    }
}

/// A line without backquotes or asterisks is one plain span holding the whole line.
pub proof fn law_plain_line(c: Seq<char>)
    requires
        c.len() > 0,
        forall|j: int| 0 <= j < c.len() ==> c[j] != '`' && c[j] != '*',
    ensures
        inline_spans(c) == seq![(SpanKind::Plain, c)],
{
    lemma_plain_from(c, 0, Seq::empty());
    assert(Seq::<char>::empty() + c.skip(0) =~= c);
}

fn code_close_at(c: &Vec<char>, k0: usize) -> (r: usize)
    requires
        k0 <= c@.len(),
    ensures
        r == code_close(c@, k0 as int),
        k0 <= r <= c@.len(),
{
    let mut k = k0;
    while k < c.len() && c[k] != '`'
        invariant
            k0 <= k <= c@.len(),
            code_close(c@, k as int) == code_close(c@, k0 as int),
        decreases c@.len() - k,
    {
        k = k + 1;
    }
    k
}

fn bold_close_at(c: &Vec<char>, k0: usize) -> (r: usize)
    requires
        k0 <= c@.len(),
    ensures
        r == bold_close(c@, k0 as int),
        k0 <= r <= c@.len(),
{
    let mut k = k0;
    while k < c.len() && k < c.len() - 1 && !(c[k] == '*' && c[k + 1] == '*')
        invariant
            k0 <= k <= c@.len(),
            bold_close(c@, k as int) == bold_close(c@, k0 as int),
        decreases c@.len() - k,
    {
        k = k + 1;
    }
    k
}

/// Appends the pending plain text to `out` as a span, if it is not empty.
fn flush_into(out: &mut Vec<Span>, seg: &Vec<char>)
    ensures
        spans_view(final(out)@) == spans_view(old(out)@) + flush(seg@),
{
    if seg.len() > 0 {
        let text = text_of(slice_chars(seg, 0, seg.len()));
        out.push(Span { kind: SpanKind::Plain, text });
        proof {
            assert(seg@.subrange(0, seg@.len() as int) =~= seg@);
            assert(spans_view(out@) =~= spans_view(old(out)@) + flush(seg@));
        }
    } else {
        proof {
            assert(spans_view(out@) =~= spans_view(old(out)@) + flush(seg@));
        }
    }
}

/// Splits a line into plain, code and bold spans.
pub fn parse_inline(c: &Vec<char>) -> (r: Vec<Span>)
    ensures
        spans_view(r@) == inline_spans(c@),
{
    let mut out: Vec<Span> = Vec::new();
    let mut seg: Vec<char> = Vec::new();
    let mut i: usize = 0;
    let n = c.len();
    while i < n
        invariant
            n == c@.len(),
            i <= n,
            spans_view(out@) + spans_from(c@, i as int, seg@) == inline_spans(c@),
        decreases n - i,
    {
        if c[i] == '`' {
            let e = code_close_at(c, i + 1);
            let next = if e < n { e + 1 } else { e };
            let ghost before = spans_view(out@);
            flush_into(&mut out, &seg);
            let text = text_of(slice_chars(c, i + 1, e));
            out.push(Span { kind: SpanKind::Code, text });
            proof {
                assert(spans_view(out@) =~= before + flush(seg@) + seq![(SpanKind::Code, c@.subrange(i + 1, e as int))]);
            }
            seg = Vec::new();
            i = next;
        } else if i + 1 < n && c[i] == '*' && c[i + 1] == '*' {
            let e = bold_close_at(c, i + 2);
            let next = if e < n - 1 { e + 2 } else { e };
            let ghost before = spans_view(out@);
            flush_into(&mut out, &seg);
            let text = text_of(slice_chars(c, i + 2, e));
            out.push(Span { kind: SpanKind::Bold, text });
            proof {
                assert(spans_view(out@) =~= before + flush(seg@) + seq![(SpanKind::Bold, c@.subrange(i + 2, e as int))]);
            }
            seg = Vec::new();
            i = next;
        } else {
            seg.push(c[i]);
            i = i + 1;
        }
    }
    let ghost before = spans_view(out@);
    flush_into(&mut out, &seg);
    out
}

// ---------------------------------------------------------------------------------------------
// Lines and white space
// ---------------------------------------------------------------------------------------------

/// `l` without one carriage return at its end.
pub open spec fn strip_cr(l: Seq<char>) -> Seq<char> {
    if l.len() > 0 && l.last() == '\r' {
        l.drop_last()
    } else {
        l
    }
}

/// The lines of `c` from index `i` on, `cur` being the part of the current line before `i`.
/// A line ends at a line feed, which is dropped together with a carriage return before it;
/// a line feed at the very end starts no further line.
pub open spec fn lines_from(c: Seq<char>, i: int, cur: Seq<char>) -> Seq<Seq<char>>
    decreases c.len() - i,
{
    if i < 0 || i >= c.len() {
        if cur.len() == 0 {
            Seq::empty()
        } else {
            seq![cur]
        }
    } else if c[i] == '\n' {
        seq![strip_cr(cur)] + lines_from(c, i + 1, Seq::empty())
    } else {
        lines_from(c, i + 1, cur.push(c[i]))
    }
}

/// The lines of a text, as `str::lines` gives them.
pub open spec fn text_lines(c: Seq<char>) -> Seq<Seq<char>> {
    lines_from(c, 0, Seq::empty())
}

/// `cur` without one carriage return at its end.
fn strip_cr_chars(cur: Vec<char>) -> (r: Vec<char>)
    ensures
        r@ == strip_cr(cur@),
{
    let mut cur = cur;
    if cur.len() > 0 && cur[cur.len() - 1] == '\r' {
        cur.pop();
    }
    cur
}

/// The lines of a text, as `str::lines` gives them.
pub fn split_lines(c: &Vec<char>) -> (r: Vec<Vec<char>>)
    ensures
        r@.map_values(|l: Vec<char>| l@) == text_lines(c@),
{
    let mut r: Vec<Vec<char>> = Vec::new();
    let mut cur: Vec<char> = Vec::new();
    let mut i: usize = 0;
    let n = c.len();
    while i < n
        invariant
            n == c@.len(),
            i <= n,
            r@.map_values(|l: Vec<char>| l@) + lines_from(c@, i as int, cur@) == text_lines(c@),
        decreases n - i,
    {
        if c[i] == '\n' {
            let ghost before = r@.map_values(|l: Vec<char>| l@);
            let line = strip_cr_chars(cur);
            r.push(line);
            proof {
                assert(r@.map_values(|l: Vec<char>| l@) =~= before.push(line@));
                assert(before.push(line@) + lines_from(c@, i + 1, Seq::empty())
                    =~= before + (seq![line@] + lines_from(c@, i + 1, Seq::empty())));
            }
            cur = Vec::new();
        } else {
            cur.push(c[i]);
        }
        i = i + 1;
    }
    if cur.len() > 0 {
        let ghost before = r@.map_values(|l: Vec<char>| l@);
        r.push(cur);
        proof {
            assert(r@.map_values(|l: Vec<char>| l@) =~= before + seq![cur@]);
        }
    } else {
        proof {
            assert(r@.map_values(|l: Vec<char>| l@) =~= r@.map_values(|l: Vec<char>| l@) + Seq::<Seq<char>>::empty());
        }
    }
    r
}

// ---------------------------------------------------------------------------------------------
// Blocks
// ---------------------------------------------------------------------------------------------

/// The line opens or closes a code block: after its leading white space come three backquotes.
pub open spec fn is_fence(line: Seq<char>) -> bool {
    let t = trim_start(line);
    t.len() >= 3 && t[0] == '`' && t[1] == '`' && t[2] == '`'
}

/// `---`, `***` or `___`.
pub open spec fn is_rule(t: Seq<char>) -> bool {
    t.len() == 3 && t[0] == t[1] && t[1] == t[2] && (t[0] == '-' || t[0] == '*' || t[0] == '_')
}

/// `t` starts with `n` number signs and a space.
pub open spec fn heading_mark(t: Seq<char>, n: int) -> bool {
    t.len() >= n + 1 && t[n] == ' ' && forall|j: int| 0 <= j < n ==> t[j] == '#'
}

/// `t` starts with `m` and a space.
pub open spec fn marker(t: Seq<char>, m: char) -> bool {
    t.len() >= 2 && t[0] == m && t[1] == ' '
}

/// Three hyphens start at index `j` of `t`.
pub open spec fn dashes_at(t: Seq<char>, j: int) -> bool {
    0 <= j && j + 2 < t.len() && t[j] == '-' && t[j + 1] == '-' && t[j + 2] == '-'
}

/// `t` holds three hyphens in a row.
pub open spec fn has_dashes(t: Seq<char>) -> bool {
    exists|j: int| #[trigger] dashes_at(t, j)
}

/// A table line holding three hyphens in a row anywhere is a separator row and gives no
/// block; any other table line is shown whole as a table row.
pub proof fn law_table_lines(t: Seq<char>)
    requires
        t.len() > 0,
        t[0] == '|',
    ensures
        (exists|j: int| #![trigger t[j]] 0 <= j && j + 3 <= t.len() && t[j] == '-' && t[j + 1] == '-' && t[j + 2] == '-')
            ==> classify(t) is None,
        (forall|j: int| #![trigger t[j]] 0 <= j && j + 3 <= t.len() ==> !(t[j] == '-' && t[j + 1] == '-' && t[j + 2] == '-'))
            ==> classify(t) == Some(Block::<Seq<char>, Seq<(SpanKind, Seq<char>)>>::TableRow(t)),
{
    if exists|j: int| #![trigger t[j]] 0 <= j && j + 3 <= t.len() && t[j] == '-' && t[j + 1] == '-' && t[j + 2] == '-' {
        let j = choose|j: int| #![trigger t[j]] 0 <= j && j + 3 <= t.len() && t[j] == '-' && t[j + 1] == '-' && t[j + 2] == '-';
        assert(dashes_at(t, j));
    }
    if has_dashes(t) {
        let j = choose|j: int| #[trigger] dashes_at(t, j);
        assert(0 <= j && j + 3 <= t.len() && t[j] == '-' && t[j + 1] == '-' && t[j + 2] == '-');
    }
}

/// The block of a trimmed line outside code blocks; `None` for the separator row of a table.
pub open spec fn classify(t: Seq<char>) -> Option<Block<Seq<char>, Seq<(SpanKind, Seq<char>)>>> {
    if t.len() == 0 {
        Some(Block::Space)
    } else if is_rule(t) {
        Some(Block::Rule)
    } else if heading_mark(t, 3) {
        Some(Block::Heading(3, t.skip(4)))
    } else if heading_mark(t, 2) {
        Some(Block::Heading(2, t.skip(3)))
    } else if heading_mark(t, 1) {
        Some(Block::Heading(1, t.skip(2)))
    } else if t[0] == '|' {
        if has_dashes(t) {
            None
        } else {
            Some(Block::TableRow(t))
        }
    } else if marker(t, '>') {
        Some(Block::Note(t.skip(2)))
    } else if marker(t, '-') || marker(t, '*') {
        Some(Block::Bullet(inline_spans(t.skip(2))))
    } else {
        Some(Block::Paragraph(inline_spans(t)))
    }
}

/// The code block text `code` with `line` added.
pub open spec fn code_with(code: Seq<char>, line: Seq<char>) -> Seq<char> {
    if code.len() == 0 {
        line
    } else {
        code + seq!['\n'] + line
    }
}

/// The blocks of `lines` from line `k` on; `in_code` tells whether a code block is open, whose
/// text so far is `code`. A code block left open at the end is dropped.
pub open spec fn blocks_from(lines: Seq<Seq<char>>, k: int, in_code: bool, code: Seq<char>) -> Seq<Block<Seq<char>, Seq<(SpanKind, Seq<char>)>>>
    decreases lines.len() - k,
{
    if k < 0 || k >= lines.len() {
        Seq::empty()
    } else if is_fence(lines[k]) {
        if in_code {
            seq![Block::Code(code)] + blocks_from(lines, k + 1, false, Seq::empty())
        } else {
            blocks_from(lines, k + 1, true, code)
        }
    } else if in_code {
        blocks_from(lines, k + 1, true, code_with(code, lines[k]))
    } else {
        match classify(trim(lines[k])) {
            Some(b) => seq![b] + blocks_from(lines, k + 1, false, code),
            None => blocks_from(lines, k + 1, false, code),
        }
    }
}

/// The blocks of a markdown text.
pub open spec fn markdown_blocks(md: Seq<char>) -> Seq<Block<Seq<char>, Seq<(SpanKind, Seq<char>)>>> {
    blocks_from(text_lines(md), 0, false, Seq::empty())
}

/// A block, if any, with its texts as characters.
pub open spec fn option_block_view(b: Option<Block<String, Vec<Span>>>) -> Option<Block<Seq<char>, Seq<(SpanKind, Seq<char>)>>> {
    match b {
        Some(x) => Some(block_view(x)),
        None => None,
    }
}

fn fence_line(line: &Vec<char>) -> (r: bool)
    ensures
        r == is_fence(line@),
{
    let a = lead_end_at(line, 0);
    a < line.len() && line.len() - a >= 3 && line[a] == '`' && line[a + 1] == '`' && line[a + 2] == '`'
}

fn heading_mark_at(t: &Vec<char>, n: usize) -> (r: bool)
    requires
        1 <= n <= 3,
    ensures
        r == heading_mark(t@, n as int),
{
    if t.len() < n + 1 || t[n] != ' ' {
        return false;
    }
    let mut j: usize = 0;
    while j < n
        invariant
            j <= n < t@.len(),
            forall|i: int| 0 <= i < j ==> t@[i] == '#',
        decreases n - j,
    {
        if t[j] != '#' {
            return false;
        }
        j = j + 1;
    }
    true
}

fn has_dashes_in(t: &Vec<char>) -> (r: bool)
    ensures
        r == has_dashes(t@),
{
    let mut j: usize = 0;
    while j < t.len() && t.len() - j > 2
        invariant
            forall|i: int| 0 <= i < j ==> !#[trigger] dashes_at(t@, i),
        decreases t@.len() - j,
    {
        if t[j] == '-' && t[j + 1] == '-' && t[j + 2] == '-' {
            assert(dashes_at(t@, j as int));
            return true;
        }
        j = j + 1;
    }
    false
}

/// The characters of `t` from index `k` on.
fn chars_from(t: &Vec<char>, k: usize) -> (r: Vec<char>)
    requires
        k <= t@.len(),
    ensures
        r@ == t@.skip(k as int),
{
    let r = slice_chars(t, k, t.len());
    proof {
        assert(t@.subrange(k as int, t@.len() as int) =~= t@.skip(k as int));
    }
    r
}

/// The block of a trimmed line outside code blocks; `None` for the separator row of a table.
pub fn classify_line(t: &Vec<char>) -> (r: Option<Block<String, Vec<Span>>>)
    ensures
        option_block_view(r) == classify(t@),
{
    let n = t.len();
    if n == 0 {
        Some(Block::Space)
    } else if n == 3 && t[0] == t[1] && t[1] == t[2] && (t[0] == '-' || t[0] == '*' || t[0] == '_') {
        Some(Block::Rule)
    } else if heading_mark_at(t, 3) {
        Some(Block::Heading(3, text_of(chars_from(t, 4))))
    } else if heading_mark_at(t, 2) {
        Some(Block::Heading(2, text_of(chars_from(t, 3))))
    } else if heading_mark_at(t, 1) {
        Some(Block::Heading(1, text_of(chars_from(t, 2))))
    } else if t[0] == '|' {
        if has_dashes_in(t) {
            None
        } else {
            let row = slice_chars(t, 0, n);
            assert(row@ =~= t@);
            Some(Block::TableRow(text_of(row)))
        }
    } else if n >= 2 && t[0] == '>' && t[1] == ' ' {
        Some(Block::Note(text_of(chars_from(t, 2))))
    } else if n >= 2 && (t[0] == '-' || t[0] == '*') && t[1] == ' ' {
        let rest = chars_from(t, 2);
        Some(Block::Bullet(parse_inline(&rest)))
    } else {
        Some(Block::Paragraph(parse_inline(t)))
    }
}

/// Parses a markdown text into blocks.
pub fn parse_markdown(md: &str) -> (r: Vec<Block<String, Vec<Span>>>)
    ensures
        blocks_view(r@) == markdown_blocks(md@),
{
    let c = chars_of(md);
    let lines = split_lines(&c);
    let ghost ls = lines@.map_values(|l: Vec<char>| l@);
    let mut out: Vec<Block<String, Vec<Span>>> = Vec::new();
    let mut in_code = false;
    let mut code: Vec<char> = Vec::new();
    let mut k: usize = 0;
    while k < lines.len()
        invariant
            ls == lines@.map_values(|l: Vec<char>| l@),
            ls == text_lines(md@),
            k <= lines@.len(),
            blocks_view(out@) + blocks_from(ls, k as int, in_code, code@) == markdown_blocks(md@),
        decreases lines@.len() - k,
    {
        let line = &lines[k];
        assert(ls[k as int] == line@);
        let ghost before = blocks_view(out@);
        if fence_line(line) {
            if in_code {
                let text = text_of(slice_chars(&code, 0, code.len()));
                out.push(Block::Code(text));
                proof {
                    assert(code@.subrange(0, code@.len() as int) =~= code@);
                    assert(blocks_view(out@) =~= before.push(Block::Code(code@)));
                    assert(before.push(Block::Code(code@)) + blocks_from(ls, k + 1, false, Seq::empty())
                        =~= before + (seq![Block::Code(code@)] + blocks_from(ls, k + 1, false, Seq::empty())));
                }
                code = Vec::new();
                in_code = false;
            } else {
                in_code = true;
            }
        } else if in_code {
            let ghost old_code = code@;
            if code.len() > 0 {
                code.push('\n');
            }
            push_range(&mut code, line, 0, line.len());
            proof {
                assert(line@.subrange(0, line@.len() as int) =~= line@);
                assert(code@ =~= code_with(old_code, line@));
            }
        } else {
            let t = trim_chars(line);
            match classify_line(&t) {
                Some(b) => {
                    out.push(b);
                    proof {
                        assert(blocks_view(out@) =~= before.push(block_view(b)));
                        assert(before.push(block_view(b)) + blocks_from(ls, k + 1, false, code@)
                            =~= before + (seq![block_view(b)] + blocks_from(ls, k + 1, false, code@)));
                    }
                },
                None => {},
            }
        }
        k = k + 1;
    }
    out
}

} // verus!
