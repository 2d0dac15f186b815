use vstd::prelude::*;
use crate::bytes::{
    count_byte, count_byte_in, count_leading, find_byte, find_first_not, find_first_not_at,
    find_byte_at, is_blank, is_blank_line, lemma_find_byte, lemma_find_byte_skip,
    lemma_find_first_not, split_lines, split_lines_vec, subrange_vec, trim_spaces,
    trim_spaces_vec, append_bytes,
};
use crate::inline::{Inline, InlineV, runs_view, scan_line, scan_line_spec};

verus! {

// ---------------------------------------------------------------------------
// The document model
// ---------------------------------------------------------------------------

/// A block that carries no nested blocks.
pub enum LeafBlock {
    Header { level: usize, spans: Vec<Inline> },
    Paragraph { spans: Vec<Inline> },
    CodeBlock { lang: Vec<u8>, lines: Vec<Vec<u8>> },
    List { ordered: bool, items: Vec<Vec<Inline>> },
    Rule,
    Table { rows: Vec<Vec<Vec<Inline>>> },
}

/// Mathematical model of a leaf block.
#[verifier::ext_equal]
pub enum LeafV {
    Header { level: int, spans: Seq<InlineV> },
    Paragraph { spans: Seq<InlineV> },
    CodeBlock { lang: Seq<u8>, lines: Seq<Seq<u8>> },
    List { ordered: bool, items: Seq<Seq<InlineV>> },
    Rule,
    Table { rows: Seq<Seq<Seq<InlineV>>> },
}

pub open spec fn items_view(items: Seq<Vec<Inline>>) -> Seq<Seq<InlineV>> {
    items.map_values(|it: Vec<Inline>| runs_view(it@))
}

pub open spec fn rows_view(rows: Seq<Vec<Vec<Inline>>>) -> Seq<Seq<Seq<InlineV>>> {
    rows.map_values(|r: Vec<Vec<Inline>>| items_view(r@))
}

pub open spec fn raw_lines_view(ls: Seq<Vec<u8>>) -> Seq<Seq<u8>> {
    ls.map_values(|l: Vec<u8>| l@)
}

impl View for LeafBlock {
    type V = LeafV;

    open spec fn view(&self) -> LeafV {
        match self {
            LeafBlock::Header { level, spans } =>
                LeafV::Header { level: *level as int, spans: runs_view(spans@) },
            LeafBlock::Paragraph { spans } =>
                LeafV::Paragraph { spans: runs_view(spans@) },
            LeafBlock::CodeBlock { lang, lines } =>
                LeafV::CodeBlock { lang: lang@, lines: raw_lines_view(lines@) },
            LeafBlock::List { ordered, items } =>
                LeafV::List { ordered: *ordered, items: items_view(items@) },
            LeafBlock::Rule => LeafV::Rule,
            LeafBlock::Table { rows } => LeafV::Table { rows: rows_view(rows@) },
        }
    }
}

/// A top-level block: a leaf, or a quote holding leaves at a nesting depth.
/// Nested quotes are modeled by their depth: `> > text` is a quote of depth
/// two.
pub enum Block {
    Leaf(LeafBlock),
    Quote { depth: usize, content: Vec<LeafBlock> },
}

/// Mathematical model of a block.
#[verifier::ext_equal]
pub enum BlockV {
    Leaf(LeafV),
    Quote { depth: int, content: Seq<LeafV> },
}

pub open spec fn leaves_view(ls: Seq<LeafBlock>) -> Seq<LeafV> {
    ls.map_values(|l: LeafBlock| l@)
}

impl View for Block {
    type V = BlockV;

    open spec fn view(&self) -> BlockV {
        match self {
            Block::Leaf(l) => BlockV::Leaf(l@),
            Block::Quote { depth, content } =>
                BlockV::Quote { depth: *depth as int, content: leaves_view(content@) },
        }
    }
}

/// A parsed Markdown document: its top-level blocks in order.
pub struct Document {
    pub blocks: Vec<Block>,
}

pub open spec fn blocks_view(bs: Seq<Block>) -> Seq<BlockV> {
    bs.map_values(|b: Block| b@)
}

impl View for Document {
    type V = Seq<BlockV>;

    open spec fn view(&self) -> Seq<BlockV> {
        blocks_view(self.blocks@)
    }
}

// ---------------------------------------------------------------------------
// Line classification
// ---------------------------------------------------------------------------

/// Header level of a line: the number of leading `#` when it is 1 to 6 and a
/// space follows; 0 otherwise.
pub open spec fn header_level(l: Seq<u8>) -> int {
    let k = count_leading(l, 35u8);
    if 1 <= k <= 6 && k < l.len() && l[k] == 32u8 { k } else { 0 }
}

/// A fence opens or closes a code block: three or more leading backticks.
pub open spec fn fence_len(l: Seq<u8>) -> int {
    count_leading(l, 96u8)
}

pub open spec fn is_fence(l: Seq<u8>) -> bool {
    fence_len(l) >= 3
}

/// Removes one quote marker: the leading `>` and one following space.
pub open spec fn strip_quote_one(l: Seq<u8>) -> Seq<u8> {
    if l.len() > 1 && l[1] == 32u8 { l.skip(2) } else { l.skip(1) }
}

/// Quote nesting depth of a line: the number of leading `>` markers.
pub open spec fn quote_depth(l: Seq<u8>) -> int
    decreases l.len()
{
    if l.len() > 0 && l[0] == 62u8 {
        1 + quote_depth(strip_quote_one(l))
    } else {
        0
    }
}

/// The line with all its quote markers removed.
pub open spec fn strip_quote_all(l: Seq<u8>) -> Seq<u8>
    decreases l.len()
{
    if l.len() > 0 && l[0] == 62u8 {
        strip_quote_all(strip_quote_one(l))
    } else {
        l
    }
}

/// An unordered list item starts with `-`, `*` or `+` and a space.
pub open spec fn is_bullet(l: Seq<u8>) -> bool {
    l.len() >= 2 && (l[0] == 45u8 || l[0] == 42u8 || l[0] == 43u8) && l[1] == 32u8
}

/// First index that is not a decimal digit.
pub open spec fn digit_run(l: Seq<u8>, i: int) -> int
    decreases l.len() - i when 0 <= i <= l.len()
{
    if i >= l.len() {
        l.len() as int
    } else if 48 <= l[i] <= 57 {
        digit_run(l, i + 1)
    } else {
        i
    }
}

/// An ordered list item starts with one or more digits, a dot and a space;
/// this gives the number of digits, or 0 when the line is no such item.
pub open spec fn ordered_digits(l: Seq<u8>) -> int {
    let k = digit_run(l, 0);
    if 1 <= k && k + 1 < l.len() && l[k] == 46u8 && l[k + 1] == 32u8 { k } else { 0 }
}

/// A horizontal rule: three or more of one of `-`, `*`, `_`, with only spaces
/// between them and nothing else.
pub open spec fn is_rule_line(l: Seq<u8>) -> bool {
    let a = find_first_not(l, 0, 32u8);
    a < l.len() && (l[a] == 45u8 || l[a] == 42u8 || l[a] == 95u8)
        && (forall|i: int| 0 <= i < l.len() ==> l[i] == l[a] || l[i] == 32u8)
        && count_byte(l, l[a]) >= 3
}

pub open spec fn starts_pipe(l: Seq<u8>) -> bool {
    l.len() > 0 && l[0] == 124u8
}

/// The separator row under a table header: dashes, colons, pipes and spaces,
/// with at least one dash.
pub open spec fn is_table_sep(l: Seq<u8>) -> bool {
    l.len() > 0
        && (forall|i: int| 0 <= i < l.len() ==> l[i] == 45u8 || l[i] == 58u8 || l[i] == 124u8 || l[i] == 32u8)
        && count_byte(l, 45u8) >= 1
}

/// A paragraph ends before a blank line or any line that opens another block.
pub open spec fn para_break(lines: Seq<Seq<u8>>, i: int) -> bool {
    is_blank_line(lines[i]) || header_level(lines[i]) > 0 || is_fence(lines[i])
        || is_rule_line(lines[i]) || is_bullet(lines[i]) || ordered_digits(lines[i]) > 0
        || quote_depth(lines[i]) >= 1
        || (starts_pipe(lines[i]) && i + 1 < lines.len() && is_table_sep(lines[i + 1]))
}

// ---------------------------------------------------------------------------
// Extents of multi-line groups
// ---------------------------------------------------------------------------

/// First line at or after `i` that closes a fence; `lines.len()` when none
/// does.
pub open spec fn fence_end(lines: Seq<Seq<u8>>, i: int) -> int
    decreases lines.len() - i when 0 <= i <= lines.len()
{
    if i >= lines.len() {
        lines.len() as int
    } else if is_fence(lines[i]) {
        i
    } else {
        fence_end(lines, i + 1)
    }
}

pub proof fn lemma_fence_end(lines: Seq<Seq<u8>>, i: int)
    requires
        0 <= i <= lines.len(),
    ensures
        i <= fence_end(lines, i) <= lines.len(),
        fence_end(lines, i) < lines.len() ==> is_fence(lines[fence_end(lines, i)]),
    decreases lines.len() - i,
{
    if i < lines.len() && !is_fence(lines[i]) {
        lemma_fence_end(lines, i + 1);
    }
}

/// End of a run of lines with quote depth exactly `d`.
pub open spec fn quote_run_end(lines: Seq<Seq<u8>>, i: int, d: int) -> int
    decreases lines.len() - i when 0 <= i <= lines.len()
{
    if i >= lines.len() {
        lines.len() as int
    } else if quote_depth(lines[i]) != d {
        i
    } else {
        quote_run_end(lines, i + 1, d)
    }
}

pub proof fn lemma_quote_run_end(lines: Seq<Seq<u8>>, i: int, d: int)
    requires
        0 <= i <= lines.len(),
    ensures
        i <= quote_run_end(lines, i, d) <= lines.len(),
        forall|k: int| i <= k < quote_run_end(lines, i, d) ==> quote_depth(lines[k]) == d,
    decreases lines.len() - i,
{
    if i < lines.len() && quote_depth(lines[i]) == d {
        lemma_quote_run_end(lines, i + 1, d);
    }
}

/// End of a run of unordered list items.
pub open spec fn bullet_end(lines: Seq<Seq<u8>>, i: int) -> int
    decreases lines.len() - i when 0 <= i <= lines.len()
{
    if i >= lines.len() {
        lines.len() as int
    } else if !is_bullet(lines[i]) {
        i
    } else {
        bullet_end(lines, i + 1)
    }
}

pub proof fn lemma_bullet_end(lines: Seq<Seq<u8>>, i: int)
    requires
        0 <= i <= lines.len(),
    ensures
        i <= bullet_end(lines, i) <= lines.len(),
        forall|k: int| i <= k < bullet_end(lines, i) ==> is_bullet(lines[k]),
    decreases lines.len() - i,
{
    if i < lines.len() && is_bullet(lines[i]) {
        lemma_bullet_end(lines, i + 1);
    }
}

/// End of a run of ordered list items.
pub open spec fn ordered_end(lines: Seq<Seq<u8>>, i: int) -> int
    decreases lines.len() - i when 0 <= i <= lines.len()
{
    if i >= lines.len() {
        lines.len() as int
    } else if ordered_digits(lines[i]) == 0 {
        i
    } else {
        ordered_end(lines, i + 1)
    }
}

pub proof fn lemma_ordered_end(lines: Seq<Seq<u8>>, i: int)
    requires
        0 <= i <= lines.len(),
    ensures
        i <= ordered_end(lines, i) <= lines.len(),
        forall|k: int| i <= k < ordered_end(lines, i) ==> ordered_digits(lines[k]) > 0,
    decreases lines.len() - i,
{
    if i < lines.len() && ordered_digits(lines[i]) != 0 {
        lemma_ordered_end(lines, i + 1);
    }
}

/// End of a run of table rows.
pub open spec fn table_end(lines: Seq<Seq<u8>>, i: int) -> int
    decreases lines.len() - i when 0 <= i <= lines.len()
{
    if i >= lines.len() {
        lines.len() as int
    } else if !starts_pipe(lines[i]) {
        i
    } else {
        table_end(lines, i + 1)
    }
}

pub proof fn lemma_table_end(lines: Seq<Seq<u8>>, i: int)
    requires
        0 <= i <= lines.len(),
    ensures
        i <= table_end(lines, i) <= lines.len(),
        forall|k: int| i <= k < table_end(lines, i) ==> starts_pipe(lines[k]),
    decreases lines.len() - i,
{
    if i < lines.len() && starts_pipe(lines[i]) {
        lemma_table_end(lines, i + 1);
    }
}

/// End of a paragraph group.
pub open spec fn para_end(lines: Seq<Seq<u8>>, i: int) -> int
    decreases lines.len() - i when 0 <= i <= lines.len()
{
    if i >= lines.len() {
        lines.len() as int
    } else if para_break(lines, i) {
        i
    } else {
        para_end(lines, i + 1)
    }
}

pub proof fn lemma_para_end(lines: Seq<Seq<u8>>, i: int)
    requires
        0 <= i <= lines.len(),
    ensures
        i <= para_end(lines, i) <= lines.len(),
    decreases lines.len() - i,
{
    if i < lines.len() && !para_break(lines, i) {
        lemma_para_end(lines, i + 1);
    }
}

// ---------------------------------------------------------------------------
// Joining and cell splitting
// ---------------------------------------------------------------------------

/// Lines joined by a single separator byte: a soft line break collapses to a
/// space.
pub open spec fn join_with(ls: Seq<Seq<u8>>, sep: u8) -> Seq<u8>
    decreases ls.len()
{
    if ls.len() == 0 {
        Seq::empty()
    } else if ls.len() == 1 {
        ls[0]
    } else {
        ls[0] + seq![sep] + join_with(ls.drop_first(), sep)
    }
}

pub proof fn lemma_join_push(ls: Seq<Seq<u8>>, x: Seq<u8>, sep: u8)
    requires
        ls.len() >= 1,
    ensures
        join_with(ls.push(x), sep) == join_with(ls, sep) + seq![sep] + x,
    decreases ls.len(),
{
    if ls.len() == 1 {
        reveal_with_fuel(join_with, 3);
        assert(ls.push(x).drop_first() =~= seq![x]);
        assert(join_with(ls.push(x), sep) =~= join_with(ls, sep) + seq![sep] + x);
    } else {
        assert(ls.push(x).drop_first() =~= ls.drop_first().push(x));
        lemma_join_push(ls.drop_first(), x, sep);
        assert(join_with(ls.push(x), sep) =~= join_with(ls, sep) + seq![sep] + x);
    }
}

/// The segments of `t` between occurrences of `b`.
pub open spec fn split_on(t: Seq<u8>, b: u8) -> Seq<Seq<u8>>
    decreases t.len()
    via split_on_dec
{
    let j = find_byte(t, 0, b);
    if j == t.len() {
        seq![t]
    } else {
        seq![t.take(j)] + split_on(t.skip(j + 1), b)
    }
}

#[via_fn]
proof fn split_on_dec(t: Seq<u8>, b: u8) {
    lemma_find_byte(t, 0, b);
}

/// The cells of a table row: the `|`-separated segments, outer empty segments
/// dropped, each trimmed and inline-scanned.
pub open spec fn row_cells(l: Seq<u8>) -> Seq<Seq<InlineV>> {
    let segs = split_on(l, 124u8);
    let a = if starts_pipe(l) { 1int } else { 0int };
    let b = if l.len() > 0 && l.last() == 124u8 { segs.len() - 1 } else { segs.len() as int };
    if a <= b {
        segs.subrange(a, b).map_values(|s: Seq<u8>| scan_line_spec(trim_spaces(s)))
    } else {
        seq![]
    }
}

// ---------------------------------------------------------------------------
// The parser
// ---------------------------------------------------------------------------

/// The leaf block opening at non-blank line `i`, and the index of the first
/// line after it.
pub open spec fn next_leaf(lines: Seq<Seq<u8>>, i: int) -> (LeafV, int)
    recommends
        0 <= i < lines.len(),
{
    let l = lines[i];
    if header_level(l) > 0 {
        (LeafV::Header {
            level: header_level(l),
            spans: scan_line_spec(l.skip(header_level(l) + 1)),
        }, i + 1)
    } else if is_fence(l) {
        let j = fence_end(lines, i + 1);
        (LeafV::CodeBlock {
            lang: trim_spaces(l.skip(fence_len(l))),
            lines: lines.subrange(i + 1, j),
        }, if j < lines.len() { j + 1 } else { j })
    } else if is_rule_line(l) {
        (LeafV::Rule, i + 1)
    } else if is_bullet(l) {
        let j = bullet_end(lines, i);
        (LeafV::List {
            ordered: false,
            items: Seq::new((j - i) as nat, |k: int| scan_line_spec(lines[i + k].skip(2))),
        }, j)
    } else if ordered_digits(l) > 0 {
        let j = ordered_end(lines, i);
        (LeafV::List {
            ordered: true,
            items: Seq::new((j - i) as nat,
                |k: int| scan_line_spec(lines[i + k].skip(ordered_digits(lines[i + k]) + 2))),
        }, j)
    } else if starts_pipe(l) && i + 1 < lines.len() && is_table_sep(lines[i + 1]) {
        let j = table_end(lines, i + 2);
        (LeafV::Table {
            rows: seq![row_cells(l)]
                + Seq::new((j - (i + 2)) as nat, |k: int| row_cells(lines[i + 2 + k])),
        }, j)
    } else {
        let j = para_end(lines, i + 1);
        (LeafV::Paragraph {
            spans: scan_line_spec(join_with(lines.subrange(i, j), 32u8)),
        }, j)
    }
}

pub proof fn lemma_next_leaf_bounds(lines: Seq<Seq<u8>>, i: int)
    requires
        0 <= i < lines.len(),
    ensures
        i < next_leaf(lines, i).1 <= lines.len(),
{
    let l = lines[i];
    if header_level(l) > 0 {
    } else if is_fence(l) {
        lemma_fence_end(lines, i + 1);
    } else if is_rule_line(l) {
    } else if is_bullet(l) {
        lemma_bullet_end(lines, i + 1);
    } else if ordered_digits(l) > 0 {
        lemma_ordered_end(lines, i + 1);
    } else if starts_pipe(l) && i + 1 < lines.len() && is_table_sep(lines[i + 1]) {
        lemma_table_end(lines, i + 2);
    } else {
        lemma_para_end(lines, i + 1);
    }
}

/// The leaf blocks of a line range that holds no quote markers; blank lines
/// separate blocks and are skipped.
pub open spec fn parse_leaves(lines: Seq<Seq<u8>>, i: int) -> Seq<LeafV>
    decreases lines.len() - i when 0 <= i <= lines.len()
    via parse_leaves_dec
{
    if i >= lines.len() {
        seq![]
    } else if is_blank_line(lines[i]) {
        parse_leaves(lines, i + 1)
    } else {
        let step = next_leaf(lines, i);
        seq![step.0] + parse_leaves(lines, step.1)
    }
}

#[via_fn]
proof fn parse_leaves_dec(lines: Seq<Seq<u8>>, i: int) {
    if 0 <= i < lines.len() && !is_blank_line(lines[i]) {
        lemma_next_leaf_bounds(lines, i);
    }
}

/// The blocks of a document, parsed from line `i` on. A run of lines at one
/// quote depth becomes one quote block whose markers are stripped and whose
/// content is parsed as leaves; anything else is a leaf block.
pub open spec fn parse_from(lines: Seq<Seq<u8>>, i: int) -> Seq<BlockV>
    decreases lines.len() - i when 0 <= i <= lines.len()
    via parse_from_dec
{
    if i >= lines.len() {
        seq![]
    } else if is_blank_line(lines[i]) {
        parse_from(lines, i + 1)
    } else if quote_depth(lines[i]) >= 1 {
        let d = quote_depth(lines[i]);
        let j = quote_run_end(lines, i, d);
        let stripped = Seq::new((j - i) as nat, |k: int| strip_quote_all(lines[i + k]));
        seq![BlockV::Quote { depth: d, content: parse_leaves(stripped, 0) }]
            + parse_from(lines, j)
    } else {
        let step = next_leaf(lines, i);
        seq![BlockV::Leaf(step.0)] + parse_from(lines, step.1)
    }
}

#[via_fn]
proof fn parse_from_dec(lines: Seq<Seq<u8>>, i: int) {
    if 0 <= i < lines.len() && !is_blank_line(lines[i]) {
        if quote_depth(lines[i]) >= 1 {
            let d = quote_depth(lines[i]);
            lemma_quote_run_end(lines, i + 1, d);
        } else {
            lemma_next_leaf_bounds(lines, i);
        }
    }
}

/// The parsed model of a document text.
pub open spec fn parse_doc_spec(t: Seq<u8>) -> Seq<BlockV> {
    parse_from(split_lines(t), 0)
}

// ---------------------------------------------------------------------------
// Executable classifiers
// ---------------------------------------------------------------------------

pub fn header_level_exec(l: &Vec<u8>) -> (r: usize)
    ensures
        r as int == header_level(l@),
{
    let k = find_first_not_at(l, 0, 35);
    proof {
        lemma_find_first_not(l@, 0, 35u8);
    }
    if 1 <= k && k <= 6 && k < l.len() && l[k] == 32 {
        k
    } else {
        0
    }
}

pub fn fence_len_exec(l: &Vec<u8>) -> (r: usize)
    ensures
        r as int == fence_len(l@),
{
    find_first_not_at(l, 0, 96)
}

pub fn is_fence_exec(l: &Vec<u8>) -> (r: bool)
    ensures
        r == is_fence(l@),
{
    fence_len_exec(l) >= 3
}

/// Quote depth of a line, and the line with its quote markers stripped.
pub fn quote_info(l: &Vec<u8>) -> (r: (usize, Vec<u8>))
    ensures
        r.0 as int == quote_depth(l@),
        r.1@ == strip_quote_all(l@),
{
    let mut off: usize = 0;
    let mut d: usize = 0;
    proof {
        assert(l@.skip(0) =~= l@);
    }
    while off < l.len() && l[off] == 62
        invariant
            0 <= off <= l@.len(),
            d <= off,
            quote_depth(l@) == d + quote_depth(l@.skip(off as int)),
            strip_quote_all(l@) == strip_quote_all(l@.skip(off as int)),
        decreases l@.len() - off,
    {
        let ghost tail = l@.skip(off as int);
        off = off + 1;
        if off < l.len() && l[off] == 32 {
            off = off + 1;
        }
        proof {
            assert(tail[0] == 62u8);
            assert(strip_quote_one(tail) =~= l@.skip(off as int));
        }
        d = d + 1;
    }
    proof {
        let tail = l@.skip(off as int);
        assert(quote_depth(tail) == 0);
        assert(strip_quote_all(tail) == tail);
    }
    let rest = subrange_vec(l, off, l.len());
    proof {
        assert(l@.subrange(off as int, l@.len() as int) =~= l@.skip(off as int));
    }
    (d, rest)
}

pub fn is_bullet_exec(l: &Vec<u8>) -> (r: bool)
    ensures
        r == is_bullet(l@),
{
    l.len() >= 2 && (l[0] == 45 || l[0] == 42 || l[0] == 43) && l[1] == 32
}

pub fn ordered_digits_exec(l: &Vec<u8>) -> (r: usize)
    ensures
        r as int == ordered_digits(l@),
{
    let mut k: usize = 0;
    while k < l.len() && 48 <= l[k] && l[k] <= 57
        invariant
            0 <= k <= l@.len(),
            digit_run(l@, 0) == digit_run(l@, k as int),
        decreases l@.len() - k,
    {
        k = k + 1;
    }
    if 1 <= k && k < l.len() && l[k] == 46 && k + 1 < l.len() && l[k + 1] == 32 {
        k
    } else {
        0
    }
}

pub fn is_rule_exec(l: &Vec<u8>) -> (r: bool)
    ensures
        r == is_rule_line(l@),
{
    let a = find_first_not_at(l, 0, 32);
    proof {
        lemma_find_first_not(l@, 0, 32u8);
    }
    if a >= l.len() {
        return false;
    }
    let c = l[a];
    if !(c == 45 || c == 42 || c == 95) {
        return false;
    }
    let mut i: usize = 0;
    while i < l.len()
        invariant
            0 <= i <= l@.len(),
            a < l@.len(),
            a as int == find_first_not(l@, 0, 32u8),
            c == l@[a as int],
            c == 45u8 || c == 42u8 || c == 95u8,
            forall|k: int| 0 <= k < i ==> l@[k] == c || l@[k] == 32u8,
        decreases l@.len() - i,
    {
        if l[i] != c && l[i] != 32 {
            return false;
        }
        i = i + 1;
    }
    let n = count_byte_in(l, c);
    proof {
        crate::bytes::lemma_count_byte_bound(l@, c);
    }
    n >= 3
}

pub fn starts_pipe_exec(l: &Vec<u8>) -> (r: bool)
    ensures
        r == starts_pipe(l@),
{
    l.len() > 0 && l[0] == 124
}

pub fn is_table_sep_exec(l: &Vec<u8>) -> (r: bool)
    ensures
        r == is_table_sep(l@),
{
    if l.len() == 0 {
        return false;
    }
    let mut i: usize = 0;
    while i < l.len()
        invariant
            0 <= i <= l@.len(),
            forall|k: int| 0 <= k < i
                ==> l@[k] == 45u8 || l@[k] == 58u8 || l@[k] == 124u8 || l@[k] == 32u8,
        decreases l@.len() - i,
    {
        let b = l[i];
        if !(b == 45 || b == 58 || b == 124 || b == 32) {
            return false;
        }
        i = i + 1;
    }
    let n = count_byte_in(l, 45);
    n >= 1
}

pub fn para_break_exec(lines: &Vec<Vec<u8>>, i: usize) -> (r: bool)
    requires
        i < lines@.len(),
    ensures
        r == para_break(raw_lines_view(lines@), i as int),
{
    let l = &lines[i];
    if is_blank(l) {
        return true;
    }
    if header_level_exec(l) > 0 {
        return true;
    }
    if is_fence_exec(l) {
        return true;
    }
    if is_rule_exec(l) {
        return true;
    }
    if is_bullet_exec(l) {
        return true;
    }
    if ordered_digits_exec(l) > 0 {
        return true;
    }
    let qi = quote_info(l);
    if qi.0 >= 1 {
        return true;
    }
    if starts_pipe_exec(l) && i < lines.len() - 1 && is_table_sep_exec(&lines[i + 1]) {
        return true;
    }
    false
}

// ---------------------------------------------------------------------------
// Executable group extents
// ---------------------------------------------------------------------------

pub fn fence_end_exec(lines: &Vec<Vec<u8>>, i: usize) -> (r: usize)
    requires
        i <= lines@.len(),
    ensures
        r as int == fence_end(raw_lines_view(lines@), i as int),
{
    let ghost lv = raw_lines_view(lines@);
    let mut j: usize = i;
    while j < lines.len()
        invariant
            i <= j <= lv.len(),
            lv == raw_lines_view(lines@),
            fence_end(lv, i as int) == fence_end(lv, j as int),
        decreases lv.len() - j,
    {
        if is_fence_exec(&lines[j]) {
            return j;
        }
        j = j + 1;
    }
    j
}

pub fn quote_run_end_exec(lines: &Vec<Vec<u8>>, i: usize, d: usize) -> (r: usize)
    requires
        i <= lines@.len(),
    ensures
        r as int == quote_run_end(raw_lines_view(lines@), i as int, d as int),
{
    let ghost lv = raw_lines_view(lines@);
    let mut j: usize = i;
    while j < lines.len()
        invariant
            i <= j <= lv.len(),
            lv == raw_lines_view(lines@),
            quote_run_end(lv, i as int, d as int) == quote_run_end(lv, j as int, d as int),
        decreases lv.len() - j,
    {
        let qi = quote_info(&lines[j]);
        if qi.0 != d {
            return j;
        }
        j = j + 1;
    }
    j
}

pub fn bullet_end_exec(lines: &Vec<Vec<u8>>, i: usize) -> (r: usize)
    requires
        i <= lines@.len(),
    ensures
        r as int == bullet_end(raw_lines_view(lines@), i as int),
{
    let ghost lv = raw_lines_view(lines@);
    let mut j: usize = i;
    while j < lines.len()
        invariant
            i <= j <= lv.len(),
            lv == raw_lines_view(lines@),
            bullet_end(lv, i as int) == bullet_end(lv, j as int),
        decreases lv.len() - j,
    {
        if !is_bullet_exec(&lines[j]) {
            return j;
        }
        j = j + 1;
    }
    j
}

pub fn ordered_end_exec(lines: &Vec<Vec<u8>>, i: usize) -> (r: usize)
    requires
        i <= lines@.len(),
    ensures
        r as int == ordered_end(raw_lines_view(lines@), i as int),
{
    let ghost lv = raw_lines_view(lines@);
    let mut j: usize = i;
    while j < lines.len()
        invariant
            i <= j <= lv.len(),
            lv == raw_lines_view(lines@),
            ordered_end(lv, i as int) == ordered_end(lv, j as int),
        decreases lv.len() - j,
    {
        if ordered_digits_exec(&lines[j]) == 0 {
            return j;
        }
        j = j + 1;
    }
    j
}

pub fn table_end_exec(lines: &Vec<Vec<u8>>, i: usize) -> (r: usize)
    requires
        i <= lines@.len(),
    ensures
        r as int == table_end(raw_lines_view(lines@), i as int),
{
    let ghost lv = raw_lines_view(lines@);
    let mut j: usize = i;
    while j < lines.len()
        invariant
            i <= j <= lv.len(),
            lv == raw_lines_view(lines@),
            table_end(lv, i as int) == table_end(lv, j as int),
        decreases lv.len() - j,
    {
        if !starts_pipe_exec(&lines[j]) {
            return j;
        }
        j = j + 1;
    }
    j
}

pub fn para_end_exec(lines: &Vec<Vec<u8>>, i: usize) -> (r: usize)
    requires
        i <= lines@.len(),
    ensures
        r as int == para_end(raw_lines_view(lines@), i as int),
{
    let ghost lv = raw_lines_view(lines@);
    let mut j: usize = i;
    while j < lines.len()
        invariant
            i <= j <= lv.len(),
            lv == raw_lines_view(lines@),
            para_end(lv, i as int) == para_end(lv, j as int),
        decreases lv.len() - j,
    {
        if para_break_exec(lines, j) {
            return j;
        }
        j = j + 1;
    }
    j
}

// ---------------------------------------------------------------------------
// Executable joining and cells
// ---------------------------------------------------------------------------

/// Joins lines `a..b` with single spaces.
pub fn join_range(lines: &Vec<Vec<u8>>, a: usize, b: usize) -> (r: Vec<u8>)
    requires
        a < b <= lines@.len(),
    ensures
        r@ == join_with(raw_lines_view(lines@).subrange(a as int, b as int), 32u8),
{
    let ghost lv = raw_lines_view(lines@);
    let mut r = subrange_vec(&lines[a], 0, lines[a].len());
    proof {
        assert(r@ =~= lv[a as int]);
        assert(lv.subrange(a as int, a as int + 1) =~= seq![lv[a as int]]);
        assert(join_with(lv.subrange(a as int, a as int + 1), 32u8) == lv[a as int]);
    }
    let mut k: usize = a + 1;
    while k < b
        invariant
            a < k <= b <= lv.len(),
            lv == raw_lines_view(lines@),
            r@ == join_with(lv.subrange(a as int, k as int), 32u8),
        decreases b - k,
    {
        let ghost pre = lv.subrange(a as int, k as int);
        r.push(32);
        append_bytes(&mut r, &lines[k]);
        proof {
            lemma_join_push(pre, lv[k as int], 32u8);
            assert(lv.subrange(a as int, k as int + 1) =~= pre.push(lv[k as int]));
            assert(r@ =~= join_with(pre, 32u8) + seq![32u8] + lv[k as int]);
        }
        k = k + 1;
    }
    r
}

/// Splits `t` at each occurrence of `b`.
pub fn split_on_exec(t: &Vec<u8>, b: u8) -> (r: Vec<Vec<u8>>)
    ensures
        raw_lines_view(r@) == split_on(t@, b),
{
    let mut r: Vec<Vec<u8>> = Vec::new();
    let mut pos: usize = 0;
    proof {
        assert(t@.skip(0) =~= t@);
        assert(raw_lines_view(r@) + split_on(t@.skip(0), b) =~~= split_on(t@, b));
    }
    while pos < t.len()
        invariant
            0 <= pos <= t@.len(),
            raw_lines_view(r@) + split_on(t@.skip(pos as int), b) == split_on(t@, b),
        decreases t@.len() - pos,
    {
        let ghost dv0 = raw_lines_view(r@);
        let ghost rest = t@.skip(pos as int);
        let j = find_byte_at(t, pos, b);
        proof {
            lemma_find_byte(t@, pos as int, b);
            lemma_find_byte_skip(t@, pos as int, b);
        }
        let piece = subrange_vec(t, pos, j);
        r.push(piece);
        proof {
            assert(raw_lines_view(r@) =~~= dv0 + seq![piece@]);
            assert(rest.take(j - pos as int) =~= t@.subrange(pos as int, j as int));
            assert(find_byte(rest, 0, b) == j - pos as int);
        }
        if j == t.len() {
            proof {
                assert(rest =~= piece@);
                assert(split_on(rest, b) == seq![rest]);
                assert(raw_lines_view(r@) =~~= split_on(t@, b));
            }
            return r;
        }
        let ghost p0 = pos as int;
        pos = j + 1;
        proof {
            assert(rest.skip(j - p0 + 1) =~= t@.skip(pos as int));
            assert(split_on(rest, b) =~~= seq![piece@] + split_on(t@.skip(pos as int), b));
            assert(raw_lines_view(r@) + split_on(t@.skip(pos as int), b) =~~= split_on(t@, b));
        }
    }
    let ghost dv0 = raw_lines_view(r@);
    proof {
        assert(t@.skip(pos as int) =~= Seq::<u8>::empty());
        assert(find_byte(Seq::<u8>::empty(), 0, b) == 0);
        assert(split_on(Seq::<u8>::empty(), b) =~~= seq![Seq::<u8>::empty()]);
    }
    let empty: Vec<u8> = Vec::new();
    r.push(empty);
    proof {
        assert(raw_lines_view(r@) =~~= dv0 + seq![Seq::<u8>::empty()]);
        assert(raw_lines_view(r@) =~~= split_on(t@, b));
    }
    r
}

/// The cells of one table row.
pub fn row_cells_exec(l: &Vec<u8>) -> (r: Vec<Vec<Inline>>)
    ensures
        items_view(r@) == row_cells(l@),
{
    let segs = split_on_exec(l, 124);
    let ghost sv = raw_lines_view(segs@);
    let a: usize = if l.len() > 0 && l[0] == 124 { 1 } else { 0 };
    let b: usize = if l.len() > 0 && l[l.len() - 1] == 124 { segs.len() - 1 } else { segs.len() };
    proof {
        lemma_split_on_len(l@, 124u8);
        assert(l@.len() > 0 ==> l@.last() == l@[l@.len() - 1]);
    }
    let mut r: Vec<Vec<Inline>> = Vec::new();
    if a > b {
        proof {
            assert(items_view(r@) =~~= row_cells(l@));
        }
        return r;
    }
    let mut k: usize = a;
    proof {
        assert(items_view(r@) =~~= sv.subrange(a as int, a as int)
            .map_values(|s: Seq<u8>| scan_line_spec(trim_spaces(s))));
    }
    while k < b
        invariant
            a <= k <= b <= sv.len(),
            sv == raw_lines_view(segs@),
            items_view(r@) == sv.subrange(a as int, k as int)
                .map_values(|s: Seq<u8>| scan_line_spec(trim_spaces(s))),
        decreases b - k,
    {
        let ghost r0 = items_view(r@);
        let trimmed = trim_spaces_vec(&segs[k]);
        let cell = scan_line(&trimmed);
        proof {
            assert(trimmed@ == trim_spaces(sv[k as int]));
            assert(runs_view(cell@) == scan_line_spec(trim_spaces(sv[k as int])));
        }
        r.push(cell);
        proof {
            assert(items_view(r@) =~~= r0.push(runs_view(cell@)));
            assert(sv.subrange(a as int, k as int + 1)
                =~= sv.subrange(a as int, k as int).push(sv[k as int]));
            assert(items_view(r@) =~~= sv.subrange(a as int, k as int + 1)
                .map_values(|s: Seq<u8>| scan_line_spec(trim_spaces(s))));
        }
        k = k + 1;
    }
    proof {
        assert(items_view(r@) =~~= row_cells(l@));
    }
    r
}

/// `split_on` yields at least one segment, and one more than the separators.
pub proof fn lemma_split_on_len(t: Seq<u8>, b: u8)
    ensures
        split_on(t, b).len() >= 1,
    decreases t.len(),
{
    lemma_find_byte(t, 0, b);
    let j = find_byte(t, 0, b);
    if j != t.len() {
        lemma_split_on_len(t.skip(j + 1), b);
    }
}

// ---------------------------------------------------------------------------
// The executable parser
// ---------------------------------------------------------------------------

/// Parses the leaf block opening at line `i`; also gives the index of the
/// first line after it.
pub fn next_leaf_exec(lines: &Vec<Vec<u8>>, i: usize) -> (r: (LeafBlock, usize))
    requires
        i < lines@.len(),
    ensures
        r.0@ == next_leaf(raw_lines_view(lines@), i as int).0,
        r.1 as int == next_leaf(raw_lines_view(lines@), i as int).1,
{
    let ghost lv = raw_lines_view(lines@);
    let nlines = lines.len();
    let l = &lines[i];
    let hl = header_level_exec(l);
    if hl > 0 {
        let rest = subrange_vec(l, hl + 1, l.len());
        proof {
            assert(rest@ =~= lv[i as int].skip(hl as int + 1));
        }
        let spans = scan_line(&rest);
        return (LeafBlock::Header { level: hl, spans }, i + 1);
    }
    if is_fence_exec(l) {
        let fl = fence_len_exec(l);
        proof {
            lemma_find_first_not(l@, 0, 96u8);
        }
        let tail = subrange_vec(l, fl, l.len());
        proof {
            assert(tail@ =~= lv[i as int].skip(fence_len(lv[i as int])));
        }
        let lang = trim_spaces_vec(&tail);
        let j = fence_end_exec(lines, i + 1);
        proof {
            lemma_fence_end(lv, i as int + 1);
        }
        let mut code: Vec<Vec<u8>> = Vec::new();
        let mut k: usize = i + 1;
        proof {
            assert(raw_lines_view(code@) =~= lv.subrange(i as int + 1, i as int + 1));
        }
        while k < j
            invariant
                i + 1 <= k <= j <= lv.len(),
                lv == raw_lines_view(lines@),
                raw_lines_view(code@) == lv.subrange(i as int + 1, k as int),
            decreases j - k,
        {
            let ghost c0 = raw_lines_view(code@);
            let line = subrange_vec(&lines[k], 0, lines[k].len());
            proof {
                assert(line@ =~= lv[k as int]);
            }
            code.push(line);
            proof {
                assert(raw_lines_view(code@) =~~= c0.push(lv[k as int]));
                assert(lv.subrange(i as int + 1, k as int + 1)
                    =~= lv.subrange(i as int + 1, k as int).push(lv[k as int]));
            }
            k = k + 1;
        }
        let after = if j < lines.len() { j + 1 } else { j };
        return (LeafBlock::CodeBlock { lang, lines: code }, after);
    }
    if is_rule_exec(l) {
        return (LeafBlock::Rule, i + 1);
    }
    if is_bullet_exec(l) {
        let j = bullet_end_exec(lines, i);
        proof {
            lemma_bullet_end(lv, i as int);
        }
        let mut items: Vec<Vec<Inline>> = Vec::new();
        let mut k: usize = i;
        proof {
            assert(items_view(items@)
                =~= Seq::new(0nat, |m: int| scan_line_spec(lv[i as int + m].skip(2))));
        }
        while k < j
            invariant
                i <= k <= j <= lv.len(),
                lv == raw_lines_view(lines@),
                forall|m: int| i <= m < j ==> is_bullet(lv[m]),
                items_view(items@) == Seq::new((k - i) as nat,
                    |m: int| scan_line_spec(lv[i as int + m].skip(2))),
            decreases j - k,
        {
            let ghost it0 = items_view(items@);
            proof {
                assert(is_bullet(lv[k as int]));
                assert(lv[k as int] == lines@[k as int]@);
            }
            let rest = subrange_vec(&lines[k], 2, lines[k].len());
            proof {
                assert(rest@ =~= lv[k as int].skip(2));
            }
            let cell = scan_line(&rest);
            items.push(cell);
            proof {
                assert(items_view(items@) =~~= it0.push(runs_view(cell@)));
                assert(items_view(items@) =~~= Seq::new((k - i + 1) as nat,
                    |m: int| scan_line_spec(lv[i as int + m].skip(2))));
            }
            k = k + 1;
        }
        return (LeafBlock::List { ordered: false, items }, j);
    }
    let od = ordered_digits_exec(l);
    if od > 0 {
        let j = ordered_end_exec(lines, i);
        proof {
            lemma_ordered_end(lv, i as int);
        }
        let mut items: Vec<Vec<Inline>> = Vec::new();
        let mut k: usize = i;
        proof {
            assert(items_view(items@) =~= Seq::new(0nat,
                |m: int| scan_line_spec(lv[i as int + m].skip(ordered_digits(lv[i as int + m]) + 2))));
        }
        while k < j
            invariant
                i <= k <= j <= lv.len(),
                lv == raw_lines_view(lines@),
                forall|m: int| i <= m < j ==> ordered_digits(lv[m]) > 0,
                items_view(items@) == Seq::new((k - i) as nat,
                    |m: int| scan_line_spec(lv[i as int + m].skip(ordered_digits(lv[i as int + m]) + 2))),
            decreases j - k,
        {
            let ghost it0 = items_view(items@);
            let kd = ordered_digits_exec(&lines[k]);
            let nk = lines[k].len();
            proof {
                assert(ordered_digits(lv[k as int]) > 0);
                assert(kd as int == ordered_digits(lv[k as int]));
                assert(kd as int + 1 < lv[k as int].len());
                assert(lv[k as int].len() == nk);
            }
            let rest = subrange_vec(&lines[k], kd + 2, lines[k].len());
            proof {
                assert(rest@ =~= lv[k as int].skip(ordered_digits(lv[k as int]) + 2));
            }
            let cell = scan_line(&rest);
            items.push(cell);
            proof {
                assert(items_view(items@) =~~= it0.push(runs_view(cell@)));
                assert(items_view(items@) =~~= Seq::new((k - i + 1) as nat,
                    |m: int| scan_line_spec(lv[i as int + m].skip(ordered_digits(lv[i as int + m]) + 2))));
            }
            k = k + 1;
        }
        return (LeafBlock::List { ordered: true, items }, j);
    }
    if starts_pipe_exec(l) && i < lines.len() - 1 && is_table_sep_exec(&lines[i + 1]) {
        let j = table_end_exec(lines, i + 2);
        proof {
            lemma_table_end(lv, i as int + 2);
        }
        let mut rows: Vec<Vec<Vec<Inline>>> = Vec::new();
        let first = row_cells_exec(l);
        rows.push(first);
        proof {
            assert(rows_view(rows@) =~~= seq![row_cells(lv[i as int])]
                + Seq::new(0nat, |m: int| row_cells(lv[i as int + 2 + m])));
        }
        let mut k: usize = i + 2;
        while k < j
            invariant
                i + 2 <= k <= j <= lv.len(),
                lv == raw_lines_view(lines@),
                rows_view(rows@) == seq![row_cells(lv[i as int])]
                    + Seq::new((k - (i + 2)) as nat, |m: int| row_cells(lv[i as int + 2 + m])),
            decreases j - k,
        {
            let ghost r0 = rows_view(rows@);
            let row = row_cells_exec(&lines[k]);
            rows.push(row);
            proof {
                assert(rows_view(rows@) =~~= r0.push(items_view(row@)));
                assert(rows_view(rows@) =~~= seq![row_cells(lv[i as int])]
                    + Seq::new((k - (i + 2) + 1) as nat, |m: int| row_cells(lv[i as int + 2 + m])));
            }
            k = k + 1;
        }
        return (LeafBlock::Table { rows }, j);
    }
    let j = para_end_exec(lines, i + 1);
    proof {
        lemma_para_end(lv, i as int + 1);
    }
    let joined = join_range(lines, i, j);
    let spans = scan_line(&joined);
    (LeafBlock::Paragraph { spans }, j)
}

/// Parses a stretch of lines with their quote markers already stripped.
pub fn parse_leaves_exec(lines: &Vec<Vec<u8>>) -> (r: Vec<LeafBlock>)
    ensures
        leaves_view(r@) == parse_leaves(raw_lines_view(lines@), 0),
{
    let ghost lv = raw_lines_view(lines@);
    let ghost total = parse_leaves(lv, 0);
    let mut out: Vec<LeafBlock> = Vec::new();
    let mut i: usize = 0;
    proof {
        assert(leaves_view(out@) + parse_leaves(lv, 0) =~~= total);
    }
    while i < lines.len()
        invariant
            0 <= i <= lv.len(),
            lv == raw_lines_view(lines@),
            total == parse_leaves(lv, 0),
            leaves_view(out@) + parse_leaves(lv, i as int) == total,
        decreases lv.len() - i,
    {
        if is_blank(&lines[i]) {
            i = i + 1;
        } else {
            let ghost o0 = leaves_view(out@);
            let step = next_leaf_exec(lines, i);
            proof {
                lemma_next_leaf_bounds(lv, i as int);
            }
            let (leaf, j) = step;
            out.push(leaf);
            proof {
                assert(leaves_view(out@) =~~= o0.push(out@.last()@));
                assert(o0 + (seq![next_leaf(lv, i as int).0] + parse_leaves(lv, j as int))
                    =~~= leaves_view(out@) + parse_leaves(lv, j as int));
            }
            i = j;
        }
    }
    proof {
        assert(leaves_view(out@) + Seq::<LeafV>::empty() =~~= leaves_view(out@));
    }
    out
}

/// Parses a Markdown document into its block model.
pub fn parse_document(text: &Vec<u8>) -> (d: Document)
    ensures
        d@ == parse_doc_spec(text@),
{
    let lines = split_lines_vec(text);
    proof {
        assert forall|i: int| 0 <= i < lines@.len()
            implies #[trigger] lines@[i].deep_view() == lines@[i]@ by {
            assert(lines@[i].deep_view() =~= lines@[i]@);
        }
        assert(lines.deep_view() =~~= raw_lines_view(lines@));
    }
    let ghost lv = raw_lines_view(lines@);
    let ghost total = parse_from(lv, 0);
    let mut out: Vec<Block> = Vec::new();
    let mut i: usize = 0;
    proof {
        assert(blocks_view(out@) + parse_from(lv, 0) =~~= total);
    }
    while i < lines.len()
        invariant
            0 <= i <= lv.len(),
            lv == raw_lines_view(lines@),
            total == parse_from(lv, 0),
            blocks_view(out@) + parse_from(lv, i as int) == total,
        decreases lv.len() - i,
    {
        if is_blank(&lines[i]) {
            i = i + 1;
        } else {
            let ghost o0 = blocks_view(out@);
            let qi = quote_info(&lines[i]);
            let d = qi.0;
            if d >= 1 {
                let j = quote_run_end_exec(&lines, i, d);
                proof {
                    lemma_quote_run_end(lv, i as int, d as int);
                    assert(quote_run_end(lv, i as int, d as int) > i as int);
                }
                let mut stripped: Vec<Vec<u8>> = Vec::new();
                let mut k: usize = i;
                proof {
                    assert(raw_lines_view(stripped@) =~= Seq::new(0nat,
                        |m: int| strip_quote_all(lv[i as int + m])));
                }
                while k < j
                    invariant
                        i <= k <= j <= lv.len(),
                        lv == raw_lines_view(lines@),
                        raw_lines_view(stripped@) == Seq::new((k - i) as nat,
                            |m: int| strip_quote_all(lv[i as int + m])),
                    decreases j - k,
                {
                    let ghost s0 = raw_lines_view(stripped@);
                    let qk = quote_info(&lines[k]);
                    stripped.push(qk.1);
                    proof {
                        assert(raw_lines_view(stripped@) =~~= s0.push(strip_quote_all(lv[k as int])));
                        assert(raw_lines_view(stripped@) =~~= Seq::new((k - i + 1) as nat,
                            |m: int| strip_quote_all(lv[i as int + m])));
                    }
                    k = k + 1;
                }
                let content = parse_leaves_exec(&stripped);
                let blk = Block::Quote { depth: d, content };
                out.push(blk);
                proof {
                    assert(blocks_view(out@) =~~= o0.push(out@.last()@));
                    assert(out@.last()@ == BlockV::Quote {
                        depth: d as int,
                        content: parse_leaves(Seq::new((j - i) as nat,
                            |m: int| strip_quote_all(lv[i as int + m])), 0),
                    });
                    assert(o0 + (seq![out@.last()@] + parse_from(lv, j as int))
                        =~~= blocks_view(out@) + parse_from(lv, j as int));
                }
                i = j;
            } else {
                let step = next_leaf_exec(&lines, i);
                proof {
                    lemma_next_leaf_bounds(lv, i as int);
                }
                let (leaf, j) = step;
                out.push(Block::Leaf(leaf));
                proof {
                    assert(blocks_view(out@) =~~= o0.push(out@.last()@));
                    assert(o0 + (seq![BlockV::Leaf(next_leaf(lv, i as int).0)] + parse_from(lv, j as int))
                        =~~= blocks_view(out@) + parse_from(lv, j as int));
                }
                i = j;
            }
        }
    }
    proof {
        assert(blocks_view(out@) + Seq::<BlockV>::empty() =~~= blocks_view(out@));
    }
    Document { blocks: out }
}

} // verus!
