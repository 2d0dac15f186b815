use vstd::prelude::*;
use crate::bytes::{dec_digits, dec_digits_vec, spaces, spaces_vec, append_bytes};
use crate::inline::{Inline, InlineV, plain_of_runs, plain_text};
use crate::words::{
    Frag, FragV, Role, clone_bytes, clone_word, line_words_width, lines_view, pieces_of_runs,
    pieces_of_runs_exec, word_len, word_len_upto, word_view, words_of_pieces_exec,
    words_of_pieces_from, words_of_runs, words_of_runs_exec, words_view, wrap_words,
    wrap_words_exec,
};
use crate::blocks::{Block, BlockV, Document, LeafBlock, LeafV, blocks_view, leaves_view};

verus! {

/// One terminal row of output: a leading indent and styled fragments.
pub struct LayoutLine {
    pub indent: usize,
    pub frags: Vec<Frag>,
}

/// Mathematical model of a layout line.
#[verifier::ext_equal]
pub struct LayoutLineV {
    pub indent: int,
    pub frags: Seq<FragV>,
}

impl View for LayoutLine {
    type V = LayoutLineV;

    open spec fn view(&self) -> LayoutLineV {
        LayoutLineV { indent: self.indent as int, frags: word_view(self.frags@) }
    }
}

pub open spec fn llines_view(ls: Seq<LayoutLine>) -> Seq<LayoutLineV> {
    ls.map_values(|l: LayoutLine| l@)
}

/// Columns a layout line occupies.
pub open spec fn line_width(l: LayoutLineV) -> int {
    l.indent + word_len(l.frags)
}

/// A width reduced by an indent, floored at one column.
pub open spec fn reduce_width(w: int, k: int) -> int {
    if w - k >= 1 { w - k } else { 1 }
}

pub fn reduce_width_exec(w: usize, k: usize) -> (r: usize)
    ensures
        r as int == reduce_width(w as int, k as int),
{
    if w > k {
        w - k
    } else {
        1
    }
}

pub open spec fn space_fragv() -> FragV {
    FragV { text: seq![32u8], role: Role::Space }
}

/// The fragments of one wrapped line: its words with single separator spaces
/// between them.
pub open spec fn line_frags(ln: Seq<Seq<FragV>>) -> Seq<FragV>
    decreases ln.len()
{
    if ln.len() == 0 {
        seq![]
    } else if ln.len() == 1 {
        ln[0]
    } else {
        ln[0] + seq![space_fragv()] + line_frags(ln.drop_first())
    }
}

pub proof fn lemma_line_frags_push(ln: Seq<Seq<FragV>>, wd: Seq<FragV>)
    requires
        ln.len() >= 1,
    ensures
        line_frags(ln.push(wd)) == line_frags(ln) + seq![space_fragv()] + wd,
    decreases ln.len(),
{
    if ln.len() == 1 {
        reveal_with_fuel(line_frags, 3);
        assert(ln.push(wd).drop_first() =~= seq![wd]);
        assert(line_frags(ln.push(wd)) =~= line_frags(ln) + seq![space_fragv()] + wd);
    } else {
        assert(ln.push(wd).drop_first() =~= ln.drop_first().push(wd));
        lemma_line_frags_push(ln.drop_first(), wd);
        assert(line_frags(ln.push(wd)) =~= line_frags(ln) + seq![space_fragv()] + wd);
    }
}

/// Builds one wrapped line's fragments.
pub fn line_frags_exec(ln: &Vec<Vec<Frag>>) -> (r: Vec<Frag>)
    ensures
        word_view(r@) == line_frags(words_view(ln@)),
{
    let ghost lv = words_view(ln@);
    let mut r: Vec<Frag> = Vec::new();
    let mut k: usize = 0;
    proof {
        assert(lv.take(0) =~= Seq::<Seq<FragV>>::empty());
        assert(word_view(r@) =~= line_frags(lv.take(0)));
    }
    while k < ln.len()
        invariant
            0 <= k <= ln@.len(),
            lv == words_view(ln@),
            word_view(r@) == line_frags(lv.take(k as int)),
        decreases ln@.len() - k,
    {
        let ghost r0 = word_view(r@);
        if k > 0 {
            let mut sp: Vec<u8> = Vec::new();
            sp.push(32);
            r.push(Frag { text: sp, role: Role::Space });
            proof {
                assert(word_view(r@) =~~= r0.push(space_fragv()));
            }
        }
        let mut wd = clone_word(&ln[k]);
        crate::words::append_frags(&mut r, &mut wd);
        proof {
            assert(lv.take(k as int).push(lv[k as int]) =~= lv.take(k as int + 1));
            if k > 0 {
                lemma_line_frags_push(lv.take(k as int), lv[k as int]);
                assert(word_view(r@) =~~= line_frags(lv.take(k as int + 1)));
            } else {
                assert(lv.take(1) =~= seq![lv[0]]);
                assert(word_view(r@) =~~= line_frags(lv.take(1)));
            }
        }
        k = k + 1;
    }
    proof {
        assert(lv.take(lv.len() as int) =~= lv);
    }
    r
}

/// Continuation lines: each wrapped line from `from` on, at a fixed indent.
pub open spec fn cont_lines(lines: Seq<Seq<Seq<FragV>>>, indent: int, from: int) -> Seq<LayoutLineV> {
    Seq::new(if lines.len() >= from { (lines.len() - from) as nat } else { 0 },
        |k: int| LayoutLineV { indent: indent, frags: line_frags(lines[from + k]) })
}

/// Wrapped lines with a marker on the first line and continuation lines
/// indented under the text start column. An empty body still shows the
/// marker.
pub open spec fn assemble_prefixed(lines: Seq<Seq<Seq<FragV>>>, marker: FragV, cont_indent: int) -> Seq<LayoutLineV> {
    if lines.len() == 0 {
        seq![LayoutLineV { indent: 0, frags: seq![marker] }]
    } else {
        seq![LayoutLineV { indent: 0, frags: seq![marker] + line_frags(lines[0]) }]
            + cont_lines(lines, cont_indent, 1)
    }
}

pub fn assemble_prefixed_exec(lines: &Vec<Vec<Vec<Frag>>>, marker: Frag, cont_indent: usize) -> (r: Vec<LayoutLine>)
    ensures
        llines_view(r@) == assemble_prefixed(lines_view(lines@), marker@, cont_indent as int),
{
    let ghost l3 = lines_view(lines@);
    let mut r: Vec<LayoutLine> = Vec::new();
    if lines.len() == 0 {
        let mut fs: Vec<Frag> = Vec::new();
        fs.push(marker);
        r.push(LayoutLine { indent: 0, frags: fs });
        proof {
            assert(llines_view(r@) =~~= assemble_prefixed(l3, marker@, cont_indent as int));
        }
        return r;
    }
    let mut fs: Vec<Frag> = Vec::new();
    let ghost mv = marker@;
    fs.push(marker);
    let mut body = line_frags_exec(&lines[0]);
    crate::words::append_frags(&mut fs, &mut body);
    proof {
        assert(word_view(fs@) =~~= seq![mv] + line_frags(l3[0]));
    }
    r.push(LayoutLine { indent: 0, frags: fs });
    let mut k: usize = 1;
    proof {
        assert(llines_view(r@) =~~= seq![LayoutLineV { indent: 0, frags: seq![mv] + line_frags(l3[0]) }]
            + cont_lines(l3, cont_indent as int, 1).take(0));
    }
    while k < lines.len()
        invariant
            1 <= k <= l3.len(),
            l3 == lines_view(lines@),
            llines_view(r@) == seq![LayoutLineV { indent: 0, frags: seq![mv] + line_frags(l3[0]) }]
                + cont_lines(l3, cont_indent as int, 1).take(k as int - 1),
        decreases l3.len() - k,
    {
        let ghost r0 = llines_view(r@);
        let body = line_frags_exec(&lines[k]);
        r.push(LayoutLine { indent: cont_indent, frags: body });
        proof {
            assert(llines_view(r@) =~~= r0.push(LayoutLineV {
                indent: cont_indent as int,
                frags: line_frags(l3[k as int]),
            }));
            assert(cont_lines(l3, cont_indent as int, 1).take(k as int)
                =~= cont_lines(l3, cont_indent as int, 1).take(k as int - 1)
                    .push(cont_lines(l3, cont_indent as int, 1)[k as int - 1]));
            assert(llines_view(r@) =~~= seq![LayoutLineV { indent: 0, frags: seq![mv] + line_frags(l3[0]) }]
                + cont_lines(l3, cont_indent as int, 1).take(k as int));
        }
        k = k + 1;
    }
    proof {
        assert(cont_lines(l3, cont_indent as int, 1).take(l3.len() as int - 1)
            =~= cont_lines(l3, cont_indent as int, 1));
        assert(llines_view(r@) =~~= assemble_prefixed(l3, mv, cont_indent as int));
    }
    r
}

/// Plain wrapped lines without a marker, at indent zero.
pub open spec fn plain_lines(lines: Seq<Seq<Seq<FragV>>>) -> Seq<LayoutLineV> {
    cont_lines(lines, 0, 0)
}

pub fn plain_lines_exec(lines: &Vec<Vec<Vec<Frag>>>) -> (r: Vec<LayoutLine>)
    ensures
        llines_view(r@) == plain_lines(lines_view(lines@)),
{
    let ghost l3 = lines_view(lines@);
    let mut r: Vec<LayoutLine> = Vec::new();
    let mut k: usize = 0;
    proof {
        assert(llines_view(r@) =~~= cont_lines(l3, 0, 0).take(0));
    }
    while k < lines.len()
        invariant
            0 <= k <= l3.len(),
            l3 == lines_view(lines@),
            llines_view(r@) == cont_lines(l3, 0, 0).take(k as int),
        decreases l3.len() - k,
    {
        let ghost r0 = llines_view(r@);
        let body = line_frags_exec(&lines[k]);
        r.push(LayoutLine { indent: 0, frags: body });
        proof {
            assert(llines_view(r@) =~~= r0.push(LayoutLineV { indent: 0, frags: line_frags(l3[k as int]) }));
            assert(cont_lines(l3, 0, 0).take(k as int + 1)
                =~= cont_lines(l3, 0, 0).take(k as int).push(cont_lines(l3, 0, 0)[k as int]));
        }
        k = k + 1;
    }
    proof {
        assert(cont_lines(l3, 0, 0).take(l3.len() as int) =~= cont_lines(l3, 0, 0));
    }
    r
}

// ---------------------------------------------------------------------------
// Per-block layout
// ---------------------------------------------------------------------------

/// The `#` marker of a header, one per level, with a trailing space.
pub open spec fn header_marker(level: int) -> Seq<u8> {
    Seq::new(if level >= 0 { level as nat } else { 0 }, |i: int| 35u8) + seq![32u8]
}

/// The words of a header: its plain text, all in the header role.
pub open spec fn header_words(spans: Seq<InlineV>) -> Seq<Seq<FragV>> {
    words_of_pieces_from(seq![FragV { text: plain_of_runs(spans), role: Role::Header }], 0, Seq::empty())
}

/// The marker of list item `k`: `- ` for bullets, `N. ` for ordered items.
pub open spec fn item_marker(ordered: bool, k: int) -> Seq<u8> {
    if ordered {
        dec_digits((k + 1) as nat) + seq![46u8, 32u8]
    } else {
        seq![45u8, 32u8]
    }
}

/// The layout of one list item at width `w`.
pub open spec fn item_lines(item: Seq<InlineV>, marker: Seq<u8>, w: int) -> Seq<LayoutLineV> {
    let mlen = marker.len() as int;
    assemble_prefixed(
        wrap_words(words_of_runs(item), reduce_width(w, mlen)),
        FragV { text: marker, role: Role::Bullet },
        mlen,
    )
}

/// The layout of list items `k` on.
pub open spec fn list_lines(items: Seq<Seq<InlineV>>, ordered: bool, w: int, k: int) -> Seq<LayoutLineV>
    decreases items.len() - k when 0 <= k <= items.len()
{
    if k >= items.len() {
        seq![]
    } else {
        item_lines(items[k], item_marker(ordered, k), w) + list_lines(items, ordered, w, k + 1)
    }
}

/// The layout of a leaf block at width `w`. Headers and paragraphs word-wrap;
/// code block lines pass through verbatim, indented by two and never wrapped;
/// a rule fills the width with dashes; list items wrap under their marker;
/// table columns take the width of their widest cell (capped at `w`) and the
/// row is clipped at the right edge when it is too wide.
pub open spec fn layout_leaf_spec(leaf: LeafV, w: int) -> Seq<LayoutLineV> {
    match leaf {
        LeafV::Header { level, spans } => assemble_prefixed(
            wrap_words(header_words(spans), reduce_width(w, level + 1)),
            FragV { text: header_marker(level), role: Role::Bullet },
            level + 1,
        ),
        LeafV::Paragraph { spans } => plain_lines(wrap_words(words_of_runs(spans), w)),
        LeafV::CodeBlock { lang, lines } => Seq::new(lines.len(),
            |k: int| LayoutLineV {
                indent: 2,
                frags: seq![FragV { text: lines[k], role: Role::CodeBlock }],
            }),
        LeafV::List { ordered, items } => list_lines(items, ordered, w, 0),
        LeafV::Rule => seq![LayoutLineV {
            indent: 0,
            frags: seq![FragV {
                text: Seq::new(if w >= 0 { w as nat } else { 0 }, |i: int| 45u8),
                role: Role::Bullet,
            }],
        }],
        LeafV::Table { rows } => table_lines(rows, w),
    }
}

// ---------------------------------------------------------------------------
// Tables
// ---------------------------------------------------------------------------

/// The number of columns: the widest row.
pub open spec fn max_row_len(rows: Seq<Seq<Seq<InlineV>>>, r: int) -> int
    decreases rows.len() - r when 0 <= r <= rows.len()
{
    if r >= rows.len() {
        0
    } else {
        let rest = max_row_len(rows, r + 1);
        if rows[r].len() > rest { rows[r].len() as int } else { rest }
    }
}

/// Columns a cell occupies: its fragments laid out unwrapped.
pub open spec fn cell_width(cell: Seq<InlineV>) -> int {
    word_len(pieces_of_runs(cell))
}

/// Width of column `j`: its widest cell, capped at the target width.
pub open spec fn col_width(rows: Seq<Seq<Seq<InlineV>>>, j: int, w: int, r: int) -> int
    decreases rows.len() - r when 0 <= r <= rows.len()
{
    if r >= rows.len() {
        0
    } else {
        let rest = col_width(rows, j, w, r + 1);
        let c = if 0 <= j < rows[r].len() {
            if cell_width(rows[r][j]) <= w { cell_width(rows[r][j]) } else { w }
        } else {
            0
        };
        if c > rest { c } else { rest }
    }
}

/// All column widths of a table.
pub open spec fn table_widths(rows: Seq<Seq<Seq<InlineV>>>, w: int) -> Seq<int> {
    Seq::new(if max_row_len(rows, 0) >= 0 { max_row_len(rows, 0) as nat } else { 0 },
        |j: int| col_width(rows, j, w, 0))
}

/// A cell padded with spaces to its column width.
pub open spec fn pad_to(fs: Seq<FragV>, wdt: int) -> Seq<FragV> {
    if word_len(fs) < wdt {
        fs.push(FragV { text: spaces(wdt - word_len(fs)), role: Role::Pad })
    } else {
        fs
    }
}

/// The fragments of one table row from column `j` on: padded cells joined by
/// a ` | ` border.
pub open spec fn row_frags(row: Seq<Seq<InlineV>>, widths: Seq<int>, j: int) -> Seq<FragV>
    decreases widths.len() - j when 0 <= j <= widths.len()
{
    if j >= widths.len() {
        seq![]
    } else {
        let cell = if j < row.len() { pieces_of_runs(row[j]) } else { seq![] };
        pad_to(cell, widths[j])
            + (if j + 1 < widths.len() {
                seq![FragV { text: seq![32u8, 124u8, 32u8], role: Role::Bullet }]
            } else {
                seq![]
            })
            + row_frags(row, widths, j + 1)
    }
}

/// Fragments clipped to at most `rem` columns.
pub open spec fn truncate_frags(fs: Seq<FragV>, rem: int) -> Seq<FragV>
    decreases fs.len()
{
    if fs.len() == 0 || rem <= 0 {
        seq![]
    } else if fs[0].text.len() <= rem {
        seq![fs[0]] + truncate_frags(fs.drop_first(), rem - fs[0].text.len())
    } else {
        seq![FragV { text: fs[0].text.take(rem), role: fs[0].role }]
    }
}

/// The layout of a table: one row per line, columns consistent across rows.
pub open spec fn table_lines(rows: Seq<Seq<Seq<InlineV>>>, w: int) -> Seq<LayoutLineV> {
    Seq::new(rows.len(), |k: int| LayoutLineV {
        indent: 0,
        frags: truncate_frags(row_frags(rows[k], table_widths(rows, w), 0), w),
    })
}

// ---------------------------------------------------------------------------
// Quotes and the whole document
// ---------------------------------------------------------------------------

/// The quote markers for depth `d`: `> ` repeated.
pub open spec fn quote_marks(d: int) -> Seq<u8>
    decreases d
{
    if d <= 0 {
        seq![]
    } else {
        seq![62u8, 32u8] + quote_marks(d - 1)
    }
}

/// An inner line carried into a quote: the markers and the inner indent fold
/// into one leading quote fragment.
pub open spec fn quote_line(d: int, l: LayoutLineV) -> LayoutLineV {
    LayoutLineV {
        indent: 0,
        frags: seq![FragV { text: quote_marks(d) + spaces(l.indent), role: Role::Quote }] + l.frags,
    }
}

/// The layout of a quote's content from leaf `k` on.
pub open spec fn quote_lines(content: Seq<LeafV>, d: int, w: int, k: int) -> Seq<LayoutLineV>
    decreases content.len() - k when 0 <= k <= content.len()
{
    if k >= content.len() {
        seq![]
    } else {
        layout_leaf_spec(content[k], reduce_width(w, 2 * d)).map_values(|l: LayoutLineV| quote_line(d, l))
            + quote_lines(content, d, w, k + 1)
    }
}

/// The layout of one top-level block.
pub open spec fn layout_block_spec(b: BlockV, w: int) -> Seq<LayoutLineV> {
    match b {
        BlockV::Leaf(l) => layout_leaf_spec(l, w),
        BlockV::Quote { depth, content } => quote_lines(content, depth, w, 0),
    }
}

/// The layout of a document from block `k` on.
pub open spec fn layout_doc_from(bs: Seq<BlockV>, w: int, k: int) -> Seq<LayoutLineV>
    decreases bs.len() - k when 0 <= k <= bs.len()
{
    if k >= bs.len() {
        seq![]
    } else {
        layout_block_spec(bs[k], w) + layout_doc_from(bs, w, k + 1)
    }
}

/// The layout of a whole document at width `w`.
pub open spec fn layout_doc_spec(bs: Seq<BlockV>, w: int) -> Seq<LayoutLineV> {
    layout_doc_from(bs, w, 0)
}

/// Code block content passes through byte for byte: each raw line becomes
/// exactly one layout line, indented by two columns, as a single fragment
/// that was never word-wrapped and never inline-scanned, whatever the target
/// width.
pub proof fn lemma_codeblock_verbatim(lang: Seq<u8>, lines: Seq<Seq<u8>>, w: int)
    ensures
        layout_leaf_spec(LeafV::CodeBlock { lang, lines }, w).len() == lines.len(),
        forall|k: int| 0 <= k < lines.len()
            ==> #[trigger] layout_leaf_spec(LeafV::CodeBlock { lang, lines }, w)[k]
                == (LayoutLineV {
                    indent: 2,
                    frags: seq![FragV { text: lines[k], role: Role::CodeBlock }],
                }),
{
}

// ---------------------------------------------------------------------------
// The width law
// ---------------------------------------------------------------------------

/// No fragment of the line is a word separator: the line is one unbreakable
/// unit (a lone word with its marker, or verbatim code or table text).
pub open spec fn space_free(fs: Seq<FragV>) -> bool {
    forall|j: int| 0 <= j < fs.len() ==> (#[trigger] fs[j]).role != Role::Space
}

/// The width law for one rendered line: a line carrying a word separator (so
/// it holds at least two words) spans at least three and at most `w` columns;
/// a line without one is exempt.
pub open spec fn line_fits(l: LayoutLineV, w: int) -> bool {
    space_free(l.frags) || (3 <= line_width(l) <= w)
}

pub proof fn lemma_word_len_concat(a: Seq<FragV>, b: Seq<FragV>)
    ensures
        word_len(a + b) == word_len(a) + word_len(b),
    decreases a.len(),
{
    if a.len() == 0 {
        assert(a + b =~= b);
    } else {
        assert((a + b).drop_first() =~= a.drop_first() + b);
        lemma_word_len_concat(a.drop_first(), b);
        assert((a + b)[0] == a[0]);
    }
}

pub proof fn lemma_word_len_single(f: FragV)
    ensures
        word_len(seq![f]) == f.text.len(),
{
    assert(seq![f].drop_first() =~= Seq::<FragV>::empty());
    assert(word_len(Seq::<FragV>::empty()) == 0);
}

/// The assembled fragments of a wrapped line span exactly the line's width.
pub proof fn lemma_line_frags_width(ln: Seq<Seq<FragV>>)
    ensures
        word_len(line_frags(ln)) == line_words_width(ln),
    decreases ln.len(),
{
    if ln.len() <= 1 {
    } else {
        lemma_line_frags_width(ln.drop_first());
        assert((ln[0] + seq![space_fragv()]) + line_frags(ln.drop_first())
            =~= ln[0] + seq![space_fragv()] + line_frags(ln.drop_first()));
        lemma_word_len_concat(ln[0] + seq![space_fragv()], line_frags(ln.drop_first()));
        lemma_word_len_concat(ln[0], seq![space_fragv()]);
        lemma_word_len_single(space_fragv());
    }
}

/// A wrapped line of at most one word has no separator fragment.
pub proof fn lemma_line_frags_space_free(ln: Seq<Seq<FragV>>)
    requires
        crate::words::good_words(ln),
        ln.len() <= 1,
    ensures
        space_free(line_frags(ln)),
{
    if ln.len() == 1 {
        assert(crate::words::good_word(ln[0]));
    }
}

/// Every line assembled from good, properly wrapped words obeys the width
/// law: the marker and the indent are accounted to the width.
pub proof fn lemma_assembled_fits(lines: Seq<Seq<Seq<FragV>>>, marker: FragV, ci: int, w: int)
    requires
        marker.role != Role::Space,
        marker.text.len() == ci,
        forall|i: int| 0 <= i < lines.len() ==> crate::words::good_words(#[trigger] lines[i]),
        forall|i: int| 0 <= i < lines.len()
            ==> crate::words::wrapped_line_ok(#[trigger] lines[i], reduce_width(w, ci)),
    ensures
        forall|i: int| 0 <= i < assemble_prefixed(lines, marker, ci).len()
            ==> line_fits(#[trigger] assemble_prefixed(lines, marker, ci)[i], w)
                && assemble_prefixed(lines, marker, ci)[i].indent >= 0,
{
    let avail = reduce_width(w, ci);
    let res = assemble_prefixed(lines, marker, ci);
    assert forall|i: int| 0 <= i < res.len()
        implies line_fits(#[trigger] res[i], w) && res[i].indent >= 0 by {
        if lines.len() == 0 {
            assert(res[0].frags == seq![marker]);
            assert(space_free(seq![marker]));
        } else {
            let ln = if i == 0 { lines[0] } else { lines[i] };
            assert(crate::words::good_words(ln));
            assert(crate::words::wrapped_line_ok(ln, avail));
            lemma_line_frags_width(ln);
            if i == 0 {
                assert(res[0].frags == seq![marker] + line_frags(lines[0]));
                if ln.len() <= 1 {
                    lemma_line_frags_space_free(ln);
                    assert forall|j: int| 0 <= j < res[0].frags.len()
                        implies (#[trigger] res[0].frags[j]).role != Role::Space by {
                        if j == 0 {
                            assert(res[0].frags[j] == marker);
                        } else {
                            assert(res[0].frags[j] == line_frags(ln)[j - 1]);
                        }
                    }
                } else {
                    crate::words::lemma_good_line_width(ln);
                    assert(line_words_width(ln) <= avail);
                    if w - ci >= 1 {
                        lemma_word_len_concat(seq![marker], line_frags(ln));
                        lemma_word_len_single(marker);
                        assert(line_width(res[0]) == ci + line_words_width(ln));
                        assert(3 <= line_width(res[0]) <= w);
                    } else {
                        assert(line_words_width(ln) <= 1);
                        assert(line_words_width(ln) >= 3);
                        assert(false);
                    }
                }
            } else {
                assert(res[i] == cont_lines(lines, ci, 1)[i - 1]);
                assert(res[i].frags == line_frags(lines[i]));
                assert(res[i].indent == ci);
                if ln.len() <= 1 {
                    lemma_line_frags_space_free(ln);
                } else {
                    crate::words::lemma_good_line_width(ln);
                    if w - ci >= 1 {
                        assert(line_width(res[i]) == ci + line_words_width(ln));
                        assert(3 <= line_width(res[i]) <= w);
                    } else {
                        assert(line_words_width(ln) <= 1);
                        assert(line_words_width(ln) >= 3);
                        assert(false);
                    }
                }
            }
        }
    }
}

/// The same law for plain paragraph lines at indent zero.
pub proof fn lemma_plain_fits(lines: Seq<Seq<Seq<FragV>>>, w: int)
    requires
        w >= 1,
        forall|i: int| 0 <= i < lines.len() ==> crate::words::good_words(#[trigger] lines[i]),
        forall|i: int| 0 <= i < lines.len() ==> crate::words::wrapped_line_ok(#[trigger] lines[i], w),
    ensures
        forall|i: int| 0 <= i < plain_lines(lines).len()
            ==> line_fits(#[trigger] plain_lines(lines)[i], w) && plain_lines(lines)[i].indent >= 0,
{
    let res = plain_lines(lines);
    assert forall|i: int| 0 <= i < res.len()
        implies line_fits(#[trigger] res[i], w) && res[i].indent >= 0 by {
        let ln = lines[i];
        assert(res[i].frags == line_frags(ln));
        lemma_line_frags_width(ln);
        if ln.len() <= 1 {
            lemma_line_frags_space_free(ln);
        } else {
            crate::words::lemma_good_line_width(ln);
            assert(line_words_width(ln) <= w);
            assert(3 <= line_width(res[i]) <= w);
        }
    }
}

/// A header level the parser can produce.
pub open spec fn wf_leaf(l: LeafV) -> bool {
    match l {
        LeafV::Header { level, spans } => 1 <= level <= 6,
        _ => true,
    }
}

pub open spec fn wf_block(b: BlockV) -> bool {
    match b {
        BlockV::Leaf(l) => wf_leaf(l),
        BlockV::Quote { depth, content } => depth >= 1
            && forall|i: int| 0 <= i < content.len() ==> wf_leaf(#[trigger] content[i]),
    }
}

pub open spec fn wf_doc(bs: Seq<BlockV>) -> bool {
    forall|i: int| 0 <= i < bs.len() ==> wf_block(#[trigger] bs[i])
}

pub proof fn lemma_quote_marks_len(d: int)
    requires
        d >= 0,
    ensures
        quote_marks(d).len() == 2 * d,
    decreases d,
{
    if d > 0 {
        lemma_quote_marks_len(d - 1);
    }
}

pub proof fn lemma_dec_digits_len(n: nat)
    ensures
        dec_digits(n).len() >= 1,
    decreases n,
{
    if n >= 10 {
        lemma_dec_digits_len(n / 10);
    }
}

proof fn lemma_truncate_space_free(fs: Seq<FragV>, rem: int)
    requires
        space_free(fs),
    ensures
        space_free(truncate_frags(fs, rem)),
    decreases fs.len(),
{
    if fs.len() == 0 || rem <= 0 {
    } else if fs[0].text.len() <= rem {
        assert(space_free(fs.drop_first()));
        lemma_truncate_space_free(fs.drop_first(), rem - fs[0].text.len());
        let res = truncate_frags(fs, rem);
        assert forall|j: int| 0 <= j < res.len()
            implies (#[trigger] res[j]).role != Role::Space by {
            if j == 0 {
                assert(res[0] == fs[0]);
            } else {
                assert(res[j] == truncate_frags(fs.drop_first(), rem - fs[0].text.len())[j - 1]);
            }
        }
    }
}

proof fn lemma_pad_to_space_free(fs: Seq<FragV>, wdt: int)
    requires
        space_free(fs),
    ensures
        space_free(pad_to(fs, wdt)),
{
    if word_len(fs) < wdt {
        let res = pad_to(fs, wdt);
        assert forall|j: int| 0 <= j < res.len()
            implies (#[trigger] res[j]).role != Role::Space by {
            if j < fs.len() {
                assert(res[j] == fs[j]);
            }
        }
    }
}

proof fn lemma_row_frags_space_free(row: Seq<Seq<InlineV>>, widths: Seq<int>, j: int)
    requires
        0 <= j <= widths.len(),
    ensures
        space_free(row_frags(row, widths, j)),
    decreases widths.len() - j,
{
    if j < widths.len() {
        lemma_row_frags_space_free(row, widths, j + 1);
        let cell = if j < row.len() { pieces_of_runs(row[j]) } else { seq![] };
        if j < row.len() {
            crate::words::lemma_pieces_of_runs_ok(row[j]);
        }
        assert(space_free(cell));
        lemma_pad_to_space_free(cell, widths[j]);
        let border: Seq<FragV> = if j + 1 < widths.len() {
            seq![FragV { text: seq![32u8, 124u8, 32u8], role: Role::Bullet }]
        } else {
            seq![]
        };
        let res = row_frags(row, widths, j);
        assert(res == pad_to(cell, widths[j]) + border + row_frags(row, widths, j + 1));
        assert forall|m: int| 0 <= m < res.len()
            implies (#[trigger] res[m]).role != Role::Space by {
            let a = pad_to(cell, widths[j]);
            if m < a.len() {
                assert(res[m] == a[m]);
            } else if m < a.len() + border.len() {
                assert(res[m] == border[m - a.len()]);
            } else {
                assert(res[m] == row_frags(row, widths, j + 1)[m - a.len() - border.len()]);
            }
        }
    }
}

/// The width law for one leaf block: every produced line either holds no word
/// separator (one unbreakable unit) or spans at most `w` columns.
pub proof fn lemma_leaf_fits(leaf: LeafV, w: int)
    requires
        w >= 1,
        wf_leaf(leaf),
    ensures
        forall|i: int| 0 <= i < layout_leaf_spec(leaf, w).len()
            ==> line_fits(#[trigger] layout_leaf_spec(leaf, w)[i], w)
                && layout_leaf_spec(leaf, w)[i].indent >= 0,
{
    match leaf {
        LeafV::Header { level, spans } => {
            let pieces = seq![FragV { text: plain_of_runs(spans), role: Role::Header }];
            assert(crate::words::pieces_ok(pieces)) by {
                assert(pieces[0].role == Role::Header);
            }
            crate::words::lemma_words_of_pieces_good(pieces, Seq::empty());
            let words = header_words(spans);
            let avail = reduce_width(w, level + 1);
            crate::words::lemma_wrap_acc_good(words, avail, seq![]);
            crate::words::lemma_wrap_acc_width(words, avail, seq![]);
            let marker = FragV { text: header_marker(level), role: Role::Bullet };
            assert(marker.text.len() == level + 1);
            lemma_assembled_fits(wrap_words(words, avail), marker, level + 1, w);
        },
        LeafV::Paragraph { spans } => {
            crate::words::lemma_words_of_runs_good(spans);
            let words = words_of_runs(spans);
            crate::words::lemma_wrap_acc_good(words, w, seq![]);
            crate::words::lemma_wrap_acc_width(words, w, seq![]);
            lemma_plain_fits(wrap_words(words, w), w);
        },
        LeafV::CodeBlock { lang, lines } => {
            assert forall|i: int| 0 <= i < layout_leaf_spec(leaf, w).len()
                implies line_fits(#[trigger] layout_leaf_spec(leaf, w)[i], w)
                    && layout_leaf_spec(leaf, w)[i].indent >= 0 by {
                let l = layout_leaf_spec(leaf, w)[i];
                assert(l.frags == seq![FragV { text: lines[i], role: Role::CodeBlock }]);
                assert(space_free(l.frags)) by {
                    assert(l.frags[0].role == Role::CodeBlock);
                }
            }
        },
        LeafV::List { ordered, items } => {
            lemma_list_fits(items, ordered, w, 0);
        },
        LeafV::Rule => {
            let l = layout_leaf_spec(leaf, w)[0];
            assert(space_free(l.frags)) by {
                assert(l.frags[0].role == Role::Bullet);
            }
        },
        LeafV::Table { rows } => {
            assert forall|i: int| 0 <= i < layout_leaf_spec(leaf, w).len()
                implies line_fits(#[trigger] layout_leaf_spec(leaf, w)[i], w)
                    && layout_leaf_spec(leaf, w)[i].indent >= 0 by {
                let l = layout_leaf_spec(leaf, w)[i];
                lemma_row_frags_space_free(rows[i], table_widths(rows, w), 0);
                lemma_truncate_space_free(row_frags(rows[i], table_widths(rows, w), 0), w);
                assert(space_free(l.frags));
            }
        },
    }
}

proof fn lemma_list_fits(items: Seq<Seq<InlineV>>, ordered: bool, w: int, k: int)
    requires
        w >= 1,
        0 <= k <= items.len(),
    ensures
        forall|i: int| 0 <= i < list_lines(items, ordered, w, k).len()
            ==> line_fits(#[trigger] list_lines(items, ordered, w, k)[i], w)
                && list_lines(items, ordered, w, k)[i].indent >= 0,
    decreases items.len() - k,
{
    if k < items.len() {
        lemma_list_fits(items, ordered, w, k + 1);
        let marker = item_marker(ordered, k);
        if ordered {
            lemma_dec_digits_len((k + 1) as nat);
        }
        crate::words::lemma_words_of_runs_good(items[k]);
        let words = words_of_runs(items[k]);
        let avail = reduce_width(w, marker.len() as int);
        crate::words::lemma_wrap_acc_good(words, avail, seq![]);
        crate::words::lemma_wrap_acc_width(words, avail, seq![]);
        lemma_assembled_fits(
            wrap_words(words, avail),
            FragV { text: marker, role: Role::Bullet },
            marker.len() as int,
            w,
        );
        let head = item_lines(items[k], marker, w);
        let rest = list_lines(items, ordered, w, k + 1);
        assert forall|i: int| 0 <= i < (head + rest).len()
            implies line_fits(#[trigger] (head + rest)[i], w) && (head + rest)[i].indent >= 0 by {
            if i < head.len() {
                assert((head + rest)[i] == head[i]);
            } else {
                assert((head + rest)[i] == rest[i - head.len()]);
            }
        }
    }
}

proof fn lemma_quote_fits(content: Seq<LeafV>, d: int, w: int, k: int)
    requires
        w >= 1,
        d >= 1,
        0 <= k <= content.len(),
        forall|i: int| 0 <= i < content.len() ==> wf_leaf(#[trigger] content[i]),
    ensures
        forall|i: int| 0 <= i < quote_lines(content, d, w, k).len()
            ==> line_fits(#[trigger] quote_lines(content, d, w, k)[i], w)
                && quote_lines(content, d, w, k)[i].indent >= 0,
    decreases content.len() - k,
{
    if k < content.len() {
        lemma_quote_fits(content, d, w, k + 1);
        let iw = reduce_width(w, 2 * d);
        lemma_leaf_fits(content[k], iw);
        lemma_quote_marks_len(d);
        let inner = layout_leaf_spec(content[k], iw);
        let mapped = inner.map_values(|l: LayoutLineV| quote_line(d, l));
        assert forall|i: int| 0 <= i < mapped.len()
            implies line_fits(#[trigger] mapped[i], w) && mapped[i].indent >= 0 by {
            let il = inner[i];
            assert(line_fits(il, iw) && il.indent >= 0);
            assert(mapped[i] == quote_line(d, il));
            let qf = FragV { text: quote_marks(d) + spaces(il.indent), role: Role::Quote };
            assert(qf.text.len() == 2 * d + il.indent);
            if space_free(il.frags) {
                assert forall|j: int| 0 <= j < mapped[i].frags.len()
                    implies (#[trigger] mapped[i].frags[j]).role != Role::Space by {
                    if j == 0 {
                        assert(mapped[i].frags[0] == qf);
                    } else {
                        assert(mapped[i].frags[j] == il.frags[j - 1]);
                    }
                }
            } else {
                assert(3 <= line_width(il) <= iw);
                if w - 2 * d >= 1 {
                    lemma_word_len_concat(seq![qf], il.frags);
                    lemma_word_len_single(qf);
                    assert(line_width(mapped[i]) == 2 * d + il.indent + word_len(il.frags));
                    assert(line_width(mapped[i]) == 2 * d + line_width(il));
                    assert(3 <= line_width(mapped[i]) <= w);
                } else {
                    assert(iw == 1);
                    assert(false);
                }
            }
        }
        let rest = quote_lines(content, d, w, k + 1);
        assert forall|i: int| 0 <= i < (mapped + rest).len()
            implies line_fits(#[trigger] (mapped + rest)[i], w)
                && (mapped + rest)[i].indent >= 0 by {
            if i < mapped.len() {
                assert((mapped + rest)[i] == mapped[i]);
            } else {
                assert((mapped + rest)[i] == rest[i - mapped.len()]);
            }
        }
    }
}

proof fn lemma_doc_fits(bs: Seq<BlockV>, w: int, k: int)
    requires
        w >= 1,
        wf_doc(bs),
        0 <= k <= bs.len(),
    ensures
        forall|i: int| 0 <= i < layout_doc_from(bs, w, k).len()
            ==> line_fits(#[trigger] layout_doc_from(bs, w, k)[i], w),
    decreases bs.len() - k,
{
    if k < bs.len() {
        lemma_doc_fits(bs, w, k + 1);
        assert(wf_block(bs[k]));
        match bs[k] {
            BlockV::Leaf(l) => {
                lemma_leaf_fits(l, w);
            },
            BlockV::Quote { depth, content } => {
                lemma_quote_fits(content, depth, w, 0);
            },
        }
        let head = layout_block_spec(bs[k], w);
        let rest = layout_doc_from(bs, w, k + 1);
        assert forall|i: int| 0 <= i < (head + rest).len()
            implies line_fits(#[trigger] (head + rest)[i], w) by {
            if i < head.len() {
                assert((head + rest)[i] == head[i]);
            } else {
                assert((head + rest)[i] == rest[i - head.len()]);
            }
        }
    }
}

/// The width law for a whole document: every rendered line that carries a
/// word separator — so it holds at least two words — fits within `w` columns.
/// A line without one is a single unbreakable unit: a lone over-long word
/// with its marker, a rule, or verbatim code or table text, and only the lone
/// word may exceed the width.
pub proof fn lemma_layout_width(bs: Seq<BlockV>, w: int)
    requires
        w >= 1,
        wf_doc(bs),
    ensures
        forall|i: int| 0 <= i < layout_doc_spec(bs, w).len()
            ==> line_fits(#[trigger] layout_doc_spec(bs, w)[i], w),
{
    lemma_doc_fits(bs, w, 0);
}

// ---------------------------------------------------------------------------
// The parser only builds well-formed documents
// ---------------------------------------------------------------------------

proof fn lemma_next_leaf_wf(lines: Seq<Seq<u8>>, i: int)
    requires
        0 <= i < lines.len(),
    ensures
        wf_leaf(crate::blocks::next_leaf(lines, i).0),
{
}

proof fn lemma_parse_leaves_wf(lines: Seq<Seq<u8>>, i: int)
    requires
        0 <= i <= lines.len(),
    ensures
        forall|k: int| 0 <= k < crate::blocks::parse_leaves(lines, i).len()
            ==> wf_leaf(#[trigger] crate::blocks::parse_leaves(lines, i)[k]),
    decreases lines.len() - i,
{
    if i < lines.len() {
        if crate::bytes::is_blank_line(lines[i]) {
            lemma_parse_leaves_wf(lines, i + 1);
            let res = crate::blocks::parse_leaves(lines, i);
            assert forall|k: int| 0 <= k < res.len() implies wf_leaf(#[trigger] res[k]) by {
                assert(res[k] == crate::blocks::parse_leaves(lines, i + 1)[k]);
            }
        } else {
            crate::blocks::lemma_next_leaf_bounds(lines, i);
            lemma_next_leaf_wf(lines, i);
            let step = crate::blocks::next_leaf(lines, i);
            lemma_parse_leaves_wf(lines, step.1);
            let res = crate::blocks::parse_leaves(lines, i);
            assert forall|k: int| 0 <= k < res.len() implies wf_leaf(#[trigger] res[k]) by {
                if k == 0 {
                    assert(res[0] == step.0);
                } else {
                    assert(res[k] == crate::blocks::parse_leaves(lines, step.1)[k - 1]);
                }
            }
        }
    }
}

proof fn lemma_parse_from_wf(lines: Seq<Seq<u8>>, i: int)
    requires
        0 <= i <= lines.len(),
    ensures
        forall|k: int| 0 <= k < crate::blocks::parse_from(lines, i).len()
            ==> wf_block(#[trigger] crate::blocks::parse_from(lines, i)[k]),
    decreases lines.len() - i,
{
    if i < lines.len() {
        if crate::bytes::is_blank_line(lines[i]) {
            lemma_parse_from_wf(lines, i + 1);
            let res = crate::blocks::parse_from(lines, i);
            assert forall|k: int| 0 <= k < res.len() implies wf_block(#[trigger] res[k]) by {
                assert(res[k] == crate::blocks::parse_from(lines, i + 1)[k]);
            }
        } else if crate::blocks::quote_depth(lines[i]) >= 1 {
            let d = crate::blocks::quote_depth(lines[i]);
            let j = crate::blocks::quote_run_end(lines, i, d);
            crate::blocks::lemma_quote_run_end(lines, i, d);
            assert(j > i) by {
                crate::blocks::lemma_quote_run_end(lines, i + 1, d);
            }
            assert forall|s: Seq<Seq<u8>>, k: int|
                0 <= k < crate::blocks::parse_leaves(s, 0).len()
                implies wf_leaf(#[trigger] crate::blocks::parse_leaves(s, 0)[k]) by {
                lemma_parse_leaves_wf(s, 0);
            }
            lemma_parse_from_wf(lines, j);
            let res = crate::blocks::parse_from(lines, i);
            assert(res.len() == 1 + crate::blocks::parse_from(lines, j).len());
            assert(wf_block(res[0]));
            assert forall|k: int| 0 <= k < res.len() implies wf_block(#[trigger] res[k]) by {
                if k != 0 {
                    assert(0 <= k - 1 < crate::blocks::parse_from(lines, j).len());
                    assert(res[k] == crate::blocks::parse_from(lines, j)[k - 1]);
                    assert(wf_block(crate::blocks::parse_from(lines, j)[k - 1]));
                }
            }
        } else {
            crate::blocks::lemma_next_leaf_bounds(lines, i);
            lemma_next_leaf_wf(lines, i);
            let step = crate::blocks::next_leaf(lines, i);
            lemma_parse_from_wf(lines, step.1);
            let res = crate::blocks::parse_from(lines, i);
            assert forall|k: int| 0 <= k < res.len() implies wf_block(#[trigger] res[k]) by {
                if k == 0 {
                    assert(res[0] == BlockV::Leaf(step.0));
                } else {
                    assert(res[k] == crate::blocks::parse_from(lines, step.1)[k - 1]);
                }
            }
        }
    }
}

/// Parsing always yields a well-formed document, whatever the input text.
pub proof fn lemma_parse_doc_wf(t: Seq<u8>)
    ensures
        wf_doc(crate::blocks::parse_doc_spec(t)),
{
    lemma_parse_from_wf(crate::bytes::split_lines(t), 0);
}

/// The width law holds of the rendering pipeline as a whole: for every input
/// text and every width, each laid-out line either fits or is a single
/// unbreakable unit.
pub proof fn lemma_render_width(t: Seq<u8>, w: int)
    requires
        w >= 1,
    ensures
        forall|i: int| 0 <= i < layout_doc_spec(crate::blocks::parse_doc_spec(t), w).len()
            ==> line_fits(#[trigger] layout_doc_spec(crate::blocks::parse_doc_spec(t), w)[i], w),
{
    lemma_parse_doc_wf(t);
    lemma_layout_width(crate::blocks::parse_doc_spec(t), w);
}

// ---------------------------------------------------------------------------
// Executable layout
// ---------------------------------------------------------------------------

/// Moves the lines of `src` onto the end of `dst`.
pub fn append_llines(dst: &mut Vec<LayoutLine>, src: &mut Vec<LayoutLine>)
    ensures
        llines_view(final(dst)@) == llines_view(old(dst)@) + llines_view(old(src)@),
{
    let ghost d0 = dst@;
    let ghost s0 = src@;
    dst.append(src);
    proof {
        assert(llines_view(d0 + s0) =~= llines_view(d0) + llines_view(s0));
    }
}

pub proof fn lemma_quote_marks_snoc(d: int)
    requires
        d >= 0,
    ensures
        quote_marks(d + 1) == quote_marks(d) + seq![62u8, 32u8],
    decreases d,
{
    if d == 0 {
        assert(quote_marks(1) =~= quote_marks(0) + seq![62u8, 32u8]);
    } else {
        lemma_quote_marks_snoc(d - 1);
        assert(quote_marks(d + 1) =~= quote_marks(d) + seq![62u8, 32u8]);
    }
}

/// Fragments clipped to at most `rem` columns.
pub fn truncate_frags_exec(fs: &Vec<Frag>, w: usize) -> (r: Vec<Frag>)
    ensures
        word_view(r@) == truncate_frags(word_view(fs@), w as int),
{
    let ghost fsv = word_view(fs@);
    let ghost total = truncate_frags(fsv, w as int);
    let mut out: Vec<Frag> = Vec::new();
    let mut rem: usize = w;
    let mut i: usize = 0;
    proof {
        assert(fsv.skip(0) =~= fsv);
        assert(word_view(out@) + truncate_frags(fsv.skip(0), w as int) =~~= total);
    }
    while i < fs.len() && rem > 0
        invariant
            0 <= i <= fsv.len(),
            fsv == word_view(fs@),
            total == truncate_frags(fsv, w as int),
            word_view(out@) + truncate_frags(fsv.skip(i as int), rem as int) == total,
        decreases fsv.len() - i,
    {
        let ghost o0 = word_view(out@);
        let ghost tail = fsv.skip(i as int);
        proof {
            assert(tail[0] == fsv[i as int]);
            assert(tail.drop_first() =~= fsv.skip(i as int + 1));
        }
        let l = fs[i].text.len();
        if l <= rem {
            out.push(Frag { text: clone_bytes(&fs[i].text), role: fs[i].role });
            proof {
                assert(word_view(out@) =~~= o0.push(fsv[i as int]));
                assert(o0 + (seq![fsv[i as int]] + truncate_frags(fsv.skip(i as int + 1), rem as int - l))
                    =~~= word_view(out@) + truncate_frags(fsv.skip(i as int + 1), rem as int - l));
            }
            rem = rem - l;
        } else {
            out.push(Frag { text: crate::bytes::subrange_vec(&fs[i].text, 0, rem), role: fs[i].role });
            proof {
                assert(fs@[i as int].text@.subrange(0, rem as int) =~= fsv[i as int].text.take(rem as int));
                assert(word_view(out@) =~~= o0.push(FragV {
                    text: fsv[i as int].text.take(rem as int),
                    role: fsv[i as int].role,
                }));
                assert(word_view(out@) =~~= total);
                assert(truncate_frags(fsv.skip(i as int + 1), 0) =~~= Seq::<FragV>::empty());
                assert(word_view(out@) + truncate_frags(fsv.skip(i as int + 1), 0) =~~= total);
            }
            rem = 0;
        }
        i = i + 1;
    }
    proof {
        if i >= fs.len() {
            assert(fsv.skip(fsv.len() as int) =~= Seq::<FragV>::empty());
            assert(truncate_frags(fsv.skip(i as int), rem as int) =~~= Seq::<FragV>::empty());
        } else {
            assert(rem == 0);
            assert(truncate_frags(fsv.skip(i as int), 0) =~~= Seq::<FragV>::empty());
        }
        assert(word_view(out@) + Seq::<FragV>::empty() =~~= word_view(out@));
    }
    out
}

/// The layout of a table at width `w`.
pub fn layout_table_exec(rows: &Vec<Vec<Vec<Inline>>>, w: usize) -> (r: Vec<LayoutLine>)
    ensures
        llines_view(r@) == table_lines(crate::blocks::rows_view(rows@), w as int),
{
    let ghost rv = crate::blocks::rows_view(rows@);
    // number of columns
    let mut ncols: usize = 0;
    let mut ri: usize = 0;
    proof {
        lemma_max_row_len_nonneg(rv, 0);
    }
    while ri < rows.len()
        invariant
            0 <= ri <= rv.len(),
            rv == crate::blocks::rows_view(rows@),
            (if ncols as int >= max_row_len(rv, ri as int) { ncols as int } else { max_row_len(rv, ri as int) })
                == max_row_len(rv, 0),
        decreases rv.len() - ri,
    {
        if rows[ri].len() > ncols {
            ncols = rows[ri].len();
        }
        ri = ri + 1;
    }
    proof {
        assert(max_row_len(rv, rv.len() as int) == 0);
        assert(ncols as int == max_row_len(rv, 0));
    }
    // column widths
    let mut widths: Vec<usize> = Vec::new();
    let mut j: usize = 0;
    proof {
        assert(widths@.map_values(|x: usize| x as int) =~= table_widths(rv, w as int).take(0));
    }
    while j < ncols
        invariant
            0 <= j <= ncols,
            rv == crate::blocks::rows_view(rows@),
            ncols as int == max_row_len(rv, 0),
            widths@.map_values(|x: usize| x as int) == table_widths(rv, w as int).take(j as int),
        decreases ncols - j,
    {
        let ghost w0 = widths@;
        let mut cw: usize = 0;
        let mut r2: usize = 0;
        proof {
            lemma_col_width_nonneg(rv, j as int, w as int, 0);
        }
        while r2 < rows.len()
            invariant
                0 <= r2 <= rv.len(),
                rv == crate::blocks::rows_view(rows@),
                j < ncols,
                (if cw as int >= col_width(rv, j as int, w as int, r2 as int) { cw as int }
                    else { col_width(rv, j as int, w as int, r2 as int) })
                    == col_width(rv, j as int, w as int, 0),
            decreases rv.len() - r2,
        {
            proof {
                assert(rv[r2 as int] == crate::blocks::items_view(rows@[r2 as int]@));
                lemma_col_width_nonneg(rv, j as int, w as int, r2 as int + 1);
            }
            if j < rows[r2].len() {
                let pieces = pieces_of_runs_exec(&rows[r2][j]);
                proof {
                    assert(rv[r2 as int][j as int] == crate::inline::runs_view(rows@[r2 as int]@[j as int]@));
                    assert(word_view(pieces@) == pieces_of_runs(rv[r2 as int][j as int]));
                }
                let c = match word_len_upto(&pieces, w) {
                    Some(n) => n,
                    None => w,
                };
                proof {
                    assert(c as int == (if cell_width(rv[r2 as int][j as int]) <= w as int {
                        cell_width(rv[r2 as int][j as int])
                    } else {
                        w as int
                    }));
                }
                if c > cw {
                    cw = c;
                }
            }
            r2 = r2 + 1;
        }
        proof {
            assert(col_width(rv, j as int, w as int, rv.len() as int) == 0);
            assert(cw as int == col_width(rv, j as int, w as int, 0));
        }
        widths.push(cw);
        proof {
            assert(widths@.map_values(|x: usize| x as int)
                =~= w0.map_values(|x: usize| x as int).push(cw as int));
            assert(table_widths(rv, w as int).take(j as int + 1)
                =~= table_widths(rv, w as int).take(j as int).push(table_widths(rv, w as int)[j as int]));
        }
        j = j + 1;
    }
    proof {
        assert(table_widths(rv, w as int).take(ncols as int) =~= table_widths(rv, w as int));
    }
    let ghost wsv = table_widths(rv, w as int);
    // the rows
    let mut out: Vec<LayoutLine> = Vec::new();
    let mut k: usize = 0;
    proof {
        assert(llines_view(out@) =~= table_lines(rv, w as int).take(0));
    }
    while k < rows.len()
        invariant
            0 <= k <= rv.len(),
            rv == crate::blocks::rows_view(rows@),
            wsv == table_widths(rv, w as int),
            widths@.map_values(|x: usize| x as int) == wsv,
            llines_view(out@) == table_lines(rv, w as int).take(k as int),
        decreases rv.len() - k,
    {
        let ghost o0 = llines_view(out@);
        let ghost rowv = rv[k as int];
        let row = &rows[k];
        let mut fs: Vec<Frag> = Vec::new();
        let mut j2: usize = 0;
        proof {
            assert(wsv.skip(0) =~= wsv);
            assert(rowv == crate::blocks::items_view(row@));
            assert(word_view(fs@) + row_frags(rowv, wsv.skip(0), 0) =~~= row_frags(rowv, wsv, 0));
        }
        while j2 < widths.len()
            invariant
                0 <= j2 <= wsv.len(),
                rv == crate::blocks::rows_view(rows@),
                0 <= k < rv.len(),
                rowv == rv[k as int],
                rowv == crate::blocks::items_view(row@),
                wsv == table_widths(rv, w as int),
                widths@.map_values(|x: usize| x as int) == wsv,
                word_view(fs@) + row_frags(rowv, wsv, j2 as int) == row_frags(rowv, wsv, 0),
            decreases wsv.len() - j2,
        {
            let ghost f0 = word_view(fs@);
            let mut cell: Vec<Frag> = if j2 < row.len() {
                pieces_of_runs_exec(&row[j2])
            } else {
                Vec::new()
            };
            let ghost cellv = if (j2 as int) < rowv.len() { pieces_of_runs(rowv[j2 as int]) } else { Seq::<FragV>::empty() };
            proof {
                assert(row@.len() == rowv.len());
                if (j2 as int) < rowv.len() {
                    assert(rowv[j2 as int] == crate::inline::runs_view(row@[j2 as int]@));
                }
                assert(word_view(cell@) =~~= cellv);
            }
            let wdt = widths[j2];
            proof {
                assert(wdt as int == wsv[j2 as int]);
            }
            match word_len_upto(&cell, wdt) {
                Some(n) => {
                    if n < wdt {
                        cell.push(Frag { text: spaces_vec(wdt - n), role: Role::Pad });
                        proof {
                            assert(word_view(cell@) =~~= pad_to(cellv, wdt as int));
                        }
                    } else {
                        proof {
                            assert(word_view(cell@) =~~= pad_to(cellv, wdt as int));
                        }
                    }
                },
                None => {
                    proof {
                        assert(word_view(cell@) =~~= pad_to(cellv, wdt as int));
                    }
                },
            }
            let ghost cpad = word_view(cell@);
            crate::words::append_frags(&mut fs, &mut cell);
            if j2 + 1 < widths.len() {
                let mut bt: Vec<u8> = Vec::new();
                bt.push(32);
                bt.push(124);
                bt.push(32);
                proof {
                    assert(bt@ =~= seq![32u8, 124u8, 32u8]);
                }
                fs.push(Frag { text: bt, role: Role::Bullet });
                proof {
                    assert(word_view(fs@) =~~= (f0 + cpad).push(FragV {
                        text: seq![32u8, 124u8, 32u8],
                        role: Role::Bullet,
                    }));
                    assert(word_view(fs@) =~~= f0 + (cpad
                        + seq![FragV { text: seq![32u8, 124u8, 32u8], role: Role::Bullet }]));
                    assert(f0 + (cpad + seq![FragV { text: seq![32u8, 124u8, 32u8], role: Role::Bullet }])
                        + row_frags(rowv, wsv, j2 as int + 1) =~~= row_frags(rowv, wsv, 0));
                }
            } else {
                proof {
                    assert(word_view(fs@) =~~= f0 + cpad);
                    assert(row_frags(rowv, wsv, j2 as int)
                        =~~= pad_to(cellv, wdt as int) + row_frags(rowv, wsv, j2 as int + 1));
                    assert(f0 + cpad + row_frags(rowv, wsv, j2 as int + 1) =~~= row_frags(rowv, wsv, 0));
                }
            }
            j2 = j2 + 1;
        }
        proof {
            assert(row_frags(rowv, wsv, wsv.len() as int) =~~= Seq::<FragV>::empty());
            assert(word_view(fs@) + Seq::<FragV>::empty() =~~= word_view(fs@));
        }
        let clipped = truncate_frags_exec(&fs, w);
        out.push(LayoutLine { indent: 0, frags: clipped });
        proof {
            assert(llines_view(out@) =~~= o0.push(LayoutLineV {
                indent: 0,
                frags: truncate_frags(row_frags(rowv, wsv, 0), w as int),
            }));
            assert(table_lines(rv, w as int).take(k as int + 1)
                =~= table_lines(rv, w as int).take(k as int).push(table_lines(rv, w as int)[k as int]));
        }
        k = k + 1;
    }
    proof {
        assert(table_lines(rv, w as int).take(rv.len() as int) =~= table_lines(rv, w as int));
    }
    out
}

pub proof fn lemma_max_row_len_nonneg(rows: Seq<Seq<Seq<InlineV>>>, r: int)
    requires
        0 <= r <= rows.len(),
    ensures
        max_row_len(rows, r) >= 0,
    decreases rows.len() - r,
{
    if r < rows.len() {
        lemma_max_row_len_nonneg(rows, r + 1);
    }
}

pub proof fn lemma_col_width_nonneg(rows: Seq<Seq<Seq<InlineV>>>, j: int, w: int, r: int)
    requires
        0 <= r <= rows.len(),
    ensures
        col_width(rows, j, w, r) >= 0,
    decreases rows.len() - r,
{
    if r < rows.len() {
        lemma_col_width_nonneg(rows, j, w, r + 1);
        if 0 <= j < rows[r].len() {
            crate::words::lemma_word_len_nonneg(pieces_of_runs(rows[r][j]));
        }
    }
}

/// The layout of one leaf block at width `w`.
pub fn layout_leaf(leaf: &LeafBlock, w: usize) -> (r: Vec<LayoutLine>)
    requires
        w >= 1,
    ensures
        llines_view(r@) == layout_leaf_spec(leaf@, w as int),
{
    match leaf {
        LeafBlock::Header { level, spans } => {
            let plain = plain_text(spans);
            let mut pieces: Vec<Frag> = Vec::new();
            pieces.push(Frag { text: plain, role: Role::Header });
            proof {
                assert(word_view(pieces@) =~~= seq![FragV {
                    text: plain_of_runs(crate::inline::runs_view(spans@)),
                    role: Role::Header,
                }]);
            }
            let words = words_of_pieces_exec(&pieces);
            let mut mk: Vec<u8> = Vec::new();
            let mut i: usize = 0;
            proof {
                assert(mk@ =~= Seq::new(0nat, |m: int| 35u8));
            }
            while i < *level
                invariant
                    0 <= i <= *level,
                    mk@ == Seq::new(i as nat, |m: int| 35u8),
                decreases *level - i,
            {
                mk.push(35);
                proof {
                    assert(mk@ =~= Seq::new((i + 1) as nat, |m: int| 35u8));
                }
                i = i + 1;
            }
            mk.push(32);
            proof {
                assert(mk@ =~= header_marker(*level as int));
            }
            let cont = mk.len();
            proof {
                assert(cont as int == *level as int + 1);
            }
            let avail = if w > *level && w - *level > 1 {
                w - *level - 1
            } else {
                1
            };
            proof {
                assert(avail as int == reduce_width(w as int, *level as int + 1));
            }
            let lines3 = wrap_words_exec(&words, avail);
            let out = assemble_prefixed_exec(&lines3, Frag { text: mk, role: Role::Bullet }, cont);
            proof {
                assert(llines_view(out@) =~~= layout_leaf_spec(leaf@, w as int));
            }
            out
        },
        LeafBlock::Paragraph { spans } => {
            let words = words_of_runs_exec(spans);
            let lines3 = wrap_words_exec(&words, w);
            let out = plain_lines_exec(&lines3);
            proof {
                assert(llines_view(out@) =~~= layout_leaf_spec(leaf@, w as int));
            }
            out
        },
        LeafBlock::CodeBlock { lang, lines } => {
            let ghost target = layout_leaf_spec(leaf@, w as int);
            let mut out: Vec<LayoutLine> = Vec::new();
            let mut k: usize = 0;
            proof {
                assert(llines_view(out@) =~= target.take(0));
            }
            while k < lines.len()
                invariant
                    0 <= k <= lines@.len(),
                    target == layout_leaf_spec(leaf@, w as int),
                    target.len() == lines@.len(),
                    forall|m: int| 0 <= m < lines@.len() ==> target[m] == (LayoutLineV {
                        indent: 2,
                        frags: seq![FragV { text: lines@[m]@, role: Role::CodeBlock }],
                    }),
                    llines_view(out@) == target.take(k as int),
                decreases lines@.len() - k,
            {
                let ghost o0 = llines_view(out@);
                let mut fs: Vec<Frag> = Vec::new();
                fs.push(Frag { text: clone_bytes(&lines[k]), role: Role::CodeBlock });
                out.push(LayoutLine { indent: 2, frags: fs });
                proof {
                    assert(llines_view(out@) =~~= o0.push(target[k as int]));
                    assert(target.take(k as int + 1) =~= target.take(k as int).push(target[k as int]));
                }
                k = k + 1;
            }
            proof {
                assert(target.take(target.len() as int) =~= target);
            }
            out
        },
        LeafBlock::List { ordered, items } => {
            let ghost iv = crate::blocks::items_view(items@);
            let ghost total = list_lines(iv, *ordered, w as int, 0);
            let mut out: Vec<LayoutLine> = Vec::new();
            let mut k: usize = 0;
            proof {
                assert(llines_view(out@) + list_lines(iv, *ordered, w as int, 0) =~~= total);
            }
            while k < items.len()
                invariant
                    0 <= k <= iv.len(),
                    iv == crate::blocks::items_view(items@),
                    total == list_lines(iv, *ordered, w as int, 0),
                    llines_view(out@) + list_lines(iv, *ordered, w as int, k as int) == total,
                decreases iv.len() - k,
            {
                let ghost o0 = llines_view(out@);
                let mut mk: Vec<u8>;
                if *ordered {
                    mk = dec_digits_vec(k + 1);
                    mk.push(46);
                    mk.push(32);
                    proof {
                        assert(mk@ =~= item_marker(true, k as int));
                    }
                } else {
                    mk = Vec::new();
                    mk.push(45);
                    mk.push(32);
                    proof {
                        assert(mk@ =~= item_marker(false, k as int));
                    }
                }
                let mlen = mk.len();
                let avail = reduce_width_exec(w, mlen);
                let words = words_of_runs_exec(&items[k]);
                let lines3 = wrap_words_exec(&words, avail);
                let mut part = assemble_prefixed_exec(&lines3, Frag { text: mk, role: Role::Bullet }, mlen);
                let ghost pv = llines_view(part@);
                append_llines(&mut out, &mut part);
                proof {
                    assert(pv =~~= item_lines(iv[k as int], item_marker(*ordered, k as int), w as int));
                    assert(o0 + (pv + list_lines(iv, *ordered, w as int, k as int + 1))
                        =~~= llines_view(out@) + list_lines(iv, *ordered, w as int, k as int + 1));
                }
                k = k + 1;
            }
            proof {
                assert(llines_view(out@) + Seq::<LayoutLineV>::empty() =~~= llines_view(out@));
            }
            out
        },
        LeafBlock::Rule => {
            let mut dashes: Vec<u8> = Vec::new();
            let mut i: usize = 0;
            proof {
                assert(dashes@ =~= Seq::new(0nat, |m: int| 45u8));
            }
            while i < w
                invariant
                    0 <= i <= w,
                    dashes@ == Seq::new(i as nat, |m: int| 45u8),
                decreases w - i,
            {
                dashes.push(45);
                proof {
                    assert(dashes@ =~= Seq::new((i + 1) as nat, |m: int| 45u8));
                }
                i = i + 1;
            }
            let mut fs: Vec<Frag> = Vec::new();
            fs.push(Frag { text: dashes, role: Role::Bullet });
            let mut out: Vec<LayoutLine> = Vec::new();
            out.push(LayoutLine { indent: 0, frags: fs });
            proof {
                assert(llines_view(out@) =~~= layout_leaf_spec(leaf@, w as int));
            }
            out
        },
        LeafBlock::Table { rows } => {
            let out = layout_table_exec(rows, w);
            proof {
                assert(llines_view(out@) =~~= layout_leaf_spec(leaf@, w as int));
            }
            out
        },
    }
}

/// The layout of one top-level block at width `w`.
pub fn layout_block(b: &Block, w: usize) -> (r: Vec<LayoutLine>)
    requires
        w >= 1,
    ensures
        llines_view(r@) == layout_block_spec(b@, w as int),
{
    match b {
        Block::Leaf(l) => {
            let out = layout_leaf(l, w);
            out
        },
        Block::Quote { depth, content } => {
            let d = *depth;
            let ghost cv = leaves_view(content@);
            let ghost total = quote_lines(cv, d as int, w as int, 0);
            let iw = if d <= (w - 1) / 2 {
                w - 2 * d
            } else {
                1
            };
            proof {
                assert(iw as int == reduce_width(w as int, 2 * (d as int)));
            }
            // the quote markers, one `> ` per level
            let mut qm: Vec<u8> = Vec::new();
            let mut i: usize = 0;
            proof {
                assert(qm@ =~= quote_marks(0));
            }
            while i < d
                invariant
                    0 <= i <= d,
                    qm@ == quote_marks(i as int),
                decreases d - i,
            {
                qm.push(62);
                qm.push(32);
                proof {
                    lemma_quote_marks_snoc(i as int);
                    assert(qm@ =~= quote_marks(i as int + 1));
                }
                i = i + 1;
            }
            let mut out: Vec<LayoutLine> = Vec::new();
            let mut k: usize = 0;
            proof {
                assert(llines_view(out@) + quote_lines(cv, d as int, w as int, 0) =~~= total);
            }
            while k < content.len()
                invariant
                    0 <= k <= cv.len(),
                    cv == leaves_view(content@),
                    total == quote_lines(cv, d as int, w as int, 0),
                    qm@ == quote_marks(d as int),
                    iw as int == reduce_width(w as int, 2 * (d as int)),
                    w >= 1,
                    iw >= 1,
                    llines_view(out@) + quote_lines(cv, d as int, w as int, k as int) == total,
                decreases cv.len() - k,
            {
                let ghost o0 = llines_view(out@);
                let inner = layout_leaf(&content[k], iw);
                let ghost innerv = llines_view(inner@);
                let ghost mapped = innerv.map_values(|l: LayoutLineV| quote_line(d as int, l));
                let mut m: usize = 0;
                proof {
                    assert(llines_view(out@) =~~= o0 + mapped.take(0));
                }
                while m < inner.len()
                    invariant
                        0 <= m <= innerv.len(),
                        innerv == llines_view(inner@),
                        qm@ == quote_marks(d as int),
                        mapped == innerv.map_values(|l: LayoutLineV| quote_line(d as int, l)),
                        llines_view(out@) == o0 + mapped.take(m as int),
                    decreases innerv.len() - m,
                {
                    let ghost oo = llines_view(out@);
                    let mut mkt = clone_bytes(&qm);
                    let mut pad = spaces_vec(inner[m].indent);
                    append_bytes(&mut mkt, &pad);
                    let mut fs: Vec<Frag> = Vec::new();
                    fs.push(Frag { text: mkt, role: Role::Quote });
                    let mut body = clone_word(&inner[m].frags);
                    crate::words::append_frags(&mut fs, &mut body);
                    out.push(LayoutLine { indent: 0, frags: fs });
                    proof {
                        assert(word_view(fs@) =~~= seq![FragV {
                            text: quote_marks(d as int) + spaces(innerv[m as int].indent),
                            role: Role::Quote,
                        }] + innerv[m as int].frags);
                        assert(llines_view(out@) =~~= oo.push(quote_line(d as int, innerv[m as int])));
                        assert(mapped.take(m as int + 1) =~= mapped.take(m as int).push(mapped[m as int]));
                        assert(llines_view(out@) =~~= o0 + mapped.take(m as int + 1));
                    }
                    m = m + 1;
                }
                proof {
                    assert(mapped.take(mapped.len() as int) =~= mapped);
                    assert(innerv =~~= layout_leaf_spec(cv[k as int], reduce_width(w as int, 2 * (d as int))));
                    assert(mapped =~~= layout_leaf_spec(cv[k as int], reduce_width(w as int, 2 * (d as int)))
                        .map_values(|l: LayoutLineV| quote_line(d as int, l)));
                    assert(o0 + (mapped + quote_lines(cv, d as int, w as int, k as int + 1))
                        =~~= llines_view(out@) + quote_lines(cv, d as int, w as int, k as int + 1));
                }
                k = k + 1;
            }
            proof {
                assert(llines_view(out@) + Seq::<LayoutLineV>::empty() =~~= llines_view(out@));
            }
            out
        },
    }
}

/// The layout of a whole document at width `w`: the wrapped, indented,
/// styled lines ready for emission.
pub fn layout_document(d: &Document, w: usize) -> (r: Vec<LayoutLine>)
    requires
        w >= 1,
    ensures
        llines_view(r@) == layout_doc_spec(d@, w as int),
{
    let ghost bv = blocks_view(d.blocks@);
    let ghost total = layout_doc_from(bv, w as int, 0);
    let mut out: Vec<LayoutLine> = Vec::new();
    let mut k: usize = 0;
    proof {
        assert(llines_view(out@) + layout_doc_from(bv, w as int, 0) =~~= total);
    }
    while k < d.blocks.len()
        invariant
            0 <= k <= bv.len(),
            bv == blocks_view(d.blocks@),
            total == layout_doc_from(bv, w as int, 0),
            w >= 1,
            llines_view(out@) + layout_doc_from(bv, w as int, k as int) == total,
        decreases bv.len() - k,
    {
        let ghost o0 = llines_view(out@);
        let mut part = layout_block(&d.blocks[k], w);
        let ghost pv = llines_view(part@);
        append_llines(&mut out, &mut part);
        proof {
            assert(pv == layout_block_spec(bv[k as int], w as int));
            assert(o0 + (pv + layout_doc_from(bv, w as int, k as int + 1))
                =~~= llines_view(out@) + layout_doc_from(bv, w as int, k as int + 1));
        }
        k = k + 1;
    }
    proof {
        assert(llines_view(out@) + Seq::<LayoutLineV>::empty() =~~= llines_view(out@));
    }
    out
}

} // verus!
