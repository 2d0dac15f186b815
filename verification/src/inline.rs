use vstd::prelude::*;
use crate::bytes::{
    append_bytes, find_byte, find_byte_at, find_pair, find_pair_at, lemma_find_byte,
    lemma_find_pair, subrange_vec,
};

verus! {

/// One styled run of inline text. Emphasis nests one level deep: an italic
/// stretch inside bold (or bold inside italic) becomes a combined run; any
/// deeper nesting stays literal text. Code content is never scanned further.
pub enum Inline {
    Text(Vec<u8>),
    Bold(Vec<u8>),
    Italic(Vec<u8>),
    BoldItalic(Vec<u8>),
    Code(Vec<u8>),
    Link(Vec<u8>, Vec<u8>),
}

/// Mathematical model of one inline run.
#[verifier::ext_equal]
pub enum InlineV {
    Text(Seq<u8>),
    Bold(Seq<u8>),
    Italic(Seq<u8>),
    BoldItalic(Seq<u8>),
    Code(Seq<u8>),
    Link(Seq<u8>, Seq<u8>),
}

impl View for Inline {
    type V = InlineV;

    open spec fn view(&self) -> InlineV {
        match self {
            Inline::Text(t) => InlineV::Text(t@),
            Inline::Bold(t) => InlineV::Bold(t@),
            Inline::Italic(t) => InlineV::Italic(t@),
            Inline::BoldItalic(t) => InlineV::BoldItalic(t@),
            Inline::Code(t) => InlineV::Code(t@),
            Inline::Link(l, u) => InlineV::Link(l@, u@),
        }
    }
}

pub open spec fn runs_view(s: Seq<Inline>) -> Seq<InlineV> {
    s.map_values(|r: Inline| r@)
}

pub proof fn lemma_runs_view_push(s: Seq<Inline>, x: Inline)
    ensures
        runs_view(s.push(x)) == runs_view(s).push(x@),
{
    assert(runs_view(s.push(x)) =~= runs_view(s).push(x@));
}

/// Pending literal text, flushed as a plain run when nonempty.
pub open spec fn flush_text(cur: Seq<u8>) -> Seq<InlineV> {
    if cur.len() == 0 {
        seq![]
    } else {
        seq![InlineV::Text(cur)]
    }
}

/// Pending text inside an emphasis span, flushed with the enclosing style.
pub open spec fn flush_emph(cur: Seq<u8>, outer_bold: bool) -> Seq<InlineV> {
    if cur.len() == 0 {
        seq![]
    } else if outer_bold {
        seq![InlineV::Bold(cur)]
    } else {
        seq![InlineV::Italic(cur)]
    }
}

pub open spec fn is_emph_byte(b: u8) -> bool {
    b == 42u8 || b == 95u8
}

/// Scans the content of a matched emphasis span. Only the opposite emphasis
/// delimiter is recognized inside, one level deep; an unmatched delimiter
/// stays literal.
pub open spec fn scan_emph_from(s: Seq<u8>, i: int, cur: Seq<u8>, outer_bold: bool) -> Seq<InlineV>
    decreases s.len() - i when 0 <= i <= s.len()
    via scan_emph_dec
{
    if i >= s.len() {
        flush_emph(cur, outer_bold)
    } else if outer_bold && is_emph_byte(s[i]) {
        let j = find_byte(s, i + 1, s[i]);
        if j < s.len() {
            flush_emph(cur, true) + seq![InlineV::BoldItalic(s.subrange(i + 1, j))]
                + scan_emph_from(s, j + 1, Seq::empty(), true)
        } else {
            scan_emph_from(s, i + 1, cur.push(s[i]), true)
        }
    } else if !outer_bold && is_emph_byte(s[i]) && i + 1 < s.len() && s[i + 1] == s[i] {
        let j = find_pair(s, i + 2, s[i]);
        if j < s.len() {
            flush_emph(cur, false) + seq![InlineV::BoldItalic(s.subrange(i + 2, j))]
                + scan_emph_from(s, j + 2, Seq::empty(), false)
        } else {
            scan_emph_from(s, i + 1, cur.push(s[i]), false)
        }
    } else {
        scan_emph_from(s, i + 1, cur.push(s[i]), outer_bold)
    }
}

#[via_fn]
proof fn scan_emph_dec(s: Seq<u8>, i: int, cur: Seq<u8>, outer_bold: bool) {
    if 0 <= i < s.len() {
        lemma_find_byte(s, i + 1, s[i]);
        if i + 2 <= s.len() {
            lemma_find_pair(s, i + 2, s[i]);
        }
    }
}

/// Scans one logical line of inline Markdown into styled runs. Backtick code
/// spans, bold and italic emphasis and `[label](url)` links are recognized;
/// an unmatched opening delimiter degrades to literal text.
pub open spec fn scan_from(s: Seq<u8>, i: int, cur: Seq<u8>) -> Seq<InlineV>
    decreases s.len() - i when 0 <= i <= s.len()
    via scan_from_dec
{
    if i >= s.len() {
        flush_text(cur)
    } else if s[i] == 96u8 {
        let j = find_byte(s, i + 1, 96u8);
        if j < s.len() {
            flush_text(cur) + seq![InlineV::Code(s.subrange(i + 1, j))]
                + scan_from(s, j + 1, Seq::empty())
        } else {
            scan_from(s, i + 1, cur.push(s[i]))
        }
    } else if is_emph_byte(s[i]) && i + 1 < s.len() && s[i + 1] == s[i] {
        let j = find_pair(s, i + 2, s[i]);
        if j < s.len() {
            flush_text(cur) + scan_emph_from(s.subrange(i + 2, j), 0, Seq::empty(), true)
                + scan_from(s, j + 2, Seq::empty())
        } else {
            scan_from(s, i + 1, cur.push(s[i]))
        }
    } else if is_emph_byte(s[i]) {
        let j = find_byte(s, i + 1, s[i]);
        if j < s.len() {
            flush_text(cur) + scan_emph_from(s.subrange(i + 1, j), 0, Seq::empty(), false)
                + scan_from(s, j + 1, Seq::empty())
        } else {
            scan_from(s, i + 1, cur.push(s[i]))
        }
    } else if s[i] == 91u8 {
        let j = find_byte(s, i + 1, 93u8);
        if j < s.len() && j + 1 < s.len() && s[j + 1] == 40u8 {
            let k = find_byte(s, j + 2, 41u8);
            if k < s.len() {
                flush_text(cur) + seq![InlineV::Link(s.subrange(i + 1, j), s.subrange(j + 2, k))]
                    + scan_from(s, k + 1, Seq::empty())
            } else {
                scan_from(s, i + 1, cur.push(s[i]))
            }
        } else {
            scan_from(s, i + 1, cur.push(s[i]))
        }
    } else {
        scan_from(s, i + 1, cur.push(s[i]))
    }
}

#[via_fn]
proof fn scan_from_dec(s: Seq<u8>, i: int, cur: Seq<u8>) {
    if 0 <= i < s.len() {
        lemma_find_byte(s, i + 1, 96u8);
        lemma_find_byte(s, i + 1, s[i]);
        if i + 2 <= s.len() {
            lemma_find_pair(s, i + 2, s[i]);
        }
        let j = find_byte(s, i + 1, 93u8);
        lemma_find_byte(s, i + 1, 93u8);
        if j + 2 <= s.len() {
            lemma_find_byte(s, j + 2, 41u8);
        }
    }
}

/// The styled runs of one logical line.
pub open spec fn scan_line_spec(s: Seq<u8>) -> Seq<InlineV> {
    scan_from(s, 0, Seq::empty())
}

/// The text a run carries, with all styling stripped; a link contributes its
/// label.
pub open spec fn plain_of_run(r: InlineV) -> Seq<u8> {
    match r {
        InlineV::Text(t) => t,
        InlineV::Bold(t) => t,
        InlineV::Italic(t) => t,
        InlineV::BoldItalic(t) => t,
        InlineV::Code(t) => t,
        InlineV::Link(l, u) => l,
    }
}

pub open spec fn plain_of_runs(rs: Seq<InlineV>) -> Seq<u8>
    decreases rs.len()
{
    if rs.len() == 0 {
        Seq::empty()
    } else {
        plain_of_run(rs[0]) + plain_of_runs(rs.drop_first())
    }
}

pub proof fn lemma_plain_push(rs: Seq<InlineV>, x: InlineV)
    ensures
        plain_of_runs(rs.push(x)) == plain_of_runs(rs) + plain_of_run(x),
    decreases rs.len(),
{
    if rs.len() == 0 {
        reveal_with_fuel(plain_of_runs, 3);
        assert(rs.push(x).drop_first() =~= Seq::<InlineV>::empty());
        assert(plain_of_runs(rs.push(x)) =~= plain_of_runs(rs) + plain_of_run(x));
    } else {
        assert(rs.push(x).drop_first() =~= rs.drop_first().push(x));
        lemma_plain_push(rs.drop_first(), x);
        assert(plain_of_run(rs.push(x)[0]) == plain_of_run(rs[0]));
        assert(plain_of_run(rs[0]) + (plain_of_runs(rs.drop_first()) + plain_of_run(x))
            =~= (plain_of_run(rs[0]) + plain_of_runs(rs.drop_first())) + plain_of_run(x));
    }
}

/// A byte that can open emphasis or an inline code span.
pub open spec fn delim_byte(b: u8) -> bool {
    b == 42u8 || b == 95u8 || b == 96u8
}

proof fn lemma_scan_literal_from(s: Seq<u8>, i: int)
    requires
        0 <= i <= s.len(),
        forall|k: int| 0 <= k < s.len() ==> s[k] != 91u8,
        forall|k1: int, k2: int| 0 <= k1 < k2 < s.len() && delim_byte(s[k1])
            ==> !delim_byte(s[k2]),
    ensures
        scan_from(s, i, s.take(i)) == flush_text(s),
    decreases s.len() - i,
{
    if i >= s.len() {
        assert(s.take(i) =~= s);
    } else {
        assert(s.take(i).push(s[i]) =~= s.take(i + 1));
        if s[i] == 96u8 {
            lemma_find_byte(s, i + 1, 96u8);
            let j = find_byte(s, i + 1, 96u8);
            if j < s.len() {
                assert(delim_byte(s[i]) && delim_byte(s[j]));
                assert(false);
            }
            lemma_scan_literal_from(s, i + 1);
        } else if is_emph_byte(s[i]) {
            if i + 1 < s.len() && s[i + 1] == s[i] {
                assert(delim_byte(s[i]) && delim_byte(s[i + 1]));
                assert(false);
            }
            lemma_find_byte(s, i + 1, s[i]);
            let j = find_byte(s, i + 1, s[i]);
            if j < s.len() {
                assert(delim_byte(s[i]) && delim_byte(s[j]));
                assert(false);
            }
            lemma_scan_literal_from(s, i + 1);
        } else {
            lemma_scan_literal_from(s, i + 1);
        }
    }
}

/// An unmatched delimiter renders as literal text, not as an error: a line
/// that holds at most one emphasis or code delimiter and no link opener scans
/// to its own bytes as one plain run. The scanner works line by line, so no
/// unterminated styling can reach a later block either.
pub proof fn lemma_unmatched_delimiter_literal(s: Seq<u8>)
    requires
        forall|k: int| 0 <= k < s.len() ==> s[k] != 91u8,
        forall|k1: int, k2: int| 0 <= k1 < k2 < s.len() && delim_byte(s[k1])
            ==> !delim_byte(s[k2]),
    ensures
        scan_line_spec(s) == flush_text(s),
{
    assert(s.take(0) =~= Seq::<u8>::empty());
    lemma_scan_literal_from(s, 0);
}

/// Which run kind a flushed stretch of pending text becomes.
pub enum FlushKind {
    AsText,
    AsBold,
    AsItalic,
}

pub open spec fn flush_model(cur: Seq<u8>, k: FlushKind) -> Seq<InlineV> {
    match k {
        FlushKind::AsText => flush_text(cur),
        FlushKind::AsBold => flush_emph(cur, true),
        FlushKind::AsItalic => flush_emph(cur, false),
    }
}

fn flush_run(out: &mut Vec<Inline>, cur: Vec<u8>, k: FlushKind)
    ensures
        runs_view(final(out)@) == runs_view(old(out)@) + flush_model(cur@, k),
{
    if cur.len() > 0 {
        let ghost cv = cur@;
        let ghost ov = out@;
        match k {
            FlushKind::AsText => out.push(Inline::Text(cur)),
            FlushKind::AsBold => out.push(Inline::Bold(cur)),
            FlushKind::AsItalic => out.push(Inline::Italic(cur)),
        }
        proof {
            lemma_runs_view_push(ov, out@[ov.len() as int]);
            assert(runs_view(out@) =~= runs_view(ov) + flush_model(cv, k));
        }
    } else {
        proof {
            assert(runs_view(out@) =~= runs_view(out@) + flush_model(cur@, k));
        }
    }
}

/// Scans the inside of a matched emphasis span.
fn scan_emph(s: &Vec<u8>, outer_bold: bool) -> (r: Vec<Inline>)
    ensures
        runs_view(r@) == scan_emph_from(s@, 0, Seq::empty(), outer_bold),
{
    let mut out: Vec<Inline> = Vec::new();
    let mut cur: Vec<u8> = Vec::new();
    let mut i: usize = 0;
    proof {
        assert(runs_view(out@) + scan_emph_from(s@, 0, Seq::empty(), outer_bold)
            =~= scan_emph_from(s@, 0, Seq::empty(), outer_bold));
    }
    while i < s.len()
        invariant
            0 <= i <= s@.len(),
            runs_view(out@) + scan_emph_from(s@, i as int, cur@, outer_bold)
                =~= scan_emph_from(s@, 0, Seq::empty(), outer_bold),
        decreases s@.len() - i,
    {
        let b = s[i];
        let ghost cur0 = cur@;
        let ghost out0 = runs_view(out@);
        if outer_bold && (b == 42 || b == 95) {
            let j = find_byte_at(s, i + 1, b);
            proof {
                lemma_find_byte(s@, i as int + 1, b);
            }
            if j < s.len() {
                let content = subrange_vec(s, i + 1, j);
                flush_run(&mut out, cur, FlushKind::AsBold);
                cur = Vec::new();
                out.push(Inline::BoldItalic(content));
                proof {
                    lemma_runs_view_push(out@.drop_last(), out@.last());
                    assert(out@.drop_last().push(out@.last()) =~= out@);
                    assert(runs_view(out@) =~= out0 + flush_emph(cur0, true)
                        + seq![InlineV::BoldItalic(s@.subrange(i as int + 1, j as int))]);
                    assert(runs_view(out@) + scan_emph_from(s@, j as int + 1, Seq::empty(), outer_bold)
                        =~= scan_emph_from(s@, 0, Seq::empty(), outer_bold));
                }
                i = j + 1;
            } else {
                cur.push(b);
                i = i + 1;
            }
        } else if !outer_bold && (b == 42 || b == 95) && i + 1 < s.len() && s[i + 1] == b {
            let j = find_pair_at(s, i + 2, b);
            proof {
                lemma_find_pair(s@, i as int + 2, b);
            }
            if j < s.len() {
                let content = subrange_vec(s, i + 2, j);
                flush_run(&mut out, cur, FlushKind::AsItalic);
                cur = Vec::new();
                out.push(Inline::BoldItalic(content));
                proof {
                    lemma_runs_view_push(out@.drop_last(), out@.last());
                    assert(out@.drop_last().push(out@.last()) =~= out@);
                    assert(runs_view(out@) =~= out0 + flush_emph(cur0, false)
                        + seq![InlineV::BoldItalic(s@.subrange(i as int + 2, j as int))]);
                    assert(runs_view(out@) + scan_emph_from(s@, j as int + 2, Seq::empty(), outer_bold)
                        =~= scan_emph_from(s@, 0, Seq::empty(), outer_bold));
                }
                i = j + 2;
            } else {
                cur.push(b);
                i = i + 1;
            }
        } else {
            cur.push(b);
            i = i + 1;
        }
    }
    let ghost out0 = runs_view(out@);
    let ghost cur0 = cur@;
    flush_run(&mut out, cur, if outer_bold { FlushKind::AsBold } else { FlushKind::AsItalic });
    proof {
        assert(runs_view(out@) =~= out0 + flush_emph(cur0, outer_bold));
    }
    out
}

/// Scans one logical line of inline Markdown into styled runs.
pub fn scan_line(s: &Vec<u8>) -> (r: Vec<Inline>)
    ensures
        runs_view(r@) == scan_line_spec(s@),
{
    let mut out: Vec<Inline> = Vec::new();
    let mut cur: Vec<u8> = Vec::new();
    let mut i: usize = 0;
    proof {
        assert(runs_view(out@) + scan_from(s@, 0, Seq::empty()) =~= scan_line_spec(s@));
    }
    while i < s.len()
        invariant
            0 <= i <= s@.len(),
            runs_view(out@) + scan_from(s@, i as int, cur@) =~= scan_line_spec(s@),
        decreases s@.len() - i,
    {
        let b = s[i];
        let ghost cur0 = cur@;
        let ghost out0 = runs_view(out@);
        if b == 96 {
            let j = find_byte_at(s, i + 1, 96);
            proof {
                lemma_find_byte(s@, i as int + 1, 96u8);
            }
            if j < s.len() {
                let content = subrange_vec(s, i + 1, j);
                flush_run(&mut out, cur, FlushKind::AsText);
                cur = Vec::new();
                out.push(Inline::Code(content));
                proof {
                    lemma_runs_view_push(out@.drop_last(), out@.last());
                    assert(out@.drop_last().push(out@.last()) =~= out@);
                    assert(runs_view(out@) =~= out0 + flush_text(cur0)
                        + seq![InlineV::Code(s@.subrange(i as int + 1, j as int))]);
                    assert(runs_view(out@) + scan_from(s@, j as int + 1, Seq::empty())
                        =~= scan_line_spec(s@));
                }
                i = j + 1;
            } else {
                cur.push(b);
                i = i + 1;
            }
        } else if (b == 42 || b == 95) && i + 1 < s.len() && s[i + 1] == b {
            let j = find_pair_at(s, i + 2, b);
            proof {
                lemma_find_pair(s@, i as int + 2, b);
            }
            if j < s.len() {
                let content = subrange_vec(s, i + 2, j);
                flush_run(&mut out, cur, FlushKind::AsText);
                cur = Vec::new();
                let mut inner = scan_emph(&content, true);
                let ghost innerv = runs_view(inner@);
                append_runs(&mut out, &mut inner);
                proof {
                    assert(runs_view(out@) =~= out0 + flush_text(cur0) + innerv);
                    assert(runs_view(out@) + scan_from(s@, j as int + 2, Seq::empty())
                        =~= scan_line_spec(s@));
                }
                i = j + 2;
            } else {
                cur.push(b);
                i = i + 1;
            }
        } else if b == 42 || b == 95 {
            let j = find_byte_at(s, i + 1, b);
            proof {
                lemma_find_byte(s@, i as int + 1, b);
            }
            if j < s.len() {
                let content = subrange_vec(s, i + 1, j);
                flush_run(&mut out, cur, FlushKind::AsText);
                cur = Vec::new();
                let mut inner = scan_emph(&content, false);
                let ghost innerv = runs_view(inner@);
                append_runs(&mut out, &mut inner);
                proof {
                    assert(runs_view(out@) =~= out0 + flush_text(cur0) + innerv);
                    assert(runs_view(out@) + scan_from(s@, j as int + 1, Seq::empty())
                        =~= scan_line_spec(s@));
                }
                i = j + 1;
            } else {
                cur.push(b);
                i = i + 1;
            }
        } else if b == 91 {
            let j = find_byte_at(s, i + 1, 93);
            proof {
                lemma_find_byte(s@, i as int + 1, 93u8);
            }
            if j < s.len() && j + 1 < s.len() && s[j + 1] == 40 {
                let k = find_byte_at(s, j + 2, 41);
                proof {
                    lemma_find_byte(s@, j as int + 2, 41u8);
                }
                if k < s.len() {
                    let label = subrange_vec(s, i + 1, j);
                    let url = subrange_vec(s, j + 2, k);
                    flush_run(&mut out, cur, FlushKind::AsText);
                    cur = Vec::new();
                    out.push(Inline::Link(label, url));
                    proof {
                        lemma_runs_view_push(out@.drop_last(), out@.last());
                        assert(out@.drop_last().push(out@.last()) =~= out@);
                        assert(runs_view(out@) =~= out0 + flush_text(cur0)
                            + seq![InlineV::Link(s@.subrange(i as int + 1, j as int),
                                s@.subrange(j as int + 2, k as int))]);
                        assert(runs_view(out@) + scan_from(s@, k as int + 1, Seq::empty())
                            =~= scan_line_spec(s@));
                    }
                    i = k + 1;
                } else {
                    cur.push(b);
                    i = i + 1;
                }
            } else {
                cur.push(b);
                i = i + 1;
            }
        } else {
            cur.push(b);
            i = i + 1;
        }
    }
    let ghost out0 = runs_view(out@);
    let ghost cur0 = cur@;
    flush_run(&mut out, cur, FlushKind::AsText);
    proof {
        assert(runs_view(out@) =~= out0 + flush_text(cur0));
    }
    out
}

/// Moves the runs of `src` onto the end of `dst`.
pub fn append_runs(dst: &mut Vec<Inline>, src: &mut Vec<Inline>)
    ensures
        runs_view(final(dst)@) == runs_view(old(dst)@) + runs_view(old(src)@),
{
    let ghost d0 = dst@;
    let ghost s0 = src@;
    dst.append(src);
    proof {
        assert(runs_view(d0 + s0) =~= runs_view(d0) + runs_view(s0));
    }
}

/// The plain text of a run sequence, styling stripped.
pub fn plain_text(runs: &Vec<Inline>) -> (r: Vec<u8>)
    ensures
        r@ == plain_of_runs(runs_view(runs@)),
{
    let ghost rv = runs_view(runs@);
    let mut r: Vec<u8> = Vec::new();
    let mut i: usize = 0;
    proof {
        assert(rv.take(0) =~= Seq::<InlineV>::empty());
    }
    while i < runs.len()
        invariant
            0 <= i <= runs@.len(),
            rv == runs_view(runs@),
            r@ == plain_of_runs(rv.take(i as int)),
        decreases runs@.len() - i,
    {
        proof {
            assert(rv.take(i as int).push(rv[i as int]) =~= rv.take(i as int + 1));
            lemma_plain_push(rv.take(i as int), rv[i as int]);
        }
        match &runs[i] {
            Inline::Text(t) => append_bytes(&mut r, t),
            Inline::Bold(t) => append_bytes(&mut r, t),
            Inline::Italic(t) => append_bytes(&mut r, t),
            Inline::BoldItalic(t) => append_bytes(&mut r, t),
            Inline::Code(t) => append_bytes(&mut r, t),
            Inline::Link(l, u) => append_bytes(&mut r, l),
        }
        i = i + 1;
    }
    proof {
        assert(rv.take(rv.len() as int) =~= rv);
    }
    r
}

} // verus!
