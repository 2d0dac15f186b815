use vstd::prelude::*;
use crate::bytes::{append_bytes, dec_digits, dec_digits_vec, spaces, spaces_vec};
use crate::words::{FragV, word_view};
use crate::layout::{LayoutLine, LayoutLineV, llines_view};
use crate::style::{Attr, StyleProfile, attr_for, attr_of, is_default_attr, minimal_spec};

verus! {

/// One SGR escape sequence: ESC `[` code `m`.
pub open spec fn sgr(code: Seq<u8>) -> Seq<u8> {
    seq![27u8, 91u8] + code + seq![109u8]
}

/// The escape sequences that switch an attribute on: bold, dim, italic, then
/// the 256-color foreground.
pub open spec fn attr_prefix(a: Attr) -> Seq<u8> {
    (if a.bold { sgr(seq![49u8]) } else { Seq::empty() })
        + (if a.dim { sgr(seq![50u8]) } else { Seq::empty() })
        + (if a.italic { sgr(seq![51u8]) } else { Seq::empty() })
        + (match a.color {
            Some(c) => sgr(seq![51u8, 56u8, 59u8, 53u8, 59u8] + dec_digits(c as nat)),
            None => Seq::empty(),
        })
}

/// A styled fragment: its attribute switched on, the text, and a reset; a
/// fragment with the default attribute is the bare text.
pub open spec fn emit_frag(f: FragV, a: Attr) -> Seq<u8> {
    if is_default_attr(a) {
        f.text
    } else {
        attr_prefix(a) + f.text + sgr(seq![48u8])
    }
}

pub open spec fn emit_frags(fs: Seq<FragV>, p: StyleProfile) -> Seq<u8>
    decreases fs.len()
{
    if fs.len() == 0 {
        Seq::empty()
    } else {
        emit_frag(fs[0], attr_of(p, fs[0].role)) + emit_frags(fs.drop_first(), p)
    }
}

/// One finished terminal row: the indent as spaces, then the styled
/// fragments.
pub open spec fn emit_line_spec(l: LayoutLineV, p: StyleProfile) -> Seq<u8> {
    spaces(l.indent) + emit_frags(l.frags, p)
}

pub proof fn lemma_emit_frags_push(fs: Seq<FragV>, x: FragV, p: StyleProfile)
    ensures
        emit_frags(fs.push(x), p) == emit_frags(fs, p) + emit_frag(x, attr_of(p, x.role)),
    decreases fs.len(),
{
    if fs.len() == 0 {
        reveal_with_fuel(emit_frags, 3);
        assert(fs.push(x).drop_first() =~= Seq::<FragV>::empty());
        assert(emit_frags(fs.push(x), p) =~= emit_frags(fs, p) + emit_frag(x, attr_of(p, x.role)));
    } else {
        assert(fs.push(x).drop_first() =~= fs.drop_first().push(x));
        lemma_emit_frags_push(fs.drop_first(), x, p);
        assert(emit_frags(fs.push(x), p) =~= emit_frags(fs, p) + emit_frag(x, attr_of(p, x.role)));
    }
}

/// Appends one escape sequence.
fn push_sgr(out: &mut Vec<u8>, code: &Vec<u8>)
    ensures
        final(out)@ == old(out)@ + sgr(code@),
{
    out.push(27);
    out.push(91);
    append_bytes(out, code);
    out.push(109);
    proof {
        assert(out@ =~= old(out)@ + sgr(code@));
    }
}

/// Appends the escape sequences that switch `a` on.
fn push_attr_prefix(out: &mut Vec<u8>, a: Attr)
    ensures
        final(out)@ == old(out)@ + attr_prefix(a),
{
    let ghost o0 = out@;
    if a.bold {
        let mut code: Vec<u8> = Vec::new();
        code.push(49);
        proof {
            assert(code@ =~= seq![49u8]);
        }
        push_sgr(out, &code);
    }
    if a.dim {
        let mut code: Vec<u8> = Vec::new();
        code.push(50);
        proof {
            assert(code@ =~= seq![50u8]);
        }
        push_sgr(out, &code);
    }
    if a.italic {
        let mut code: Vec<u8> = Vec::new();
        code.push(51);
        proof {
            assert(code@ =~= seq![51u8]);
        }
        push_sgr(out, &code);
    }
    match a.color {
        Some(c) => {
            let mut code: Vec<u8> = Vec::new();
            code.push(51);
            code.push(56);
            code.push(59);
            code.push(53);
            code.push(59);
            let digits = dec_digits_vec(c as usize);
            append_bytes(&mut code, &digits);
            proof {
                assert(code@ =~= seq![51u8, 56u8, 59u8, 53u8, 59u8] + dec_digits(c as nat));
            }
            push_sgr(out, &code);
        },
        None => {},
    }
    proof {
        assert(out@ =~= o0 + attr_prefix(a));
    }
}

/// Renders one layout line as terminal bytes under a profile.
pub fn emit_line(l: &LayoutLine, p: &StyleProfile) -> (r: Vec<u8>)
    ensures
        r@ == emit_line_spec(l@, *p),
{
    let ghost fv = word_view(l.frags@);
    let mut out = spaces_vec(l.indent);
    let mut i: usize = 0;
    proof {
        assert(fv.take(0) =~= Seq::<FragV>::empty());
        assert(out@ =~= spaces(l@.indent) + emit_frags(fv.take(0), *p));
    }
    while i < l.frags.len()
        invariant
            0 <= i <= l.frags@.len(),
            fv == word_view(l.frags@),
            out@ == spaces(l@.indent) + emit_frags(fv.take(i as int), *p),
        decreases l.frags@.len() - i,
    {
        let ghost o0 = out@;
        let a = attr_for(p, l.frags[i].role);
        let isdef = !(a.bold || a.dim || a.italic) && matches!(a.color, None);
        proof {
            assert(isdef == is_default_attr(a));
            assert(fv.take(i as int).push(fv[i as int]) =~= fv.take(i as int + 1));
            lemma_emit_frags_push(fv.take(i as int), fv[i as int], *p);
        }
        if isdef {
            append_bytes(&mut out, &l.frags[i].text);
            proof {
                assert(out@ =~= spaces(l@.indent) + emit_frags(fv.take(i as int + 1), *p));
            }
        } else {
            push_attr_prefix(&mut out, a);
            append_bytes(&mut out, &l.frags[i].text);
            let mut reset: Vec<u8> = Vec::new();
            reset.push(48);
            proof {
                assert(reset@ =~= seq![48u8]);
            }
            push_sgr(&mut out, &reset);
            proof {
                assert(out@ =~= o0 + (attr_prefix(a) + fv[i as int].text + sgr(seq![48u8])));
                assert(out@ =~= spaces(l@.indent) + emit_frags(fv.take(i as int + 1), *p));
            }
        }
        i = i + 1;
    }
    proof {
        assert(fv.take(fv.len() as int) =~= fv);
    }
    out
}

/// Under the minimal profile a line is emitted without any escape sequence:
/// the indent, then the fragment texts, byte for byte.
pub open spec fn concat_texts(fs: Seq<FragV>) -> Seq<u8>
    decreases fs.len()
{
    if fs.len() == 0 {
        Seq::empty()
    } else {
        fs[0].text + concat_texts(fs.drop_first())
    }
}

/// The minimal profile adds nothing to the text: the emitted line is exactly
/// the indent spaces followed by the fragment texts. In particular no escape
/// byte is introduced.
pub proof fn lemma_minimal_no_escapes(l: LayoutLineV)
    ensures
        emit_line_spec(l, minimal_spec()) == spaces(l.indent) + concat_texts(l.frags),
{
    lemma_minimal_frags(l.frags);
}

proof fn lemma_minimal_frags(fs: Seq<FragV>)
    ensures
        emit_frags(fs, minimal_spec()) == concat_texts(fs),
    decreases fs.len(),
{
    if fs.len() > 0 {
        lemma_minimal_frags(fs.drop_first());
        crate::style::lemma_minimal_all_default(fs[0].role);
    }
}

// ---------------------------------------------------------------------------
// Styling never alters the text
// ---------------------------------------------------------------------------

pub proof fn lemma_concat_texts_concat(a: Seq<FragV>, b: Seq<FragV>)
    ensures
        concat_texts(a + b) == concat_texts(a) + concat_texts(b),
    decreases a.len(),
{
    if a.len() == 0 {
        assert(a + b =~= b);
        assert(concat_texts(a) + concat_texts(b) =~= concat_texts(b));
    } else {
        assert((a + b).drop_first() =~= a.drop_first() + b);
        lemma_concat_texts_concat(a.drop_first(), b);
        assert((a + b)[0] == a[0]);
        assert(a[0].text + (concat_texts(a.drop_first()) + concat_texts(b))
            =~= (a[0].text + concat_texts(a.drop_first())) + concat_texts(b));
    }
}

pub proof fn lemma_concat_texts_single(f: FragV)
    ensures
        concat_texts(seq![f]) == f.text,
{
    assert(seq![f].drop_first() =~= Seq::<FragV>::empty());
    assert(concat_texts(Seq::<FragV>::empty()) == Seq::<u8>::empty());
    assert(f.text + Seq::<u8>::empty() =~= f.text);
}

/// Splitting a word run at a line boundary keeps the separator: the fragments
/// of two joined lines are the fragments of each, a space between.
pub proof fn lemma_line_frags_concat(a: Seq<Seq<FragV>>, b: Seq<Seq<FragV>>)
    requires
        a.len() >= 1,
        b.len() >= 1,
    ensures
        crate::layout::line_frags(a + b)
            == crate::layout::line_frags(a) + seq![crate::layout::space_fragv()]
                + crate::layout::line_frags(b),
    decreases a.len(),
{
    if a.len() == 1 {
        assert((a + b)[0] == a[0]);
        assert((a + b).drop_first() =~= b);
        assert(crate::layout::line_frags(a) == a[0]);
    } else {
        assert((a + b).drop_first() =~= a.drop_first() + b);
        lemma_line_frags_concat(a.drop_first(), b);
        assert((a + b)[0] == a[0]);
        assert(a[0] + seq![crate::layout::space_fragv()]
            + (crate::layout::line_frags(a.drop_first()) + seq![crate::layout::space_fragv()]
                + crate::layout::line_frags(b))
            =~= (a[0] + seq![crate::layout::space_fragv()] + crate::layout::line_frags(a.drop_first()))
                + seq![crate::layout::space_fragv()] + crate::layout::line_frags(b));
    }
}

/// Rendered lines with their styling stripped, joined by single spaces.
pub open spec fn stripped_joined(ls: Seq<LayoutLineV>) -> Seq<u8>
    decreases ls.len()
{
    if ls.len() == 0 {
        Seq::empty()
    } else if ls.len() == 1 {
        concat_texts(ls[0].frags)
    } else {
        concat_texts(ls[0].frags) + seq![32u8] + stripped_joined(ls.drop_first())
    }
}

proof fn lemma_stripped_plain(lines: Seq<Seq<Seq<FragV>>>)
    requires
        forall|i: int| 0 <= i < lines.len() ==> (#[trigger] lines[i]).len() >= 1,
    ensures
        stripped_joined(crate::layout::plain_lines(lines))
            == concat_texts(crate::layout::line_frags(lines.flatten())),
    decreases lines.len(),
{
    let pl = crate::layout::plain_lines(lines);
    if lines.len() == 0 {
        assert(lines.flatten() =~= Seq::<Seq<FragV>>::empty());
        assert(pl.len() == 0);
    } else if lines.len() == 1 {
        lines.lemma_flatten_one_element();
        assert(pl.len() == 1);
        assert(pl[0].frags == crate::layout::line_frags(lines[0]));
    } else {
        assert forall|i: int| 0 <= i < lines.drop_first().len()
            implies (#[trigger] lines.drop_first()[i]).len() >= 1 by {
            assert(lines.drop_first()[i] == lines[i + 1]);
        }
        lemma_stripped_plain(lines.drop_first());
        assert(pl.drop_first() =~= crate::layout::plain_lines(lines.drop_first()));
        assert(pl[0].frags == crate::layout::line_frags(lines[0]));
        // the tail's flattening is nonempty: its first line holds a word
        assert(lines.drop_first().flatten()
            == lines.drop_first().first() + lines.drop_first().drop_first().flatten());
        assert(lines.drop_first().first() == lines[1]);
        assert(lines.drop_first().flatten().len() >= 1);
        assert(lines.flatten() == lines[0] + lines.drop_first().flatten());
        lemma_line_frags_concat(lines[0], lines.drop_first().flatten());
        let lf0 = crate::layout::line_frags(lines[0]);
        let lfr = crate::layout::line_frags(lines.drop_first().flatten());
        lemma_concat_texts_concat(lf0 + seq![crate::layout::space_fragv()], lfr);
        lemma_concat_texts_concat(lf0, seq![crate::layout::space_fragv()]);
        lemma_concat_texts_single(crate::layout::space_fragv());
        assert((lf0 + seq![crate::layout::space_fragv()]) + lfr
            =~= lf0 + seq![crate::layout::space_fragv()] + lfr);
        assert(stripped_joined(pl)
            =~= concat_texts(crate::layout::line_frags(lines.flatten())));
    }
}

/// Styling never alters the text: stripping every style attribute from a
/// paragraph's rendered lines and joining them with single spaces yields the
/// paragraph's words joined by single spaces — the whitespace-normalized
/// inline text — whatever the width.
pub proof fn lemma_paragraph_text_preserved(spans: Seq<crate::inline::InlineV>, w: int)
    ensures
        stripped_joined(crate::layout::layout_leaf_spec(
            crate::blocks::LeafV::Paragraph { spans }, w))
            == concat_texts(crate::layout::line_frags(crate::words::words_of_runs(spans))),
{
    let ws = crate::words::words_of_runs(spans);
    crate::words::lemma_wrap_acc_flatten(ws, w, seq![]);
    assert(Seq::<Seq<FragV>>::empty() + ws =~= ws);
    crate::words::lemma_wrap_acc_nonempty(ws, w, seq![]);
    lemma_stripped_plain(crate::words::wrap_words(ws, w));
}

} // verus!
