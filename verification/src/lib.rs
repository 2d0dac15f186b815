use vstd::prelude::*;

pub mod bytes;
pub mod inline;
pub mod words;
pub mod blocks;
pub mod style;
pub mod layout;
pub mod ansi;

use crate::blocks::{parse_doc_spec, parse_document, raw_lines_view};
use crate::layout::{layout_doc_spec, layout_document, LayoutLineV, llines_view};
use crate::ansi::{emit_line, emit_line_spec};
use crate::style::StyleProfile;

verus! {

/// Reason the boundary layer refuses a requested output width.
#[derive(Clone, Copy, PartialEq, Eq, Structural, Debug)]
pub enum WidthError {
    TooSmall,
    TooLarge,
}

impl WidthError {
    /// The user-visible message for a refused width.
    pub fn message(&self) -> (s: &'static str)
        ensures
            *self is TooSmall ==> s@ == "Width must be at least 20"@,
            *self is TooLarge ==> s@ == "Width cannot exceed 200"@,
    {
        match self {
            WidthError::TooSmall => "Width must be at least 20",
            WidthError::TooLarge => "Width cannot exceed 200",
        }
    }
}

/// Checks a requested output width against the supported range of 20 to 200
/// columns; the rendering core itself assumes a width in that range.
pub fn validate_width(w: u64) -> (r: Result<usize, WidthError>)
    ensures
        20 <= w <= 200 ==> r == Ok::<usize, WidthError>(w as usize),
        w < 20 ==> r == Err::<usize, WidthError>(WidthError::TooSmall),
        w > 200 ==> r == Err::<usize, WidthError>(WidthError::TooLarge),
{
    if w < 20 {
        Err(WidthError::TooSmall)
    } else if w > 200 {
        Err(WidthError::TooLarge)
    } else {
        Ok(w as usize)
    }
}

/// What `render` returns: the document parsed, laid out at the target width,
/// and each layout line emitted under the profile.
pub open spec fn render_spec(t: Seq<u8>, w: int, p: StyleProfile) -> Seq<Seq<u8>> {
    layout_doc_spec(parse_doc_spec(t), w).map_values(|l: LayoutLineV| emit_line_spec(l, p))
}

/// Under the minimal profile the renderer adds no escape sequence anywhere:
/// each output row is exactly its indent spaces followed by its fragments'
/// text, byte for byte, for every input and every width.
pub proof fn lemma_render_minimal_plain(t: Seq<u8>, w: int)
    ensures
        forall|i: int| 0 <= i < render_spec(t, w, crate::style::minimal_spec()).len()
            ==> #[trigger] render_spec(t, w, crate::style::minimal_spec())[i]
                == crate::bytes::spaces(layout_doc_spec(parse_doc_spec(t), w)[i].indent)
                    + crate::ansi::concat_texts(layout_doc_spec(parse_doc_spec(t), w)[i].frags),
{
    let lines = layout_doc_spec(parse_doc_spec(t), w);
    assert forall|i: int| 0 <= i < render_spec(t, w, crate::style::minimal_spec()).len()
        implies #[trigger] render_spec(t, w, crate::style::minimal_spec())[i]
            == crate::bytes::spaces(lines[i].indent)
                + crate::ansi::concat_texts(lines[i].frags) by {
        crate::ansi::lemma_minimal_no_escapes(lines[i]);
    }
}

/// Renders Markdown text into styled terminal rows at a target width under a
/// style profile. Rendering never fails: malformed input degrades to
/// paragraphs of literal text.
pub fn render(text: &Vec<u8>, width: usize, profile: &StyleProfile) -> (out: Vec<Vec<u8>>)
    requires
        20 <= width <= 200,
    ensures
        raw_lines_view(out@) == render_spec(text@, width as int, *profile),
{
    let doc = parse_document(text);
    let lines = layout_document(&doc, width);
    let ghost lv = llines_view(lines@);
    let ghost target = render_spec(text@, width as int, *profile);
    let mut out: Vec<Vec<u8>> = Vec::new();
    let mut i: usize = 0;
    proof {
        assert(lv == layout_doc_spec(parse_doc_spec(text@), width as int));
        assert(target == lv.map_values(|l: LayoutLineV| emit_line_spec(l, *profile)));
        assert(raw_lines_view(out@) =~= target.take(0));
    }
    while i < lines.len()
        invariant
            0 <= i <= lines@.len(),
            lv == llines_view(lines@),
            target == lv.map_values(|l: LayoutLineV| emit_line_spec(l, *profile)),
            target.len() == lv.len(),
            raw_lines_view(out@) == target.take(i as int),
        decreases lines@.len() - i,
    {
        let ghost o0 = raw_lines_view(out@);
        let row = emit_line(&lines[i], profile);
        out.push(row);
        proof {
            assert(raw_lines_view(out@) =~= o0.push(emit_line_spec(lv[i as int], *profile)));
            assert(target.take(i as int + 1) =~= target.take(i as int).push(target[i as int]));
        }
        i = i + 1;
    }
    proof {
        assert(target.take(target.len() as int) =~= target);
    }
    out
}

} // verus!
