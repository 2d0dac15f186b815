use vstd::prelude::*;
use crate::inline::{InlineV, Inline};

verus! {

/// The semantic role of a fragment; the style profile maps a role to the
/// terminal attribute it is shown with at emission time.
#[derive(Clone, Copy, PartialEq, Eq, Structural, Debug)]
pub enum Role {
    Plain,
    Bold,
    Italic,
    BoldItalic,
    Code,
    CodeBlock,
    Header,
    Quote,
    Bullet,
    Space,
    Pad,
}

/// One styled text fragment of a layout line.
pub struct Frag {
    pub text: Vec<u8>,
    pub role: Role,
}

/// Mathematical model of a fragment.
#[verifier::ext_equal]
pub struct FragV {
    pub text: Seq<u8>,
    pub role: Role,
}

impl View for Frag {
    type V = FragV;

    open spec fn view(&self) -> FragV {
        FragV { text: self.text@, role: self.role }
    }
}

/// A word is a maximal stretch of non-space bytes; it may cross style
/// boundaries, so it is a sequence of fragments.
pub open spec fn word_view(w: Seq<Frag>) -> Seq<FragV> {
    w.map_values(|f: Frag| f@)
}

pub open spec fn words_view(ws: Seq<Vec<Frag>>) -> Seq<Seq<FragV>> {
    ws.map_values(|w: Vec<Frag>| word_view(w@))
}

pub open spec fn lines_view(ls: Seq<Vec<Vec<Frag>>>) -> Seq<Seq<Seq<FragV>>> {
    ls.map_values(|l: Vec<Vec<Frag>>| words_view(l@))
}

/// Columns a word occupies: the lengths of its fragments added up.
pub open spec fn word_len(w: Seq<FragV>) -> int
    decreases w.len()
{
    if w.len() == 0 {
        0
    } else {
        w[0].text.len() + word_len(w.drop_first())
    }
}

/// Columns a line of words occupies, one space between adjacent words.
pub open spec fn line_words_width(ln: Seq<Seq<FragV>>) -> int
    decreases ln.len()
{
    if ln.len() == 0 {
        0
    } else if ln.len() == 1 {
        word_len(ln[0])
    } else {
        word_len(ln[0]) + 1 + line_words_width(ln.drop_first())
    }
}

pub proof fn lemma_word_len_push(w: Seq<FragV>, f: FragV)
    ensures
        word_len(w.push(f)) == word_len(w) + f.text.len(),
    decreases w.len(),
{
    if w.len() == 0 {
        reveal_with_fuel(word_len, 3);
        assert(w.push(f).drop_first() =~= Seq::<FragV>::empty());
    } else {
        assert(w.push(f).drop_first() =~= w.drop_first().push(f));
        lemma_word_len_push(w.drop_first(), f);
    }
}

pub proof fn lemma_line_words_width_push(ln: Seq<Seq<FragV>>, w: Seq<FragV>)
    requires
        ln.len() >= 1,
    ensures
        line_words_width(ln.push(w)) == line_words_width(ln) + 1 + word_len(w),
    decreases ln.len(),
{
    if ln.len() == 1 {
        reveal_with_fuel(line_words_width, 3);
        assert(ln.push(w).drop_first() =~= seq![w]);
    } else {
        assert(ln.push(w).drop_first() =~= ln.drop_first().push(w));
        lemma_line_words_width_push(ln.drop_first(), w);
    }
}

/// Greedy word wrap: words are placed on the current line while the line,
/// one space between words, stays within `w` columns; a word that alone
/// exceeds `w` stands on a line of its own, unbroken.
pub open spec fn wrap_acc(ws: Seq<Seq<FragV>>, w: int, cur: Seq<Seq<FragV>>) -> Seq<Seq<Seq<FragV>>>
    decreases ws.len()
{
    if ws.len() == 0 {
        if cur.len() == 0 {
            seq![]
        } else {
            seq![cur]
        }
    } else if cur.len() == 0 {
        wrap_acc(ws.drop_first(), w, seq![ws[0]])
    } else if line_words_width(cur) + 1 + word_len(ws[0]) <= w {
        wrap_acc(ws.drop_first(), w, cur.push(ws[0]))
    } else {
        seq![cur] + wrap_acc(ws.drop_first(), w, seq![ws[0]])
    }
}

/// The wrapped lines of a word sequence at width `w`.
pub open spec fn wrap_words(ws: Seq<Seq<FragV>>, w: int) -> Seq<Seq<Seq<FragV>>> {
    wrap_acc(ws, w, seq![])
}

/// Wrapping never loses, duplicates or reorders words: flattening the wrapped
/// lines yields the words that went in.
pub proof fn lemma_wrap_acc_flatten(ws: Seq<Seq<FragV>>, w: int, cur: Seq<Seq<FragV>>)
    ensures
        wrap_acc(ws, w, cur).flatten() == cur + ws,
    decreases ws.len(),
{
    if ws.len() == 0 {
        if cur.len() == 0 {
            assert(wrap_acc(ws, w, cur).flatten() =~= cur + ws);
        } else {
            seq![cur].lemma_flatten_one_element();
            assert(wrap_acc(ws, w, cur).flatten() =~= cur + ws);
        }
    } else if cur.len() == 0 {
        lemma_wrap_acc_flatten(ws.drop_first(), w, seq![ws[0]]);
        assert(seq![ws[0]] + ws.drop_first() =~= cur + ws);
    } else if line_words_width(cur) + 1 + word_len(ws[0]) <= w {
        lemma_wrap_acc_flatten(ws.drop_first(), w, cur.push(ws[0]));
        assert(cur.push(ws[0]) + ws.drop_first() =~= cur + ws);
    } else {
        lemma_wrap_acc_flatten(ws.drop_first(), w, seq![ws[0]]);
        vstd::seq_lib::lemma_flatten_concat(seq![cur], wrap_acc(ws.drop_first(), w, seq![ws[0]]));
        seq![cur].lemma_flatten_one_element();
        assert(cur + (seq![ws[0]] + ws.drop_first()) =~= cur + ws);
    }
}

/// Every word sequence wraps to the same lines again: wrapping is idempotent
/// at a fixed width.
pub proof fn lemma_wrap_idempotent(ws: Seq<Seq<FragV>>, w: int)
    ensures
        wrap_words(wrap_words(ws, w).flatten(), w) == wrap_words(ws, w),
{
    lemma_wrap_acc_flatten(ws, w, seq![]);
    assert(Seq::<Seq<FragV>>::empty() + ws =~= ws);
}

/// A wrapped line either fits in `w` columns or is a single word too long to
/// fit anywhere.
pub open spec fn wrapped_line_ok(ln: Seq<Seq<FragV>>, w: int) -> bool {
    line_words_width(ln) <= w || ln.len() == 1
}

pub proof fn lemma_wrap_acc_width(ws: Seq<Seq<FragV>>, w: int, cur: Seq<Seq<FragV>>)
    requires
        cur.len() <= 1 || line_words_width(cur) <= w,
    ensures
        forall|i: int| 0 <= i < wrap_acc(ws, w, cur).len()
            ==> #[trigger] wrapped_line_ok(wrap_acc(ws, w, cur)[i], w),
    decreases ws.len(),
{
    if ws.len() == 0 {
        if cur.len() != 0 {
            assert(wrap_acc(ws, w, cur) == seq![cur]);
            assert(wrap_acc(ws, w, cur)[0] == cur);
            assert(wrapped_line_ok(cur, w));
        }
    } else if cur.len() == 0 {
        lemma_wrap_acc_width(ws.drop_first(), w, seq![ws[0]]);
        let rest = wrap_acc(ws.drop_first(), w, seq![ws[0]]);
        assert forall|i: int| 0 <= i < wrap_acc(ws, w, cur).len()
            implies #[trigger] wrapped_line_ok(wrap_acc(ws, w, cur)[i], w) by {
            assert(wrap_acc(ws, w, cur)[i] == rest[i]);
            assert(wrapped_line_ok(rest[i], w));
        }
    } else if line_words_width(cur) + 1 + word_len(ws[0]) <= w {
        lemma_line_words_width_push(cur, ws[0]);
        lemma_word_len_nonneg(ws[0]);
        lemma_wrap_acc_width(ws.drop_first(), w, cur.push(ws[0]));
        let rest = wrap_acc(ws.drop_first(), w, cur.push(ws[0]));
        assert forall|i: int| 0 <= i < wrap_acc(ws, w, cur).len()
            implies #[trigger] wrapped_line_ok(wrap_acc(ws, w, cur)[i], w) by {
            assert(wrap_acc(ws, w, cur)[i] == rest[i]);
            assert(wrapped_line_ok(rest[i], w));
        }
    } else {
        lemma_wrap_acc_width(ws.drop_first(), w, seq![ws[0]]);
        let rest = wrap_acc(ws.drop_first(), w, seq![ws[0]]);
        assert forall|i: int| 0 <= i < wrap_acc(ws, w, cur).len()
            implies #[trigger] wrapped_line_ok(wrap_acc(ws, w, cur)[i], w) by {
            assert(wrap_acc(ws, w, cur) == seq![cur] + rest);
            if i == 0 {
                assert((seq![cur] + rest)[0] == cur);
            } else {
                assert((seq![cur] + rest)[i] == rest[i - 1]);
                assert(wrapped_line_ok(rest[i - 1], w));
            }
        }
    }
}

pub proof fn lemma_word_len_nonneg(w: Seq<FragV>)
    ensures
        word_len(w) >= 0,
    decreases w.len(),
{
    if w.len() > 0 {
        lemma_word_len_nonneg(w.drop_first());
    }
}

/// The words of the wrapped text, taken at width `w`.
pub proof fn lemma_wrap_width(ws: Seq<Seq<FragV>>, w: int)
    ensures
        forall|i: int| 0 <= i < wrap_words(ws, w).len()
            ==> #[trigger] wrapped_line_ok(wrap_words(ws, w)[i], w),
{
    lemma_wrap_acc_width(ws, w, seq![]);
}

// ---------------------------------------------------------------------------
// Building words from styled runs
// ---------------------------------------------------------------------------

/// A run, reduced to the pieces the layout sees: its text and its role. A
/// link becomes its label followed by the target in parentheses.
pub open spec fn pieces_of_run(r: InlineV) -> Seq<FragV> {
    match r {
        InlineV::Text(t) => seq![FragV { text: t, role: Role::Plain }],
        InlineV::Bold(t) => seq![FragV { text: t, role: Role::Bold }],
        InlineV::Italic(t) => seq![FragV { text: t, role: Role::Italic }],
        InlineV::BoldItalic(t) => seq![FragV { text: t, role: Role::BoldItalic }],
        InlineV::Code(t) => seq![FragV { text: t, role: Role::Code }],
        InlineV::Link(l, u) => seq![
            FragV { text: l, role: Role::Plain },
            FragV { text: seq![32u8, 40u8] + u + seq![41u8], role: Role::Plain },
        ],
    }
}

pub open spec fn pieces_of_runs(rs: Seq<InlineV>) -> Seq<FragV>
    decreases rs.len()
{
    if rs.len() == 0 {
        seq![]
    } else {
        pieces_of_run(rs[0]) + pieces_of_runs(rs.drop_first())
    }
}

/// Extends the word under construction by one non-space byte of role `role`,
/// merging it into the last fragment when the roles agree.
pub open spec fn push_char(cur: Seq<FragV>, c: u8, role: Role) -> Seq<FragV> {
    if cur.len() > 0 && cur.last().role == role {
        cur.update(cur.len() - 1, FragV { text: cur.last().text.push(c), role })
    } else {
        cur.push(FragV { text: seq![c], role })
    }
}

/// Splits one piece into words at spaces; `cur` is the word carried in from
/// the previous piece, and the result is the words completed inside this
/// piece together with the word carried out.
pub open spec fn words_in_piece(t: Seq<u8>, j: int, role: Role, cur: Seq<FragV>) -> (Seq<Seq<FragV>>, Seq<FragV>)
    decreases t.len() - j when 0 <= j <= t.len()
{
    if j >= t.len() {
        (seq![], cur)
    } else if t[j] == 32u8 {
        let rest = words_in_piece(t, j + 1, role, seq![]);
        ((if cur.len() == 0 { seq![] } else { seq![cur] }) + rest.0, rest.1)
    } else {
        words_in_piece(t, j + 1, role, push_char(cur, t[j], role))
    }
}

/// The words of a piece sequence, starting at piece `k` with the carried
/// word `cur`.
pub open spec fn words_of_pieces_from(ps: Seq<FragV>, k: int, cur: Seq<FragV>) -> Seq<Seq<FragV>>
    decreases ps.len() - k when 0 <= k <= ps.len()
{
    if k >= ps.len() {
        if cur.len() == 0 {
            seq![]
        } else {
            seq![cur]
        }
    } else {
        let step = words_in_piece(ps[k].text, 0, ps[k].role, cur);
        step.0 + words_of_pieces_from(ps, k + 1, step.1)
    }
}

/// The words of a sequence of styled runs.
pub open spec fn words_of_runs(rs: Seq<InlineV>) -> Seq<Seq<FragV>> {
    words_of_pieces_from(pieces_of_runs(rs), 0, seq![])
}

// ---------------------------------------------------------------------------
// Executable counterparts
// ---------------------------------------------------------------------------

/// Extends the word under construction by one byte.
fn push_char_exec(cur: &mut Vec<Frag>, c: u8, role: Role)
    ensures
        word_view(final(cur)@) == push_char(word_view(old(cur)@), c, role),
{
    let ghost cv = word_view(cur@);
    let n = cur.len();
    if n > 0 && cur[n - 1].role == role {
        let mut lastf = match cur.pop() {
            Some(f) => f,
            None => Frag { text: Vec::new(), role },
        };
        lastf.text.push(c);
        cur.push(lastf);
        proof {
            assert(word_view(cur@) =~= push_char(cv, c, role));
        }
    } else {
        let mut t: Vec<u8> = Vec::new();
        t.push(c);
        cur.push(Frag { text: t, role });
        proof {
            assert(word_view(cur@) =~= push_char(cv, c, role));
        }
    }
}

/// The pieces of a run sequence.
pub fn pieces_of_runs_exec(runs: &Vec<Inline>) -> (r: Vec<Frag>)
    ensures
        word_view(r@) == pieces_of_runs(crate::inline::runs_view(runs@)),
{
    let ghost rv = crate::inline::runs_view(runs@);
    let mut r: Vec<Frag> = Vec::new();
    let mut i: usize = 0;
    proof {
        assert(rv.skip(0) =~= rv);
        assert(word_view(r@) + pieces_of_runs(rv.skip(0)) =~= pieces_of_runs(rv));
    }
    while i < runs.len()
        invariant
            0 <= i <= runs@.len(),
            rv == crate::inline::runs_view(runs@),
            word_view(r@) + pieces_of_runs(rv.skip(i as int)) =~= pieces_of_runs(rv),
        decreases runs@.len() - i,
    {
        let ghost r0 = word_view(r@);
        let ghost tail = rv.skip(i as int);
        proof {
            assert(tail[0] == rv[i as int]);
            assert(tail.drop_first() =~= rv.skip(i as int + 1));
        }
        match &runs[i] {
            Inline::Text(t) => {
                r.push(Frag { text: clone_bytes(t), role: Role::Plain });
            },
            Inline::Bold(t) => {
                r.push(Frag { text: clone_bytes(t), role: Role::Bold });
            },
            Inline::Italic(t) => {
                r.push(Frag { text: clone_bytes(t), role: Role::Italic });
            },
            Inline::BoldItalic(t) => {
                r.push(Frag { text: clone_bytes(t), role: Role::BoldItalic });
            },
            Inline::Code(t) => {
                r.push(Frag { text: clone_bytes(t), role: Role::Code });
            },
            Inline::Link(l, u) => {
                r.push(Frag { text: clone_bytes(l), role: Role::Plain });
                let mut t: Vec<u8> = Vec::new();
                t.push(32);
                t.push(40);
                crate::bytes::append_bytes(&mut t, u);
                t.push(41);
                proof {
                    assert(t@ =~= seq![32u8, 40u8] + u@ + seq![41u8]);
                }
                r.push(Frag { text: t, role: Role::Plain });
            },
        }
        proof {
            assert(word_view(r@) =~= r0 + pieces_of_run(rv[i as int]));
            assert(word_view(r@) + pieces_of_runs(rv.skip(i as int + 1)) =~= pieces_of_runs(rv));
        }
        i = i + 1;
    }
    proof {
        assert(rv.skip(rv.len() as int) =~= Seq::<InlineV>::empty());
    }
    r
}

/// Copies a byte vector.
pub fn clone_bytes(v: &Vec<u8>) -> (r: Vec<u8>)
    ensures
        r@ == v@,
{
    crate::bytes::subrange_vec(v, 0, v.len())
}

/// The words of a sequence of styled runs: maximal non-space stretches, each
/// a list of styled fragments.
pub fn words_of_runs_exec(runs: &Vec<Inline>) -> (r: Vec<Vec<Frag>>)
    ensures
        words_view(r@) == words_of_runs(crate::inline::runs_view(runs@)),
{
    let ps = pieces_of_runs_exec(runs);
    words_of_pieces_exec(&ps)
}

/// The words of a piece sequence.
pub fn words_of_pieces_exec(ps: &Vec<Frag>) -> (r: Vec<Vec<Frag>>)
    ensures
        words_view(r@) == words_of_pieces_from(word_view(ps@), 0, Seq::<FragV>::empty()),
{
    let ghost psv = word_view(ps@);
    let mut out: Vec<Vec<Frag>> = Vec::new();
    let mut cur: Vec<Frag> = Vec::new();
    let mut k: usize = 0;
    let ghost total = words_of_pieces_from(psv, 0, Seq::<FragV>::empty());
    proof {
        assert(word_view(cur@) =~= Seq::<FragV>::empty());
        assert(words_view(out@) + words_of_pieces_from(psv, 0, word_view(cur@)) =~~= total);
    }
    while k < ps.len()
        invariant
            0 <= k <= ps@.len(),
            psv == word_view(ps@),
            total == words_of_pieces_from(psv, 0, Seq::<FragV>::empty()),
            words_view(out@) + words_of_pieces_from(psv, k as int, word_view(cur@)) == total,
        decreases ps@.len() - k,
    {
        let ghost kk = k as int;
        let t = clone_bytes(&ps[k].text);
        let role = ps[k].role;
        proof {
            assert(psv[kk].text == t@ && psv[kk].role == role);
        }
        let mut j: usize = 0;
        proof {
            let step = words_in_piece(t@, 0, role, word_view(cur@));
            assert(words_of_pieces_from(psv, kk, word_view(cur@))
                == step.0 + words_of_pieces_from(psv, kk + 1, step.1));
            assert(words_view(out@) + (step.0 + words_of_pieces_from(psv, kk + 1, step.1))
                =~~= (words_view(out@) + step.0) + words_of_pieces_from(psv, kk + 1, step.1));
        }
        while j < t.len()
            invariant
                0 <= j <= t@.len(),
                psv == word_view(ps@),
                0 <= kk < psv.len(),
                total == words_of_pieces_from(psv, 0, Seq::<FragV>::empty()),
                (words_view(out@) + words_in_piece(t@, j as int, role, word_view(cur@)).0)
                    + words_of_pieces_from(psv, kk + 1, words_in_piece(t@, j as int, role, word_view(cur@)).1)
                    == total,
            decreases t@.len() - j,
        {
            let ghost out0 = words_view(out@);
            let ghost cur0 = word_view(cur@);
            if t[j] == 32 {
                if cur.len() > 0 {
                    out.push(cur);
                    cur = Vec::new();
                    proof {
                        assert(word_view(cur@) =~= Seq::<FragV>::empty());
                        assert(cur0.len() > 0);
                        assert(words_view(out@) =~~= out0.push(cur0));
                        let step = words_in_piece(t@, j as int + 1, role, Seq::<FragV>::empty());
                        assert(words_in_piece(t@, j as int, role, cur0).0 =~~= seq![cur0] + step.0);
                        assert(words_in_piece(t@, j as int, role, cur0).1 == step.1);
                        assert(out0 + (seq![cur0] + step.0) =~~= out0.push(cur0) + step.0);
                        assert((words_view(out@) + step.0)
                            + words_of_pieces_from(psv, kk + 1, step.1) =~~= total);
                    }
                } else {
                    proof {
                        assert(cur0.len() == 0);
                        let step = words_in_piece(t@, j as int + 1, role, Seq::<FragV>::empty());
                        assert(words_in_piece(t@, j as int, role, cur0).0 =~~= step.0);
                        assert(words_in_piece(t@, j as int, role, cur0).1 == step.1);
                        assert(word_view(cur@) =~~= Seq::<FragV>::empty());
                        assert(cur0 =~= Seq::<FragV>::empty());
                        assert((words_view(out@) + step.0)
                            + words_of_pieces_from(psv, kk + 1, step.1) =~~= total);
                    }
                }
            } else {
                push_char_exec(&mut cur, t[j], role);
                proof {
                    assert(words_in_piece(t@, j as int, role, cur0)
                        == words_in_piece(t@, j as int + 1, role, push_char(cur0, t@[j as int], role)));
                }
            }
            j = j + 1;
        }
        proof {
            assert(words_in_piece(t@, t@.len() as int, role, word_view(cur@)).0
                =~~= Seq::<Seq<FragV>>::empty());
            assert(words_view(out@) + Seq::<Seq<FragV>>::empty() =~~= words_view(out@));
            assert(words_in_piece(t@, t@.len() as int, role, word_view(cur@)).1 == word_view(cur@));
        }
        k = k + 1;
    }
    proof {
        assert(words_of_pieces_from(psv, psv.len() as int, word_view(cur@))
            == (if word_view(cur@).len() == 0 { Seq::<Seq<FragV>>::empty() } else { seq![word_view(cur@)] }));
    }
    if cur.len() > 0 {
        let ghost out0 = words_view(out@);
        let ghost cur0 = word_view(cur@);
        out.push(cur);
        proof {
            assert(words_view(out@) =~~= out0.push(cur0));
            assert(out0 + seq![cur0] =~~= out0.push(cur0));
        }
    } else {
        proof {
            assert(words_view(out@) + Seq::<Seq<FragV>>::empty() =~~= words_view(out@));
        }
    }
    out
}

// ---------------------------------------------------------------------------
// Shape of the words the layout builds
// ---------------------------------------------------------------------------

/// Fragments of a word under construction: no separator-space fragments and
/// no empty fragments.
pub open spec fn word_frags_ok(wd: Seq<FragV>) -> bool {
    forall|j: int| 0 <= j < wd.len()
        ==> (#[trigger] wd[j]).role != Role::Space && wd[j].text.len() >= 1
}

/// A finished word: nonempty and well-shaped.
pub open spec fn good_word(wd: Seq<FragV>) -> bool {
    wd.len() >= 1 && word_frags_ok(wd)
}

pub open spec fn good_words(ws: Seq<Seq<FragV>>) -> bool {
    forall|i: int| 0 <= i < ws.len() ==> good_word(#[trigger] ws[i])
}

/// Pieces handed to the word splitter never carry the separator role.
pub open spec fn pieces_ok(ps: Seq<FragV>) -> bool {
    forall|i: int| 0 <= i < ps.len() ==> (#[trigger] ps[i]).role != Role::Space
}

pub proof fn lemma_good_word_len(wd: Seq<FragV>)
    requires
        good_word(wd),
    ensures
        word_len(wd) >= 1,
{
    lemma_word_len_nonneg(wd.drop_first());
}

/// A line of two or more words is at least three columns wide.
pub proof fn lemma_good_line_width(ln: Seq<Seq<FragV>>)
    requires
        good_words(ln),
        ln.len() >= 1,
    ensures
        line_words_width(ln) >= 2 * ln.len() - 1,
    decreases ln.len(),
{
    if ln.len() == 1 {
        lemma_good_word_len(ln[0]);
    } else {
        assert forall|i: int| 0 <= i < ln.drop_first().len()
            implies good_word(#[trigger] ln.drop_first()[i]) by {
            assert(ln.drop_first()[i] == ln[i + 1]);
        }
        lemma_good_line_width(ln.drop_first());
        lemma_good_word_len(ln[0]);
    }
}

proof fn lemma_push_char_ok(cur: Seq<FragV>, c: u8, role: Role)
    requires
        role != Role::Space,
        word_frags_ok(cur),
    ensures
        word_frags_ok(push_char(cur, c, role)),
        push_char(cur, c, role).len() >= 1,
{
    let r = push_char(cur, c, role);
    assert forall|j: int| 0 <= j < r.len()
        implies (#[trigger] r[j]).role != Role::Space && r[j].text.len() >= 1 by {
        if cur.len() > 0 && cur.last().role == role {
            if j < cur.len() - 1 {
                assert(r[j] == cur[j]);
            }
        } else {
            if j < cur.len() {
                assert(r[j] == cur[j]);
            }
        }
    }
}

proof fn lemma_words_in_piece_good(t: Seq<u8>, j: int, role: Role, cur: Seq<FragV>)
    requires
        0 <= j <= t.len(),
        role != Role::Space,
        word_frags_ok(cur),
    ensures
        good_words(words_in_piece(t, j, role, cur).0),
        word_frags_ok(words_in_piece(t, j, role, cur).1),
    decreases t.len() - j,
{
    if j >= t.len() {
    } else if t[j] == 32u8 {
        lemma_words_in_piece_good(t, j + 1, role, Seq::empty());
        let rest = words_in_piece(t, j + 1, role, Seq::empty());
        let head: Seq<Seq<FragV>> = if cur.len() == 0 { seq![] } else { seq![cur] };
        assert forall|i: int| 0 <= i < (head + rest.0).len()
            implies good_word(#[trigger] (head + rest.0)[i]) by {
            if i < head.len() {
                assert((head + rest.0)[i] == cur);
            } else {
                assert((head + rest.0)[i] == rest.0[i - head.len()]);
            }
        }
    } else {
        lemma_push_char_ok(cur, t[j], role);
        lemma_words_in_piece_good(t, j + 1, role, push_char(cur, t[j], role));
    }
}

proof fn lemma_words_of_pieces_good_from(ps: Seq<FragV>, k: int, cur: Seq<FragV>)
    requires
        0 <= k <= ps.len(),
        pieces_ok(ps),
        word_frags_ok(cur),
    ensures
        good_words(words_of_pieces_from(ps, k, cur)),
    decreases ps.len() - k,
{
    if k >= ps.len() {
    } else {
        lemma_words_in_piece_good(ps[k].text, 0, ps[k].role, cur);
        let step = words_in_piece(ps[k].text, 0, ps[k].role, cur);
        lemma_words_of_pieces_good_from(ps, k + 1, step.1);
        assert forall|i: int| 0 <= i < (step.0 + words_of_pieces_from(ps, k + 1, step.1)).len()
            implies good_word(#[trigger] (step.0 + words_of_pieces_from(ps, k + 1, step.1))[i]) by {
            if i < step.0.len() {
                assert((step.0 + words_of_pieces_from(ps, k + 1, step.1))[i] == step.0[i]);
            } else {
                assert((step.0 + words_of_pieces_from(ps, k + 1, step.1))[i]
                    == words_of_pieces_from(ps, k + 1, step.1)[i - step.0.len()]);
            }
        }
    }
}

/// The words built from any well-shaped pieces are good.
pub proof fn lemma_words_of_pieces_good(ps: Seq<FragV>, cur: Seq<FragV>)
    requires
        pieces_ok(ps),
        word_frags_ok(cur),
    ensures
        good_words(words_of_pieces_from(ps, 0, cur)),
{
    lemma_words_of_pieces_good_from(ps, 0, cur);
}

pub proof fn lemma_pieces_of_runs_ok(rs: Seq<InlineV>)
    ensures
        pieces_ok(pieces_of_runs(rs)),
    decreases rs.len(),
{
    if rs.len() > 0 {
        lemma_pieces_of_runs_ok(rs.drop_first());
        let head = pieces_of_run(rs[0]);
        let rest = pieces_of_runs(rs.drop_first());
        assert forall|i: int| 0 <= i < (head + rest).len()
            implies (#[trigger] (head + rest)[i]).role != Role::Space by {
            if i < head.len() {
                assert((head + rest)[i] == head[i]);
            } else {
                assert((head + rest)[i] == rest[i - head.len()]);
            }
        }
    }
}

/// The words of any run sequence are good: nonempty, space-free stretches.
pub proof fn lemma_words_of_runs_good(rs: Seq<InlineV>)
    ensures
        good_words(words_of_runs(rs)),
{
    lemma_pieces_of_runs_ok(rs);
    lemma_words_of_pieces_good(pieces_of_runs(rs), Seq::empty());
}

/// Wrapping keeps every line made of good words.
pub proof fn lemma_wrap_acc_good(ws: Seq<Seq<FragV>>, w: int, cur: Seq<Seq<FragV>>)
    requires
        good_words(ws),
        good_words(cur),
    ensures
        forall|i: int| 0 <= i < wrap_acc(ws, w, cur).len()
            ==> good_words(#[trigger] wrap_acc(ws, w, cur)[i]),
    decreases ws.len(),
{
    if ws.len() == 0 {
        if cur.len() != 0 {
            assert(wrap_acc(ws, w, cur)[0] == cur);
        }
    } else {
        assert forall|i: int| 0 <= i < ws.drop_first().len()
            implies good_word(#[trigger] ws.drop_first()[i]) by {
            assert(ws.drop_first()[i] == ws[i + 1]);
        }
        assert(good_word(ws[0]));
        if cur.len() == 0 {
            assert(good_words(seq![ws[0]])) by {
                assert(seq![ws[0]][0] == ws[0]);
            }
            lemma_wrap_acc_good(ws.drop_first(), w, seq![ws[0]]);
            let rest = wrap_acc(ws.drop_first(), w, seq![ws[0]]);
            assert forall|i: int| 0 <= i < wrap_acc(ws, w, cur).len()
                implies good_words(#[trigger] wrap_acc(ws, w, cur)[i]) by {
                assert(wrap_acc(ws, w, cur)[i] == rest[i]);
            }
        } else if line_words_width(cur) + 1 + word_len(ws[0]) <= w {
            assert(good_words(cur.push(ws[0]))) by {
                assert forall|i: int| 0 <= i < cur.push(ws[0]).len()
                    implies good_word(#[trigger] cur.push(ws[0])[i]) by {
                    if i < cur.len() {
                        assert(cur.push(ws[0])[i] == cur[i]);
                    }
                }
            }
            lemma_wrap_acc_good(ws.drop_first(), w, cur.push(ws[0]));
            let rest = wrap_acc(ws.drop_first(), w, cur.push(ws[0]));
            assert forall|i: int| 0 <= i < wrap_acc(ws, w, cur).len()
                implies good_words(#[trigger] wrap_acc(ws, w, cur)[i]) by {
                assert(wrap_acc(ws, w, cur)[i] == rest[i]);
            }
        } else {
            assert(good_words(seq![ws[0]])) by {
                assert(seq![ws[0]][0] == ws[0]);
            }
            lemma_wrap_acc_good(ws.drop_first(), w, seq![ws[0]]);
            let rest = wrap_acc(ws.drop_first(), w, seq![ws[0]]);
            assert forall|i: int| 0 <= i < wrap_acc(ws, w, cur).len()
                implies good_words(#[trigger] wrap_acc(ws, w, cur)[i]) by {
                assert(wrap_acc(ws, w, cur) == seq![cur] + rest);
                if i == 0 {
                    assert((seq![cur] + rest)[0] == cur);
                } else {
                    assert((seq![cur] + rest)[i] == rest[i - 1]);
                }
            }
        }
    }
}

/// Every wrapped line holds at least one word.
pub proof fn lemma_wrap_acc_nonempty(ws: Seq<Seq<FragV>>, w: int, cur: Seq<Seq<FragV>>)
    ensures
        forall|i: int| 0 <= i < wrap_acc(ws, w, cur).len()
            ==> (#[trigger] wrap_acc(ws, w, cur)[i]).len() >= 1,
    decreases ws.len(),
{
    if ws.len() == 0 {
    } else if cur.len() == 0 {
        lemma_wrap_acc_nonempty(ws.drop_first(), w, seq![ws[0]]);
        let rest = wrap_acc(ws.drop_first(), w, seq![ws[0]]);
        assert forall|i: int| 0 <= i < wrap_acc(ws, w, cur).len()
            implies (#[trigger] wrap_acc(ws, w, cur)[i]).len() >= 1 by {
            assert(wrap_acc(ws, w, cur)[i] == rest[i]);
        }
    } else if line_words_width(cur) + 1 + word_len(ws[0]) <= w {
        lemma_wrap_acc_nonempty(ws.drop_first(), w, cur.push(ws[0]));
        let rest = wrap_acc(ws.drop_first(), w, cur.push(ws[0]));
        assert forall|i: int| 0 <= i < wrap_acc(ws, w, cur).len()
            implies (#[trigger] wrap_acc(ws, w, cur)[i]).len() >= 1 by {
            assert(wrap_acc(ws, w, cur)[i] == rest[i]);
        }
    } else {
        lemma_wrap_acc_nonempty(ws.drop_first(), w, seq![ws[0]]);
        let rest = wrap_acc(ws.drop_first(), w, seq![ws[0]]);
        assert forall|i: int| 0 <= i < wrap_acc(ws, w, cur).len()
            implies (#[trigger] wrap_acc(ws, w, cur)[i]).len() >= 1 by {
            assert(wrap_acc(ws, w, cur) == seq![cur] + rest);
            if i == 0 {
                assert((seq![cur] + rest)[0] == cur);
            } else {
                assert((seq![cur] + rest)[i] == rest[i - 1]);
            }
        }
    }
}

/// Moves the fragments of `src` onto the end of `dst`.
pub fn append_frags(dst: &mut Vec<Frag>, src: &mut Vec<Frag>)
    ensures
        word_view(final(dst)@) == word_view(old(dst)@) + word_view(old(src)@),
{
    let ghost d0 = dst@;
    let ghost s0 = src@;
    dst.append(src);
    proof {
        assert(word_view(d0 + s0) =~= word_view(d0) + word_view(s0));
    }
}

pub proof fn lemma_word_len_split(w: Seq<FragV>, i: int)
    requires
        0 <= i <= w.len(),
    ensures
        word_len(w) == word_len(w.take(i)) + word_len(w.skip(i)),
    decreases i,
{
    if i == 0 {
        assert(w.take(0) =~= Seq::<FragV>::empty());
        assert(w.skip(0) =~= w);
    } else {
        lemma_word_len_split(w.drop_first(), i - 1);
        assert(w.take(i).drop_first() =~= w.drop_first().take(i - 1));
        assert(w.skip(i) =~= w.drop_first().skip(i - 1));
        assert(word_len(w.take(i)) == w[0].text.len() + word_len(w.drop_first().take(i - 1)));
    }
}

/// Copies a word.
pub fn clone_word(wd: &Vec<Frag>) -> (r: Vec<Frag>)
    ensures
        word_view(r@) == word_view(wd@),
{
    let mut r: Vec<Frag> = Vec::new();
    let mut i: usize = 0;
    proof {
        assert(word_view(r@) =~= word_view(wd@).take(0));
    }
    while i < wd.len()
        invariant
            0 <= i <= wd@.len(),
            word_view(r@) == word_view(wd@).take(i as int),
        decreases wd@.len() - i,
    {
        let ghost r0 = word_view(r@);
        let tcopy = clone_bytes(&wd[i].text);
        let newf = Frag { text: tcopy, role: wd[i].role };
        proof {
            assert(newf@ == word_view(wd@)[i as int]);
        }
        r.push(newf);
        proof {
            assert(word_view(r@) =~~= r0.push(word_view(wd@)[i as int]));
            assert(word_view(wd@).take(i as int).push(word_view(wd@)[i as int])
                =~= word_view(wd@).take(i as int + 1));
        }
        i = i + 1;
    }
    proof {
        assert(word_view(wd@).take(wd@.len() as int) =~~= word_view(wd@));
    }
    r
}

/// The exact width of `wd` when it is at most `cap` columns; `None` when the
/// word is wider than that.
pub fn word_len_upto(wd: &Vec<Frag>, cap: usize) -> (r: Option<usize>)
    ensures
        match r {
            Some(n) => n == word_len(word_view(wd@)) && n <= cap,
            None => word_len(word_view(wd@)) > cap,
        },
{
    let ghost wv = word_view(wd@);
    let mut acc: usize = 0;
    let mut i: usize = 0;
    proof {
        assert(wv.take(0) =~= Seq::<FragV>::empty());
    }
    while i < wd.len()
        invariant
            0 <= i <= wd@.len(),
            wv == word_view(wd@),
            acc <= cap,
            acc == word_len(wv.take(i as int)),
        decreases wd@.len() - i,
    {
        let l = wd[i].text.len();
        proof {
            lemma_word_len_split(wv, i as int);
            lemma_word_len_nonneg(wv.skip(i as int).drop_first());
            assert(wv.skip(i as int)[0] == wv[i as int]);
            assert(wv.skip(i as int).drop_first() =~= wv.skip(i as int + 1));
            lemma_word_len_split(wv, i as int + 1);
            lemma_word_len_nonneg(wv.skip(i as int + 1));
        }
        if l > cap - acc {
            return None;
        }
        proof {
            assert(wv.take(i as int).push(wv[i as int]) =~= wv.take(i as int + 1));
            lemma_word_len_push(wv.take(i as int), wv[i as int]);
        }
        acc = acc + l;
        i = i + 1;
    }
    proof {
        assert(wv.take(wv.len() as int) =~= wv);
    }
    Some(acc)
}

/// Greedy word wrap at width `w`.
pub fn wrap_words_exec(ws: &Vec<Vec<Frag>>, w: usize) -> (r: Vec<Vec<Vec<Frag>>>)
    ensures
        lines_view(r@) == wrap_words(words_view(ws@), w as int),
{
    let ghost wsv = words_view(ws@);
    let ghost total = wrap_words(wsv, w as int);
    let mut out: Vec<Vec<Vec<Frag>>> = Vec::new();
    let mut cur: Vec<Vec<Frag>> = Vec::new();
    let mut cur_w: usize = 0;
    let mut overlong: bool = false;
    let mut k: usize = 0;
    proof {
        assert(wsv.skip(0) =~= wsv);
        assert(lines_view(out@) + wrap_acc(wsv.skip(0), w as int, words_view(cur@))
            =~~= total);
    }
    while k < ws.len()
        invariant
            0 <= k <= ws@.len(),
            wsv == words_view(ws@),
            total == wrap_words(wsv, w as int),
            lines_view(out@) + wrap_acc(wsv.skip(k as int), w as int, words_view(cur@)) == total,
            !overlong ==> cur_w == line_words_width(words_view(cur@)) && cur_w <= w,
            overlong ==> words_view(cur@).len() == 1
                && line_words_width(words_view(cur@)) > w,
        decreases ws@.len() - k,
    {
        let ghost tail = wsv.skip(k as int);
        let ghost curv = words_view(cur@);
        let ghost out0 = lines_view(out@);
        proof {
            assert(tail[0] == wsv[k as int]);
            assert(tail.drop_first() =~= wsv.skip(k as int + 1));
            lemma_word_len_nonneg(wsv[k as int]);
        }
        let wd = clone_word(&ws[k]);
        proof {
            assert(word_view(wd@) == wsv[k as int]);
        }
        if cur.len() == 0 {
            match word_len_upto(&wd, w) {
                Some(n) => {
                    cur.push(wd);
                    cur_w = n;
                    overlong = false;
                },
                None => {
                    cur.push(wd);
                    cur_w = 0;
                    overlong = true;
                },
            }
            proof {
                assert(words_view(cur@) =~~= seq![wsv[k as int]]);
                assert(line_words_width(seq![wsv[k as int]]) == word_len(wsv[k as int]));
            }
        } else if !overlong && cur_w < w {
            let avail = w - cur_w - 1;
            match word_len_upto(&wd, avail) {
                Some(m) => {
                    cur.push(wd);
                    proof {
                        assert(words_view(cur@) =~~= curv.push(wsv[k as int]));
                        lemma_line_words_width_push(curv, wsv[k as int]);
                    }
                    cur_w = cur_w + 1 + m;
                },
                None => {
                    // the word does not fit: flush the line
                    out.push(cur);
                    cur = Vec::new();
                    proof {
                        assert(lines_view(out@) =~~= out0.push(curv));
                        assert(out0 + (seq![curv] + wrap_acc(wsv.skip(k as int + 1), w as int, seq![wsv[k as int]]))
                            =~~= out0.push(curv) + wrap_acc(wsv.skip(k as int + 1), w as int, seq![wsv[k as int]]));
                    }
                    match word_len_upto(&wd, w) {
                        Some(n) => {
                            cur.push(wd);
                            cur_w = n;
                            overlong = false;
                        },
                        None => {
                            cur.push(wd);
                            cur_w = 0;
                            overlong = true;
                        },
                    }
                    proof {
                        assert(words_view(cur@) =~~= seq![wsv[k as int]]);
                        assert(line_words_width(seq![wsv[k as int]]) == word_len(wsv[k as int]));
                    }
                },
            }
        } else {
            // the current line is full (or holds one overlong word)
            out.push(cur);
            cur = Vec::new();
            proof {
                assert(lines_view(out@) =~~= out0.push(curv));
                if overlong {
                    assert(line_words_width(curv) > w);
                }
                assert(out0 + (seq![curv] + wrap_acc(wsv.skip(k as int + 1), w as int, seq![wsv[k as int]]))
                    =~~= out0.push(curv) + wrap_acc(wsv.skip(k as int + 1), w as int, seq![wsv[k as int]]));
            }
            match word_len_upto(&wd, w) {
                Some(n) => {
                    cur.push(wd);
                    cur_w = n;
                    overlong = false;
                },
                None => {
                    cur.push(wd);
                    cur_w = 0;
                    overlong = true;
                },
            }
            proof {
                assert(words_view(cur@) =~~= seq![wsv[k as int]]);
                assert(line_words_width(seq![wsv[k as int]]) == word_len(wsv[k as int]));
            }
        }
        k = k + 1;
    }
    proof {
        assert(wsv.skip(wsv.len() as int) =~= Seq::<Seq<FragV>>::empty());
    }
    if cur.len() > 0 {
        let ghost out0 = lines_view(out@);
        let ghost curv = words_view(cur@);
        out.push(cur);
        proof {
            assert(lines_view(out@) =~~= out0.push(curv));
            assert(out0 + seq![curv] =~~= out0.push(curv));
        }
    } else {
        proof {
            assert(lines_view(out@) + Seq::<Seq<Seq<FragV>>>::empty() =~~= lines_view(out@));
        }
    }
    out
}

} // verus!
