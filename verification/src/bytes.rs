use vstd::prelude::*;

verus! {

/// First index at or after `from` where `b` occurs in `s`; `s.len()` when it
/// does not occur there.
pub open spec fn find_byte(s: Seq<u8>, from: int, b: u8) -> int
    decreases s.len() - from when from <= s.len()
{
    if from < 0 || from >= s.len() {
        s.len() as int
    } else if s[from] == b {
        from
    } else {
        find_byte(s, from + 1, b)
    }
}

pub proof fn lemma_find_byte(s: Seq<u8>, from: int, b: u8)
    requires
        0 <= from <= s.len(),
    ensures
        from <= find_byte(s, from, b) <= s.len(),
        find_byte(s, from, b) < s.len() ==> s[find_byte(s, from, b)] == b,
        forall|k: int| from <= k < find_byte(s, from, b) ==> s[k] != b,
    decreases s.len() - from,
{
    if from < s.len() && s[from] != b {
        lemma_find_byte(s, from + 1, b);
    }
}

/// First index at or after `from` where two adjacent `b` bytes begin;
/// `s.len()` when no such pair exists.
pub open spec fn find_pair(s: Seq<u8>, from: int, b: u8) -> int
    decreases s.len() - from when from <= s.len()
{
    if from < 0 || from + 1 >= s.len() {
        s.len() as int
    } else if s[from] == b && s[from + 1] == b {
        from
    } else {
        find_pair(s, from + 1, b)
    }
}

pub proof fn lemma_find_pair(s: Seq<u8>, from: int, b: u8)
    requires
        0 <= from <= s.len(),
    ensures
        from <= find_pair(s, from, b) <= s.len(),
        find_pair(s, from, b) < s.len() ==> find_pair(s, from, b) + 1 < s.len()
            && s[find_pair(s, from, b)] == b && s[find_pair(s, from, b) + 1] == b,
    decreases s.len() - from,
{
    if from + 1 < s.len() && !(s[from] == b && s[from + 1] == b) {
        lemma_find_pair(s, from + 1, b);
    }
}

/// Number of copies of `b` at the front of `s`.
pub open spec fn count_leading(s: Seq<u8>, b: u8) -> int {
    find_first_not(s, 0, b)
}

/// First index at or after `from` whose byte differs from `b`; `s.len()` when
/// all remaining bytes equal `b`.
pub open spec fn find_first_not(s: Seq<u8>, from: int, b: u8) -> int
    decreases s.len() - from when from <= s.len()
{
    if from < 0 || from >= s.len() {
        s.len() as int
    } else if s[from] != b {
        from
    } else {
        find_first_not(s, from + 1, b)
    }
}

pub proof fn lemma_find_first_not(s: Seq<u8>, from: int, b: u8)
    requires
        0 <= from <= s.len(),
    ensures
        from <= find_first_not(s, from, b) <= s.len(),
        find_first_not(s, from, b) < s.len() ==> s[find_first_not(s, from, b)] != b,
        forall|k: int| from <= k < find_first_not(s, from, b) ==> s[k] == b,
    decreases s.len() - from,
{
    if from < s.len() && s[from] == b {
        lemma_find_first_not(s, from + 1, b);
    }
}

/// A line is blank when it holds only spaces and tabs.
pub open spec fn is_blank_line(l: Seq<u8>) -> bool {
    forall|i: int| 0 <= i < l.len() ==> l[i] == 32u8 || l[i] == 9u8
}

/// How often `b` occurs in `s`.
pub open spec fn count_byte(s: Seq<u8>, b: u8) -> int
    decreases s.len()
{
    if s.len() == 0 {
        0
    } else {
        (if s[0] == b { 1int } else { 0int }) + count_byte(s.drop_first(), b)
    }
}

/// `n` space bytes.
pub open spec fn spaces(n: int) -> Seq<u8> {
    Seq::new(if n >= 0 { n as nat } else { 0 }, |i: int| 32u8)
}

/// Decimal digits of `n`, most significant first.
pub open spec fn dec_digits(n: nat) -> Seq<u8>
    decreases n
{
    if n < 10 {
        seq![(48 + n) as u8]
    } else {
        dec_digits(n / 10).push((48 + n % 10) as u8)
    }
}

/// The lines of `t`, split at each newline byte; the text after the last
/// newline is a line of its own, so `t` with a final newline ends in an
/// empty line.
pub open spec fn split_lines(t: Seq<u8>) -> Seq<Seq<u8>>
    decreases t.len()
    via split_lines_dec
{
    let j = find_byte(t, 0, 10u8);
    if j == t.len() {
        seq![t]
    } else {
        seq![t.take(j)] + split_lines(t.skip(j + 1))
    }
}

#[via_fn]
proof fn split_lines_dec(t: Seq<u8>) {
    lemma_find_byte(t, 0, 10u8);
}

pub fn find_byte_at(s: &Vec<u8>, from: usize, b: u8) -> (r: usize)
    requires
        from <= s@.len(),
    ensures
        r == find_byte(s@, from as int, b),
{
    let mut i: usize = from;
    while i < s.len()
        invariant
            from <= i <= s@.len(),
            find_byte(s@, from as int, b) == find_byte(s@, i as int, b),
        decreases s@.len() - i,
    {
        if s[i] == b {
            return i;
        }
        i = i + 1;
    }
    i
}

pub fn find_pair_at(s: &Vec<u8>, from: usize, b: u8) -> (r: usize)
    requires
        from <= s@.len(),
    ensures
        r == find_pair(s@, from as int, b),
{
    let mut i: usize = from;
    while s.len() - i > 1
        invariant
            from <= i <= s@.len(),
            find_pair(s@, from as int, b) == find_pair(s@, i as int, b),
        decreases s@.len() - i,
    {
        if s[i] == b && s[i + 1] == b {
            return i;
        }
        i = i + 1;
    }
    s.len()
}

pub fn find_first_not_at(s: &Vec<u8>, from: usize, b: u8) -> (r: usize)
    requires
        from <= s@.len(),
    ensures
        r == find_first_not(s@, from as int, b),
{
    let mut i: usize = from;
    while i < s.len()
        invariant
            from <= i <= s@.len(),
            find_first_not(s@, from as int, b) == find_first_not(s@, i as int, b),
        decreases s@.len() - i,
    {
        if s[i] != b {
            return i;
        }
        i = i + 1;
    }
    i
}

pub fn is_blank(l: &Vec<u8>) -> (r: bool)
    ensures
        r == is_blank_line(l@),
{
    let mut i: usize = 0;
    while i < l.len()
        invariant
            0 <= i <= l@.len(),
            forall|k: int| 0 <= k < i ==> l@[k] == 32u8 || l@[k] == 9u8,
        decreases l@.len() - i,
    {
        if l[i] != 32 && l[i] != 9 {
            return false;
        }
        i = i + 1;
    }
    true
}

pub fn count_byte_in(s: &Vec<u8>, b: u8) -> (r: usize)
    ensures
        r == count_byte(s@, b),
{
    proof {
        lemma_count_byte_bound(s@, b);
    }
    let mut i: usize = 0;
    let mut n: usize = 0;
    while i < s.len()
        invariant
            0 <= i <= s@.len(),
            n == count_byte(s@.take(i as int), b),
            n <= i,
        decreases s@.len() - i,
    {
        proof {
            lemma_count_byte_take_step(s@, b, i as int);
            lemma_count_byte_bound(s@.take(i as int + 1), b);
        }
        if s[i] == b {
            n = n + 1;
        }
        i = i + 1;
    }
    proof {
        assert(s@.take(s@.len() as int) =~= s@);
    }
    n
}

pub proof fn lemma_count_byte_bound(s: Seq<u8>, b: u8)
    ensures
        0 <= count_byte(s, b) <= s.len(),
    decreases s.len(),
{
    if s.len() > 0 {
        lemma_count_byte_bound(s.drop_first(), b);
    }
}

pub proof fn lemma_count_byte_take_step(s: Seq<u8>, b: u8, i: int)
    requires
        0 <= i < s.len(),
    ensures
        count_byte(s.take(i + 1), b) == count_byte(s.take(i), b) + (if s[i] == b { 1int } else { 0int }),
    decreases i,
{
    if i == 0 {
        assert(s.take(1).drop_first() =~= s.take(0));
    } else {
        assert(s.take(i + 1).drop_first() =~= s.drop_first().take(i));
        assert(s.take(i).drop_first() =~= s.drop_first().take(i - 1));
        lemma_count_byte_take_step(s.drop_first(), b, i - 1);
    }
}

/// Copies `v[a..b]` into a fresh vector.
pub fn subrange_vec(v: &Vec<u8>, a: usize, b: usize) -> (r: Vec<u8>)
    requires
        a <= b <= v@.len(),
    ensures
        r@ == v@.subrange(a as int, b as int),
{
    let mut r: Vec<u8> = Vec::new();
    let mut i: usize = a;
    while i < b
        invariant
            a <= i <= b <= v@.len(),
            r@ == v@.subrange(a as int, i as int),
        decreases b - i,
    {
        r.push(v[i]);
        proof {
            assert(v@.subrange(a as int, i as int + 1) =~= v@.subrange(a as int, i as int).push(v@[i as int]));
        }
        i = i + 1;
    }
    r
}

/// Appends a copy of `src` to `dst`.
pub fn append_bytes(dst: &mut Vec<u8>, src: &Vec<u8>)
    ensures
        final(dst)@ == old(dst)@ + src@,
{
    let mut i: usize = 0;
    while i < src.len()
        invariant
            0 <= i <= src@.len(),
            dst@ == old(dst)@ + src@.subrange(0, i as int),
        decreases src@.len() - i,
    {
        dst.push(src[i]);
        proof {
            assert(old(dst)@ + src@.subrange(0, i as int + 1)
                =~= (old(dst)@ + src@.subrange(0, i as int)).push(src@[i as int]));
        }
        i = i + 1;
    }
    proof {
        assert(src@.subrange(0, src@.len() as int) =~= src@);
    }
}

pub fn spaces_vec(n: usize) -> (r: Vec<u8>)
    ensures
        r@ == spaces(n as int),
{
    let mut r: Vec<u8> = Vec::new();
    let mut i: usize = 0;
    while i < n
        invariant
            0 <= i <= n,
            r@ == spaces(i as int),
        decreases n - i,
    {
        r.push(32);
        proof {
            assert(spaces(i as int + 1) =~= spaces(i as int).push(32u8));
        }
        i = i + 1;
    }
    r
}

pub fn dec_digits_vec(n: usize) -> (r: Vec<u8>)
    ensures
        r@ == dec_digits(n as nat),
    decreases n,
{
    if n < 10 {
        let mut r: Vec<u8> = Vec::new();
        r.push(48 + n as u8);
        proof {
            assert(r@ =~= dec_digits(n as nat));
        }
        r
    } else {
        let mut r = dec_digits_vec(n / 10);
        r.push(48 + (n % 10) as u8);
        r
    }
}

/// Splits `t` into its lines.
pub fn split_lines_vec(t: &Vec<u8>) -> (r: Vec<Vec<u8>>)
    ensures
        r.deep_view() == split_lines(t@),
{
    let mut r: Vec<Vec<u8>> = Vec::new();
    let mut pos: usize = 0;
    proof {
        assert(t@.skip(0) =~= t@);
        assert(r.deep_view() + split_lines(t@.skip(0)) =~~= split_lines(t@));
    }
    while pos < t.len()
        invariant
            0 <= pos <= t@.len(),
            r.deep_view() + split_lines(t@.skip(pos as int)) =~~= split_lines(t@),
        decreases t@.len() - pos,
    {
        let ghost dv0 = r.deep_view();
        let ghost rest = t@.skip(pos as int);
        let j = find_byte_at(t, pos, 10);
        proof {
            lemma_find_byte(t@, pos as int, 10u8);
            lemma_find_byte_skip(t@, pos as int, 10u8);
        }
        let piece = subrange_vec(t, pos, j);
        r.push(piece);
        proof {
            assert(piece.deep_view() =~= piece@);
            assert(r.deep_view() =~~= dv0 + seq![piece@]);
            assert(rest.take(j - pos as int) =~= t@.subrange(pos as int, j as int));
            assert(find_byte(rest, 0, 10u8) == j - pos as int);
        }
        if j == t.len() {
            proof {
                assert(rest =~= piece@);
                assert(split_lines(rest) == seq![rest]);
                assert(r.deep_view() =~~= split_lines(t@));
            }
            return r;
        }
        let ghost p0 = pos as int;
        pos = j + 1;
        proof {
            assert(rest.skip(j - p0 + 1) =~= t@.skip(pos as int));
            assert(split_lines(rest) =~~= seq![piece@] + split_lines(t@.skip(pos as int)));
            assert(r.deep_view() + split_lines(t@.skip(pos as int)) =~~= split_lines(t@));
        }
    }
    // pos == t.len(): the remaining suffix is one empty line
    let ghost dv0 = r.deep_view();
    proof {
        assert(t@.skip(pos as int) =~= Seq::<u8>::empty());
        assert(find_byte(Seq::<u8>::empty(), 0, 10u8) == 0);
        assert(split_lines(Seq::<u8>::empty()) =~~= seq![Seq::<u8>::empty()]);
    }
    let empty: Vec<u8> = Vec::new();
    r.push(empty);
    proof {
        assert(empty.deep_view() =~= Seq::<u8>::empty());
        assert(r.deep_view() =~~= dv0 + seq![Seq::<u8>::empty()]);
        assert(r.deep_view() =~~= split_lines(t@));
    }
    r
}

/// `find_byte` looks only at the suffix, so it commutes with `skip`.
pub proof fn lemma_find_byte_skip(s: Seq<u8>, from: int, b: u8)
    requires
        0 <= from <= s.len(),
    ensures
        find_byte(s.skip(from), 0, b) == find_byte(s, from, b) - from,
    decreases s.len() - from,
{
    lemma_find_byte(s, from, b);
    lemma_find_byte(s.skip(from), 0, b);
    let j = find_byte(s, from, b);
    let k = find_byte(s.skip(from), 0, b);
    if k + from < j {
        assert(s[k + from] == s.skip(from)[k]);
        assert(false);
    }
    if j < k + from {
        assert(s.skip(from)[j - from] == s[j]);
        assert(false);
    }
}

/// The text with leading and trailing spaces removed.
pub open spec fn trim_spaces(l: Seq<u8>) -> Seq<u8> {
    let a = count_leading(l, 32u8);
    let b = l.len() - count_trailing_spaces(l);
    if a <= b { l.subrange(a, b) } else { Seq::empty() }
}

/// Number of spaces at the end of `l`.
pub open spec fn count_trailing_spaces(l: Seq<u8>) -> int
    decreases l.len()
{
    if l.len() == 0 {
        0
    } else if l.last() == 32u8 {
        1 + count_trailing_spaces(l.drop_last())
    } else {
        0
    }
}

pub fn trim_spaces_vec(l: &Vec<u8>) -> (r: Vec<u8>)
    ensures
        r@ == trim_spaces(l@),
{
    let a = find_first_not_at(l, 0, 32);
    proof {
        lemma_find_first_not(l@, 0, 32u8);
    }
    let mut e: usize = l.len();
    proof {
        assert(l@.take(l@.len() as int) =~= l@);
    }
    while e > 0 && l[e - 1] == 32
        invariant
            0 <= e <= l@.len(),
            count_trailing_spaces(l@) == count_trailing_spaces(l@.take(e as int)) + (l@.len() - e),
        decreases e,
    {
        proof {
            assert(l@.take(e as int).drop_last() =~= l@.take(e as int - 1));
            assert(l@.take(e as int).last() == l@[e as int - 1]);
        }
        e = e - 1;
    }
    proof {
        if e > 0 {
            assert(l@.take(e as int).last() == l@[e as int - 1]);
            assert(count_trailing_spaces(l@.take(e as int)) == 0);
        } else {
            assert(l@.take(0).len() == 0);
        }
        assert(count_trailing_spaces(l@) == l@.len() - e);
    }
    if a <= e {
        subrange_vec(l, a, e)
    } else {
        let r: Vec<u8> = Vec::new();
        r
    }
}

} // verus!
