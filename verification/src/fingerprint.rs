//! A book's layout fingerprint: how it separates paragraphs and whether it was
//! hard-wrapped. Every downstream repair decision branches on this, so it is
//! computed once for the whole book before any line is judged.
use vstd::prelude::*;
use vstd::relations::sorted_by;
use crate::text::{sort_u128, pieces, split, split_ranges, tiles, to_chars, trim, trim_end, trim_end_at, trim_range};
use crate::{indented, indented_chars};

verus! {

/// How the book separates paragraphs.
#[derive(Debug, Clone, Copy, PartialEq, Eq, Structural)]
pub enum ParagraphStyle {
    /// Full-width double-space indent. One line = one paragraph.
    Indent,
    /// Blank lines between paragraphs.
    BlankLine,
    /// Neither: paragraphs must be reconstructed.
    Wall,
}

/// Characters that legitimately end a Chinese paragraph. Wider than "sentence
/// end": a colon introducing dialogue and a closing quote are both normal
/// paragraph terminators in web fiction.
pub open spec fn paragraph_end(c: char) -> bool {
    c == '。' || c == '！' || c == '？' || c == '…' || c == '”' || c == '’' || c == '』'
        || c == '」' || c == '）' || c == '】' || c == '：' || c == '—' || c == '.' || c == '!'
        || c == '?' || c == ':'
}

fn is_paragraph_end(c: char) -> (r: bool)
    ensures
        r == paragraph_end(c),
{
    c == '。' || c == '！' || c == '？' || c == '…' || c == '”' || c == '’' || c == '』'
        || c == '」' || c == '）' || c == '】' || c == '：' || c == '—' || c == '.' || c == '!'
        || c == '?' || c == ':'
}

/// The counts a layout decision is made from. Ratios are left to the reader
/// of the fingerprint: `paragraph_ends` over `nonblank_lines` is the share of
/// lines that end like a paragraph.
pub struct Fingerprint {
    pub encoding: &'static str,
    pub total_lines: usize,
    pub blank_lines: usize,
    pub nonblank_lines: usize,
    pub indented_lines: usize,
    pub flush_lines: usize,
    pub style: ParagraphStyle,
    /// Some(w) when line lengths spike at a fixed width, i.e. the text was
    /// hard-wrapped by a web layout and needs rejoining.
    pub hard_wrap_width: Option<usize>,
    pub median_len: usize,
    pub p90_len: usize,
    pub max_len: usize,
    /// Non-blank lines that end on a paragraph-ending character.
    pub paragraph_ends: usize,
}

pub open spec fn nonblank(l: Seq<char>) -> bool {
    trim(l).len() > 0
}

pub open spec fn ends_paragraph(l: Seq<char>) -> bool {
    let t = trim_end(l);
    t.len() > 0 && paragraph_end(t.last())
}

/// Lines among the first `n` that are non-blank.
pub open spec fn count_nonblank(ls: Seq<Seq<char>>, n: int) -> nat
    decreases n,
{
    if n <= 0 {
        0
    } else {
        count_nonblank(ls, n - 1) + if nonblank(ls[n - 1]) {
            1nat
        } else {
            0nat
        }
    }
}

pub open spec fn count_indented(ls: Seq<Seq<char>>, n: int) -> nat
    decreases n,
{
    if n <= 0 {
        0
    } else {
        count_indented(ls, n - 1) + if nonblank(ls[n - 1]) && indented(ls[n - 1]) {
            1nat
        } else {
            0nat
        }
    }
}

pub open spec fn count_ends(ls: Seq<Seq<char>>, n: int) -> nat
    decreases n,
{
    if n <= 0 {
        0
    } else {
        count_ends(ls, n - 1) + if nonblank(ls[n - 1]) && ends_paragraph(ls[n - 1]) {
            1nat
        } else {
            0nat
        }
    }
}

/// Character lengths (trailing whitespace excluded) of the non-blank lines
/// among the first `n`, in order.
pub open spec fn line_lens(ls: Seq<Seq<char>>, n: int) -> Seq<int>
    decreases n,
{
    if n <= 0 {
        Seq::empty()
    } else if nonblank(ls[n - 1]) {
        line_lens(ls, n - 1).push(trim_end(ls[n - 1]).len() as int)
    } else {
        line_lens(ls, n - 1)
    }
}

/// How many of `s` equal `w`.
pub open spec fn occurrences(s: Seq<int>, w: int) -> nat
    decreases s.len(),
{
    if s.len() == 0 {
        0
    } else {
        occurrences(s.drop_last(), w) + if s.last() == w {
            1nat
        } else {
            0nat
        }
    }
}

/// `w` is one of the most frequent values of `s`.
pub open spec fn is_mode(s: Seq<int>, w: int) -> bool {
    occurrences(s, w) > 0 && forall|x: int| occurrences(s, x) <= occurrences(s, w)
}

pub open spec fn ascending(s: Seq<int>) -> bool {
    forall|i: int, j: int| 0 <= i <= j < s.len() ==> s[i] <= s[j]
}

/// Indent style when over half the non-blank lines are indented; blank-line
/// style when over 15% of all lines are blank; otherwise a wall of text.
pub open spec fn style_of(indented: nat, nonblank: nat, blank: nat, total: nat) -> ParagraphStyle {
    let nb = if nonblank == 0 { 1 } else { nonblank };
    let tl = if total == 0 { 1 } else { total };
    if 2 * indented > nb {
        ParagraphStyle::Indent
    } else if 20 * blank > 3 * tl {
        ParagraphStyle::BlankLine
    } else {
        ParagraphStyle::Wall
    }
}

/// A fixed width at which at least a twentieth of the lines pile up.
pub open spec fn wrap_ok(lens: Seq<int>, w: int, nonblank: nat) -> bool {
    let nb = if nonblank == 0 { 1 } else { nonblank };
    w >= 20 && 20 * occurrences(lens, w) > nb
}

/// The layout fingerprint of `text`.
pub open spec fn fingerprint_ok(text: Seq<char>, fp: Fingerprint) -> bool {
    let ls = split(text, '\n');
    let n = ls.len() as int;
    let nb = count_nonblank(ls, n);
    let ind = count_indented(ls, n);
    let lens = line_lens(ls, n);
    &&& fp.total_lines == n
    &&& fp.nonblank_lines == nb
    &&& fp.blank_lines == n - nb
    &&& fp.indented_lines == ind
    &&& fp.flush_lines == nb - ind
    &&& fp.paragraph_ends == count_ends(ls, n)
    &&& fp.style == style_of(ind, nb, (n - nb) as nat, n as nat)
    &&& (exists|srt: Seq<int>|
        {
            &&& ascending(srt)
            &&& srt.to_multiset() == lens.to_multiset()
            &&& fp.median_len == (if srt.len() == 0 { 0 } else { srt[srt.len() as int / 2] })
            &&& fp.p90_len == (if srt.len() == 0 { 0 } else { srt[(9 * srt.len() as int) / 10] })
            &&& fp.max_len == (if srt.len() == 0 { 0 } else { srt.last() })
        })
    &&& (fp.style == ParagraphStyle::Indent ==> fp.hard_wrap_width is None)
    &&& (fp.hard_wrap_width matches Some(w) ==> is_mode(lens, w as int) && wrap_ok(lens, w as int, nb))
    &&& (fp.style != ParagraphStyle::Indent && fp.hard_wrap_width is None ==> (lens.len() == 0
        || exists|w: int| is_mode(lens, w) && !wrap_ok(lens, w, nb)))
}

/// The most frequent value (the first seen, on a tie) and its count.
fn mode(v: &Vec<usize>) -> (r: (usize, usize))
    ensures
        v@.len() > 0 ==> is_mode(v@.map_values(|x: usize| x as int), r.0 as int),
        r.1 == occurrences(v@.map_values(|x: usize| x as int), r.0 as int),
{
    let ghost s = v@.map_values(|x: usize| x as int);
    let mut hist: Vec<(usize, usize)> = Vec::new();
    let mut i: usize = 0;
    while i < v.len()
        invariant
            i <= v@.len(),
            s == v@.map_values(|x: usize| x as int),
            forall|t: int| 0 <= t < hist@.len() ==> (#[trigger] hist@[t]).1 == occurrences(s.take(i as int), hist@[t].0 as int),
            forall|t: int| 0 <= t < hist@.len() ==> (#[trigger] hist@[t]).1 > 0,
            forall|x: int| #[trigger] occurrences(s.take(i as int), x) > 0 ==> exists|t: int| 0 <= t < hist@.len() && (#[trigger] hist@[t]).0 == x,
            forall|t1: int, t2: int| 0 <= t1 < t2 < hist@.len() ==> (#[trigger] hist@[t1]).0 != (#[trigger] hist@[t2]).0,
            forall|t: int| 0 <= t < hist@.len() ==> (#[trigger] hist@[t]).1 <= i,
        decreases v.len() - i,
    {
        let x = v[i];
        assert(s.take(i + 1).drop_last() =~= s.take(i as int));
        assert(s.take(i + 1).last() == x as int);
        let mut t: usize = 0;
        let mut found = false;
        while t < hist.len() && !found
            invariant
                t <= hist@.len(),
                !found ==> forall|u: int| 0 <= u < t ==> (#[trigger] hist@[u]).0 != x,
                found ==> t < hist@.len() && hist@[t as int].0 == x,
            decreases hist@.len() - t, if found { 0int } else { 1int },
        {
            if hist[t].0 == x {
                found = true;
            } else {
                t += 1;
            }
        }
        let ghost old_hist = hist@;
        if found {
            let (k, c) = hist[t];
            hist.set(t, (k, c + 1));
        } else {
            hist.push((x, 1));
        }
        proof {
            assert forall|t: int| 0 <= t < hist@.len() implies (#[trigger] hist@[t]).1 == occurrences(s.take(i + 1), hist@[t].0 as int) by {
                let key = hist@[t].0 as int;
                assert(occurrences(s.take(i + 1), key) == occurrences(s.take(i as int), key) + if key == x as int { 1nat } else { 0nat });
                if !found && t == old_hist.len() {
                    if occurrences(s.take(i as int), x as int) > 0 {
                        let u = choose|u: int| 0 <= u < old_hist.len() && (#[trigger] old_hist[u]).0 == x;
                        assert(old_hist[u].0 != x);
                    }
                } else {
                    assert(old_hist[t].0 == hist@[t].0);
                }
            }
            assert forall|y: int| #[trigger] occurrences(s.take(i + 1), y) > 0 implies exists|u: int| 0 <= u < hist@.len() && (#[trigger] hist@[u]).0 == y by {
                if y == x as int {
                    if found {
                        assert(hist@[t as int].0 == x);
                    } else {
                        assert(hist@[old_hist.len() as int].0 == x);
                    }
                } else {
                    assert(occurrences(s.take(i as int), y) > 0);
                    let u = choose|u: int| 0 <= u < old_hist.len() && (#[trigger] old_hist[u]).0 == y;
                    assert(hist@[u].0 == y);
                }
            }
        }
        i += 1;
    }
    assert(s.take(v@.len() as int) =~= s);
    let mut best: usize = 0;
    let mut best_count: usize = 0;
    let mut u: usize = 0;
    while u < hist.len()
        invariant
            u <= hist@.len(),
            forall|t: int| 0 <= t < hist@.len() ==> (#[trigger] hist@[t]).1 == occurrences(s, hist@[t].0 as int),
            forall|t: int| 0 <= t < u ==> (#[trigger] hist@[t]).1 <= best_count,
            u > 0 ==> exists|t: int| 0 <= t < u && (#[trigger] hist@[t]).0 == best && hist@[t].1 == best_count,
            u == 0 ==> best == 0 && best_count == 0,
        decreases hist@.len() - u,
    {
        if u == 0 || hist[u].1 > best_count {
            best = hist[u].0;
            best_count = hist[u].1;
        }
        u += 1;
    }
    proof {
        if hist@.len() > 0 {
            let t = choose|t: int| 0 <= t < hist@.len() && (#[trigger] hist@[t]).0 == best && hist@[t].1 == best_count;
            assert(best_count == occurrences(s, best as int));
            assert forall|y: int| #[trigger] occurrences(s, y) <= occurrences(s, best as int) by {
                if occurrences(s, y) > 0 {
                    let w = choose|w: int| 0 <= w < hist@.len() && (#[trigger] hist@[w]).0 == y;
                    assert(hist@[w].1 <= best_count);
                }
            }
        } else {
            if v@.len() > 0 {
                lemma_occ_last(s);
            }
        }
    }
    (best, best_count)
}

proof fn lemma_occ_last(s: Seq<int>)
    requires
        s.len() > 0,
    ensures
        occurrences(s, s.last()) > 0,
{
}

pub fn fingerprint(encoding: &'static str, text: &str) -> (fp: Fingerprint)
    ensures
        fingerprint_ok(text@, fp),
        fp.encoding == encoding,
{
    let v = to_chars(text);
    let rs = split_ranges(v.as_slice(), '\n');
    let ghost ls = split(v@, '\n');
    let mut nb: usize = 0;
    let mut ind: usize = 0;
    let mut ends: usize = 0;
    let mut lens: Vec<usize> = Vec::new();
    let mut k: usize = 0;
    while k < rs.len()
        invariant
            pieces(v@, rs@) == ls,
            tiles(v@, rs@, '\n'),
            ls.len() == rs@.len(),
            k <= rs.len(),
            nb == count_nonblank(ls, k as int),
            ind == count_indented(ls, k as int),
            ends == count_ends(ls, k as int),
            nb <= k,
            ind <= nb,
            ends <= nb,
            lens@.map_values(|x: usize| x as int) == line_lens(ls, k as int),
        decreases rs.len() - k,
    {
        let (s, e) = rs[k];
        assert(ls[k as int] == v@.subrange(s as int, e as int));
        let (x, y) = trim_range(v.as_slice(), s, e);
        let ghost prev = lens@;
        if y > x {
            nb += 1;
            let line = crate::text::slice_vec(v.as_slice(), s, e);
            if indented_chars(line.as_slice()) {
                ind += 1;
            }
            let b = trim_end_at(v.as_slice(), s, e);
            if b > s && is_paragraph_end(v[b - 1]) {
                ends += 1;
            }
            lens.push(b - s);
            assert(lens@.map_values(|x: usize| x as int) =~= prev.map_values(|x: usize| x as int).push(
                (b - s) as int,
            ));
        }
        k += 1;
    }
    let total = rs.len();
    let style = if 2 * (ind as u128) > (if nb == 0 { 1 } else { nb }) as u128 {
        ParagraphStyle::Indent
    } else if 20 * ((total - nb) as u128) > 3 * ((if total == 0 { 1 } else { total }) as u128) {
        ParagraphStyle::BlankLine
    } else {
        ParagraphStyle::Wall
    };
    let ghost lens_int = lens@.map_values(|x: usize| x as int);
    let (best, best_count) = mode(&lens);
    let mut wide: Vec<u128> = Vec::new();
    let mut q: usize = 0;
    while q < lens.len()
        invariant
            q <= lens@.len(),
            wide@.map_values(|x: u128| x as int) == lens_int.take(q as int),
            lens_int == lens@.map_values(|x: usize| x as int),
        decreases lens.len() - q,
    {
        let ghost pre = wide@;
        wide.push(lens[q] as u128);
        assert(wide@.map_values(|x: u128| x as int) =~= pre.map_values(|x: u128| x as int).push(
            lens@[q as int] as int,
        ));
        assert(lens_int.take(q + 1) =~= lens_int.take(q as int).push(lens_int[q as int]));
        q += 1;
    }
    assert(lens_int.take(lens@.len() as int) =~= lens_int);
    sort_u128(&mut wide);
    let ghost srt = wide@.map_values(|x: u128| x as int);
    proof {
        broadcast use vstd::seq_lib::group_to_multiset_ensures;
        assert forall|t: int| 0 <= t < srt.len() implies #[trigger] srt[t] <= usize::MAX by {
            assert(srt.contains(srt[t]));
            assert(srt.to_multiset().count(srt[t]) > 0);
            assert(lens_int.contains(srt[t]));
        }
    }
    let n = wide.len();
    assert(n == lens@.len()) by {
        assert(srt.to_multiset().len() == lens_int.to_multiset().len());
    }
    let median = if n == 0 { 0 } else { wide[n / 2] as usize };
    let p90 = if n == 0 { 0 } else { wide[((9 * (n as u128)) / 10) as usize] as usize };
    let max = if n == 0 { 0 } else { wide[n - 1] as usize };
    assert(ascending(srt));
    let hard_wrap_width = if style == ParagraphStyle::Indent {
        None
    } else if n > 0 && best >= 20 && 20 * (best_count as u128) > (if nb == 0 { 1 } else { nb }) as u128 {
        Some(best)
    } else {
        None
    };
    Fingerprint {
        encoding,
        total_lines: total,
        blank_lines: total - nb,
        nonblank_lines: nb,
        indented_lines: ind,
        flush_lines: nb - ind,
        style,
        hard_wrap_width,
        median_len: median,
        p90_len: p90,
        max_len: max,
        paragraph_ends: ends,
    }
}


/// The indent signal comes first: when more than half of the non-blank
/// lines are indented the style is `Indent`, however many blank lines there
/// are; otherwise more than 15% blank lines make it `BlankLine`, and
/// anything else is a wall of text.
pub proof fn indent_wins_over_blank_lines(text: Seq<char>, fp: Fingerprint)
    requires
        fingerprint_ok(text, fp),
    ensures
        2 * fp.indented_lines > fp.nonblank_lines ==> fp.style == ParagraphStyle::Indent,
        2 * fp.indented_lines <= fp.nonblank_lines && 20 * fp.blank_lines > 3 * fp.total_lines ==> fp.style
            == ParagraphStyle::BlankLine,
        2 * fp.indented_lines <= fp.nonblank_lines && 20 * fp.blank_lines <= 3 * fp.total_lines ==> fp.style
            == ParagraphStyle::Wall,
{
    let ls = split(text, '\n');
    let n = ls.len() as int;
    lemma_indented_le(ls, n);
}

proof fn lemma_indented_le(ls: Seq<Seq<char>>, n: int)
    ensures
        count_indented(ls, n) <= count_nonblank(ls, n),
        count_nonblank(ls, n) <= if n < 0 { 0 } else { n },
    decreases n,
{
    if n > 0 {
        lemma_indented_le(ls, n - 1);
    }
}
} // verus!
