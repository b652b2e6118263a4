//! Retrieval chunks: the unit of semantic search.
//!
//! A chapter is too coarse to search, so the body is cut into
//! paragraph-aligned windows, each carrying the byte span it covers: a hit is
//! a place, not a chapter. Turning a window into a vector and scoring vectors
//! is floating-point work done elsewhere; what is cut and which hits are kept
//! is decided here.
use vstd::prelude::*;
use crate::book::{
    bend, bstart, lemma_line, lemma_offset, lemma_table, line_end, line_start, table_chars,
    table_ok, Table,
};
use crate::text::{
    blen, byte_offsets, from_chars, lemma_blen_mono, lemma_blen_split, push_range, slice_vec, split,
    str_blen, string_of, to_chars, trim, trim_chars, trim_range, trim_start,
};

verus! {

/// One window of a chapter's body.
#[derive(Debug, Clone, PartialEq)]
pub struct Chunk {
    /// Byte offsets into the decoded book text, the coordinates progress is
    /// anchored in, so a search hit is somewhere the reader can be sent.
    pub start: usize,
    pub end: usize,
    pub text: String,
}

/// A chunk as plain values: start, end, text.
pub type ChunkV = (int, int, Seq<char>);

impl View for Chunk {
    type V = ChunkV;

    open spec fn view(&self) -> ChunkV {
        (self.start as int, self.end as int, self.text@)
    }
}

/// Long enough to hold a scene, short enough that the vector still points at
/// one thing. Chinese prose at ~250 characters is a paragraph or three.
pub const TARGET_CHARS: usize = 250;

/// Byte offset `x` falls on a character boundary of `t`.
pub open spec fn boundary(t: Seq<char>, x: int) -> bool {
    exists|i: int| 0 <= i <= t.len() && blen(t.take(i)) == x
}

/// The character index at byte offset `x`.
pub open spec fn at_byte(t: Seq<char>, x: int) -> int {
    choose|i: int| 0 <= i <= t.len() && blen(t.take(i)) == x
}

/// Window state: chunks so far, the paragraphs waiting, their character
/// count, and the byte span they cover.
pub type CState = (Seq<ChunkV>, Seq<char>, int, Option<(int, int)>);

/// Close the window: what it holds becomes a chunk, unless it is blank.
pub open spec fn flush_spec(st: CState) -> CState {
    let out = match st.3 {
        Some(sp) => if trim(st.1).len() > 0 {
            st.0.push((sp.0, sp.1, trim(st.1)))
        } else {
            st.0
        },
        None => st.0,
    };
    (out, Seq::empty(), 0, None)
}

/// Character ranges of consecutive pieces of `target` characters, the last
/// one shorter, starting at `from`.
pub open spec fn cuts(len: int, target: int, from: int) -> Seq<(int, int)>
    decreases len - from,
{
    if target > 0 && from + target < len {
        seq![(from, from + target)] + cuts(len, target, from + target)
    } else {
        seq![(from, len)]
    }
}

/// A paragraph longer than a whole window, cut on character boundaries;
/// `base` is the byte offset of its first character.
pub open spec fn overlong(t: Seq<char>, base: int, target: int) -> Seq<ChunkV> {
    let rs = if target == 0 {
        seq![(0int, 0int), (0int, t.len() as int)]
    } else {
        cuts(t.len() as int, target, 0)
    };
    rs.map_values(
        |r: (int, int)| (base + blen(t.take(r.0)), base + blen(t.take(r.1)), t.subrange(r.0, r.1)),
    )
}

/// One line (bytes `ls..le`) through the window.
pub open spec fn step(st: CState, line: Seq<char>, ls: int, le: int, target: int) -> CState {
    let t = trim(line);
    if t.len() == 0 {
        st
    } else if t.len() > target {
        let f = flush_spec(st);
        let base = ls + blen(line) - blen(trim_start(line));
        (f.0 + overlong(t, base, target), f.1, f.2, f.3)
    } else {
        let buf = if st.1.len() > 0 {
            st.1.push('\n') + t
        } else {
            t
        };
        let span = Some(
            (
                match st.3 {
                    Some(sp) => sp.0,
                    None => ls,
                },
                le,
            ),
        );
        let st2 = (st.0, buf, st.2 + t.len(), span);
        if st2.2 >= target {
            flush_spec(st2)
        } else {
            st2
        }
    }
}

/// The window after the first `n` lines of `sub`, which starts at byte
/// `start` of the book.
pub open spec fn chunk_upto(sub: Seq<char>, start: int, target: int, n: int) -> CState
    decreases n,
{
    if n <= 0 {
        (Seq::empty(), Seq::empty(), 0, None)
    } else {
        step(
            chunk_upto(sub, start, target, n - 1),
            split(sub, '\n')[n - 1],
            start + bstart(sub, n - 1),
            start + bend(sub, n - 1),
            target,
        )
    }
}

/// The chunks of the body `sub`, which starts at byte `start` of the book.
pub open spec fn chunks_spec(sub: Seq<char>, start: int, target: int) -> Seq<ChunkV> {
    flush_spec(chunk_upto(sub, start, target, split(sub, '\n').len() as int)).0
}

/// The index `i` with `offs[i] == x`, where `offs` are the byte offsets of `t`.
fn find_offset(offs: &Vec<usize>, x: usize, Ghost(t): Ghost<Seq<char>>) -> (i: usize)
    requires
        offs@.len() == t.len() + 1,
        forall|j: int| 0 <= j <= t.len() ==> offs@[j] == blen(#[trigger] t.take(j)),
        boundary(t, x as int),
    ensures
        i <= t.len(),
        offs@[i as int] == x,
        i == at_byte(t, x as int),
{
    let ghost w = choose|j: int| 0 <= j <= t.len() && blen(t.take(j)) == x;
    let mut i: usize = 0;
    while i < offs.len() && offs[i] < x
        invariant
            0 <= w <= t.len(),
            blen(t.take(w)) == x,
            offs@.len() == t.len() + 1,
            forall|j: int| 0 <= j <= t.len() ==> offs@[j] == blen(#[trigger] t.take(j)),
            i <= w,
        decreases offs.len() - i,
    {
        assert(offs@[w] == x);
        assert(i as int != w);
        i += 1;
    }
    proof {
        if i < w {
            lemma_blen_mono(t, i as int, w);
        }
    }
    let ghost c = at_byte(t, x as int);
    proof {
        if c < i {
            lemma_blen_mono(t, c, i as int);
        } else if c > i {
            lemma_blen_mono(t, i as int, c);
        }
    }
    i
}

#[verifier::loop_isolation(false)]
/// Push the pieces of an overlong paragraph: characters `x..y` of the
/// table's text, which starts at byte `start` of the book.
fn push_pieces(out: &mut Vec<Chunk>, tb: &Table, x: usize, y: usize, start: usize, target: usize)
    requires
        table_ok(*tb),
        x < y <= tb.v@.len(),
        start + blen(tb.v@) <= usize::MAX,
    ensures
        final(out)@.map_values(|c: Chunk| c@) == old(out)@.map_values(|c: Chunk| c@) + overlong(
            tb.v@.subrange(x as int, y as int),
            start + blen(tb.v@.take(x as int)),
            target as int,
        ),
{
    let ghost v = tb.v@;
    let ghost t = v.subrange(x as int, y as int);
    let ghost base = start + blen(v.take(x as int));
    let ghost o0 = out@.map_values(|c: Chunk| c@);
    proof {
        lemma_offset(*tb, x as int);
        lemma_offset(*tb, y as int);
        lemma_blen_mono(v, y as int, v.len() as int);
        lemma_blen_mono(v, x as int, y as int);
        crate::text::lemma_blen_full(v);
        lemma_offset(*tb, v.len() as int);
    }
    let ghost rs = if target == 0 {
        seq![(0int, 0int), (0int, t.len() as int)]
    } else {
        cuts(t.len() as int, target as int, 0)
    };
    let ghost f = |r: (int, int)|
        (base + blen(t.take(r.0)), base + blen(t.take(r.1)), t.subrange(r.0, r.1));
    assert forall|p: int| 0 <= p <= t.len() implies #[trigger] blen(t.take(p)) + blen(v.take(
        x as int,
    )) == tb.offs@[x + p] by {
        lemma_blen_split(v, x as int, x + p);
        assert(t.take(p) =~= v.subrange(x as int, x + p));
        lemma_offset(*tb, x + p);
    }
    if target == 0 {
        out.push(Chunk { start: start + tb.offs[x], end: start + tb.offs[x], text: String::new() });
        out.push(Chunk { start: start + tb.offs[x], end: start + tb.offs[y], text: string_of(tb.v.as_slice(), x, y) });
        assert(t.take(0).len() == 0);
        assert(t.subrange(0, 0) =~= Seq::<char>::empty());
        assert(t.subrange(0, t.len() as int) =~= t);
        assert(t.take(t.len() as int) =~= t);
        assert(out@.map_values(|c: Chunk| c@) =~= o0 + rs.map_values(f));
        return;
    }
    let mut p: usize = x;
    while target < y - p
        invariant
            table_ok(*tb),
            v == tb.v@,
            t == v.subrange(x as int, y as int),
            x <= p < y <= v.len(),
            target > 0,
            rs == cuts(t.len() as int, target as int, 0),
            start + tb.offs@[y as int] <= usize::MAX,
            tb.offs@.len() == v.len() + 1,
            forall|q: int| 0 <= q <= t.len() ==> #[trigger] blen(t.take(q)) + blen(v.take(x as int)) == tb.offs@[x + q],
            out@.map_values(|c: Chunk| c@) + cuts(t.len() as int, target as int, p - x).map_values(f)
                == o0 + rs.map_values(f),
        decreases y - p,
    {
        let ghost pre = out@.map_values(|c: Chunk| c@);
        let ghost rest = cuts(t.len() as int, target as int, p - x);
        assert(rest == seq![(p - x, p - x + target)] + cuts(t.len() as int, target as int, p - x + target));
        proof {
            lemma_offset(*tb, p as int);
            lemma_offset(*tb, (p + target) as int);
            lemma_offset(*tb, y as int);
            lemma_blen_mono(v, p + target, y as int);
            lemma_blen_mono(v, p as int, p + target);
        }
        assert(blen(t.take(p - x)) + blen(v.take(x as int)) == tb.offs@[p as int]);
        assert(blen(t.take(p - x + target)) + blen(v.take(x as int)) == tb.offs@[p + target]);
        assert(t.subrange(p - x, p - x + target) =~= v.subrange(p as int, p + target));
        let c = Chunk {
            start: start + tb.offs[p],
            end: start + tb.offs[p + target],
            text: string_of(tb.v.as_slice(), p, p + target),
        };
        let ghost fc = f((p - x, p - x + target));
        assert(fc.0 == base + blen(t.take(p - x)));
        assert(c@.0 == start + tb.offs@[p as int]);
        assert(c@.0 == fc.0);
        assert(c@.1 == fc.1);
        assert(c@.2 == fc.2);
        assert(c@ == fc);
        out.push(c);
        assert(out@.map_values(|c: Chunk| c@) =~= pre.push(fc));
        assert(rest.map_values(f) =~= seq![f((p - x, p - x + target))] + cuts(t.len() as int, target as int, p - x + target).map_values(f));
        assert(out@.map_values(|c: Chunk| c@) + cuts(t.len() as int, target as int, p - x + target).map_values(f) =~= pre + rest.map_values(f));
        p = p + target;
    }
    let ghost pre = out@.map_values(|c: Chunk| c@);
    assert(cuts(t.len() as int, target as int, p - x) == seq![(p - x, t.len() as int)]);
    proof {
        lemma_offset(*tb, p as int);
        lemma_blen_mono(v, p as int, y as int);
    }
    assert(t.take(t.len() as int) =~= t);
    assert(blen(t.take(p - x)) + blen(v.take(x as int)) == tb.offs@[p as int]);
    assert(blen(t.take(t.len() as int)) + blen(v.take(x as int)) == tb.offs@[y as int]);
    assert(t.subrange(p - x, t.len() as int) =~= v.subrange(p as int, y as int));
    out.push(Chunk { start: start + tb.offs[p], end: start + tb.offs[y], text: string_of(tb.v.as_slice(), p, y) });
    assert(out@.map_values(|c: Chunk| c@) =~= pre.push(f((p - x, t.len() as int))));
    assert(seq![(p - x, t.len() as int)].map_values(f) =~= seq![f((p - x, t.len() as int))]);
}

pub open spec fn span_view(o: Option<(usize, usize)>) -> Option<(int, int)> {
    match o {
        Some(p) => Some((p.0 as int, p.1 as int)),
        None => None,
    }
}

pub open spec fn chunk_views(v: Seq<Chunk>) -> Seq<ChunkV> {
    v.map_values(|c: Chunk| c@)
}

fn flush(out: &mut Vec<Chunk>, buf: &mut Vec<char>, chars: &mut usize, span: &mut Option<(usize, usize)>)
    ensures
        (chunk_views(final(out)@), final(buf)@, *final(chars) as int, span_view(*final(span)))
            == flush_spec(
            (chunk_views(old(out)@), old(buf)@, *old(chars) as int, span_view(*old(span))),
        ),
{
    match *span {
        Some((s, e)) => {
            let tr = trim_chars(buf.as_slice());
            if tr.len() > 0 {
                let ghost pre = chunk_views(out@);
                out.push(Chunk { start: s, end: e, text: from_chars(tr.as_slice()) });
                assert(chunk_views(out@) =~= pre.push((s as int, e as int, tr@)));
            }
        },
        None => {},
    }
    *buf = Vec::new();
    *chars = 0;
    *span = None;
}

/// Cut a chapter body (bytes `start..end` of `text`) into windows of about
/// `target` characters.
///
/// Paragraphs are never split across chunks, except the pathological one
/// longer than a whole window, which is cut on character boundaries.
#[verifier::rlimit(60)]
pub fn chunk_body(text: &str, start: usize, end: usize, target: usize) -> (r: Vec<Chunk>)
    requires
        start <= end,
        boundary(text@, start as int),
        boundary(text@, end as int),
    ensures
        chunk_views(r@) == chunks_spec(
            text@.subrange(at_byte(text@, start as int), at_byte(text@, end as int)),
            start as int,
            target as int,
        ),
{
    let n = str_blen(text);
    let v = to_chars(text);
    let offs = byte_offsets(v.as_slice());
    let a = find_offset(&offs, start, Ghost(v@));
    let b = find_offset(&offs, end, Ghost(v@));
    proof {
        if a > b {
            lemma_blen_mono(v@, b as int, a as int);
        }
    }
    let sub = slice_vec(v.as_slice(), a, b);
    proof {
        lemma_blen_split(v@, a as int, b as int);
    }
    let tb = table_chars(sub);
    let ghost sv = tb.v@;
    proof {
        lemma_table(tb);
    }
    let mut out: Vec<Chunk> = Vec::new();
    let mut buf: Vec<char> = Vec::new();
    let mut chars: usize = 0;
    let mut span: Option<(usize, usize)> = None;
    let mut k: usize = 0;
    while k < tb.rs.len()
        invariant
            table_ok(tb),
            sv == tb.v@,
            start + blen(sv) <= usize::MAX,
            tb.rs@.len() == split(sv, '\n').len(),
            k <= tb.rs@.len(),
            (chunk_views(out@), buf@, chars as int, span_view(span)) == chunk_upto(
                sv,
                start as int,
                target as int,
                k as int,
            ),
            chars <= (if k < tb.rs@.len() {
                tb.rs@[k as int].0 as int
            } else {
                sv.len() as int
            }),
        decreases tb.rs.len() - k,
    {
        proof {
            lemma_line(tb, k as int);
        }
        let ghost st = (chunk_views(out@), buf@, chars as int, span_view(span));
        let (s, e) = tb.rs[k];
        let ls = start + line_start(&tb, k);
        let le = start + line_end(&tb, k);
        let (x, y) = trim_range(tb.v.as_slice(), s, e);
        let ghost line = sv.subrange(s as int, e as int);
        assert(split(sv, '\n')[k as int] == line);
        assert(trim(line) == sv.subrange(x as int, y as int));
        if y > x {
            if y - x > target {
                flush(&mut out, &mut buf, &mut chars, &mut span);
                proof {
                    lemma_blen_split(sv, s as int, e as int);
                    lemma_blen_split(sv, x as int, e as int);
                    lemma_offset(tb, s as int);
                    assert(blen(line) - blen(trim_start(line)) == blen(sv.take(x as int)) - blen(
                        sv.take(s as int),
                    ));
                }
                push_pieces(&mut out, &tb, x, y, start, target);
            } else {
                if buf.len() > 0 {
                    buf.push('\n');
                }
                push_range(&mut buf, tb.v.as_slice(), x, y);
                chars = chars + (y - x);
                let first = match span {
                    Some((p, _)) => p,
                    None => ls,
                };
                span = Some((first, le));
                if chars >= target {
                    flush(&mut out, &mut buf, &mut chars, &mut span);
                }
            }
        }
        k += 1;
    }
    flush(&mut out, &mut buf, &mut chars, &mut span);
    proof {
        crate::text::lemma_blen_full(v@);
    }
    out
}

// ------------------------------------------------------------ ranking

/// How many of the kept hits (indices into `chapters`) lie in chapter `c`.
pub open spec fn taken(chapters: Seq<i64>, kept: Seq<int>, c: i64) -> nat
    decreases kept.len(),
{
    if kept.len() == 0 {
        0
    } else {
        taken(chapters, kept.drop_last(), c) + if chapters[kept.last()] == c {
            1nat
        } else {
            0nat
        }
    }
}

/// The hits kept among the first `n`, and whether the list has filled up.
pub open spec fn cap_upto(chapters: Seq<i64>, k: int, per: int, n: int) -> (Seq<int>, bool)
    decreases n,
{
    if n <= 0 {
        (Seq::empty(), false)
    } else {
        let (kept, full) = cap_upto(chapters, k, per, n - 1);
        if full {
            (kept, true)
        } else if taken(chapters, kept, chapters[n - 1]) < per {
            let more = kept.push(n - 1);
            (more, more.len() == k)
        } else {
            (kept, false)
        }
    }
}

/// Once the list is full nothing more is kept.
proof fn lemma_cap_full(chapters: Seq<i64>, k: int, per: int, n: int, m: int)
    requires
        cap_upto(chapters, k, per, n).1,
        n <= m,
    ensures
        cap_upto(chapters, k, per, m) == cap_upto(chapters, k, per, n),
    decreases m - n,
{
    if m > n {
        lemma_cap_full(chapters, k, per, n, m - 1);
    }
}

pub open spec fn as_ints(v: Seq<usize>) -> Seq<int> {
    v.map_values(|i: usize| i as int)
}

/// Of hits already sorted best first (given by their chapters), the
/// positions of the ones kept: at most `per_chapter` from any one chapter,
/// stopping once `k` are kept. A scene the author dwelt on for five
/// paragraphs would otherwise take the whole list and hide every other place
/// the answer lives.
pub fn cap_per_chapter(chapters: &[i64], k: usize, per_chapter: usize) -> (r: Vec<usize>)
    ensures
        as_ints(r@) == cap_upto(chapters@, k as int, per_chapter as int, chapters@.len() as int).0,
{
    let mut out: Vec<usize> = Vec::new();
    let mut full = false;
    let mut i: usize = 0;
    while i < chapters.len() && !full
        invariant
            i <= chapters@.len(),
            (as_ints(out@), full) == cap_upto(chapters@, k as int, per_chapter as int, i as int),
            forall|j: int| 0 <= j < out@.len() ==> out@[j] < i,
        decreases chapters.len() - i,
    {
        let c = chapters[i];
        let mut n: usize = 0;
        let mut j: usize = 0;
        while j < out.len()
            invariant
                j <= out@.len(),
                i < chapters@.len(),
                forall|q: int| 0 <= q < out@.len() ==> out@[q] < i,
                n == taken(chapters@, as_ints(out@).take(j as int), c),
                n <= j,
            decreases out.len() - j,
        {
            assert(as_ints(out@).take(j + 1).drop_last() =~= as_ints(out@).take(j as int));
            if chapters[out[j]] == c {
                n += 1;
            }
            j += 1;
        }
        assert(as_ints(out@).take(out@.len() as int) =~= as_ints(out@));
        if n < per_chapter {
            let ghost pre = as_ints(out@);
            out.push(i);
            assert(as_ints(out@) =~= pre.push(i as int));
            full = out.len() == k;
        }
        i += 1;
    }
    proof {
        if full {
            lemma_cap_full(chapters@, k as int, per_chapter as int, i as int, chapters@.len() as int);
        }
    }
    out
}

} // verus!
