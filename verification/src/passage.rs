//! Passages of a book's text: the excerpt a summarizer reads, the words
//! around a search hit, and the hits themselves. Positions are byte offsets
//! into the decoded text, as everywhere else.
use vstd::prelude::*;
use crate::book::Chapter;
use crate::cast::census::offset_index;
use crate::chunk::{at_byte, boundary};
use crate::text::{
    blen, byte_offsets, find_from, first_at, from_chars, lemma_blen_mono, lemma_first_at, push_all, slice_vec,
    str_blen, sub_at, to_chars, trim, trim_range,
};

verus! {

/// The opening and the closing of a body too long to read whole, with a
/// `……` line between them.
pub open spec fn excerpt_spec(body: Seq<char>, h: int, t: int) -> Seq<char> {
    if body.len() <= h + t {
        body
    } else {
        body.take(h) + "\n……\n"@ + body.subrange(body.len() - t, body.len() as int)
    }
}

/// The characters between two byte offsets that fall on boundaries.
pub open spec fn between(text: Seq<char>, start: int, end: int) -> Seq<char> {
    text.subrange(at_byte(text, start), at_byte(text, end))
}

proof fn lemma_at_byte_order(t: Seq<char>, x: int, y: int)
    requires
        boundary(t, x),
        boundary(t, y),
        x <= y,
    ensures
        0 <= at_byte(t, x) <= at_byte(t, y) <= t.len(),
        blen(t.take(at_byte(t, x))) == x,
        blen(t.take(at_byte(t, y))) == y,
{
    let i = at_byte(t, x);
    let j = at_byte(t, y);
    if i > j {
        lemma_blen_mono(t, j, i);
    }
}

/// The character index at byte offset `x` of `v` (a boundary).
fn char_index(v: &Vec<char>, offs: &Vec<usize>, x: usize) -> (i: usize)
    requires
        offs@.len() == v@.len() + 1,
        forall|j: int| 0 <= j <= v@.len() ==> offs@[j] == blen(#[trigger] v@.take(j)),
        boundary(v@, x as int),
    ensures
        i == at_byte(v@, x as int),
        i <= v@.len(),
{
    offset_index(offs, x, Ghost(v@))
}

fn offsets_of(v: &Vec<char>, text: &str) -> (offs: Vec<usize>)
    requires
        v@ == text@,
    ensures
        offs@.len() == v@.len() + 1,
        forall|j: int| 0 <= j <= v@.len() ==> offs@[j] == blen(#[trigger] v@.take(j)),
{
    let _n = str_blen(text);
    byte_offsets(v.as_slice())
}

/// The slice of a chapter a summarizer reads: the first `head_chars` and the
/// last `tail_chars` characters of the trimmed body, or all of it when it is
/// no longer than both together.
pub fn chapter_excerpt(text: &str, body_start: usize, end: usize, head_chars: usize, tail_chars: usize) -> (r: String)
    requires
        boundary(text@, body_start as int),
        boundary(text@, end as int),
        body_start <= end,
        tail_chars >= 1 || trim(between(text@, body_start as int, end as int)).len() <= head_chars,
    ensures
        r@ == excerpt_spec(trim(between(text@, body_start as int, end as int)), head_chars as int, tail_chars as int),
{
    let v = to_chars(text);
    let offs = offsets_of(&v, text);
    proof {
        lemma_at_byte_order(v@, body_start as int, end as int);
    }
    let cs = char_index(&v, &offs, body_start);
    let ce = char_index(&v, &offs, end);
    let (a, b) = trim_range(v.as_slice(), cs, ce);
    let body = slice_vec(v.as_slice(), a, b);
    let n = body.len();
    if n <= head_chars || n - head_chars <= tail_chars {
        return from_chars(body.as_slice());
    }
    let mut out = slice_vec(body.as_slice(), 0, head_chars);
    push_all(&mut out, to_chars("\n……\n").as_slice());
    push_all(&mut out, slice_vec(body.as_slice(), n - tail_chars, n).as_slice());
    assert(body@.subrange(0, head_chars as int) =~= body@.take(head_chars as int));
    from_chars(out.as_slice())
}

// ------------------------------------------------------------ around a hit

/// Where `i` ends up after stepping back over at most `n` characters,
/// stopping at a line break.
pub open spec fn back_from(t: Seq<char>, i: int, n: nat) -> int
    decreases n,
{
    if n == 0 || i <= 0 || i > t.len() || t[i - 1] == '\n' {
        i
    } else {
        back_from(t, i - 1, (n - 1) as nat)
    }
}

/// Where `i` ends up after stepping forward over at most `n` characters,
/// stopping at a line break.
pub open spec fn forward_from(t: Seq<char>, i: int, n: nat) -> int
    decreases n,
{
    if n == 0 || i < 0 || i >= t.len() || t[i] == '\n' {
        i
    } else {
        forward_from(t, i + 1, (n - 1) as nat)
    }
}

/// The match at characters `[i, j)` with up to `before` characters of its
/// line before it and `after` after it, trimmed.
pub open spec fn around_spec(t: Seq<char>, i: int, j: int, before: nat, after: nat) -> Seq<char> {
    trim(t.subrange(back_from(t, i, before), forward_from(t, j, after)))
}

proof fn lemma_back(t: Seq<char>, i: int, n: nat)
    requires
        0 <= i <= t.len(),
    ensures
        0 <= back_from(t, i, n) <= i,
    decreases n,
{
    if !(n == 0 || i <= 0 || i > t.len() || t[i - 1] == '\n') {
        lemma_back(t, i - 1, (n - 1) as nat);
    }
}

proof fn lemma_forward(t: Seq<char>, i: int, n: nat)
    requires
        0 <= i <= t.len(),
    ensures
        i <= forward_from(t, i, n) <= t.len(),
    decreases n,
{
    if !(n == 0 || i < 0 || i >= t.len() || t[i] == '\n') {
        lemma_forward(t, i + 1, (n - 1) as nat);
    }
}

fn around(v: &Vec<char>, i: usize, j: usize, before: usize, after: usize) -> (r: Vec<char>)
    requires
        i <= j <= v@.len(),
    ensures
        r@ == around_spec(v@, i as int, j as int, before as nat, after as nat),
{
    let mut s = i;
    let mut k: usize = 0;
    while k < before && s > 0 && v[s - 1] != '\n'
        invariant
            s <= i,
            i <= v@.len(),
            k <= before,
            back_from(v@, i as int, before as nat) == back_from(v@, s as int, (before - k) as nat),
        decreases before - k,
    {
        s -= 1;
        k += 1;
    }
    let mut e = j;
    let mut k: usize = 0;
    while k < after && e < v.len() && v[e] != '\n'
        invariant
            j <= e <= v@.len(),
            k <= after,
            forward_from(v@, j as int, after as nat) == forward_from(v@, e as int, (after - k) as nat),
        decreases after - k,
    {
        e += 1;
        k += 1;
    }
    let (a, b) = trim_range(v.as_slice(), s, e);
    slice_vec(v.as_slice(), a, b)
}

// ------------------------------------------------------------ text search

/// The chapter holding byte `pos`: the last whose span starts at or before
/// it (the first when none does).
pub open spec fn chapter_at(chs: Seq<Chapter>, pos: int, k: int) -> int
    decreases k,
{
    if k <= 0 {
        0
    } else if chs[k - 1].span.start <= pos {
        k - 1
    } else {
        chapter_at(chs, pos, k - 1)
    }
}

/// Non-overlapping occurrences of `w` (non-empty) in `t` from `i` on, left
/// to right, as character indices.
pub open spec fn hits_from(t: Seq<char>, w: Seq<char>, i: int) -> Seq<int>
    decreases t.len() - i,
{
    let f = first_at(t, w, i);
    if w.len() == 0 || i < 0 || f < 0 {
        Seq::empty()
    } else {
        proof {
            lemma_first_at(t, w, i);
        }
        seq![f] + hits_from(t, w, f + w.len())
    }
}

/// One text-search hit: the chapter it falls in, its byte offset, and the
/// words around it.
#[derive(Debug, Clone)]
pub struct TextHit {
    pub chapter: usize,
    pub title: String,
    pub start: usize,
    pub text: String,
}

/// The text the reader has reached: up to the end of chapter `up_to`
/// (clamped to the last chapter), nothing when there are no chapters.
pub open spec fn reached_end(chs: Seq<Chapter>, up_to: int) -> int {
    if chs.len() == 0 {
        0
    } else {
        let last = if up_to < 0 {
            0
        } else if up_to >= chs.len() {
            chs.len() - 1
        } else {
            up_to
        };
        chs[last].span.end as int
    }
}

/// Chapters that tile the text in order, on character boundaries.
pub open spec fn spans_ok(text: Seq<char>, chs: Seq<Chapter>) -> bool {
    forall|i: int|
        0 <= i < chs.len() ==> boundary(text, (#[trigger] chs[i]).span.end as int) && chs[i].span.start
            <= chs[i].span.end
}

/// What a search finds: the first `k` occurrences (all when `k` is 0) of
/// the trimmed query in the text the reader has reached, each with its
/// chapter and its title, its byte offset, and up to 20 characters before
/// and 60 after.
pub open spec fn search_ok(text: Seq<char>, chs: Seq<Chapter>, query: Seq<char>, up_to: int, k: int, r: Seq<TextHit>) -> bool {
    let q = trim(query);
    if q.len() == 0 {
        r.len() == 0
    } else {
        let reach = text.take(at_byte(text, reached_end(chs, up_to)));
        let hs = hits_from(reach, q, 0);
        let n = if k > 0 && hs.len() > k { k } else { hs.len() as int };
        &&& r.len() == n
        &&& forall|m: int|
            0 <= m < n ==> {
                let h = #[trigger] r[m];
                let i = hs[m];
                &&& h.start == blen(text.take(i))
                &&& h.chapter == chapter_at(chs, blen(text.take(i)) as int, chs.len() as int)
                &&& h.title@ == chs[h.chapter as int].title@
                &&& h.text@ == around_spec(text, i, i + q.len(), 20, 60)
            }
    }
}

/// Plain text search over what the reader has reached: the first `k`
/// occurrences of the query, never past chapter `up_to`.
pub fn search_text(text: &str, chapters: &[Chapter], query: &str, up_to: i64, k: usize) -> (r: Vec<TextHit>)
    requires
        spans_ok(text@, chapters@),
    ensures
        search_ok(text@, chapters@, query@, up_to as int, k as int, r@),
{
    let qv = to_chars(query);
    let (qa, qb) = trim_range(qv.as_slice(), 0, qv.len());
    assert(qv@.subrange(0, qv@.len() as int) =~= qv@);
    let q = slice_vec(qv.as_slice(), qa, qb);
    let mut out: Vec<TextHit> = Vec::new();
    if q.len() == 0 {
        return out;
    }
    if chapters.len() == 0 {
        proof {
            assert(text@.take(0) =~= Seq::<char>::empty());
            assert(blen(text@.take(0)) == 0);
            assert(boundary(text@, 0));
            let i0 = at_byte(text@, 0);
            lemma_blen_mono(text@, 0, i0);
            assert(i0 == 0);
            let reach = text@.take(i0);
            assert(reach =~= Seq::<char>::empty());
            assert(hits_from(reach, trim(query@), 0) =~= Seq::<int>::empty());
        }
        return out;
    }
    let v = to_chars(text);
    let offs = offsets_of(&v, text);
    let end_byte: usize = if chapters.len() == 0 {
        0
    } else {
        let last: usize = if up_to < 0 {
            0
        } else if up_to as u64 >= chapters.len() as u64 {
            chapters.len() - 1
        } else {
            up_to as usize
        };
        chapters[last].span.end
    };
    proof {
        if chapters@.len() == 0 {
            assert(blen(v@.take(0)) == 0);
            assert(boundary(v@, 0));
        }
    }
    let ce = char_index(&v, &offs, end_byte);
    let reach = slice_vec(v.as_slice(), 0, ce);
    assert(reach@ =~= v@.take(ce as int));
    let ghost hs = hits_from(reach@, q@, 0);
    let mut from: usize = 0;
    loop
        invariant_except_break
            k == 0 || out@.len() < k,
        invariant
            q@ == trim(query@),
            q@.len() > 0,
            v@ == text@,
            chapters@.len() > 0,
            reach@ == v@.take(ce as int),
            ce <= v@.len(),
            offs@.len() == v@.len() + 1,
            forall|j: int| 0 <= j <= v@.len() ==> offs@[j] == blen(#[trigger] v@.take(j)),
            from <= reach@.len(),
            hs == hits_from(reach@, q@, 0),
            out@.len() <= hs.len(),
            hs == hs.take(out@.len() as int) + hits_from(reach@, q@, from as int),
            forall|m: int|
                0 <= m < out@.len() ==> {
                    let h = #[trigger] out@[m];
                    let i = hs[m];
                    &&& h.start == blen(v@.take(i))
                    &&& h.chapter == chapter_at(chapters@, blen(v@.take(i)) as int, chapters@.len() as int)
                    &&& h.title@ == chapters@[h.chapter as int].title@
                    &&& h.text@ == around_spec(v@, i, i + q@.len(), 20, 60)
                },
        ensures
            hs.len() >= out@.len(),
            (k > 0 && hs.len() > k) ==> out@.len() == k,
            !(k > 0 && hs.len() > k) ==> out@.len() == hs.len(),
            hs == hs.take(out@.len() as int) + hits_from(reach@, q@, from as int),
            forall|m: int|
                0 <= m < out@.len() ==> {
                    let h = #[trigger] out@[m];
                    let i = hs[m];
                    &&& h.start == blen(v@.take(i))
                    &&& h.chapter == chapter_at(chapters@, blen(v@.take(i)) as int, chapters@.len() as int)
                    &&& h.title@ == chapters@[h.chapter as int].title@
                    &&& h.text@ == around_spec(v@, i, i + q@.len(), 20, 60)
                },
        decreases reach@.len() - from,
    {
        match find_from(reach.as_slice(), q.as_slice(), from) {
            None => {
                assert(hits_from(reach@, q@, from as int) =~= Seq::<int>::empty());
                assert(hs =~= hs.take(out@.len() as int));
                break;
            },
            Some(i) => {
                proof {
                    lemma_first_at(reach@, q@, from as int);
                }
                let j = i + q.len();
                let pos = offs[i];
                // the chapter: the last whose span starts at or before pos
                let mut c: usize = chapters.len();
                while c > 0 && chapters[c - 1].span.start > pos
                    invariant
                        c <= chapters@.len(),
                        chapter_at(chapters@, pos as int, chapters@.len() as int) == chapter_at(chapters@, pos as int, c as int),
                    decreases c,
                {
                    c -= 1;
                }
                let chapter: usize = if c == 0 { 0 } else { c - 1 };
                let txt = around(&v, i, j, 20, 60);
                let ghost m = out@.len();
                let ghost rest = hits_from(reach@, q@, j as int);
                assert(hits_from(reach@, q@, from as int) == seq![i as int] + rest);
                proof {
                    assert(hs =~= hs.take(m as int) + (seq![i as int] + rest));
                    assert(hs[m as int] == (hs.take(m as int) + (seq![i as int] + rest))[m as int]);
                    assert(hs[m as int] == i as int);
                    assert(hs.len() >= m + 1);
                }
                assert(reach@.take(i as int) =~= v@.take(i as int));
                out.push(TextHit { chapter, title: chapters[chapter].title.clone(), start: pos, text: from_chars(txt.as_slice()) });
                proof {
                    assert(hs.take(m as int + 1) =~= hs.take(m as int).push(i as int));
                    assert(hs.take(m as int) + (seq![i as int] + rest) =~= hs.take(m as int + 1) + rest);
                }
                from = j;
                if out.len() == k {
                    proof {
                        assert(hs.len() >= out@.len());
                    }
                    break;
                }
            },
        }
    }
    proof {
        assert forall|m: int| 0 <= m < out@.len() implies #[trigger] hs[m] == hs.take(out@.len() as int)[m] by {}
    }
    out
}

proof fn lemma_hits_inside(t: Seq<char>, w: Seq<char>, i: int)
    requires
        0 <= i,
    ensures
        forall|m: int| 0 <= m < hits_from(t, w, i).len() ==> 0 <= #[trigger] hits_from(t, w, i)[m] && hits_from(t, w, i)[m] + w.len()
            <= t.len(),
    decreases t.len() - i,
{
    let f = first_at(t, w, i);
    if !(w.len() == 0 || i < 0 || f < 0) {
        lemma_first_at(t, w, i);
        lemma_hits_inside(t, w, f + w.len());
        let rest = hits_from(t, w, f + w.len());
        assert forall|m: int| 0 <= m < hits_from(t, w, i).len() implies 0 <= #[trigger] hits_from(t, w, i)[m]
            && hits_from(t, w, i)[m] + w.len() <= t.len() by {
            if m > 0 {
                assert(hits_from(t, w, i)[m] == rest[m - 1]);
            }
        }
    }
}

/// Search never reaches past the reader: every hit, query included, lies
/// before the end of the last chapter reached.
pub proof fn search_stays_within_reach(text: Seq<char>, chs: Seq<Chapter>, query: Seq<char>, up_to: int, k: int, r: Seq<TextHit>)
    requires
        spans_ok(text, chs),
        search_ok(text, chs, query, up_to, k, r),
        chs.len() > 0,
    ensures
        forall|m: int| 0 <= m < r.len() ==> (#[trigger] r[m]).start + blen(trim(query)) <= reached_end(chs, up_to),
{
    let q = trim(query);
    if q.len() > 0 {
        let end = reached_end(chs, up_to);
        let last = if up_to < 0 {
            0
        } else if up_to >= chs.len() {
            chs.len() - 1
        } else {
            up_to
        };
        assert(boundary(text, chs[last].span.end as int));
        let ce = at_byte(text, end);
        assert(0 <= ce <= text.len() && blen(text.take(ce)) == end);
        let reach = text.take(ce);
        let hs = hits_from(reach, q, 0);
        lemma_hits_inside(reach, q, 0);
        assert forall|m: int| 0 <= m < r.len() implies (#[trigger] r[m]).start + blen(q) <= end by {
            let i = hs[m];
            assert(0 <= i && i + q.len() <= ce);
            assert(reach.subrange(i, i + q.len()) == q) by {
                lemma_hits_sub(reach, q, 0, m);
            }
            assert(text.subrange(i, i + q.len()) =~= reach.subrange(i, i + q.len()));
            crate::text::lemma_blen_split(text, i, i + q.len());
            lemma_blen_mono(text, i + q.len(), ce);
        }
    }
}

proof fn lemma_hits_sub(t: Seq<char>, w: Seq<char>, i: int, m: int)
    requires
        0 <= i,
        0 <= m < hits_from(t, w, i).len(),
    ensures
        sub_at(t, w, hits_from(t, w, i)[m]),
    decreases t.len() - i,
{
    let f = first_at(t, w, i);
    lemma_first_at(t, w, i);
    if m > 0 {
        lemma_hits_sub(t, w, f + w.len(), m - 1);
    }
}

} // verus!
