//! The raw material of the cast scan: the paragraphs of the scanned range,
//! and the candidate names seeded from them with their neighbour statistics.
use vstd::prelude::*;
use crate::book::{Chapter, ChapV};
use crate::chunk::{at_byte, boundary};
use crate::focus::bodies_ok;
use crate::cast::seeds::{
    anchors_upto, distinct_names, harvest, key_of, lemma_char_small, lemma_key_bounds, line_views,
    name_shape, sat1, seed_ok, seeded, K0,
};
use crate::cast::words::{cjk, is_cjk, is_object_cue, object_cue};
use crate::text::{has_char, matches_at, sub_at};
use crate::text::{
    blen, byte_offsets, lemma_blen_mono, lemma_blen_split, slice_vec, split, split_ranges, pieces,
    str_blen, tiles, to_chars, trim, trim_range,
};

verus! {

/// A paragraph as plain values: the chapter index it belongs to, its text.
pub type ParaV = (int, Seq<char>);

pub open spec fn para_views(ps: Seq<(usize, Vec<char>)>) -> Seq<ParaV> {
    ps.map_values(|p: (usize, Vec<char>)| (p.0 as int, p.1@))
}

/// The body of a chapter, as characters.
pub open spec fn body_of(t: Seq<char>, c: ChapV) -> Seq<char> {
    t.subrange(at_byte(t, c.5), at_byte(t, c.4))
}

/// The trimmed non-blank lines among `ls`, tagged with chapter `c`.
pub open spec fn nonblank(c: int, ls: Seq<Seq<char>>) -> Seq<ParaV>
    decreases ls.len(),
{
    if ls.len() == 0 {
        Seq::empty()
    } else {
        let p = nonblank(c, ls.drop_last());
        if trim(ls.last()).len() > 0 {
            p.push((c, trim(ls.last())))
        } else {
            p
        }
    }
}

/// The paragraphs of the first `n` chapters: each body split at line
/// breaks, each line trimmed, blank lines dropped.
pub open spec fn paras_upto(t: Seq<char>, chs: Seq<ChapV>, n: int) -> Seq<ParaV>
    decreases n,
{
    if n <= 0 {
        Seq::empty()
    } else {
        paras_upto(t, chs, n - 1) + nonblank(chs[n - 1].0, split(body_of(t, chs[n - 1]), '\n'))
    }
}

proof fn lemma_nonblank_tag(c: int, ls: Seq<Seq<char>>)
    ensures
        forall|i: int| 0 <= i < nonblank(c, ls).len() ==> (#[trigger] nonblank(c, ls)[i]).0 == c,
    decreases ls.len(),
{
    if ls.len() > 0 {
        lemma_nonblank_tag(c, ls.drop_last());
        let p = nonblank(c, ls.drop_last());
        assert forall|i: int| 0 <= i < nonblank(c, ls).len() implies (#[trigger] nonblank(c, ls)[i]).0 == c by {
            if i < p.len() {
                assert(nonblank(c, ls)[i] == p[i]);
            }
        }
    }
}

/// Every paragraph carries the index of a chapter it came from.
pub proof fn lemma_para_chapters(t: Seq<char>, chs: Seq<ChapV>, n: int, bound: int)
    requires
        0 <= n <= chs.len(),
        forall|j: int| 0 <= j < n ==> (#[trigger] chs[j]).0 < bound,
    ensures
        forall|i: int| 0 <= i < paras_upto(t, chs, n).len() ==> (#[trigger] paras_upto(t, chs, n)[i]).0 < bound,
    decreases n,
{
    if n > 0 {
        lemma_para_chapters(t, chs, n - 1, bound);
        let c = chs[n - 1].0;
        let ls = split(body_of(t, chs[n - 1]), '\n');
        lemma_nonblank_tag(c, ls);
        let a = paras_upto(t, chs, n - 1);
        let b = nonblank(c, ls);
        assert forall|i: int| 0 <= i < paras_upto(t, chs, n).len() implies (#[trigger] paras_upto(t, chs, n)[i]).0 < bound by {
            if i < a.len() {
                assert(paras_upto(t, chs, n)[i] == a[i]);
            } else {
                assert(paras_upto(t, chs, n)[i] == b[i - a.len()]);
            }
        }
    }
}

pub open spec fn chapter_views(chapters: Seq<Chapter>) -> Seq<ChapV> {
    chapters.map_values(|c: Chapter| c@)
}

/// The index `i` with `offs[i] == x`, found by halving: the offsets climb.
pub(crate) fn offset_index(offs: &Vec<usize>, x: usize, Ghost(t): Ghost<Seq<char>>) -> (i: usize)
    requires
        offs@.len() == t.len() + 1,
        forall|j: int| 0 <= j <= t.len() ==> offs@[j] == blen(#[trigger] t.take(j)),
        boundary(t, x as int),
    ensures
        i <= t.len(),
        offs@[i as int] == x,
        i == at_byte(t, x as int),
{
    let ghost w = choose|j: int| 0 <= j <= t.len() && blen(t.take(j)) == x;
    let mut lo: usize = 0;
    let mut hi: usize = offs.len() - 1;
    while lo < hi
        invariant
            offs@.len() == t.len() + 1,
            forall|j: int| 0 <= j <= t.len() ==> offs@[j] == blen(#[trigger] t.take(j)),
            0 <= w <= t.len(),
            blen(t.take(w)) == x,
            lo <= w <= hi <= t.len(),
        decreases hi - lo,
    {
        let mid = lo + (hi - lo) / 2;
        if offs[mid] < x {
            proof {
                if w <= mid {
                    lemma_blen_mono(t, w, mid as int);
                }
            }
            lo = mid + 1;
        } else {
            proof {
                if mid < w {
                    lemma_blen_mono(t, mid as int, w);
                }
            }
            hi = mid;
        }
    }
    let ghost c = at_byte(t, x as int);
    proof {
        if c < lo {
            lemma_blen_mono(t, c, lo as int);
        } else if c > lo {
            lemma_blen_mono(t, lo as int, c);
        }
    }
    lo
}

/// Append the trimmed non-blank lines of `v` to `out`, tagged `ci`.
fn push_lines(out: &mut Vec<(usize, Vec<char>)>, v: &Vec<char>, ci: usize)
    ensures
        para_views(final(out)@) == para_views(old(out)@) + nonblank(ci as int, split(v@, '\n')),
{
    let rs = split_ranges(v.as_slice(), '\n');
    let ghost ls = split(v@, '\n');
    let ghost o0 = para_views(out@);
    let mut k: usize = 0;
    assert(ls.take(0) =~= Seq::<Seq<char>>::empty());
    while k < rs.len()
        invariant
            pieces(v@, rs@) == ls,
            tiles(v@, rs@, '\n'),
            k <= rs@.len(),
            para_views(out@) == o0 + nonblank(ci as int, ls.take(k as int)),
        decreases rs.len() - k,
    {
        let (s, e) = rs[k];
        assert(rs@[k as int].0 <= rs@[k as int].1 <= v@.len());
        let (a, b) = trim_range(v.as_slice(), s, e);
        assert(ls[k as int] == v@.subrange(s as int, e as int));
        assert(ls.take(k + 1).drop_last() =~= ls.take(k as int));
        assert(ls.take(k + 1).last() == ls[k as int]);
        let ghost pre = para_views(out@);
        if b > a {
            let line = slice_vec(v.as_slice(), a, b);
            out.push((ci, line));
            assert(para_views(out@) =~= pre.push((ci as int, trim(ls[k as int]))));
        }
        k += 1;
    }
    assert(ls.take(rs@.len() as int) =~= ls);
}

/// The paragraphs of the first `upto` chapters (or all of them).
pub fn paragraphs(text: &str, chapters: &[Chapter], upto: usize) -> (r: Vec<(usize, Vec<char>)>)
    requires
        bodies_ok(text@, chapter_views(chapters@)),
    ensures
        para_views(r@) == paras_upto(
            text@,
            chapter_views(chapters@),
            if upto < chapters@.len() { upto as int } else { chapters@.len() as int },
        ),
{
    let ghost chs = chapter_views(chapters@);
    let n = if upto < chapters.len() { upto } else { chapters.len() };
    let _total = str_blen(text);
    let v = to_chars(text);
    let offs = byte_offsets(v.as_slice());
    let mut out: Vec<(usize, Vec<char>)> = Vec::new();
    let mut i: usize = 0;
    while i < n
        invariant
            n <= chapters@.len(),
            chs == chapter_views(chapters@),
            bodies_ok(text@, chs),
            v@ == text@,
            offs@.len() == v@.len() + 1,
            forall|j: int| 0 <= j <= v@.len() ==> offs@[j] == blen(#[trigger] v@.take(j)),
            i <= n,
            para_views(out@) == paras_upto(text@, chs, i as int),
        decreases n - i,
    {
        let ch = &chapters[i];
        assert(chs[i as int] == ch@);
        let a = offset_index(&offs, ch.body_start, Ghost(v@));
        let b = offset_index(&offs, ch.span.end, Ghost(v@));
        proof {
            if a > b {
                lemma_blen_mono(v@, b as int, a as int);
            }
        }
        let body = slice_vec(v.as_slice(), a, b);
        assert(body@ == body_of(text@, chs[i as int]));
        push_lines(&mut out, &body, ch.index);
        i += 1;
    }
    out
}

/// What the statistics saw of one candidate: how often it occurs, the
/// first four distinct characters met on its left and on its right, how
/// often it stands as the whole run before a speech verb, how often its
/// left and its right neighbour are not CJK (a referential island), and how
/// often it stands right after an object cue (someone acts upon it).
#[derive(Debug, Clone)]
pub struct Stat {
    pub count: u32,
    pub left: Vec<char>,
    pub right: Vec<char>,
    pub anchored: u32,
    pub boundary: u32,
    pub boundary_r: u32,
    pub object: u32,
}

/// A `Stat` as plain values.
pub type StatV = (int, Seq<char>, Seq<char>, int, int, int, int);

impl View for Stat {
    type V = StatV;

    open spec fn view(&self) -> StatV {
        (
            self.count as int,
            self.left@,
            self.right@,
            self.anchored as int,
            self.boundary as int,
            self.boundary_r as int,
            self.object as int,
        )
    }
}

impl Default for Stat {
    fn default() -> (s: Self)
        ensures
            s@ == (0int, Seq::<char>::empty(), Seq::<char>::empty(), 0int, 0int, 0int, 0int),
    {
        Stat {
            count: 0,
            left: Vec::new(),
            right: Vec::new(),
            anchored: 0,
            boundary: 0,
            boundary_r: 0,
            object: 0,
        }
    }
}

/// Keep `c` among the first four distinct neighbours.
pub open spec fn note(s: Seq<char>, c: char) -> Seq<char> {
    if s.len() < 4 && !s.contains(c) {
        s.push(c)
    } else {
        s
    }
}

/// The character before position `o`, a line break at the start.
pub open spec fn prev_at(l: Seq<char>, o: int) -> char {
    if o <= 0 {
        '\n'
    } else {
        l[o - 1]
    }
}

/// The character after `w` placed at `o`, a line break at the end.
pub open spec fn next_at(l: Seq<char>, w: Seq<char>, o: int) -> char {
    if o + w.len() < l.len() {
        l[o + w.len()]
    } else {
        '\n'
    }
}

pub open spec fn bit(b: bool) -> int {
    if b {
        1
    } else {
        0
    }
}

pub open spec fn sat_add(x: int, b: bool) -> int {
    if b {
        sat1(x)
    } else {
        x
    }
}

/// One occurrence of `w` at `o` of `l`, counted.
pub open spec fn tally(st: StatV, l: Seq<char>, w: Seq<char>, o: int) -> StatV {
    let p = prev_at(l, o);
    let n = next_at(l, w, o);
    (
        sat1(st.0),
        note(st.1, p),
        note(st.2, n),
        st.3,
        sat_add(st.4, !cjk(p)),
        sat_add(st.5, !cjk(n)),
        sat_add(st.6, object_cue(p)),
    )
}

/// The occurrences of `w` starting among the first `n` positions of `l`.
pub open spec fn tally_line(st: StatV, l: Seq<char>, w: Seq<char>, n: int) -> StatV
    decreases n,
{
    if n <= 0 {
        st
    } else {
        let s = tally_line(st, l, w, n - 1);
        if sub_at(l, w, n - 1) {
            tally(s, l, w, n - 1)
        } else {
            s
        }
    }
}

/// The occurrences of `w` in the first `p` paragraphs.
pub open spec fn tally_upto(st: StatV, ls: Seq<Seq<char>>, w: Seq<char>, p: int) -> StatV
    decreases p,
{
    if p <= 0 {
        st
    } else {
        tally_line(tally_upto(st, ls, w, p - 1), ls[p - 1], w, ls[p - 1].len() as int)
    }
}

/// The statistics of candidate `w` over the paragraphs.
pub open spec fn stat_spec(ls: Seq<Seq<char>>, w: Seq<char>) -> StatV {
    tally_upto(
        (0, Seq::empty(), Seq::empty(), anchors_upto(ls, w, ls.len() as int), 0, 0, 0),
        ls,
        w,
        ls.len() as int,
    )
}

fn note_exec(s: &Vec<char>, c: char) -> (r: Vec<char>)
    ensures
        r@ == note(s@, c),
{
    let mut r = slice_vec(s.as_slice(), 0, s.len());
    assert(r@ =~= s@);
    if s.len() < 4 && !has_char(s.as_slice(), c) {
        r.push(c);
    }
    r
}

fn inc(x: u32, b: bool) -> (r: u32)
    ensures
        r == sat_add(x as int, b),
{
    if b && x < 0xffff_ffff {
        x + 1
    } else {
        x
    }
}

fn tally_exec(st: &Stat, l: &Vec<char>, wlen: usize, o: usize) -> (r: Stat)
    requires
        o + wlen <= l@.len(),
    ensures
        forall|w: Seq<char>| w.len() == wlen ==> r@ == tally(st@, l@, w, o as int),
{
    let p = if o == 0 { '\n' } else { l[o - 1] };
    let n = if wlen < l.len() - o { l[o + wlen] } else { '\n' };
    Stat {
        count: inc(st.count, true),
        left: note_exec(&st.left, p),
        right: note_exec(&st.right, n),
        anchored: st.anchored,
        boundary: inc(st.boundary, !is_cjk(p)),
        boundary_r: inc(st.boundary_r, !is_cjk(n)),
        object: inc(st.object, is_object_cue(p)),
    }
}

/// The first index whose key is at least `x`.
fn lower_bound(keys: &Vec<u128>, x: u128) -> (r: usize)
    requires
        forall|a: int, b: int| 0 <= a < b < keys@.len() ==> keys@[a] < keys@[b],
    ensures
        r <= keys@.len(),
        forall|a: int| 0 <= a < r ==> keys@[a] < x,
        forall|a: int| r <= a < keys@.len() ==> keys@[a] >= x,
{
    let mut lo: usize = 0;
    let mut hi: usize = keys.len();
    while lo < hi
        invariant
            forall|a: int, b: int| 0 <= a < b < keys@.len() ==> keys@[a] < keys@[b],
            lo <= hi <= keys@.len(),
            forall|a: int| 0 <= a < lo ==> keys@[a] < x,
            forall|a: int| hi <= a < keys@.len() ==> keys@[a] >= x,
        decreases hi - lo,
    {
        let mid = lo + (hi - lo) / 2;
        if keys[mid] < x {
            lo = mid + 1;
        } else {
            hi = mid;
        }
    }
    lo
}

/// A candidate table: names ascending by key, each a filtered seed.
pub open spec fn table_ok(ls: Seq<Seq<char>>, names: Seq<Vec<char>>, keys: Seq<u128>) -> bool {
    &&& names.len() == keys.len()
    &&& forall|a: int, b: int| 0 <= a < b < keys.len() ==> keys[a] < keys[b]
    &&& forall|t: int|
        0 <= t < names.len() ==> {
            &&& keys[t] == key_of(#[trigger] names[t]@)
            &&& name_shape(names[t]@)
            &&& seed_ok(names[t]@)
            &&& seeded(ls, names[t]@)
        }
}

/// Count every candidate's occurrences in line `l`, paragraph `p`.
#[verifier::rlimit(40)]
fn count_line(stats: &mut Vec<Stat>, names: &Vec<Vec<char>>, keys: &Vec<u128>, l: &Vec<char>, Ghost(ls): Ghost<Seq<Seq<char>>>, Ghost(base): Ghost<Seq<StatV>>)
    requires
        table_ok(ls, names@, keys@),
        old(stats)@.len() == names@.len(),
        base.len() == names@.len(),
        forall|t: int| 0 <= t < names@.len() ==> #[trigger] old(stats)@[t]@ == base[t],
    ensures
        final(stats)@.len() == names@.len(),
        forall|t: int| 0 <= t < names@.len() ==> #[trigger] final(stats)@[t]@ == tally_line(
            base[t],
            l@,
            names@[t]@,
            l@.len() as int,
        ),
{
    let n = l.len();
    let mut o: usize = 0;
    while o < n
        invariant
            n == l@.len(),
            o <= n,
            table_ok(ls, names@, keys@),
            stats@.len() == names@.len(),
            base.len() == names@.len(),
            forall|t: int| 0 <= t < names@.len() ==> #[trigger] stats@[t]@ == tally_line(
                base[t],
                l@,
                names@[t]@,
                o as int,
            ),
        decreases n - o,
    {
        let c = l[o];
        proof {
            lemma_char_small(c);
        }
        let ck: u128 = (c as u32) as u128 * K0;
        let lo = lower_bound(keys, ck);
        let hi = lower_bound(keys, ck + K0);
        let mut q = lo;
        while q < hi
            invariant
                n == l@.len(),
                o < n,
                c == l@[o as int],
                ck == (c as int) * 0x8000_0000_0000_0000,
                lo <= q <= hi || (q == lo && hi < lo),
                hi <= keys@.len(),
                forall|a: int| lo <= a < hi ==> keys@[a] >= ck && keys@[a] < ck + K0,
                table_ok(ls, names@, keys@),
                stats@.len() == names@.len(),
                base.len() == names@.len(),
                forall|t: int| 0 <= t < names@.len() ==> #[trigger] stats@[t]@ == tally_line(
                    base[t],
                    l@,
                    names@[t]@,
                    if lo <= t < q { o + 1 } else { o as int },
                ),
            decreases hi - q,
        {
            let w = &names[q];
            if matches_at(l.as_slice(), w.as_slice(), o) {
                let st = tally_exec(&stats[q], l, w.len(), o);
                stats.set(q, st);
            }
            q += 1;
        }
        assert forall|t: int| 0 <= t < names@.len() && !(lo <= t < hi) implies !sub_at(l@, names@[t]@, o as int) by {
            let w = names@[t]@;
            lemma_key_bounds(w);
            if sub_at(l@, w, o as int) {
                assert(w[0] == l@.subrange(o as int, o + w.len())[0]);
                assert(w[0] == c);
                if t < lo {
                    assert(keys@[t] < ck);
                } else {
                    assert(keys@[t] >= ck + K0);
                }
            }
        }
        o += 1;
    }
}

/// Candidate names with their statistics: every seed that survives the
/// filter, once, ascending by key.
pub fn candidates(ps: &Vec<(usize, Vec<char>)>) -> (r: (Vec<Vec<char>>, Vec<u128>, Vec<Stat>))
    ensures
        table_ok(line_views(ps@), r.0@, r.1@),
        r.2@.len() == r.0@.len(),
        forall|t: int| 0 <= t < r.0@.len() ==> #[trigger] r.2@[t]@ == stat_spec(line_views(ps@), r.0@[t]@),
        forall|w: Seq<char>| seeded(line_views(ps@), w) && seed_ok(w) ==> exists|t: int| 0 <= t < r.0@.len() && #[trigger] r.0@[t]@ == w,
{
    let ghost ls = line_views(ps@);
    let h = harvest(ps);
    let (names, keys, anch) = distinct_names(&h, Ghost(ls));
    let mut stats: Vec<Stat> = Vec::new();
    let mut t: usize = 0;
    while t < names.len()
        invariant
            t <= names@.len(),
            names@.len() == anch@.len(),
            stats@.len() == t,
            forall|u: int| 0 <= u < t ==> #[trigger] stats@[u]@ == (0int, Seq::<char>::empty(), Seq::<char>::empty(), anch@[u] as int, 0int, 0int, 0int),
        decreases names.len() - t,
    {
        stats.push(Stat { count: 0, left: Vec::new(), right: Vec::new(), anchored: anch[t], boundary: 0, boundary_r: 0, object: 0 });
        t += 1;
    }
    let ghost init = Seq::new(names@.len(), |u: int| (0int, Seq::<char>::empty(), Seq::<char>::empty(), anch@[u] as int, 0int, 0int, 0int));
    let mut p: usize = 0;
    while p < ps.len()
        invariant
            ls == line_views(ps@),
            p <= ps@.len(),
            table_ok(ls, names@, keys@),
            stats@.len() == names@.len(),
            init.len() == names@.len(),
            forall|u: int| 0 <= u < names@.len() ==> #[trigger] stats@[u]@ == tally_upto(init[u], ls, names@[u]@, p as int),
        decreases ps.len() - p,
    {
        let ghost base = Seq::new(names@.len(), |u: int| tally_upto(init[u], ls, names@[u]@, p as int));
        assert(ls[p as int] == ps@[p as int].1@);
        count_line(&mut stats, &names, &keys, &ps[p].1, Ghost(ls), Ghost(base));
        p += 1;
    }
    (names, keys, stats)
}

} // verus!
