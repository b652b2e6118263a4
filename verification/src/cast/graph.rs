//! Who stands with whom: the members found in each paragraph (longest name
//! first), the chapters each appears in, the sentences each pair shares,
//! and the evidence kept for people and pairs.
use vstd::prelude::*;
use crate::cast::bind::{bound_anywhere, bound_somewhere, name_views};
use crate::cast::census::{para_views, ParaV};
use crate::cast::seeds::sat1;
use crate::cast::select::{Member, MemberV, member_views, MAX_CAST};
use crate::cast::words::{appellations, appellations_exec, background_cues, background_cues_exec, relation_cues, relation_cues_exec};
use crate::cast::{Edge, Person};
use crate::relation::{from_hints, voting_total, word_label_index, word_label_spec, decides, labels};
use crate::text::{contains, contains_any, from_chars, lex_less, lex_lt, matches_at, occurs, occurs_any, slice_vec, sub_at, to_chars, trim, trim_range};

verus! {

/// A person or a pair keeps at most this many evidence sentences.
pub const MAX_EVIDENCE: usize = 70;

/// A pair needs this much weight to become an edge.
pub const MIN_EDGE: u32 = 3;

/// The graph keeps at most this many edges.
pub const MAX_EDGES: usize = 80;

/// A sentence longer than 110 characters is cut there and marked with an
/// ellipsis.
pub open spec fn clip_spec(s: Seq<char>) -> Seq<char> {
    if s.len() > 110 {
        s.take(110).push('…')
    } else {
        s
    }
}

pub fn clip110(s: &[char]) -> (r: Vec<char>)
    ensures
        r@ == clip_spec(s@),
{
    let n = if s.len() > 110 { 110 } else { s.len() };
    let mut r: Vec<char> = Vec::new();
    let mut i: usize = 0;
    while i < n
        invariant
            n <= s@.len(),
            i <= n,
            r@ == s@.take(i as int),
        decreases n - i,
    {
        r.push(s[i]);
        i += 1;
        assert(r@ =~= s@.take(i as int));
    }
    if s.len() > 110 {
        r.push('…');
    } else {
        assert(s@.take(n as int) =~= s@);
    }
    r
}

/// A cheap integer scramble (the SplitMix64 finaliser): a deterministic
/// stand-in for a random draw, so a rescan keeps the same evidence.
pub open spec fn scramble_spec(x: u64) -> u64 {
    let a = (x ^ (x >> 30u64)).wrapping_mul(0xbf58476d1ce4e5b9u64);
    let b = (a ^ (a >> 27u64)).wrapping_mul(0x94d049bb133111ebu64);
    b ^ (b >> 31u64)
}

pub fn scramble(x: u64) -> (r: u64)
    ensures
        r == scramble_spec(x),
{
    let a = (x ^ (x >> 30u64)).wrapping_mul(0xbf58476d1ce4e5b9u64);
    let b = (a ^ (a >> 27u64)).wrapping_mul(0x94d049bb133111ebu64);
    b ^ (b >> 31u64)
}

fn same(a: &Vec<char>, b: &Vec<char>) -> (r: bool)
    ensures
        r == (a@ == b@),
{
    if a.len() != b.len() {
        return false;
    }
    let r = matches_at(a.as_slice(), b.as_slice(), 0);
    proof {
        if r {
            assert(a@.subrange(0, b@.len() as int) == b@);
            assert(a@ =~= b@);
        } else {
            if a@ == b@ {
                assert(a@.subrange(0, b@.len() as int) =~= b@);
            }
        }
    }
    r
}

/// A sample of at most `MAX_EVIDENCE` distinct sentences, drawn uniformly
/// by reservoir sampling; `seen` counts the distinct sentences offered.
pub struct Reservoir {
    pub items: Vec<(usize, Vec<char>)>,
    pub seen: u32,
}

pub open spec fn item_texts(items: Seq<(usize, Vec<char>)>) -> Seq<Seq<char>> {
    items.map_values(|p: (usize, Vec<char>)| p.1@)
}

/// The sample's shape: at most `MAX_EVIDENCE` items, each text distinct.
pub open spec fn reservoir_ok(r: Reservoir) -> bool {
    &&& r.items@.len() <= MAX_EVIDENCE
    &&& forall|a: int, b: int| 0 <= a < b < r.items@.len() ==> r.items@[a].1@ != r.items@[b].1@
}

/// The sample as plain values: (chapter, text) items.
pub open spec fn item_views(items: Seq<(usize, Vec<char>)>) -> Seq<(usize, Seq<char>)> {
    items.map_values(|p: (usize, Vec<char>)| (p.0, p.1@))
}

/// The slot a new sentence may take once the sample is full: a scramble of
/// the count of sentences offered before it, reduced below that count plus
/// one (reservoir sampling).
pub open spec fn slot_of(seen: u32) -> int {
    (scramble_spec(seen as u64) % (seen as u64 + 1) as u64) as int
}

/// What offering sentence `sent` of chapter `ci` (clipped) makes of the
/// sample: a sentence already held changes nothing; otherwise the count of
/// distinct sentences offered goes up by one (up to the `u32` limit), and
/// the sentence is added while there is room, or else takes slot
/// `slot_of(seen)` when that slot exists, every other item staying.
pub open spec fn pushed(before: Reservoir, after: Reservoir, ci: usize, sent: Seq<char>) -> bool {
    let t = clip_spec(sent);
    let bv = item_views(before.items@);
    let av = item_views(after.items@);
    &&& reservoir_ok(after)
    &&& if item_texts(before.items@).contains(t) {
        after == before
    } else {
        &&& after.seen == (if before.seen < 0xffff_ffff { (before.seen + 1) as u32 } else { before.seen })
        &&& if bv.len() < MAX_EVIDENCE {
            av == bv.push((ci, t))
        } else if slot_of(before.seen) < MAX_EVIDENCE {
            av == bv.update(slot_of(before.seen), (ci, t))
        } else {
            av == bv
        }
    }
}

impl Reservoir {
    pub fn new() -> (r: Reservoir)
        ensures
            reservoir_ok(r),
            r.items@.len() == 0,
            r.seen == 0,
    {
        Reservoir { items: Vec::new(), seen: 0 }
    }

    /// Offer sentence `sent` of chapter `ci`. A sentence already held is
    /// ignored; while there is room it is kept; after that it replaces the
    /// slot a scramble of the running count picks, when that slot exists.
    pub fn push(&mut self, ci: usize, sent: &[char])
        requires
            reservoir_ok(*old(self)),
        ensures
            pushed(*old(self), *final(self), ci, sent@),
    {
        let t = clip110(sent);
        let ghost texts = item_texts(self.items@);
        let mut k: usize = 0;
        while k < self.items.len()
            invariant
                *self == *old(self),
                reservoir_ok(*self),
                t@ == clip_spec(sent@),
                k <= self.items@.len(),
                texts == item_texts(self.items@),
                forall|j: int| 0 <= j < k ==> self.items@[j].1@ != t@,
            decreases self.items.len() - k,
        {
            if same(&self.items[k].1, &t) {
                assert(texts[k as int] == t@);
                assert(texts.contains(t@));
                return;
            }
            k += 1;
        }
        assert(!texts.contains(t@)) by {
            if texts.contains(t@) {
                let j = choose|j: int| 0 <= j < texts.len() && texts[j] == t@;
                assert(self.items@[j].1@ == t@);
            }
        }
        let j = self.seen;
        if self.seen < 0xffff_ffff {
            self.seen = self.seen + 1;
        }
        if self.items.len() < MAX_EVIDENCE {
            let ghost pre = self.items@;
            self.items.push((ci, t));
            assert(item_views(self.items@) =~= item_views(pre).push((ci, clip_spec(sent@))));
            assert(item_texts(self.items@) =~= item_texts(pre).push(clip_spec(sent@)));
            assert(item_texts(self.items@)[self.items@.len() - 1] == clip_spec(sent@));
            assert forall|a: int, b: int| 0 <= a < b < self.items@.len() implies self.items@[a].1@ != self.items@[b].1@ by {
                if b == self.items@.len() - 1 {
                    assert(texts[a] == pre[a].1@);
                } else {
                    assert(pre[a] == self.items@[a] && pre[b] == self.items@[b]);
                }
            }
            return;
        }
        let r = (scramble(j as u64) % (j as u64 + 1)) as usize;
        assert(r as int == slot_of(j));
        if r < MAX_EVIDENCE {
            let ghost pre = self.items@;
            self.items.set(r, (ci, t));
            assert(item_views(self.items@) =~= item_views(pre).update(r as int, (ci, clip_spec(sent@))));
            assert(item_texts(self.items@)[r as int] == clip_spec(sent@));
            assert(item_texts(self.items@).contains(clip_spec(sent@)));
            assert forall|a: int, b: int| 0 <= a < b < self.items@.len() implies self.items@[a].1@ != self.items@[b].1@ by {
                if a == r {
                    assert(pre[b].1@ == self.items@[b].1@);
                    assert(texts[b] == pre[b].1@);
                } else if b == r {
                    assert(pre[a].1@ == self.items@[a].1@);
                    assert(texts[a] == pre[a].1@);
                } else {
                    assert(pre[a] == self.items@[a] && pre[b] == self.items@[b]);
                }
            }
        }
    }
}

/// Sorted by chapter, ascending.
pub open spec fn by_chapter(items: Seq<(usize, Vec<char>)>) -> bool {
    forall|a: int, b: int| 0 <= a <= b < items.len() ==> items[a].0 <= items[b].0
}

/// `x` placed after the last item of a chapter no later than its own.
pub open spec fn ins_chapter(s: Seq<(usize, Seq<char>)>, x: (usize, Seq<char>)) -> Seq<(usize, Seq<char>)>
    decreases s.len(),
{
    if s.len() == 0 || s.last().0 <= x.0 {
        s.push(x)
    } else {
        ins_chapter(s.drop_last(), x).push(s.last())
    }
}

/// The items ordered by chapter, equal chapters in their order.
pub open spec fn sort_chapter(s: Seq<(usize, Seq<char>)>) -> Seq<(usize, Seq<char>)>
    decreases s.len(),
{
    if s.len() == 0 {
        Seq::empty()
    } else {
        ins_chapter(sort_chapter(s.drop_last()), s.last())
    }
}

/// The evidence of two samples: the strong items, topped up with the first
/// weak ones up to `MAX_EVIDENCE`, ordered by chapter.
pub open spec fn evidence_spec(strong: Seq<(usize, Seq<char>)>, weak: Seq<(usize, Seq<char>)>) -> Seq<(usize, Seq<char>)> {
    let room = MAX_EVIDENCE - strong.len();
    let take = if weak.len() < room { weak.len() as int } else { room };
    sort_chapter(strong + weak.take(take))
}

proof fn lemma_ins_chapter(s: Seq<(usize, Seq<char>)>, x: (usize, Seq<char>), p: int)
    requires
        0 <= p <= s.len(),
        forall|q: int| p <= q < s.len() ==> (#[trigger] s[q]).0 > x.0,
        p == 0 || s[p - 1].0 <= x.0,
    ensures
        ins_chapter(s, x) == s.insert(p, x),
    decreases s.len(),
{
    if p == s.len() {
        assert(s.insert(p, x) =~= s.push(x));
    } else {
        let d = s.drop_last();
        lemma_ins_chapter(d, x, p);
        assert(s.insert(p, x) =~= d.insert(p, x).push(s.last()));
    }
}

/// The strong items, topped up with weak ones up to `MAX_EVIDENCE`, then
/// ordered by chapter (stable: equal chapters keep their order).
pub fn evidence_of(strong: Reservoir, weak: Reservoir) -> (r: Vec<(usize, Vec<char>)>)
    requires
        reservoir_ok(strong),
        reservoir_ok(weak),
    ensures
        r@.len() == strong.items@.len() + (if strong.items@.len() + weak.items@.len() <= MAX_EVIDENCE {
            weak.items@.len() as int
        } else {
            MAX_EVIDENCE - strong.items@.len()
        }),
        r@.len() <= MAX_EVIDENCE,
        by_chapter(r@),
        item_views(r@) == evidence_spec(item_views(strong.items@), item_views(weak.items@)),
{
    let ghost sv = item_views(strong.items@);
    let ghost wv = item_views(weak.items@);
    let mut all = strong.items;
    let room = MAX_EVIDENCE - all.len();
    let w = weak.items;
    let take = if w.len() < room { w.len() } else { room };
    let mut i: usize = 0;
    let ghost base = all@.len();
    assert(item_views(all@) =~= sv + wv.take(0));
    while i < take
        invariant
            take <= w@.len(),
            i <= take,
            all@.len() == base + i,
            wv == item_views(w@),
            item_views(all@) == sv + wv.take(i as int),
        decreases take - i,
    {
        let ghost pre = all@;
        all.push((w[i].0, copy_vec(&w[i].1)));
        assert(item_views(all@) =~= item_views(pre).push(wv[i as int]));
        assert(sv + wv.take(i + 1) =~= (sv + wv.take(i as int)).push(wv[i as int]));
        i += 1;
    }
    let ghost av = item_views(all@);
    assert(av == sv + wv.take(take as int));
    // stable insertion by chapter
    let mut out: Vec<(usize, Vec<char>)> = Vec::new();
    let n = all.len();
    let mut k: usize = 0;
    while k < n
        invariant
            n == all@.len(),
            k <= n,
            out@.len() == k,
            by_chapter(out@),
            av == item_views(all@),
            item_views(out@) == sort_chapter(av.take(k as int)),
        decreases n - k,
    {
        let ci = all[k].0;
        let mut p: usize = out.len();
        while p > 0 && out[p - 1].0 > ci
            invariant
                p <= out@.len(),
                by_chapter(out@),
                forall|j: int| p <= j < out@.len() ==> out@[j].0 > ci,
            decreases p,
        {
            p -= 1;
        }
        let ghost pre = out@;
        proof {
            lemma_ins_chapter(item_views(pre), av[k as int], p as int);
            assert(av.take(k + 1).drop_last() =~= av.take(k as int));
        }
        out.insert(p, (ci, copy_vec(&all[k].1)));
        assert(item_views(out@) =~= item_views(pre).insert(p as int, av[k as int]));
        assert forall|a: int, b: int| 0 <= a <= b < out@.len() implies out@[a].0 <= out@[b].0 by {
            if a < p && b == p {
                assert(pre[p - 1].0 <= ci);
                assert(pre[a].0 <= pre[p - 1].0);
            } else if a < p && b > p {
                assert(out@[b] == pre[b - 1]);
            } else if a == p && b > p {
                assert(out@[b] == pre[b - 1]);
            } else if a > p {
                assert(out@[a] == pre[a - 1] && out@[b] == pre[b - 1]);
            }
        }
        k += 1;
    }
    assert(av.take(n as int) =~= av);
    out
}

pub fn copy_vec(v: &Vec<char>) -> (r: Vec<char>)
    ensures
        r@ == v@,
{
    let mut r: Vec<char> = Vec::new();
    let mut i: usize = 0;
    while i < v.len()
        invariant
            i <= v@.len(),
            r@ == v@.take(i as int),
        decreases v.len() - i,
    {
        r.push(v[i]);
        i += 1;
        assert(r@ =~= v@.take(i as int));
    }
    assert(v@.take(v@.len() as int) =~= v@);
    r
}

/// A name pattern: the characters and the member they name.
pub type PatV = (Seq<char>, int);

/// The names and aliases of the members, each tagged with its member.
pub open spec fn pats_of(ms: Seq<MemberV>, k: int) -> Seq<PatV>
    decreases k,
{
    if k <= 0 {
        Seq::empty()
    } else {
        pats_of(ms, k - 1).push((ms[k - 1].0, k - 1)) + ms[k - 1].2.map_values(|a: Seq<char>| (a, k - 1))
    }
}

/// The longest pattern among the first `k` matching at `o` (the first
/// such on a tie): its length and member.
pub open spec fn longest_at(pats: Seq<PatV>, l: Seq<char>, o: int, k: int) -> Option<(int, int)>
    decreases k,
{
    if k <= 0 {
        None
    } else {
        let r = longest_at(pats, l, o, k - 1);
        let (w, pid) = pats[k - 1];
        let longer = match r {
            None => true,
            Some(h) => w.len() > h.0,
        };
        if w.len() > 0 && sub_at(l, w, o) && longer {
            Some((w.len() as int, pid))
        } else {
            r
        }
    }
}

/// Scanning the first `n` positions of `l`: where the last kept name ends,
/// and the kept hits (start, end, member). At each position past the last
/// kept name, the longest name there is kept; overlaps are dropped, so 李青
/// inside 李青山 does not put the wrong person in the scene.
pub open spec fn kept_upto(pats: Seq<PatV>, l: Seq<char>, n: int) -> (int, Seq<(int, int, int)>)
    decreases n,
{
    if n <= 0 {
        (0, Seq::empty())
    } else {
        let (end, ks) = kept_upto(pats, l, n - 1);
        let o = n - 1;
        match longest_at(pats, l, o, pats.len() as int) {
            Some(h) => if o >= end {
                (o + h.0, ks.push((o, o + h.0, h.1)))
            } else {
                (end, ks)
            },
            None => (end, ks),
        }
    }
}

pub open spec fn kept(pats: Seq<PatV>, l: Seq<char>) -> Seq<(int, int, int)> {
    kept_upto(pats, l, l.len() as int).1
}

pub open spec fn holds(ks: Seq<(int, int, int)>, pid: int) -> bool {
    exists|i: int| 0 <= i < ks.len() && #[trigger] ks[i].2 == pid
}

/// Over the first `p` paragraphs: the chapter member `pid` was last seen
/// in, how many chapter visits it made, and the chapter it first appeared
/// in.
pub open spec fn presence(pats: Seq<PatV>, ps: Seq<ParaV>, pid: int, p: int) -> (Option<int>, int, Option<int>)
    decreases p,
{
    if p <= 0 {
        (None, 0, None)
    } else {
        let st = presence(pats, ps, pid, p - 1);
        let ci = ps[p - 1].0;
        if holds(kept(pats, ps[p - 1].1), pid) && st.0 != Some(ci) {
            (Some(ci), sat1(st.1), if st.2 is None { Some(ci) } else { st.2 })
        } else {
            st
        }
    }
}

pub open spec fn pat_views(pats: Seq<(Vec<char>, usize)>) -> Seq<PatV> {
    pats.map_values(|p: (Vec<char>, usize)| (p.0@, p.1 as int))
}

fn build_pats(members: &Vec<Member>) -> (r: Vec<(Vec<char>, usize)>)
    ensures
        pat_views(r@) == pats_of(member_views(members@), members@.len() as int),
        forall|i: int| 0 <= i < r@.len() ==> (#[trigger] r@[i]).1 < members@.len(),
{
    let ghost mv = member_views(members@);
    let mut out: Vec<(Vec<char>, usize)> = Vec::new();
    let mut k: usize = 0;
    while k < members.len()
        invariant
            mv == member_views(members@),
            k <= members@.len(),
            pat_views(out@) == pats_of(mv, k as int),
            forall|i: int| 0 <= i < out@.len() ==> (#[trigger] out@[i]).1 < k,
        decreases members.len() - k,
    {
        let m = &members[k];
        assert(mv[k as int] == m@);
        let ghost pre = out@;
        out.push((copy_vec(&m.name), k));
        assert(pat_views(out@) =~= pat_views(pre).push((m.name@, k as int)));
        let ghost mid = out@;
        let mut j: usize = 0;
        while j < m.aliases.len()
            invariant
                j <= m.aliases@.len(),
                pat_views(out@) == pat_views(mid) + name_views(m.aliases@).take(j as int).map_values(
                    |a: Seq<char>| (a, k as int),
                ),
                forall|i: int| 0 <= i < out@.len() ==> (#[trigger] out@[i]).1 < k + 1,
            decreases m.aliases.len() - j,
        {
            let ghost pre2 = out@;
            out.push((copy_vec(&m.aliases[j]), k));
            assert(name_views(m.aliases@).take(j + 1) =~= name_views(m.aliases@).take(j as int).push(
                m.aliases@[j as int]@,
            ));
            assert(pat_views(out@) =~= pat_views(pre2).push((m.aliases@[j as int]@, k as int)));
            assert(pat_views(out@) =~= pat_views(mid) + name_views(m.aliases@).take(j + 1).map_values(
                |a: Seq<char>| (a, k as int),
            ));
            j += 1;
        }
        assert(name_views(m.aliases@).take(m.aliases@.len() as int) =~= name_views(m.aliases@));
        assert(m@.2 == name_views(m.aliases@));
        k += 1;
    }
    out
}

pub open spec fn hit_views(ks: Seq<(usize, usize, usize)>) -> Seq<(int, int, int)> {
    ks.map_values(|h: (usize, usize, usize)| (h.0 as int, h.1 as int, h.2 as int))
}

fn longest_exec(pats: &Vec<(Vec<char>, usize)>, l: &Vec<char>, o: usize) -> (r: Option<(usize, usize)>)
    ensures
        match r {
            Some(h) => longest_at(pat_views(pats@), l@, o as int, pats@.len() as int) == Some((h.0 as int, h.1 as int)),
            None => longest_at(pat_views(pats@), l@, o as int, pats@.len() as int) is None,
        },
{
    let ghost pv = pat_views(pats@);
    let mut best: Option<(usize, usize)> = None;
    let mut k: usize = 0;
    while k < pats.len()
        invariant
            pv == pat_views(pats@),
            k <= pats@.len(),
            match best {
                Some(h) => longest_at(pv, l@, o as int, k as int) == Some((h.0 as int, h.1 as int)),
                None => longest_at(pv, l@, o as int, k as int) is None,
            },
        decreases pats.len() - k,
    {
        let w = &pats[k].0;
        assert(pv[k as int] == (w@, pats@[k as int].1 as int));
        if w.len() > 0 && matches_at(l.as_slice(), w.as_slice(), o) {
            let better = match best {
                None => true,
                Some(h) => w.len() > h.0,
            };
            if better {
                best = Some((w.len(), pats[k].1));
            }
        }
        k += 1;
    }
    best
}

/// The kept name hits of line `l`.
fn kept_hits(pats: &Vec<(Vec<char>, usize)>, l: &Vec<char>) -> (r: Vec<(usize, usize, usize)>)
    ensures
        hit_views(r@) == kept(pat_views(pats@), l@),
        forall|i: int| 0 <= i < r@.len() ==> (#[trigger] r@[i]).0 < l@.len(),
{
    let ghost pv = pat_views(pats@);
    let n = l.len();
    let mut out: Vec<(usize, usize, usize)> = Vec::new();
    let mut end: usize = 0;
    let mut o: usize = 0;
    while o < n
        invariant
            pv == pat_views(pats@),
            n == l@.len(),
            o <= n,
            kept_upto(pv, l@, o as int) == (end as int, hit_views(out@)),
            end <= n,
            forall|i: int| 0 <= i < out@.len() ==> (#[trigger] out@[i]).0 < o,
        decreases n - o,
    {
        match longest_exec(pats, l, o) {
            Some(h) => {
                if o >= end {
                    proof {
                        let w = longest_at(pv, l@, o as int, pv.len() as int);
                        lemma_longest_fits(pv, l@, o as int, pv.len() as int);
                    }
                    let ghost pre = out@;
                    end = o + h.0;
                    out.push((o, end, h.1));
                    assert(hit_views(out@) =~= hit_views(pre).push((o as int, end as int, h.1 as int)));
                }
            },
            None => {},
        }
        o += 1;
    }
    out
}

proof fn lemma_longest_fits(pats: Seq<PatV>, l: Seq<char>, o: int, k: int)
    ensures
        longest_at(pats, l, o, k) matches Some(h) ==> o + h.0 <= l.len() && h.0 > 0,
    decreases k,
{
    if k > 0 {
        lemma_longest_fits(pats, l, o, k - 1);
    }
}

/// A sentence ends after 。！？；.
pub open spec fn stop(c: char) -> bool {
    c == '。' || c == '！' || c == '？' || c == '；'
}

/// 0 and every position after a stop among the first `i` characters.
pub open spec fn bounds_upto(l: Seq<char>, i: int) -> Seq<int>
    decreases i,
{
    if i <= 0 {
        seq![0]
    } else if stop(l[i - 1]) {
        bounds_upto(l, i - 1).push(i)
    } else {
        bounds_upto(l, i - 1)
    }
}

/// Sentence boundaries of `l`: 0, every position after a stop, and the end.
pub open spec fn bounds_spec(l: Seq<char>) -> Seq<int> {
    let b = bounds_upto(l, l.len() as int);
    if b.last() < l.len() {
        b.push(l.len() as int)
    } else {
        b
    }
}

pub open spec fn int_views(v: Seq<usize>) -> Seq<int> {
    v.map_values(|x: usize| x as int)
}

/// Sentence boundaries of `l`: 0, every position after a stop, and the end.
fn sentence_bounds(l: &Vec<char>) -> (r: Vec<usize>)
    ensures
        int_views(r@) == bounds_spec(l@),
        r@.len() >= 2 || (r@.len() == 1 && l@.len() == 0),
        r@[0] == 0,
        r@.last() == l@.len(),
        forall|a: int, b: int| 0 <= a < b < r@.len() ==> r@[a] < r@[b],
{
    let mut r: Vec<usize> = Vec::new();
    r.push(0);
    let mut i: usize = 0;
    while i < l.len()
        invariant
            i <= l@.len(),
            r@.len() >= 1,
            r@[0] == 0,
            r@.last() <= i,
            forall|a: int, b: int| 0 <= a < b < r@.len() ==> r@[a] < r@[b],
            int_views(r@) == bounds_upto(l@, i as int),
        decreases l.len() - i,
    {
        let c = l[i];
        let ghost pre = r@;
        if c == '。' || c == '！' || c == '？' || c == '；' {
            r.push(i + 1);
            assert(int_views(r@) =~= int_views(pre).push(i + 1));
        }
        i += 1;
    }
    let ghost pre = r@;
    if r[r.len() - 1] < l.len() {
        r.push(l.len());
        assert(int_views(r@) =~= int_views(pre).push(l@.len() as int));
    }
    r
}

/// Everything collected while walking the paragraphs.
pub struct Acc {
    pub last: Vec<Option<usize>>,
    pub chapters: Vec<u32>,
    pub first: Vec<Option<usize>>,
    pub solo_strong: Vec<Reservoir>,
    pub solo_weak: Vec<Reservoir>,
    pub weight: Vec<u32>,
    pub hints: Vec<u32>,
    pub pair_strong: Vec<Reservoir>,
    pub pair_weak: Vec<Reservoir>,
}

pub open spec fn acc_ok(acc: Acc, n: int, na: int) -> bool {
    &&& acc.last@.len() == n
    &&& acc.chapters@.len() == n
    &&& acc.first@.len() == n
    &&& acc.solo_strong@.len() == n
    &&& acc.solo_weak@.len() == n
    &&& acc.weight@.len() == n * n
    &&& acc.hints@.len() == n * n * na
    &&& acc.pair_strong@.len() == n * n
    &&& acc.pair_weak@.len() == n * n
    &&& forall|i: int| 0 <= i < n ==> reservoir_ok(#[trigger] acc.solo_strong@[i])
    &&& forall|i: int| 0 <= i < n ==> reservoir_ok(#[trigger] acc.solo_weak@[i])
    &&& forall|i: int| 0 <= i < n * n ==> reservoir_ok(#[trigger] acc.pair_strong@[i])
    &&& forall|i: int| 0 <= i < n * n ==> reservoir_ok(#[trigger] acc.pair_weak@[i])
}

pub open spec fn opt_view(o: Option<usize>) -> Option<int> {
    match o {
        Some(x) => Some(x as int),
        None => None,
    }
}

/// The presence of every member is right after the first `p` paragraphs.
pub open spec fn presence_ok(acc: Acc, pv: Seq<PatV>, ps: Seq<ParaV>, n: int, p: int) -> bool {
    forall|pid: int|
        0 <= pid < n ==> {
            let st = #[trigger] presence(pv, ps, pid, p);
            &&& opt_view(acc.last@[pid]) == st.0
            &&& acc.chapters@[pid] == st.1
            &&& opt_view(acc.first@[pid]) == st.2
        }
}

fn mul_bound(x: usize, y: usize, n: usize)
    requires
        x < n,
        y < n,
        n <= MAX_CAST,
    ensures
        x * n + y < n * n,
        x * n <= n * n,
        n * n <= 1600,
{
    assert(x * n + y < n * n && x * n <= n * n) by (nonlinear_arith)
        requires
            x < n,
            y < n,
    ;
    assert(n * n <= 1600) by (nonlinear_arith)
        requires
            n <= 40,
    ;
}

fn offer(rs: &mut Vec<Reservoir>, i: usize, ci: usize, sent: &[char])
    requires
        i < old(rs)@.len(),
        forall|j: int| 0 <= j < old(rs)@.len() ==> reservoir_ok(#[trigger] old(rs)@[j]),
    ensures
        final(rs)@.len() == old(rs)@.len(),
        forall|j: int| 0 <= j < final(rs)@.len() ==> reservoir_ok(#[trigger] final(rs)@[j]),
        forall|j: int| 0 <= j < final(rs)@.len() && j != i ==> #[trigger] final(rs)@[j] == old(rs)@[j],
        pushed(old(rs)@[i as int], final(rs)@[i as int], ci, sent@),
{
    let ghost orig = rs@;
    let mut r = Reservoir::new();
    rs.set_and_swap(i, &mut r);
    assert(r == orig[i as int]);
    r.push(ci, sent);
    rs.set_and_swap(i, &mut r);
}

/// The names of a pair, as the binding test wants them: both full names
/// and their aliases.
fn pair_names(members: &Vec<Member>, a: usize, b: usize) -> (r: Vec<Vec<char>>)
    requires
        a < members@.len(),
        b < members@.len(),
    ensures
        name_views(r@) == seq![members@[a as int].name@] + name_views(members@[a as int].aliases@)
            + seq![members@[b as int].name@] + name_views(members@[b as int].aliases@),
{
    let mut out: Vec<Vec<char>> = Vec::new();
    let ma = &members[a];
    let mb = &members[b];
    out.push(copy_vec(&ma.name));
    assert(name_views(out@) =~= seq![ma.name@] + name_views(ma.aliases@).take(0));
    let mut j: usize = 0;
    while j < ma.aliases.len()
        invariant
            j <= ma.aliases@.len(),
            name_views(out@) == seq![ma.name@] + name_views(ma.aliases@).take(j as int),
        decreases ma.aliases@.len() - j,
    {
        let ghost pre = out@;
        out.push(copy_vec(&ma.aliases[j]));
        assert(name_views(out@) =~= name_views(pre).push(ma.aliases@[j as int]@));
        assert(name_views(ma.aliases@).take(j + 1) =~= name_views(ma.aliases@).take(j as int).push(ma.aliases@[j as int]@));
        j += 1;
    }
    assert(name_views(ma.aliases@).take(ma.aliases@.len() as int) =~= name_views(ma.aliases@));
    let ghost mid = name_views(out@);
    let ghost pre = out@;
    out.push(copy_vec(&mb.name));
    assert(name_views(out@) =~= mid + seq![mb.name@] + name_views(mb.aliases@).take(0));
    let mut j: usize = 0;
    while j < mb.aliases.len()
        invariant
            j <= mb.aliases@.len(),
            name_views(out@) == mid + seq![mb.name@] + name_views(mb.aliases@).take(j as int),
        decreases mb.aliases@.len() - j,
    {
        let ghost pre = out@;
        out.push(copy_vec(&mb.aliases[j]));
        assert(name_views(out@) =~= name_views(pre).push(mb.aliases@[j as int]@));
        assert(name_views(mb.aliases@).take(j + 1) =~= name_views(mb.aliases@).take(j as int).push(mb.aliases@[j as int]@));
        j += 1;
    }
    assert(name_views(mb.aliases@).take(mb.aliases@.len() as int) =~= name_views(mb.aliases@));
    out
}

/// Member `pid` has a kept hit starting in `s0..s1`.
pub open spec fn in_sent(ks: Seq<(int, int, int)>, s0: int, s1: int, pid: int) -> bool {
    exists|k: int| 0 <= k < ks.len() && s0 <= (#[trigger] ks[k]).0 < s1 && ks[k].2 == pid
}

/// The members below `k` with a kept hit starting in `s0..s1`, ascending.
pub open spec fn in_list(ks: Seq<(int, int, int)>, s0: int, s1: int, k: int) -> Seq<usize>
    decreases k,
{
    if k <= 0 {
        Seq::empty()
    } else if in_sent(ks, s0, s1, k - 1) {
        in_list(ks, s0, s1, k - 1).push((k - 1) as usize)
    } else {
        in_list(ks, s0, s1, k - 1)
    }
}

/// The members with a kept hit starting in `s0..s1`, ascending, each once.
fn members_in(ks: &Vec<(usize, usize, usize)>, s0: usize, s1: usize, n: usize) -> (r: Vec<usize>)
    requires
        forall|i: int| 0 <= i < ks@.len() ==> (#[trigger] ks@[i]).2 < n,
    ensures
        forall|i: int| 0 <= i < r@.len() ==> (#[trigger] r@[i]) < n,
        forall|a: int, b: int| 0 <= a < b < r@.len() ==> r@[a] < r@[b],
        forall|pid: usize| r@.contains(pid) <==> exists|k: int| 0 <= k < ks@.len() && s0 <= (#[trigger] ks@[k]).0 < s1 && ks@[k].2 == pid,
        r@ == in_list(hit_views(ks@), s0 as int, s1 as int, n as int),
{
    let mut flag: Vec<bool> = Vec::new();
    let mut i: usize = 0;
    while i < n
        invariant
            i <= n,
            flag@.len() == i,
            forall|j: int| 0 <= j < i ==> !flag@[j],
        decreases n - i,
    {
        flag.push(false);
        i += 1;
    }
    let mut k: usize = 0;
    while k < ks.len()
        invariant
            flag@.len() == n,
            k <= ks@.len(),
            forall|i: int| 0 <= i < ks@.len() ==> (#[trigger] ks@[i]).2 < n,
            forall|pid: int| 0 <= pid < n ==> (#[trigger] flag@[pid] <==> exists|j: int| 0 <= j < k && s0 <= (#[trigger] ks@[j]).0 < s1 && ks@[j].2 == pid),
        decreases ks.len() - k,
    {
        let h = ks[k];
        if h.0 >= s0 && h.0 < s1 {
            flag.set(h.2, true);
        }
        k += 1;
    }
    assert forall|q: int| 0 <= q < n implies (flag@[q] <==> in_sent(hit_views(ks@), s0 as int, s1 as int, q)) by {
        if flag@[q] {
            let j = choose|j: int| 0 <= j < ks@.len() && s0 <= (#[trigger] ks@[j]).0 < s1 && ks@[j].2 == q;
            assert(hit_views(ks@)[j] == (ks@[j].0 as int, ks@[j].1 as int, ks@[j].2 as int));
        }
        if in_sent(hit_views(ks@), s0 as int, s1 as int, q) {
            let j = choose|j: int| 0 <= j < hit_views(ks@).len() && s0 <= (#[trigger] hit_views(ks@)[j]).0 < s1 && hit_views(ks@)[j].2 == q;
            assert(hit_views(ks@)[j] == (ks@[j].0 as int, ks@[j].1 as int, ks@[j].2 as int));
        }
    }
    let mut out: Vec<usize> = Vec::new();
    let mut pid: usize = 0;
    while pid < n
        invariant
            flag@.len() == n,
            pid <= n,
            forall|i: int| 0 <= i < out@.len() ==> (#[trigger] out@[i]) < pid,
            forall|a: int, b: int| 0 <= a < b < out@.len() ==> out@[a] < out@[b],
            forall|q: usize| out@.contains(q) <==> q < pid && flag@[q as int],
            forall|q: int| 0 <= q < n ==> (flag@[q] <==> in_sent(hit_views(ks@), s0 as int, s1 as int, q)),
            out@ == in_list(hit_views(ks@), s0 as int, s1 as int, pid as int),
        decreases n - pid,
    {
        let ghost pre = out@;
        if flag[pid] {
            out.push(pid);
        }
        assert(flag@[pid as int] == in_sent(hit_views(ks@), s0 as int, s1 as int, pid as int));
        assert forall|q: usize| out@.contains(q) <==> q < pid + 1 && flag@[q as int] by {
            if out@.contains(q) && q != pid {
                let x = choose|x: int| 0 <= x < out@.len() && out@[x] == q;
                assert(pre[x] == q);
            }
            if q < pid && flag@[q as int] {
                assert(pre.contains(q));
                let x = choose|x: int| 0 <= x < pre.len() && pre[x] == q;
                assert(out@[x] == q);
            }
            if q == pid && flag@[q as int] {
                assert(out@[out@.len() - 1] == q);
            }
        }
        pid += 1;
    }
    assert forall|q: usize| out@.contains(q) implies q < n by {
        let x = choose|x: int| 0 <= x < out@.len() && out@[x] == q;
    }
    out
}

pub open spec fn sat_one(x: u32) -> u32 {
    if x < 0xffff_ffff { (x + 1) as u32 } else { x }
}

pub open spec fn sat_two(x: u32) -> u32 {
    if x < 0xffff_fffd { (x + 2) as u32 } else { 0xffff_ffff }
}

/// The first of the pair an index `i` of an `n` by `n` table stands for.
pub open spec fn row(i: int, n: int) -> int {
    i / n
}

/// The second of the pair an index `i` of an `n` by `n` table stands for.
pub open spec fn col(i: int, n: int) -> int {
    i % n
}

/// Members `a < b` are both in the sentence.
pub open spec fn pair_in(ks: Seq<(int, int, int)>, s0: int, s1: int, a: int, b: int) -> bool {
    0 <= a < b && in_sent(ks, s0, s1, a) && in_sent(ks, s0, s1, b)
}

/// Both full names of a pair and their aliases.
pub open spec fn names_of_pair(ms: Seq<MemberV>, a: int, b: int) -> Seq<Seq<char>> {
    seq![ms[a].0] + ms[a].2 + seq![ms[b].0] + ms[b].2
}

/// Appellation `w` occurs in the sentence and binds the pair there.
pub open spec fn binds(sent: Seq<char>, app: Seq<Seq<char>>, ms: Seq<MemberV>, a: int, b: int, w: int, crowd: int) -> bool {
    occurs(sent, app[w]) && bound_somewhere(sent, app[w], names_of_pair(ms, a, b), crowd)
}

/// Some appellation binds the pair in the sentence.
pub open spec fn hinted_pair(sent: Seq<char>, app: Seq<Seq<char>>, ms: Seq<MemberV>, a: int, b: int, crowd: int) -> bool {
    exists|w: int| 0 <= w < app.len() && binds(sent, app, ms, a, b, w, crowd)
}

/// A sample that was offered the sentence, or is as it was.
pub open spec fn offered(before: Reservoir, after: Reservoir, yes: bool, ci: usize, sent: Seq<char>) -> bool {
    if yes {
        pushed(before, after, ci, sent)
    } else {
        after == before
    }
}

/// What one sentence does to the accumulator: each member in it offers
/// it to its strong sample when it tells of the background, else to its
/// weak one; each pair in it gains two of weight, one vote for each
/// appellation that binds it there, and offers it to its strong sample
/// when bound or cued, else to its weak one.
pub open spec fn visit_ok(
    a0: Acc,
    a1: Acc,
    ms: Seq<MemberV>,
    ks: Seq<(int, int, int)>,
    sent: Seq<char>,
    s0: int,
    s1: int,
    ci: usize,
    app: Seq<Seq<char>>,
    tells: bool,
    cue: bool,
) -> bool {
    let n = ms.len() as int;
    let na = app.len() as int;
    let crowd = in_list(ks, s0, s1, n).len() as int;
    &&& forall|p: int| 0 <= p < n ==> offered(a0.solo_strong@[p], #[trigger] a1.solo_strong@[p], in_sent(ks, s0, s1, p) && tells, ci, sent)
    &&& forall|p: int| 0 <= p < n ==> offered(a0.solo_weak@[p], #[trigger] a1.solo_weak@[p], in_sent(ks, s0, s1, p) && !tells, ci, sent)
    &&& forall|i: int| 0 <= i < n * n ==> #[trigger] a1.weight@[i] == (if pair_in(ks, s0, s1, row(i, n), col(i, n)) { sat_two(a0.weight@[i]) } else { a0.weight@[i] })
    &&& forall|h: int|
        0 <= h < n * n * na ==> #[trigger] a1.hints@[h] == (if pair_in(ks, s0, s1, row(row(h, na), n), col(row(h, na), n)) && binds(sent, app, ms, row(row(h, na), n), col(row(h, na), n), col(h, na), crowd) {
            sat_one(a0.hints@[h])
        } else {
            a0.hints@[h]
        })
    &&& forall|i: int|
        0 <= i < n * n ==> offered(a0.pair_strong@[i], #[trigger] a1.pair_strong@[i], pair_in(ks, s0, s1, row(i, n), col(i, n)) && (hinted_pair(sent, app, ms, row(i, n), col(i, n), crowd) || cue), ci, sent)
    &&& forall|i: int|
        0 <= i < n * n ==> offered(a0.pair_weak@[i], #[trigger] a1.pair_weak@[i], pair_in(ks, s0, s1, row(i, n), col(i, n)) && !(hinted_pair(sent, app, ms, row(i, n), col(i, n), crowd) || cue), ci, sent)
}

/// The pair weights after one sentence: two more for each pair in it.
pub open spec fn sent_weights(ws: Seq<u32>, ks: Seq<(int, int, int)>, s0: int, s1: int, n: int) -> Seq<u32> {
    Seq::new(ws.len(), |i: int| if pair_in(ks, s0, s1, row(i, n), col(i, n)) { sat_two(ws[i]) } else { ws[i] })
}

/// The appellation votes after one sentence: one more for each appellation
/// that binds a pair in it.
pub open spec fn sent_hints(
    hs: Seq<u32>,
    ks: Seq<(int, int, int)>,
    s0: int,
    s1: int,
    n: int,
    na: int,
    sent: Seq<char>,
    app: Seq<Seq<char>>,
    ms: Seq<MemberV>,
) -> Seq<u32> {
    let crowd = in_list(ks, s0, s1, n).len() as int;
    Seq::new(
        hs.len(),
        |h: int|
            if pair_in(ks, s0, s1, row(row(h, na), n), col(row(h, na), n)) && binds(sent, app, ms, row(row(h, na), n), col(row(h, na), n), col(h, na), crowd) {
                sat_one(hs[h])
            } else {
                hs[h]
            },
    )
}

/// Weights and votes after the first `k` sentences of `l`, cut at `bs`.
pub open spec fn sents_acc(
    ws: Seq<u32>,
    hs: Seq<u32>,
    ks: Seq<(int, int, int)>,
    l: Seq<char>,
    bs: Seq<int>,
    n: int,
    na: int,
    app: Seq<Seq<char>>,
    ms: Seq<MemberV>,
    k: int,
) -> (Seq<u32>, Seq<u32>)
    decreases k,
{
    if k <= 0 {
        (ws, hs)
    } else {
        let prev = sents_acc(ws, hs, ks, l, bs, n, na, app, ms, k - 1);
        (
            sent_weights(prev.0, ks, bs[k - 1], bs[k], n),
            sent_hints(prev.1, ks, bs[k - 1], bs[k], n, na, trim(l.subrange(bs[k - 1], bs[k])), app, ms),
        )
    }
}

/// The weights after sharing a paragraph: one more for each pair in it.
pub open spec fn once_weights(ws: Seq<u32>, ks: Seq<(int, int, int)>, n: int) -> Seq<u32> {
    Seq::new(
        ws.len(),
        |i: int| if 0 <= row(i, n) < col(i, n) && holds(ks, row(i, n)) && holds(ks, col(i, n)) { sat_one(ws[i]) } else { ws[i] },
    )
}

/// Weights and votes after one paragraph.
pub open spec fn para_acc(ws: Seq<u32>, hs: Seq<u32>, pv: Seq<PatV>, l: Seq<char>, n: int, na: int, app: Seq<Seq<char>>, ms: Seq<MemberV>) -> (Seq<u32>, Seq<u32>) {
    let ks = kept(pv, l);
    if ks.len() == 0 {
        (ws, hs)
    } else {
        let bs = bounds_spec(l);
        let s = sents_acc(ws, hs, ks, l, bs, n, na, app, ms, bs.len() - 1);
        (once_weights(s.0, ks, n), s.1)
    }
}

/// Weights and votes after the first `p` paragraphs, from nothing.
pub open spec fn acc_upto(pv: Seq<PatV>, ps: Seq<ParaV>, n: int, na: int, app: Seq<Seq<char>>, ms: Seq<MemberV>, p: int) -> (Seq<u32>, Seq<u32>)
    decreases p,
{
    if p <= 0 {
        (Seq::new((n * n) as nat, |i: int| 0u32), Seq::new((n * n * na) as nat, |i: int| 0u32))
    } else {
        let prev = acc_upto(pv, ps, n, na, app, ms, p - 1);
        para_acc(prev.0, prev.1, pv, ps[p - 1].1, n, na, app, ms)
    }
}

proof fn lemma_sent_step(
    a0: Acc,
    a1: Acc,
    ms: Seq<MemberV>,
    ks: Seq<(int, int, int)>,
    sent: Seq<char>,
    s0: int,
    s1: int,
    ci: usize,
    app: Seq<Seq<char>>,
    tells: bool,
    cue: bool,
)
    requires
        visit_ok(a0, a1, ms, ks, sent, s0, s1, ci, app, tells, cue),
        acc_ok(a0, ms.len() as int, app.len() as int),
        acc_ok(a1, ms.len() as int, app.len() as int),
    ensures
        a1.weight@ == sent_weights(a0.weight@, ks, s0, s1, ms.len() as int),
        a1.hints@ == sent_hints(a0.hints@, ks, s0, s1, ms.len() as int, app.len() as int, sent, app, ms),
{
    assert(a1.weight@ =~= sent_weights(a0.weight@, ks, s0, s1, ms.len() as int));
    assert(a1.hints@ =~= sent_hints(a0.hints@, ks, s0, s1, ms.len() as int, app.len() as int, sent, app, ms));
}

/// A sample as plain values: its (chapter, text) items and its count.
pub type ResV = (Seq<(usize, Seq<char>)>, u32);

pub open spec fn res_view(r: Reservoir) -> ResV {
    (item_views(r.items@), r.seen)
}

pub open spec fn res_views(rs: Seq<Reservoir>) -> Seq<ResV> {
    rs.map_values(|r: Reservoir| res_view(r))
}

/// The sample after offering it sentence `sent` of chapter `ci`.
pub open spec fn push_v(rv: ResV, ci: usize, sent: Seq<char>) -> ResV {
    let t = clip_spec(sent);
    let bv = rv.0;
    if bv.map_values(|p: (usize, Seq<char>)| p.1).contains(t) {
        rv
    } else {
        let seen = if rv.1 < 0xffff_ffff { (rv.1 + 1) as u32 } else { rv.1 };
        let items = if bv.len() < MAX_EVIDENCE {
            bv.push((ci, t))
        } else if slot_of(rv.1) < MAX_EVIDENCE {
            bv.update(slot_of(rv.1), (ci, t))
        } else {
            bv
        };
        (items, seen)
    }
}

proof fn lemma_pushed_view(b: Reservoir, a: Reservoir, ci: usize, sent: Seq<char>)
    requires
        pushed(b, a, ci, sent),
    ensures
        res_view(a) == push_v(res_view(b), ci, sent),
{
    assert(item_views(b.items@).map_values(|p: (usize, Seq<char>)| p.1) =~= item_texts(b.items@));
}

/// The four kinds of sample as plain values: per member strong and weak,
/// per pair strong and weak.
pub type SamplesV = (Seq<ResV>, Seq<ResV>, Seq<ResV>, Seq<ResV>);

/// The samples after one sentence: each member in it offers it to its strong
/// sample when it tells of the background, else to its weak one; each pair
/// in it to its strong sample when bound or cued, else to its weak one.
pub open spec fn sent_samples(
    sv: SamplesV,
    ks: Seq<(int, int, int)>,
    s0: int,
    s1: int,
    n: int,
    ci: usize,
    sent: Seq<char>,
    app: Seq<Seq<char>>,
    ms: Seq<MemberV>,
) -> SamplesV {
    let tells = occurs_any(sent, background_cues());
    let cue = occurs_any(sent, relation_cues());
    let crowd = in_list(ks, s0, s1, n).len() as int;
    (
        Seq::new(sv.0.len(), |p: int| if in_sent(ks, s0, s1, p) && tells { push_v(sv.0[p], ci, sent) } else { sv.0[p] }),
        Seq::new(sv.1.len(), |p: int| if in_sent(ks, s0, s1, p) && !tells { push_v(sv.1[p], ci, sent) } else { sv.1[p] }),
        Seq::new(
            sv.2.len(),
            |i: int|
                if pair_in(ks, s0, s1, row(i, n), col(i, n)) && (hinted_pair(sent, app, ms, row(i, n), col(i, n), crowd) || cue) {
                    push_v(sv.2[i], ci, sent)
                } else {
                    sv.2[i]
                },
        ),
        Seq::new(
            sv.3.len(),
            |i: int|
                if pair_in(ks, s0, s1, row(i, n), col(i, n)) && !(hinted_pair(sent, app, ms, row(i, n), col(i, n), crowd) || cue) {
                    push_v(sv.3[i], ci, sent)
                } else {
                    sv.3[i]
                },
        ),
    )
}

/// The samples after the first `k` sentences of `l`, cut at `bs`.
pub open spec fn sents_samples(
    sv: SamplesV,
    ks: Seq<(int, int, int)>,
    l: Seq<char>,
    bs: Seq<int>,
    n: int,
    ci: usize,
    app: Seq<Seq<char>>,
    ms: Seq<MemberV>,
    k: int,
) -> SamplesV
    decreases k,
{
    if k <= 0 {
        sv
    } else {
        sent_samples(sents_samples(sv, ks, l, bs, n, ci, app, ms, k - 1), ks, bs[k - 1], bs[k], n, ci, trim(l.subrange(bs[k - 1], bs[k])), app, ms)
    }
}

/// The samples after one paragraph of chapter `ci`.
pub open spec fn para_samples(sv: SamplesV, pv: Seq<PatV>, l: Seq<char>, ci: usize, n: int, app: Seq<Seq<char>>, ms: Seq<MemberV>) -> SamplesV {
    let ks = kept(pv, l);
    if ks.len() == 0 {
        sv
    } else {
        let bs = bounds_spec(l);
        sents_samples(sv, ks, l, bs, n, ci, app, ms, bs.len() - 1)
    }
}

/// The samples after the first `p` paragraphs, from empty ones.
pub open spec fn samples_upto(pv: Seq<PatV>, ps: Seq<ParaV>, n: int, app: Seq<Seq<char>>, ms: Seq<MemberV>, p: int) -> SamplesV
    decreases p,
{
    if p <= 0 {
        let e: ResV = (Seq::empty(), 0u32);
        (Seq::new(n as nat, |i: int| e), Seq::new(n as nat, |i: int| e), Seq::new((n * n) as nat, |i: int| e), Seq::new((n * n) as nat, |i: int| e))
    } else {
        para_samples(samples_upto(pv, ps, n, app, ms, p - 1), pv, ps[p - 1].1, ps[p - 1].0 as usize, n, app, ms)
    }
}

/// The final samples of a graph.
pub open spec fn graph_samples(ps: Seq<ParaV>, ms: Seq<MemberV>) -> SamplesV {
    samples_upto(pats_of(ms, ms.len() as int), ps, ms.len() as int, app_views(), ms, ps.len() as int)
}

pub open spec fn acc_samples(acc: Acc) -> SamplesV {
    (res_views(acc.solo_strong@), res_views(acc.solo_weak@), res_views(acc.pair_strong@), res_views(acc.pair_weak@))
}

proof fn lemma_sent_samples(
    a0: Acc,
    a1: Acc,
    ms: Seq<MemberV>,
    ks: Seq<(int, int, int)>,
    sent: Seq<char>,
    s0: int,
    s1: int,
    ci: usize,
    app: Seq<Seq<char>>,
)
    requires
        visit_ok(a0, a1, ms, ks, sent, s0, s1, ci, app, occurs_any(sent, background_cues()), occurs_any(sent, relation_cues())),
        acc_ok(a0, ms.len() as int, app.len() as int),
        acc_ok(a1, ms.len() as int, app.len() as int),
    ensures
        acc_samples(a1) == sent_samples(acc_samples(a0), ks, s0, s1, ms.len() as int, ci, sent, app, ms),
{
    let n = ms.len() as int;
    let want = sent_samples(acc_samples(a0), ks, s0, s1, n, ci, sent, app, ms);
    let got = acc_samples(a1);
    assert forall|p: int| 0 <= p < n implies #[trigger] got.0[p] == want.0[p] && got.1[p] == want.1[p] by {
        if in_sent(ks, s0, s1, p) && occurs_any(sent, background_cues()) {
            lemma_pushed_view(a0.solo_strong@[p], a1.solo_strong@[p], ci, sent);
        } else if in_sent(ks, s0, s1, p) {
            lemma_pushed_view(a0.solo_weak@[p], a1.solo_weak@[p], ci, sent);
        }
    }
    assert forall|i: int| 0 <= i < n * n implies #[trigger] got.2[i] == want.2[i] && got.3[i] == want.3[i] by {
        let crowd = in_list(ks, s0, s1, n).len() as int;
        let yes = pair_in(ks, s0, s1, row(i, n), col(i, n));
        let strong = hinted_pair(sent, app, ms, row(i, n), col(i, n), crowd) || occurs_any(sent, relation_cues());
        if yes && strong {
            lemma_pushed_view(a0.pair_strong@[i], a1.pair_strong@[i], ci, sent);
        } else if yes {
            lemma_pushed_view(a0.pair_weak@[i], a1.pair_weak@[i], ci, sent);
        }
    }
    assert forall|p: int| 0 <= p < n implies #[trigger] got.1[p] == want.1[p] by {
        assert(got.0[p] == want.0[p]);
    }
    assert forall|i: int| 0 <= i < n * n implies #[trigger] got.3[i] == want.3[i] by {
        assert(got.2[i] == want.2[i]);
    }
    assert(got.0 =~= want.0);
    assert(got.1 =~= want.1);
    assert(got.2 =~= want.2);
    assert(got.3 =~= want.3);
}

/// The weights with the pairs of the paragraph counted once, for pairs up
/// to (x, y) in order.
pub open spec fn once_partial(ws: Seq<u32>, ks: Seq<(int, int, int)>, n: int, x: int, y: int) -> Seq<u32> {
    Seq::new(
        ws.len(),
        |i: int|
            if 0 <= row(i, n) < col(i, n) && holds(ks, row(i, n)) && holds(ks, col(i, n)) && (row(i, n) < x || (row(i, n) == x && col(i, n) < y)) {
                sat_one(ws[i])
            } else {
                ws[i]
            },
    )
}

proof fn lemma_row_col_range(i: int, n: int)
    requires
        n > 0,
        0 <= i < n * n,
    ensures
        0 <= row(i, n) < n,
        0 <= col(i, n) < n,
{
    vstd::arithmetic::div_mod::lemma_fundamental_div_mod(i, n);
    if i / n >= n {
        assert(i >= n * n) by (nonlinear_arith)
            requires
                i == n * (i / n) + i % n,
                i % n >= 0,
                i / n >= n,
                n > 0,
        ;
    }
    if i / n < 0 {
        assert(i < 0) by (nonlinear_arith)
            requires
                i == n * (i / n) + i % n,
                i % n < n,
                i / n < 0,
                n > 0,
        ;
    }
}

/// The appellation words as characters.
pub open spec fn app_views() -> Seq<Seq<char>> {
    appellations().map_values(|s: &'static str| s@)
}

/// The final pair weights and appellation votes of a graph.
pub open spec fn graph_acc(ps: Seq<ParaV>, ms: Seq<MemberV>) -> (Seq<u32>, Seq<u32>) {
    acc_upto(pats_of(ms, ms.len() as int), ps, ms.len() as int, 96, app_views(), ms, ps.len() as int)
}

/// The pairs `a < b` among the first `k` table indices whose weight reaches
/// `MIN_EDGE`, in order, with their weight.
pub open spec fn pair_keys(ws: Seq<u32>, n: int, k: int) -> Seq<(usize, usize, u32)>
    decreases k,
{
    if k <= 0 {
        Seq::empty()
    } else {
        let i = k - 1;
        let prev = pair_keys(ws, n, k - 1);
        if row(i, n) < col(i, n) && ws[i] >= MIN_EDGE {
            prev.push((row(i, n) as usize, col(i, n) as usize, ws[i]))
        } else {
            prev
        }
    }
}

pub open spec fn edge_keys(es: Seq<Edge>) -> Seq<(usize, usize, u32)> {
    es.map_values(|e: Edge| (e.a, e.b, e.weight))
}

/// An edge's hints are exactly the nonzero appellation votes of its pair.
pub open spec fn hints_ok(e: Edge, hs: Seq<u32>, n: int) -> bool {
    let base = (e.a as int * n + e.b as int) * 96;
    exists|p: Seq<int>| picks(p, e.hints@, hs, base, app_views()) && forall|j: int| 0 <= j < 96 && hs[base + j] > 0 ==> p.contains(j)
}

/// The edges of a graph: the heaviest `MAX_EDGES` pairs whose weight
/// reaches `MIN_EDGE` (the rest are none of them heavier), each with its
/// pair's votes as hints.
pub open spec fn edges_ok(es: Seq<Edge>, ps: Seq<ParaV>, ms: Seq<MemberV>) -> bool {
    let n = ms.len() as int;
    let acc = graph_acc(ps, ms);
    let k = pair_keys(acc.0, n, n * n).len() as int;
    &&& es.len() == (if k < MAX_EDGES { k } else { MAX_EDGES as int })
    &&& exists|rest: Seq<Edge>|
        edge_keys(es + rest).to_multiset() == pair_keys(acc.0, n, n * n).to_multiset() && forall|x: int, e: int|
            0 <= x < rest.len() && 0 <= e < es.len() ==> !edge_before(#[trigger] rest[x], #[trigger] es[e])
    &&& forall|i: int| 0 <= i < es.len() ==> hints_ok(#[trigger] es[i], acc.1, n)
    &&& forall|i: int|
        0 <= i < es.len() ==> ev_strs((#[trigger] es[i]).evidence@) == evidence_spec(
            graph_samples(ps, ms).2[es[i].a * n + es[i].b].0,
            graph_samples(ps, ms).3[es[i].a * n + es[i].b].0,
        )
}

proof fn lemma_keys_skip(ws: Seq<u32>, n: int, a: int, j: int)
    requires
        0 <= a < n,
        a * n <= j <= a * n + a + 1,
    ensures
        pair_keys(ws, n, j) == pair_keys(ws, n, a * n),
    decreases j - a * n,
{
    if j > a * n {
        lemma_keys_skip(ws, n, a, j - 1);
        lemma_index_split(j - 1, n, a, j - 1 - a * n);
    }
}

/// Some `pv[i] == a`, `pv[j] == b` with `i < j`, at (i, j) before (x, y).
pub open spec fn done_pair(pv: Seq<usize>, x: int, y: int, a: int, b: int) -> bool {
    exists|i: int, j: int| 0 <= i < j < pv.len() && pv[i] == a && pv[j] == b && (i < x || (i == x && j < y))
}

/// Some of the first `k` of `pv` is `p`.
pub open spec fn seen_in(pv: Seq<usize>, k: int, p: int) -> bool {
    exists|j: int| 0 <= j < k && pv[j] == p
}

proof fn lemma_index_split(x: int, d: int, q: int, r: int)
    requires
        d > 0,
        0 <= r < d,
        x == q * d + r,
    ensures
        x / d == q,
        x % d == r,
{
    vstd::arithmetic::div_mod::lemma_fundamental_div_mod_converse(x, d, q, r);
}

proof fn lemma_index_join(i: int, d: int, q: int, r: int)
    requires
        d > 0,
        i / d == q,
        i % d == r,
    ensures
        i == q * d + r,
{
    vstd::arithmetic::div_mod::lemma_fundamental_div_mod(i, d);
    assert(d * q == q * d) by (nonlinear_arith);
}

/// One sentence: every member in it banks it, and every pair in it gains
/// weight, bound appellations and evidence.
#[verifier::loop_isolation(false)]
#[verifier::rlimit(100)]
#[verifier::spinoff_prover]
fn visit_sentence(
    acc: &mut Acc,
    members: &Vec<Member>,
    ks: &Vec<(usize, usize, usize)>,
    sent: &Vec<char>,
    s0: usize,
    s1: usize,
    ci: usize,
    app: &Vec<Vec<char>>,
    bg: &Vec<&'static str>,
    cues: &Vec<&'static str>,
)
    requires
        members@.len() <= MAX_CAST,
        acc_ok(*old(acc), members@.len() as int, app@.len() as int),
        forall|i: int| 0 <= i < ks@.len() ==> (#[trigger] ks@[i]).2 < members@.len(),
    ensures
        acc_ok(*final(acc), members@.len() as int, app@.len() as int),
        final(acc).last@ == old(acc).last@,
        final(acc).chapters@ == old(acc).chapters@,
        final(acc).first@ == old(acc).first@,
        visit_ok(*old(acc), *final(acc), member_views(members@), hit_views(ks@), sent@, s0 as int, s1 as int, ci, name_views(app@), occurs_any(sent@, bg@), occurs_any(sent@, cues@)),
{
    let ghost a0 = *acc;
    let n = members.len();
    let na = app.len();
    let pids = members_in(ks, s0, s1, n);
    let ghost pv = pids@;
    let ghost crowd_s = pv.len() as int;
    proof {
        assert forall|p: int| 0 <= p < n implies (pv.contains(p as usize) <==> in_sent(hit_views(ks@), s0 as int, s1 as int, p)) by {
            if pv.contains(p as usize) {
                let j = choose|j: int| 0 <= j < ks@.len() && s0 <= (#[trigger] ks@[j]).0 < s1 && ks@[j].2 == p as usize;
                assert(hit_views(ks@)[j] == (ks@[j].0 as int, ks@[j].1 as int, ks@[j].2 as int));
            }
            if in_sent(hit_views(ks@), s0 as int, s1 as int, p) {
                let j = choose|j: int| 0 <= j < hit_views(ks@).len() && s0 <= (#[trigger] hit_views(ks@)[j]).0 < s1 && hit_views(ks@)[j].2 == p;
                assert(hit_views(ks@)[j] == (ks@[j].0 as int, ks@[j].1 as int, ks@[j].2 as int));
            }
            assert(pv.contains(p as usize) <==> exists|k: int| 0 <= k < ks@.len() && s0 <= (#[trigger] ks@[k]).0 < s1 && ks@[k].2 == p as usize);
        }
        assert forall|j: int| 0 <= j < pv.len() implies in_sent(hit_views(ks@), s0 as int, s1 as int, pv[j] as int) by {
            assert(pv.contains(pv[j]));
        }
    }
    let tells = contains_any(sent.as_slice(), bg.as_slice());
    let mut k: usize = 0;
    while k < pids.len()
        invariant
            acc_ok(*acc, n as int, na as int),
            acc.last@ == old(acc).last@,
            acc.chapters@ == old(acc).chapters@,
            acc.first@ == old(acc).first@,
            acc.weight@ == a0.weight@,
            acc.hints@ == a0.hints@,
            acc.pair_strong@ == a0.pair_strong@,
            acc.pair_weak@ == a0.pair_weak@,
            k <= pv.len(),
            forall|p: int| 0 <= p < n ==> offered(a0.solo_strong@[p], #[trigger] acc.solo_strong@[p], seen_in(pv, k as int, p) && tells, ci, sent@),
            forall|p: int| 0 <= p < n ==> offered(a0.solo_weak@[p], #[trigger] acc.solo_weak@[p], seen_in(pv, k as int, p) && !tells, ci, sent@),
        decreases pids.len() - k,
    {
        let pid = pids[k];
        let ghost ss = acc.solo_strong@;
        let ghost sw = acc.solo_weak@;
        assert(!seen_in(pv, k as int, pid as int));
        if tells {
            offer(&mut acc.solo_strong, pid, ci, sent.as_slice());
        } else {
            offer(&mut acc.solo_weak, pid, ci, sent.as_slice());
        }
        assert forall|p: int| 0 <= p < n implies offered(a0.solo_strong@[p], #[trigger] acc.solo_strong@[p], seen_in(pv, k + 1, p) && tells, ci, sent@) by {
            if p != pid {
                assert(seen_in(pv, k + 1, p) == seen_in(pv, k as int, p));
            } else {
                assert(pv[k as int] == p);
            }
        }
        assert forall|p: int| 0 <= p < n implies offered(a0.solo_weak@[p], #[trigger] acc.solo_weak@[p], seen_in(pv, k + 1, p) && !tells, ci, sent@) by {
            if p != pid {
                assert(seen_in(pv, k + 1, p) == seen_in(pv, k as int, p));
            } else {
                assert(pv[k as int] == p);
            }
        }
        k += 1;
    }
    assert forall|p: int| 0 <= p < n implies seen_in(pv, pv.len() as int, p) == in_sent(hit_views(ks@), s0 as int, s1 as int, p) by {
        if in_sent(hit_views(ks@), s0 as int, s1 as int, p) {
            assert(pv.contains(p as usize));
        }
    }
    assert forall|a: int, b: int| pair_in(hit_views(ks@), s0 as int, s1 as int, a, b) && a < n && b < n implies done_pair(pv, pv.len() as int, (pv.len() + 1) as int, a, b) by {
        assert(pv.contains(a as usize));
        assert(pv.contains(b as usize));
        let i = choose|i: int| 0 <= i < pv.len() && pv[i] == a as usize;
        let j = choose|j: int| 0 <= j < pv.len() && pv[j] == b as usize;
        if j <= i {
            if j < i {
                assert(pv[j] < pv[i]);
            }
        }
    }
    if pids.len() < 2 {
        proof {
            assert forall|a: int, b: int| a < n && b < n implies !pair_in(hit_views(ks@), s0 as int, s1 as int, a, b) by {
                if pair_in(hit_views(ks@), s0 as int, s1 as int, a, b) {
                    assert(done_pair(pv, pv.len() as int, (pv.len() + 1) as int, a, b));
                }
            }
            assert forall|i: int| 0 <= i < n * n implies !pair_in(hit_views(ks@), s0 as int, s1 as int, #[trigger] row(i, n as int), col(i, n as int)) by {
                vstd::arithmetic::div_mod::lemma_fundamental_div_mod(i, n as int);
                if row(i, n as int) >= n {
                    assert(i >= n * n) by (nonlinear_arith)
                        requires
                            i == n * (row(i, n as int)) + col(i, n as int),
                            col(i, n as int) >= 0,
                            row(i, n as int) >= n,
                            n > 0,
                    ;
                }
            }
            assert forall|h: int| 0 <= h < n * n * na implies !pair_in(hit_views(ks@), s0 as int, s1 as int, row(#[trigger] row(h, na as int), n as int), col(row(h, na as int), n as int)) by {
                vstd::arithmetic::div_mod::lemma_fundamental_div_mod(h, na as int);
                assert(row(h, na as int) < n * n) by (nonlinear_arith)
                    requires
                        h == na * (row(h, na as int)) + col(h, na as int),
                        col(h, na as int) >= 0,
                        h < n * n * na,
                        na > 0,
                ;
            }
        }
        return;
    }
    let mut present: Vec<usize> = Vec::new();
    let mut w: usize = 0;
    while w < na
        invariant
            w <= na,
            forall|i: int| 0 <= i < present@.len() ==> (#[trigger] present@[i]) < w,
            forall|i: int, j: int| 0 <= i < j < present@.len() ==> present@[i] < present@[j],
            forall|v: int| 0 <= v < na ==> (present@.contains(v as usize) <==> (v < w && occurs(sent@, app@[v]@))),
        decreases na - w,
    {
        let ghost pre = present@;
        if contains(sent.as_slice(), app[w].as_slice()) {
            present.push(w);
        }
        assert forall|v: int| 0 <= v < na implies (present@.contains(v as usize) <==> (v < w + 1 && occurs(sent@, app@[v]@))) by {
            if present@.contains(v as usize) && v != w {
                let x = choose|x: int| 0 <= x < present@.len() && present@[x] == v as usize;
                assert(pre[x] == v);
            }
            if v < w && occurs(sent@, app@[v]@) {
                let x = choose|x: int| 0 <= x < pre.len() && pre[x] == v as usize;
                assert(present@[x] == v);
            }
            if v == w && occurs(sent@, app@[v]@) {
                assert(present@[present@.len() - 1] == v);
            }
        }
        w += 1;
    }
    let cue = contains_any(sent.as_slice(), cues.as_slice());
    let crowd = pids.len();
    proof {
        assert(in_list(hit_views(ks@), s0 as int, s1 as int, n as int).len() == crowd);
    }
    let mut x: usize = 0;
    while x < crowd
        invariant
            acc_ok(*acc, n as int, na as int),
            acc.last@ == old(acc).last@,
            acc.chapters@ == old(acc).chapters@,
            acc.first@ == old(acc).first@,
            x <= crowd,
            forall|p: int| 0 <= p < n ==> offered(a0.solo_strong@[p], #[trigger] acc.solo_strong@[p], in_sent(hit_views(ks@), s0 as int, s1 as int, p) && tells, ci, sent@),
            forall|p: int| 0 <= p < n ==> offered(a0.solo_weak@[p], #[trigger] acc.solo_weak@[p], in_sent(hit_views(ks@), s0 as int, s1 as int, p) && !tells, ci, sent@),
            forall|i: int| 0 <= i < n * n ==> #[trigger] acc.weight@[i] == (if done_pair(pv, x as int, x + 1, row(i, n as int), col(i, n as int)) { sat_two(a0.weight@[i]) } else { a0.weight@[i] }),
            forall|h: int|
                0 <= h < n * n * na ==> #[trigger] acc.hints@[h] == (if done_pair(pv, x as int, x + 1, row(row(h, na as int), n as int), col(row(h, na as int), n as int)) && binds(sent@, name_views(app@), member_views(members@), row(row(h, na as int), n as int), col(row(h, na as int), n as int), col(h, na as int), crowd as int) {
                    sat_one(a0.hints@[h])
                } else {
                    a0.hints@[h]
                }),
            forall|i: int|
                0 <= i < n * n ==> offered(a0.pair_strong@[i], #[trigger] acc.pair_strong@[i], done_pair(pv, x as int, x + 1, row(i, n as int), col(i, n as int)) && (hinted_pair(sent@, name_views(app@), member_views(members@), row(i, n as int), col(i, n as int), crowd as int) || cue), ci, sent@),
            forall|i: int|
                0 <= i < n * n ==> offered(a0.pair_weak@[i], #[trigger] acc.pair_weak@[i], done_pair(pv, x as int, x + 1, row(i, n as int), col(i, n as int)) && !(hinted_pair(sent@, name_views(app@), member_views(members@), row(i, n as int), col(i, n as int), crowd as int) || cue), ci, sent@),
        decreases crowd - x,
    {
        let mut y: usize = x + 1;
        while y < crowd
            invariant
                x < crowd,
                x + 1 <= y <= crowd,
                acc_ok(*acc, n as int, na as int),
                acc.last@ == old(acc).last@,
                acc.chapters@ == old(acc).chapters@,
                acc.first@ == old(acc).first@,
                forall|p: int| 0 <= p < n ==> offered(a0.solo_strong@[p], #[trigger] acc.solo_strong@[p], in_sent(hit_views(ks@), s0 as int, s1 as int, p) && tells, ci, sent@),
                forall|p: int| 0 <= p < n ==> offered(a0.solo_weak@[p], #[trigger] acc.solo_weak@[p], in_sent(hit_views(ks@), s0 as int, s1 as int, p) && !tells, ci, sent@),
                forall|i: int| 0 <= i < n * n ==> #[trigger] acc.weight@[i] == (if done_pair(pv, x as int, y as int, row(i, n as int), col(i, n as int)) { sat_two(a0.weight@[i]) } else { a0.weight@[i] }),
                forall|h: int|
                    0 <= h < n * n * na ==> #[trigger] acc.hints@[h] == (if done_pair(pv, x as int, y as int, row(row(h, na as int), n as int), col(row(h, na as int), n as int)) && binds(sent@, name_views(app@), member_views(members@), row(row(h, na as int), n as int), col(row(h, na as int), n as int), col(h, na as int), crowd as int) {
                        sat_one(a0.hints@[h])
                    } else {
                        a0.hints@[h]
                    }),
                forall|i: int|
                    0 <= i < n * n ==> offered(a0.pair_strong@[i], #[trigger] acc.pair_strong@[i], done_pair(pv, x as int, y as int, row(i, n as int), col(i, n as int)) && (hinted_pair(sent@, name_views(app@), member_views(members@), row(i, n as int), col(i, n as int), crowd as int) || cue), ci, sent@),
                forall|i: int|
                    0 <= i < n * n ==> offered(a0.pair_weak@[i], #[trigger] acc.pair_weak@[i], done_pair(pv, x as int, y as int, row(i, n as int), col(i, n as int)) && !(hinted_pair(sent@, name_views(app@), member_views(members@), row(i, n as int), col(i, n as int), crowd as int) || cue), ci, sent@),
            decreases crowd - y,
        {
            let pa = pids[x];
            let pb = pids[y];
            mul_bound(pa, pb, n);
            let idx = pa * n + pb;
            proof {
                lemma_index_split(idx as int, n as int, pa as int, pb as int);
                assert(!done_pair(pv, x as int, y as int, pa as int, pb as int)) by {
                    if done_pair(pv, x as int, y as int, pa as int, pb as int) {
                        let (i, j) = choose|i: int, j: int| 0 <= i < j < pv.len() && pv[i] == pa && pv[j] == pb && (i < x || (i == x && j < y));
                        if i < x {
                            assert(pv[i] < pv[x as int]);
                        } else {
                            assert(pv[j] < pv[y as int]);
                        }
                    }
                }
                assert forall|a: int, b: int| done_pair(pv, x as int, y + 1, a, b) <==> (done_pair(pv, x as int, y as int, a, b) || (a == pa && b == pb)) by {
                    if done_pair(pv, x as int, y + 1, a, b) && !(a == pa && b == pb) {
                        let (i, j) = choose|i: int, j: int| 0 <= i < j < pv.len() && pv[i] == a && pv[j] == b && (i < x || (i == x && j < y + 1));
                        if i == x && j == y {
                            assert(false);
                        }
                    }
                    if a == pa && b == pb {
                        assert(pv[x as int] == a && pv[y as int] == b);
                    }
                }
            }
            let ghost hints0 = acc.hints@;
            let ghost acc0 = *acc;
            let names = pair_names(members, pa, pb);
            let mut hinted = false;
            let mut q: usize = 0;
            while q < present.len()
                invariant
                    acc_ok(*acc, n as int, na as int),
                    acc.last@ == old(acc).last@,
                    acc.chapters@ == old(acc).chapters@,
                    acc.first@ == old(acc).first@,
                    idx < n * n,
                    idx == pa * n + pb,
                    q <= present@.len(),
                    acc.weight@ == acc0.weight@,
                    acc.solo_strong@ == acc0.solo_strong@,
                    acc.solo_weak@ == acc0.solo_weak@,
                    acc.pair_strong@ == acc0.pair_strong@,
                    acc.pair_weak@ == acc0.pair_weak@,
                    name_views(names@) == names_of_pair(member_views(members@), pa as int, pb as int),
                    hinted == exists|t: int| 0 <= t < q && binds(sent@, name_views(app@), member_views(members@), pa as int, pb as int, #[trigger] present@[t] as int, crowd as int),
                    forall|h: int|
                        0 <= h < n * n * na ==> #[trigger] acc.hints@[h] == (if row(h, na as int) == idx && seen_in(present@, q as int, col(h, na as int)) && binds(sent@, name_views(app@), member_views(members@), pa as int, pb as int, col(h, na as int), crowd as int) {
                            sat_one(hints0[h])
                        } else {
                            hints0[h]
                        }),
                decreases present.len() - q,
            {
                let wi = present[q];
                assert(present@.contains(wi));
                let hl = acc.hints.len();
                assert(idx * na + wi < n * n * na) by (nonlinear_arith)
                    requires
                        idx < n * n,
                        wi < na,
                ;
                let hi = idx * na + wi;
                proof {
                    lemma_index_split(hi as int, na as int, idx as int, wi as int);
                    assert(!seen_in(present@, q as int, wi as int)) by {
                        if seen_in(present@, q as int, wi as int) {
                            let t = choose|t: int| 0 <= t < q && present@[t] == wi;
                            assert(present@[t] < present@[q as int]);
                        }
                    }
                }
                let ghost hs = acc.hints@;
                let b = bound_anywhere(sent.as_slice(), app[wi].as_slice(), &names, crowd);
                assert(b == binds(sent@, name_views(app@), member_views(members@), pa as int, pb as int, wi as int, crowd as int));
                if b {
                    let c = acc.hints[hi];
                    if c < 0xffff_ffff {
                        acc.hints.set(hi, c + 1);
                    }
                    hinted = true;
                }
                proof {
                    assert forall|h: int|
                        0 <= h < n * n * na implies #[trigger] acc.hints@[h] == (if row(h, na as int) == idx && seen_in(present@, q + 1, col(h, na as int)) && binds(sent@, name_views(app@), member_views(members@), pa as int, pb as int, col(h, na as int), crowd as int) {
                            sat_one(hints0[h])
                        } else {
                            hints0[h]
                        }) by {
                        if h != hi {
                            if row(h, na as int) == idx && col(h, na as int) == wi {
                                lemma_index_join(h, na as int, idx as int, wi as int);
                            }
                            assert(seen_in(present@, q + 1, col(h, na as int)) == (seen_in(present@, q as int, col(h, na as int)) || col(h, na as int) == wi));
                        } else {
                            assert(present@[q as int] == wi);
                        }
                    }
                }
                q += 1;
            }
            proof {
                assert(hinted == hinted_pair(sent@, name_views(app@), member_views(members@), pa as int, pb as int, crowd as int)) by {
                    if hinted_pair(sent@, name_views(app@), member_views(members@), pa as int, pb as int, crowd as int) {
                        let v = choose|v: int| 0 <= v < app@.len() && binds(sent@, name_views(app@), member_views(members@), pa as int, pb as int, v, crowd as int);
                        assert(present@.contains(v as usize));
                        let t = choose|t: int| 0 <= t < present@.len() && present@[t] == v as usize;
                        assert(binds(sent@, name_views(app@), member_views(members@), pa as int, pb as int, present@[t] as int, crowd as int));
                    }
                    if hinted {
                        let t = choose|t: int| 0 <= t < q && binds(sent@, name_views(app@), member_views(members@), pa as int, pb as int, #[trigger] present@[t] as int, crowd as int);
                    }
                }
            }
            let wt = acc.weight[idx];
            acc.weight.set(idx, if wt < 0xffff_fffd { wt + 2 } else { 0xffff_ffff });
            let ghost ps0 = acc.pair_strong@;
            let ghost pw0 = acc.pair_weak@;
            if hinted || cue {
                offer(&mut acc.pair_strong, idx, ci, sent.as_slice());
            } else {
                offer(&mut acc.pair_weak, idx, ci, sent.as_slice());
            }
            proof {
                assert forall|i: int| 0 <= i < n * n && i != idx implies !(#[trigger] row(i, n as int) == pa && col(i, n as int) == pb) by {
                    if row(i, n as int) == pa && col(i, n as int) == pb {
                        lemma_index_join(i, n as int, pa as int, pb as int);
                    }
                }
                assert forall|i: int| 0 <= i < n * n implies #[trigger] acc.weight@[i] == (if done_pair(pv, x as int, y + 1, row(i, n as int), col(i, n as int)) { sat_two(a0.weight@[i]) } else { a0.weight@[i] }) by {}
                assert forall|i: int|
                    0 <= i < n * n implies offered(a0.pair_strong@[i], #[trigger] acc.pair_strong@[i], done_pair(pv, x as int, y + 1, row(i, n as int), col(i, n as int)) && (hinted_pair(sent@, name_views(app@), member_views(members@), row(i, n as int), col(i, n as int), crowd as int) || cue), ci, sent@) by {}
                assert forall|i: int|
                    0 <= i < n * n implies offered(a0.pair_weak@[i], #[trigger] acc.pair_weak@[i], done_pair(pv, x as int, y + 1, row(i, n as int), col(i, n as int)) && !(hinted_pair(sent@, name_views(app@), member_views(members@), row(i, n as int), col(i, n as int), crowd as int) || cue), ci, sent@) by {}
                assert forall|h: int|
                    0 <= h < n * n * na implies #[trigger] acc.hints@[h] == (if done_pair(pv, x as int, y + 1, row(row(h, na as int), n as int), col(row(h, na as int), n as int)) && binds(sent@, name_views(app@), member_views(members@), row(row(h, na as int), n as int), col(row(h, na as int), n as int), col(h, na as int), crowd as int) {
                        sat_one(a0.hints@[h])
                    } else {
                        a0.hints@[h]
                    }) by {
                    vstd::arithmetic::div_mod::lemma_fundamental_div_mod(h, na as int);
                    assert(row(h, na as int) < n * n) by (nonlinear_arith)
                        requires
                            h == na * (row(h, na as int)) + col(h, na as int),
                            col(h, na as int) >= 0,
                            h < n * n * na,
                            na > 0,
                    ;
                    if row(h, na as int) == idx {
                        if binds(sent@, name_views(app@), member_views(members@), pa as int, pb as int, col(h, na as int), crowd as int) {
                            assert(present@.contains((col(h, na as int)) as usize));
                        }
                    } else {
                        if row(row(h, na as int), n as int) == pa && col(row(h, na as int), n as int) == pb {
                            lemma_index_join(row(h, na as int), n as int, pa as int, pb as int);
                        }
                    }
                }
            }
            y += 1;
        }
        proof {
            assert forall|a: int, b: int| done_pair(pv, x as int, crowd as int, a, b) == done_pair(pv, x + 1, x + 2, a, b) by {
                if done_pair(pv, x + 1, x + 2, a, b) {
                    let (i, j) = choose|i: int, j: int| 0 <= i < j < pv.len() && pv[i] == a && pv[j] == b && (i < x + 1 || (i == x + 1 && j < x + 2));
                }
            }
        }
        x += 1;
    }
    proof {
        assert forall|a: int, b: int| 0 <= a < n && 0 <= b < n implies done_pair(pv, crowd as int, crowd + 1, a, b) == pair_in(hit_views(ks@), s0 as int, s1 as int, a, b) by {
            if done_pair(pv, crowd as int, crowd + 1, a, b) {
                let (i, j) = choose|i: int, j: int| 0 <= i < j < pv.len() && pv[i] == a && pv[j] == b && (i < crowd || (i == crowd && j < crowd + 1));
                assert(pv[i] < pv[j]);
            }
        }
        assert forall|i: int| 0 <= i < n * n implies 0 <= #[trigger] row(i, n as int) < n && 0 <= col(i, n as int) < n by {
            vstd::arithmetic::div_mod::lemma_fundamental_div_mod(i, n as int);
            if row(i, n as int) >= n {
                assert(i >= n * n) by (nonlinear_arith)
                    requires
                        i == n * (row(i, n as int)) + col(i, n as int),
                        col(i, n as int) >= 0,
                        row(i, n as int) >= n,
                        n > 0,
                ;
            }
        }
        assert forall|h: int| 0 <= h < n * n * na implies 0 <= #[trigger] row(h, na as int) < n * n by {
            vstd::arithmetic::div_mod::lemma_fundamental_div_mod(h, na as int);
            assert(row(h, na as int) < n * n) by (nonlinear_arith)
                requires
                    h == na * (row(h, na as int)) + col(h, na as int),
                    col(h, na as int) >= 0,
                    h < n * n * na,
                    na > 0,
            ;
        }
    }
}

/// Which members have a kept hit in the paragraph.
fn hit_flags(ks: &Vec<(usize, usize, usize)>, n: usize) -> (r: Vec<bool>)
    requires
        forall|i: int| 0 <= i < ks@.len() ==> (#[trigger] ks@[i]).2 < n,
    ensures
        r@.len() == n,
        forall|pid: int| 0 <= pid < n ==> r@[pid] == holds(hit_views(ks@), pid),
{
    let mut flag: Vec<bool> = Vec::new();
    let mut i: usize = 0;
    while i < n
        invariant
            i <= n,
            flag@.len() == i,
            forall|j: int| 0 <= j < i ==> !flag@[j],
        decreases n - i,
    {
        flag.push(false);
        i += 1;
    }
    let ghost hv = hit_views(ks@);
    let mut k: usize = 0;
    while k < ks.len()
        invariant
            hv == hit_views(ks@),
            k <= ks@.len(),
            flag@.len() == n,
            forall|i: int| 0 <= i < ks@.len() ==> (#[trigger] ks@[i]).2 < n,
            forall|pid: int| 0 <= pid < n ==> flag@[pid] == exists|i: int| 0 <= i < k && #[trigger] hv[i].2 == pid,
        decreases ks.len() - k,
    {
        let h = ks[k];
        assert(hv[k as int].2 == h.2);
        flag.set(h.2, true);
        k += 1;
    }
    flag
}

/// One paragraph of chapter `ci`: presence, sentences, and the pairs
/// that share it.
fn visit_paragraph(
    acc: &mut Acc,
    members: &Vec<Member>,
    pats: &Vec<(Vec<char>, usize)>,
    l: &Vec<char>,
    ci: usize,
    app: &Vec<Vec<char>>,
    bg: &Vec<&'static str>,
    cues: &Vec<&'static str>,
    Ghost(ps): Ghost<Seq<ParaV>>,
    Ghost(p): Ghost<int>,
)
    requires
        members@.len() <= MAX_CAST,
        acc_ok(*old(acc), members@.len() as int, app@.len() as int),
        forall|i: int| 0 <= i < pats@.len() ==> (#[trigger] pats@[i]).1 < members@.len(),
        0 <= p < ps.len(),
        ps[p] == (ci as int, l@),
        presence_ok(*old(acc), pat_views(pats@), ps, members@.len() as int, p),
        bg@ == background_cues(),
        cues@ == relation_cues(),
    ensures
        acc_ok(*final(acc), members@.len() as int, app@.len() as int),
        presence_ok(*final(acc), pat_views(pats@), ps, members@.len() as int, p + 1),
        (final(acc).weight@, final(acc).hints@) == para_acc(
            old(acc).weight@,
            old(acc).hints@,
            pat_views(pats@),
            l@,
            members@.len() as int,
            app@.len() as int,
            name_views(app@),
            member_views(members@),
        ),
        acc_samples(*final(acc)) == para_samples(
            acc_samples(*old(acc)),
            pat_views(pats@),
            l@,
            ci,
            members@.len() as int,
            name_views(app@),
            member_views(members@),
        ),
{
    let ghost sv0 = acc_samples(*acc);
    let ghost pv = pat_views(pats@);
    let ghost w0 = acc.weight@;
    let ghost h0 = acc.hints@;
    let ghost av = name_views(app@);
    let ghost mv = member_views(members@);
    let n = members.len();
    let na = app.len();
    let ks = kept_hits(pats, l);
    assert forall|i: int| 0 <= i < ks@.len() implies (#[trigger] ks@[i]).2 < n by {
        lemma_kept_members(pv, l@, l@.len() as int, n as int);
        assert(hit_views(ks@)[i].2 == ks@[i].2);
    }
    let flags = hit_flags(&ks, n);
    let mut pid: usize = 0;
    while pid < n
        invariant
            n == members@.len(),
            pid <= n,
            flags@.len() == n,
            forall|q: int| 0 <= q < n ==> flags@[q] == holds(kept(pv, l@), q),
            hit_views(ks@) == kept(pv, l@),
            acc_ok(*acc, n as int, na as int),
            acc.weight@ == w0,
            acc.hints@ == h0,
            acc_samples(*acc) == sv0,
            0 <= p < ps.len(),
            ps[p] == (ci as int, l@),
            forall|q: int| 0 <= q < pid ==> {
                let st = #[trigger] presence(pv, ps, q, p + 1);
                &&& opt_view(acc.last@[q]) == st.0
                &&& acc.chapters@[q] == st.1
                &&& opt_view(acc.first@[q]) == st.2
            },
            forall|q: int| pid <= q < n ==> {
                let st = #[trigger] presence(pv, ps, q, p);
                &&& opt_view(acc.last@[q]) == st.0
                &&& acc.chapters@[q] == st.1
                &&& opt_view(acc.first@[q]) == st.2
            },
        decreases n - pid,
    {
        proof {
            lemma_presence_step(pv, ps, pid as int, p);
        }
        let ghost st = presence(pv, ps, pid as int, p);
        let ghost st1 = presence(pv, ps, pid as int, p + 1);
        assert(opt_view(acc.last@[pid as int]) == st.0);
        let seen_here = match acc.last[pid] {
            Some(c) => c == ci,
            None => false,
        };
        if flags[pid] && !seen_here {
            acc.last.set(pid, Some(ci));
            let c = acc.chapters[pid];
            acc.chapters.set(pid, if c < 0xffff_ffff { c + 1 } else { c });
            if acc.first[pid].is_none() {
                acc.first.set(pid, Some(ci));
            }
        }
        pid += 1;
    }
    if ks.len() == 0 {
        return;
    }
    let ghost kv = hit_views(ks@);
    let bounds = sentence_bounds(l);
    let ghost bs = int_views(bounds@);
    let nb = bounds.len();
    let mut w: usize = 0;
    while w + 1 < nb
        invariant
            nb == bounds@.len(),
            w < nb,
            n == members@.len(),
            na == app@.len(),
            members@.len() <= MAX_CAST,
            acc_ok(*acc, n as int, na as int),
            presence_ok(*acc, pv, ps, n as int, p + 1),
            forall|i: int| 0 <= i < ks@.len() ==> (#[trigger] ks@[i]).2 < n,
            forall|a: int, b: int| 0 <= a < b < bounds@.len() ==> bounds@[a] < bounds@[b],
            bounds@.last() == l@.len(),
            bs == int_views(bounds@),
            kv == hit_views(ks@),
            mv == member_views(members@),
            av == name_views(app@),
            kv == kept(pv, l@),
            (acc.weight@, acc.hints@) == sents_acc(w0, h0, kv, l@, bs, n as int, na as int, av, mv, w as int),
            acc_samples(*acc) == sents_samples(sv0, kv, l@, bs, n as int, ci, av, mv, w as int),
            bg@ == background_cues(),
            cues@ == relation_cues(),
        decreases bounds.len() - w,
    {
        let s0 = bounds[w];
        let s1 = bounds[w + 1];
        assert(s1 <= l@.len()) by {
            if w + 1 < bounds@.len() - 1 {
                assert(bounds@[w + 1] < bounds@[bounds@.len() - 1]);
            }
        }
        let (a, b) = trim_range(l.as_slice(), s0, s1);
        let sent = slice_vec(l.as_slice(), a, b);
        let ghost ab = *acc;
        visit_sentence(acc, members, &ks, &sent, s0, s1, ci, app, bg, cues);
        proof {
            assert(bs[w as int] == s0 && bs[w + 1] == s1);
            assert(sent@ == trim(l@.subrange(s0 as int, s1 as int)));
            lemma_sent_step(ab, *acc, mv, kv, sent@, s0 as int, s1 as int, ci, av, occurs_any(sent@, bg@), occurs_any(sent@, cues@));
            lemma_sent_samples(ab, *acc, mv, kv, sent@, s0 as int, s1 as int, ci, av);
        }
        w += 1;
    }
    let ghost ws1 = acc.weight@;
    let ghost hs1 = acc.hints@;
    let ghost sv1 = acc_samples(*acc);
    assert(w + 1 == nb);
    assert((ws1, hs1) == sents_acc(w0, h0, kv, l@, bs, n as int, na as int, av, mv, bs.len() - 1));
    // sharing the paragraph counts once
    let mut x: usize = 0;
    while x < n
        invariant
            n == members@.len(),
            n <= MAX_CAST,
            flags@.len() == n,
            forall|q: int| 0 <= q < n ==> flags@[q] == holds(kept(pv, l@), q),
            kv == kept(pv, l@),
            x <= n,
            acc_ok(*acc, n as int, na as int),
            presence_ok(*acc, pv, ps, n as int, p + 1),
            acc.hints@ == hs1,
            acc_samples(*acc) == sv1,
            acc.weight@ == once_partial(ws1, kv, n as int, x as int, 0),
        decreases n - x,
    {
        if flags[x] {
            let mut y: usize = x + 1;
            assert(acc.weight@ =~= once_partial(ws1, kv, n as int, x as int, y as int)) by {
                assert forall|i: int| 0 <= i < acc.weight@.len() implies #[trigger] acc.weight@[i] == once_partial(ws1, kv, n as int, x as int, y as int)[i] by {}
            }
            while y < n
                invariant
                    n == members@.len(),
                    n <= MAX_CAST,
                    x < n,
                    x + 1 <= y <= n,
                    flags@.len() == n,
                    flags@[x as int],
                    forall|q: int| 0 <= q < n ==> flags@[q] == holds(kept(pv, l@), q),
                    kv == kept(pv, l@),
                    acc_ok(*acc, n as int, na as int),
                    presence_ok(*acc, pv, ps, n as int, p + 1),
                    acc.hints@ == hs1,
                    acc_samples(*acc) == sv1,
                    acc.weight@ == once_partial(ws1, kv, n as int, x as int, y as int),
                decreases n - y,
            {
                if flags[y] {
                    mul_bound(x, y, n);
                    let idx = x * n + y;
                    let wt = acc.weight[idx];
                    let ghost wb = acc.weight@;
                    acc.weight.set(idx, if wt < 0xffff_ffff { wt + 1 } else { wt });
                    proof {
                        lemma_index_split(idx as int, n as int, x as int, y as int);
                        assert forall|i: int| 0 <= i < acc.weight@.len() implies #[trigger] acc.weight@[i] == once_partial(ws1, kv, n as int, x as int, y + 1)[i] by {
                            if i != idx {
                                if row(i, n as int) == x && col(i, n as int) == y {
                                    lemma_index_join(i, n as int, x as int, y as int);
                                }
                            }
                        }
                        assert(acc.weight@ =~= once_partial(ws1, kv, n as int, x as int, y + 1));
                    }
                } else {
                    assert(acc.weight@ =~= once_partial(ws1, kv, n as int, x as int, y + 1));
                }
                y += 1;
            }
            assert(acc.weight@ =~= once_partial(ws1, kv, n as int, x + 1, 0)) by {
                assert forall|i: int| 0 <= i < acc.weight@.len() implies #[trigger] acc.weight@[i] == once_partial(ws1, kv, n as int, x + 1, 0)[i] by {
                    lemma_row_col_range(i, n as int);
                }
            }
        } else {
            assert(acc.weight@ =~= once_partial(ws1, kv, n as int, x + 1, 0));
        }
        x += 1;
    }
    proof {
        if n > 0 {
            assert forall|i: int| 0 <= i < acc.weight@.len() implies #[trigger] acc.weight@[i] == once_weights(ws1, kv, n as int)[i] by {
                lemma_row_col_range(i, n as int);
            }
        }
        assert(acc.weight@ =~= once_weights(ws1, kv, n as int));
    }
}

proof fn lemma_presence_step(pv: Seq<PatV>, ps: Seq<ParaV>, pid: int, p: int)
    requires
        0 <= p,
    ensures
        ({
            let st = presence(pv, ps, pid, p);
            let ci = ps[p].0;
            presence(pv, ps, pid, p + 1) == (if holds(kept(pv, ps[p].1), pid) && st.0 != Some(ci) {
                (Some(ci), sat1(st.1), if st.2 is None { Some(ci) } else { st.2 })
            } else {
                st
            })
        }),
{
}

proof fn lemma_kept_members(pv: Seq<PatV>, l: Seq<char>, m: int, n: int)
    requires
        forall|i: int| 0 <= i < pv.len() ==> (#[trigger] pv[i]).1 < n,
    ensures
        forall|i: int| 0 <= i < kept_upto(pv, l, m).1.len() ==> (#[trigger] kept_upto(pv, l, m).1[i]).2 < n,
    decreases m,
{
    if m > 0 {
        lemma_kept_members(pv, l, m - 1, n);
        lemma_longest_member(pv, l, m - 1, pv.len() as int, n);
        let prev = kept_upto(pv, l, m - 1);
        let cur = kept_upto(pv, l, m);
        assert forall|i: int| 0 <= i < cur.1.len() implies (#[trigger] cur.1[i]).2 < n by {
            if i < prev.1.len() {
                match longest_at(pv, l, m - 1, pv.len() as int) {
                    Some(h) => {
                        if m - 1 >= prev.0 {
                            assert(cur.1 == prev.1.push((m - 1, m - 1 + h.0, h.1)));
                        }
                    },
                    None => {},
                }
            }
        }
    }
}

proof fn lemma_longest_member(pv: Seq<PatV>, l: Seq<char>, o: int, k: int, n: int)
    requires
        forall|i: int| 0 <= i < pv.len() ==> (#[trigger] pv[i]).1 < n,
        k <= pv.len(),
    ensures
        longest_at(pv, l, o, k) matches Some(h) ==> h.1 < n,
    decreases k,
{
    if k > 0 {
        lemma_longest_member(pv, l, o, k - 1, n);
    }
}

/// More votes first; on a tie, the word that sorts first.
pub open spec fn hint_before(x: (Seq<char>, int), y: (Seq<char>, int)) -> bool {
    x.1 > y.1 || (x.1 == y.1 && lex_lt(x.0, y.0))
}

pub open spec fn hint_views(h: Seq<(String, u32)>) -> Seq<(Seq<char>, int)> {
    h.map_values(|x: (String, u32)| (x.0@, x.1 as int))
}

/// How many of the first `k` flags are down.
pub open spec fn unused_upto(u: Seq<bool>, k: int) -> int
    decreases k,
{
    if k <= 0 {
        0
    } else {
        unused_upto(u, k - 1) + (if u[k - 1] { 0int } else { 1int })
    }
}

proof fn lemma_unused_bound(u: Seq<bool>, k: int)
    requires
        0 <= k <= u.len(),
    ensures
        0 <= unused_upto(u, k) <= k,
        unused_upto(u, k) == 0 ==> forall|j: int| 0 <= j < k ==> u[j],
    decreases k,
{
    if k > 0 {
        lemma_unused_bound(u, k - 1);
    }
}

proof fn lemma_unused_set(u: Seq<bool>, i: int, k: int)
    requires
        0 <= i < u.len(),
        0 <= k <= u.len(),
    ensures
        unused_upto(u.update(i, true), k) == unused_upto(u, k) - (if i < k && !u[i] { 1int } else { 0int }),
    decreases k,
{
    if k > 0 {
        lemma_unused_set(u, i, k - 1);
    }
}

/// `r` holds the hints of the indices `p`: each index once, each with a
/// nonzero count, and every index with a nonzero count.
pub open spec fn picks(p: Seq<int>, r: Seq<(String, u32)>, counts: Seq<u32>, base: int, app: Seq<Seq<char>>) -> bool {
    &&& p.len() == r.len()
    &&& p.no_duplicates()
    &&& forall|a: int|
        0 <= a < p.len() ==> 0 <= #[trigger] p[a] < app.len() && counts[base + p[a]] > 0 && hint_views(r)[a] == (
            app[p[a]],
            counts[base + p[a]] as int,
        )
}

/// The nonzero hint counts of a pair, ordered by votes, then by word.
fn sorted_hints(counts: &Vec<u32>, base: usize, app: &Vec<Vec<char>>) -> (r: Vec<(String, u32)>)
    requires
        base + app@.len() <= counts@.len(),
    ensures
        forall|a: int, b: int| 0 <= a < b < r@.len() ==> !hint_before(hint_views(r@)[b], hint_views(r@)[a]),
        forall|a: int| 0 <= a < r@.len() ==> (#[trigger] r@[a]).1 > 0,
        exists|p: Seq<int>|
            picks(p, r@, counts@, base as int, name_views(app@)) && forall|j: int| 0 <= j < app@.len() && counts@[base + j] > 0 ==> p.contains(j),
{
    let na = app.len();
    let cl = counts.len();
    let mut used: Vec<bool> = Vec::new();
    let mut k: usize = 0;
    while k < na
        invariant
            na == app@.len(),
            cl == counts@.len(),
            base + na <= cl,
            k <= na,
            used@.len() == k,
            forall|j: int| 0 <= j < k ==> used@[j] == (counts@[base + j] == 0),
        decreases na - k,
    {
        used.push(counts[base + k] == 0);
        k += 1;
    }
    let ghost hv = Seq::new(na as nat, |j: int| (app@[j]@, counts@[base + j] as int));
    let mut out: Vec<(String, u32)> = Vec::new();
    let ghost mut picked: Seq<int> = Seq::empty();
    proof {
        lemma_unused_bound(used@, na as int);
    }
    let mut rounds: usize = 0;
    while rounds < na
        invariant
            picks(picked, out@, counts@, base as int, name_views(app@)),
            forall|j: int| 0 <= j < na ==> (used@[j] <==> (counts@[base + j] == 0 || picked.contains(j))),
            unused_upto(used@, na as int) + rounds <= na,
            na == app@.len(),
            cl == counts@.len(),
            base + na <= cl,
            hv == Seq::new(na as nat, |j: int| (app@[j]@, counts@[base + j] as int)),
            used@.len() == na,
            forall|j: int| 0 <= j < na && counts@[base + j] == 0 ==> used@[j],
            forall|a: int, b: int| 0 <= a < b < out@.len() ==> !hint_before(hint_views(out@)[b], hint_views(out@)[a]),
            forall|a: int| 0 <= a < out@.len() ==> (#[trigger] out@[a]).1 > 0,
            forall|j: int, a: int| #![trigger used@[j], out@[a]] 0 <= j < na && !used@[j] && 0 <= a < out@.len() ==> !hint_before(hv[j], hint_views(out@)[a]),
        decreases na - rounds,
    {
        let mut best: usize = na;
        let mut j: usize = 0;
        while j < na
            invariant
                na == app@.len(),
                cl == counts@.len(),
                base + na <= cl,
                best == na ==> forall|y: int| 0 <= y < j ==> used@[y],
                hv == Seq::new(na as nat, |j: int| (app@[j]@, counts@[base + j] as int)),
                used@.len() == na,
                j <= na,
                best == na || (best < j && !used@[best as int]),
                best < na ==> forall|y: int| 0 <= y < j && !used@[y] ==> !hint_before(hv[y], hv[best as int]),
            decreases na - j,
        {
            if !used[j] {
                let better = if best == na {
                    true
                } else {
                    let cj = counts[base + j];
                    let cb = counts[base + best];
                    cj > cb || (cj == cb && lex_less(app[j].as_slice(), app[best].as_slice()))
                };
                assert(hv[j as int] == (app@[j as int]@, counts@[base + j] as int));
                if best < na {
                    assert(hv[best as int] == (app@[best as int]@, counts@[base + best] as int));
                }
                if better {
                    proof {
                        crate::text::lemma_lex_irrefl(app@[j as int]@);
                        if best < na {
                            assert forall|y: int| 0 <= y < j && !used@[y] implies !hint_before(hv[y], hv[j as int]) by {
                                if hint_before(hv[y], hv[j as int]) {
                                    if hv[y].1 == hv[j as int].1 && hv[j as int].1 == hv[best as int].1 {
                                        crate::text::lemma_lex_trans(hv[y].0, hv[j as int].0, hv[best as int].0);
                                    }
                                }
                            }
                        }
                    }
                    best = j;
                }
            }
            j += 1;
        }
        if best == na {
            assert forall|y: int| 0 <= y < app@.len() && counts@[base + y] > 0 implies picked.contains(y) by {
                assert(used@[y]);
            }
            return out;
        }
        let ghost pre = out@;
        proof {
            lemma_unused_set(used@, best as int, na as int);
        }
        used.set(best, true);
        out.push((from_chars(app[best].as_slice()), counts[base + best]));
        proof {
            let pp = picked;
            picked = picked.push(best as int);
            assert(!pp.contains(best as int));
            assert forall|a: int, b: int| 0 <= a < b < picked.len() implies picked[a] != picked[b] by {
                if b == picked.len() - 1 {
                    assert(pp.contains(picked[a]));
                }
            }
            assert forall|a: int| 0 <= a < picked.len() implies 0 <= #[trigger] picked[a] < app@.len() && counts@[base + picked[a]] > 0
                && hint_views(out@)[a] == (app@[picked[a]]@, counts@[base + picked[a]] as int) by {
                if a < pp.len() {
                    assert(hint_views(out@)[a] == hint_views(pre)[a]);
                }
            }
            assert forall|j: int| 0 <= j < na implies (used@[j] <==> (counts@[base + j] == 0 || picked.contains(j))) by {
                if j != best {
                    if picked.contains(j) {
                        let x = choose|x: int| 0 <= x < picked.len() && picked[x] == j;
                        assert(pp[x] == j);
                    }
                    if pp.contains(j) {
                        let x = choose|x: int| 0 <= x < pp.len() && pp[x] == j;
                        assert(picked[x] == j);
                    }
                } else {
                    assert(picked[picked.len() - 1] == j);
                }
            }
        }
        assert(hint_views(out@)[out@.len() - 1] == hv[best as int]);
        assert forall|a: int, b: int| 0 <= a < b < out@.len() implies !hint_before(hint_views(out@)[b], hint_views(out@)[a]) by {
            if b == out@.len() - 1 {
                assert(hint_views(out@)[a] == hint_views(pre)[a]);
            } else {
                assert(hint_views(out@)[a] == hint_views(pre)[a] && hint_views(out@)[b] == hint_views(pre)[b]);
            }
        }
        assert forall|y: int, a: int| #![trigger used@[y], out@[a]] 0 <= y < na && !used@[y] && 0 <= a < out@.len() implies !hint_before(hv[y], hint_views(out@)[a]) by {
            if a < pre.len() {
                assert(hint_views(out@)[a] == hint_views(pre)[a]);
            }
        }
        rounds += 1;
    }
    proof {
        lemma_unused_bound(used@, na as int);
        assert forall|y: int| 0 <= y < app@.len() && counts@[base + y] > 0 implies picked.contains(y) by {
            assert(used@[y]);
        }
    }
    out
}

pub open spec fn ev_sorted(ev: Seq<(usize, String)>) -> bool {
    forall|a: int, b: int| 0 <= a <= b < ev.len() ==> ev[a].0 <= ev[b].0
}

/// What holds of every edge of a graph of `n` people.
pub open spec fn edge_ok(e: Edge, n: int) -> bool {
    &&& e.a < e.b < n
    &&& e.weight >= MIN_EDGE
    &&& e.evidence@.len() <= MAX_EVIDENCE
    &&& ev_sorted(e.evidence@)
    &&& forall|x: int, y: int| 0 <= x < y < e.hints@.len() ==> !hint_before(hint_views(e.hints@)[y], hint_views(e.hints@)[x])
    &&& forall|x: int| 0 <= x < e.hints@.len() ==> (#[trigger] e.hints@[x]).1 > 0
    &&& (e.label matches Some(s) ==> exists|l: usize| l < 8 && decides(e.hints@, l) && s@ == labels()[l as int]@)
    &&& (e.label is None && voting_total(e.hints@, e.hints@.len() as int) <= u32::MAX ==> forall|l: usize| l < 8 ==> !decides(e.hints@, l))
}

/// Heavier first; on a tie, the pair that sorts first.
pub open spec fn edge_before(x: Edge, y: Edge) -> bool {
    x.weight > y.weight || (x.weight == y.weight && (x.a < y.a || (x.a == y.a && x.b < y.b)))
}

/// The sum of the decisive votes, if it fits a `u32`.
fn votes_fit(hints: &Vec<(String, u32)>) -> (r: bool)
    ensures
        r == (voting_total(hints@, hints@.len() as int) <= u32::MAX),
{
    let mut total: u64 = 0;
    let mut i: usize = 0;
    while i < hints.len()
        invariant
            i <= hints@.len(),
            total == voting_total(hints@, i as int),
            total <= u32::MAX,
        decreases hints.len() - i,
    {
        match word_label_index(hints[i].0.as_str()) {
            Some(_) => {
                total = total + hints[i].1 as u64;
            },
            None => {},
        }
        if total > 0xffff_ffff {
            proof {
                lemma_votes_grow(hints@, i + 1, hints@.len() as int);
            }
            return false;
        }
        i += 1;
    }
    true
}

proof fn lemma_votes_grow(hints: Seq<(String, u32)>, i: int, n: int)
    requires
        0 <= i <= n,
    ensures
        voting_total(hints, i) <= voting_total(hints, n),
    decreases n - i,
{
    if i < n {
        lemma_votes_grow(hints, i, n - 1);
    }
}

fn strings_of(ev: Vec<(usize, Vec<char>)>) -> (r: Vec<(usize, String)>)
    requires
        by_chapter(ev@),
    ensures
        r@.len() == ev@.len(),
        ev_sorted(r@),
        ev_strs(r@) == item_views(ev@),
{
    let mut out: Vec<(usize, String)> = Vec::new();
    let mut i: usize = 0;
    while i < ev.len()
        invariant
            i <= ev@.len(),
            by_chapter(ev@),
            out@.len() == i,
            forall|a: int| 0 <= a < i ==> (#[trigger] out@[a]).0 == ev@[a].0 && out@[a].1@ == ev@[a].1@,
        decreases ev.len() - i,
    {
        out.push((ev[i].0, from_chars(ev[i].1.as_slice())));
        i += 1;
    }
    assert(ev_strs(out@) =~= item_views(ev@));
    out
}

/// Evidence as plain values: (chapter, sentence).
pub open spec fn ev_strs(e: Seq<(usize, String)>) -> Seq<(usize, Seq<char>)> {
    e.map_values(|p: (usize, String)| (p.0, p.1@))
}

/// Each person's evidence is drawn from their own samples: the telling
/// sentences first, topped up with neutral ones, by chapter.
pub open spec fn people_evidence_ok(r: Seq<Person>, ps: Seq<ParaV>, ms: Seq<MemberV>) -> bool {
    let g = graph_samples(ps, ms);
    forall|i: int| 0 <= i < r.len() ==> ev_strs((#[trigger] r[i]).evidence@) == evidence_spec(g.0[i].0, g.1[i].0)
}

fn take_reservoir(rs: &mut Vec<Reservoir>, i: usize) -> (r: Reservoir)
    requires
        i < old(rs)@.len(),
        forall|j: int| 0 <= j < old(rs)@.len() ==> reservoir_ok(#[trigger] old(rs)@[j]),
    ensures
        r == old(rs)@[i as int],
        reservoir_ok(r),
        final(rs)@.len() == old(rs)@.len(),
        forall|j: int| 0 <= j < final(rs)@.len() ==> reservoir_ok(#[trigger] final(rs)@[j]),
        forall|j: int| 0 <= j < final(rs)@.len() && j != i ==> #[trigger] final(rs)@[j] == old(rs)@[j],
        final(rs)@[i as int].items@.len() == 0 && final(rs)@[i as int].seen == 0,
{
    let mut r = Reservoir::new();
    rs.set_and_swap(i, &mut r);
    r
}

fn strings(v: &Vec<Vec<char>>) -> (r: Vec<String>)
    ensures
        r@.map_values(|s: String| s@) == name_views(v@),
{
    let mut out: Vec<String> = Vec::new();
    let mut i: usize = 0;
    while i < v.len()
        invariant
            i <= v@.len(),
            out@.map_values(|s: String| s@) == name_views(v@).take(i as int),
        decreases v.len() - i,
    {
        let ghost pre = out@;
        out.push(from_chars(v[i].as_slice()));
        assert(out@.map_values(|s: String| s@) =~= pre.map_values(|s: String| s@).push(v@[i as int]@));
        assert(name_views(v@).take(i + 1) =~= name_views(v@).take(i as int).push(v@[i as int]@));
        i += 1;
    }
    assert(name_views(v@).take(v@.len() as int) =~= name_views(v@));
    out
}

/// The label the hints settle on, when the votes fit a `u32`.
fn label_of(hs: &Vec<(String, u32)>) -> (r: Option<String>)
    ensures
        r matches Some(s) ==> exists|l: usize| l < 8 && decides(hs@, l) && s@ == labels()[l as int]@,
        r is None && voting_total(hs@, hs@.len() as int) <= u32::MAX ==> forall|l: usize| l < 8 ==> !decides(hs@, l),
{
    if !votes_fit(hs) {
        return None;
    }
    match from_hints(hs.as_slice()) {
        Some(l) => {
            let o = l.to_owned();
            proof {
                let lb = choose|lb: usize| lb < 8 && decides(hs@, lb) && l == labels()[lb as int];
                assert(o@ == labels()[lb as int]@);
            }
            Some(o)
        },
        None => None,
    }
}

proof fn lemma_move<T>(a: Seq<T>, b: Seq<T>, i: int)
    requires
        0 <= i < b.len(),
    ensures
        (a.push(b[i]) + b.remove(i)).to_multiset() =~= (a + b).to_multiset(),
{
    broadcast use vstd::seq_lib::group_seq_properties, vstd::seq_lib::lemma_multiset_commutative, vstd::multiset::group_multiset_axioms;

    assert(b.contains(b[i]));
    assert(b.to_multiset().count(b[i]) > 0);
    vstd::seq_lib::to_multiset_build(a, b[i]);
    vstd::seq_lib::to_multiset_remove(b, i);
    vstd::seq_lib::lemma_multiset_commutative(a.push(b[i]), b.remove(i));
    vstd::seq_lib::lemma_multiset_commutative(a, b);
}

/// Keep the `MAX_EDGES` heaviest edges, heaviest first.
fn rank_edges(all: Vec<Edge>, Ghost(n): Ghost<int>) -> (r: Vec<Edge>)
    requires
        forall|i: int| 0 <= i < all@.len() ==> edge_ok(#[trigger] all@[i], n),
    ensures
        r@.len() <= MAX_EDGES,
        r@.len() == (if all@.len() < MAX_EDGES { all@.len() as int } else { MAX_EDGES as int }),
        forall|i: int| 0 <= i < r@.len() ==> edge_ok(#[trigger] r@[i], n),
        forall|a: int, b: int| 0 <= a < b < r@.len() ==> !edge_before(r@[b], r@[a]),
        forall|i: int| 0 <= i < r@.len() ==> all@.contains(#[trigger] r@[i]),
        exists|rest: Seq<Edge>|
            edge_keys(r@ + rest).to_multiset() == edge_keys(all@).to_multiset() && forall|x: int, e: int|
                0 <= x < rest.len() && 0 <= e < r@.len() ==> !edge_before(#[trigger] rest[x], #[trigger] r@[e]),
{
    broadcast use vstd::seq_lib::group_seq_properties, vstd::seq_lib::lemma_multiset_commutative;

    let ghost orig = all@;
    let m = all.len();
    let mut rest = all;
    let want = if m < MAX_EDGES { m } else { MAX_EDGES };
    let mut out: Vec<Edge> = Vec::new();
    while out.len() < want && rest.len() > 0
        invariant
            want <= MAX_EDGES,
            out@.len() <= want,
            out@.len() + rest@.len() == m,
            want <= m,
            forall|i: int| 0 <= i < rest@.len() ==> edge_ok(#[trigger] rest@[i], n),
            forall|i: int| 0 <= i < out@.len() ==> edge_ok(#[trigger] out@[i], n),
            forall|a: int, b: int| 0 <= a < b < out@.len() ==> !edge_before(out@[b], out@[a]),
            forall|x: int, a: int| #![trigger rest@[x], out@[a]] 0 <= x < rest@.len() && 0 <= a < out@.len() ==> !edge_before(rest@[x], out@[a]),
            edge_keys(out@ + rest@).to_multiset() == edge_keys(orig).to_multiset(),
            (out@ + rest@).to_multiset() == orig.to_multiset(),
            orig == all@,
        decreases rest.len(),
    {
        let mut best: usize = 0;
        let mut j: usize = 1;
        while j < rest.len()
            invariant
                rest@.len() > 0,
                best < rest@.len(),
                1 <= j <= rest@.len(),
                best < j,
                forall|y: int| 0 <= y < j ==> !edge_before(rest@[y], rest@[best as int]),
            decreases rest.len() - j,
        {
            let x = &rest[j];
            let b = &rest[best];
            if x.weight > b.weight || (x.weight == b.weight && (x.a < b.a || (x.a == b.a && x.b < b.b))) {
                best = j;
            }
            j += 1;
        }
        let ghost pre_rest = rest@;
        let ghost pre_out = out@;
        let e = rest.remove(best);
        out.push(e);
        proof {
            let k = (e.a, e.b, e.weight);
            assert(edge_keys(out@) =~= edge_keys(pre_out).push(k));
            assert(edge_keys(rest@) =~= edge_keys(pre_rest).remove(best as int));
            assert(edge_keys(pre_rest)[best as int] == k);
            assert(edge_keys(out@ + rest@) =~= edge_keys(out@) + edge_keys(rest@));
            assert(edge_keys(pre_out + pre_rest) =~= edge_keys(pre_out) + edge_keys(pre_rest));
            lemma_move(edge_keys(pre_out), edge_keys(pre_rest), best as int);
            lemma_move(pre_out, pre_rest, best as int);
            assert(edge_keys(out@ + rest@).to_multiset() =~= edge_keys(pre_out + pre_rest).to_multiset());
            assert((out@ + rest@).to_multiset() =~= (pre_out + pre_rest).to_multiset());
        }
        assert forall|a: int, b: int| 0 <= a < b < out@.len() implies !edge_before(out@[b], out@[a]) by {
            if b == out@.len() - 1 {
                assert(out@[a] == pre_out[a]);
                assert(pre_rest[best as int] == out@[b]);
            } else {
                assert(out@[a] == pre_out[a] && out@[b] == pre_out[b]);
            }
        }
        assert forall|x: int, a: int| #![trigger rest@[x], out@[a]] 0 <= x < rest@.len() && 0 <= a < out@.len() implies !edge_before(rest@[x], out@[a]) by {
            let xo = if x < best { x } else { x + 1 };
            assert(rest@[x] == pre_rest[xo]);
            if a < pre_out.len() {
                assert(out@[a] == pre_out[a]);
            } else {
                assert(out@[a] == pre_rest[best as int]);
            }
        }
        assert forall|i: int| 0 <= i < rest@.len() implies edge_ok(#[trigger] rest@[i], n) by {
            let xo = if i < best { i } else { i + 1 };
            assert(rest@[i] == pre_rest[xo]);
        }
    }
    proof {
        assert forall|i: int| 0 <= i < out@.len() implies orig.contains(#[trigger] out@[i]) by {
            assert((out@ + rest@)[i] == out@[i]);
            assert((out@ + rest@).contains(out@[i]));
            vstd::seq_lib::to_multiset_contains(out@ + rest@, out@[i]);
            vstd::seq_lib::to_multiset_contains(orig, out@[i]);
        }
        let rs = rest@;
        assert(edge_keys(out@ + rs).to_multiset() == edge_keys(orig).to_multiset());
    }
    out
}

/// One past the largest chapter index among the first `k` paragraphs, or 0.
pub open spec fn chapter_span(ps: Seq<ParaV>, k: int) -> int
    decreases k,
{
    if k <= 0 {
        0
    } else {
        let m = chapter_span(ps, k - 1);
        if ps[k - 1].0 + 1 > m {
            ps[k - 1].0 + 1
        } else {
            m
        }
    }
}

/// What the graph says of member `pid`: its name, aliases and mentions as
/// selected, the chapter visits and first chapter the paragraphs show, and
/// an evidence sample ordered by chapter.
pub open spec fn person_ok(p: Person, m: MemberV, pv: Seq<PatV>, ps: Seq<ParaV>, pid: int) -> bool {
    let st = presence(pv, ps, pid, ps.len() as int);
    &&& p.name@ == m.0
    &&& p.aliases@.map_values(|s: String| s@) == m.2
    &&& p.mentions == m.3
    &&& p.chapters == st.1
    &&& p.first_chapter == (match st.2 {
        Some(c) => c,
        None => 0,
    })
    &&& !p.uncertain
    &&& p.evidence@.len() <= MAX_EVIDENCE
    &&& ev_sorted(p.evidence@)
}

fn fresh_reservoirs(k: usize) -> (r: Vec<Reservoir>)
    ensures
        r@.len() == k,
        forall|i: int| 0 <= i < k ==> reservoir_ok(#[trigger] r@[i]),
        res_views(r@) == Seq::new(k as nat, |i: int| (Seq::<(usize, Seq<char>)>::empty(), 0u32)),
{
    let mut r: Vec<Reservoir> = Vec::new();
    let mut i: usize = 0;
    while i < k
        invariant
            i <= k,
            r@.len() == i,
            forall|j: int| 0 <= j < i ==> reservoir_ok(#[trigger] r@[j]),
            forall|j: int| 0 <= j < i ==> (#[trigger] r@[j]).items@.len() == 0 && r@[j].seen == 0,
        decreases k - i,
    {
        r.push(Reservoir::new());
        i += 1;
    }
    assert(res_views(r@) =~= Seq::new(k as nat, |i: int| (Seq::<(usize, Seq<char>)>::empty(), 0u32))) by {
        assert forall|j: int| 0 <= j < k implies #[trigger] res_views(r@)[j] == (Seq::<(usize, Seq<char>)>::empty(), 0u32) by {
            assert(item_views(r@[j].items@) =~= Seq::<(usize, Seq<char>)>::empty());
        }
    }
    r
}

/// The people, the edges, and how many chapters the paragraphs span.
pub fn graph(ps: &Vec<(usize, Vec<char>)>, members: &Vec<Member>) -> (r: (Vec<Person>, Vec<Edge>, usize))
    requires
        members@.len() <= MAX_CAST,
        forall|i: int| 0 <= i < ps@.len() ==> (#[trigger] ps@[i]).0 < usize::MAX,
    ensures
        r.0@.len() == members@.len(),
        forall|i: int| 0 <= i < r.0@.len() ==> person_ok(
            #[trigger] r.0@[i],
            member_views(members@)[i],
            pats_of(member_views(members@), members@.len() as int),
            para_views(ps@),
            i,
        ),
        r.1@.len() <= MAX_EDGES,
        forall|i: int| 0 <= i < r.1@.len() ==> edge_ok(#[trigger] r.1@[i], members@.len() as int),
        forall|a: int, b: int| 0 <= a < b < r.1@.len() ==> !edge_before(r.1@[b], r.1@[a]),
        r.2 == chapter_span(para_views(ps@), ps@.len() as int),
        edges_ok(r.1@, para_views(ps@), member_views(members@)),
        people_evidence_ok(r.0@, para_views(ps@), member_views(members@)),
{
    let ghost pvw = para_views(ps@);
    let n = members.len();
    let pats = build_pats(members);
    let ghost pv = pat_views(pats@);
    let apps = appellations_exec();
    let mut app: Vec<Vec<char>> = Vec::new();
    let mut k: usize = 0;
    while k < apps.len()
        invariant
            k <= apps@.len(),
            app@.len() == k,
            apps@ == appellations(),
            name_views(app@) == app_views().take(k as int),
        decreases apps.len() - k,
    {
        let ghost pre = app@;
        app.push(to_chars(apps[k]));
        assert(name_views(app@) =~= name_views(pre).push(apps@[k as int]@));
        assert(app_views().take(k + 1) =~= app_views().take(k as int).push(apps@[k as int]@));
        k += 1;
    }
    assert(app_views().take(apps@.len() as int) =~= app_views());
    let na = app.len();
    assert(appellations().len() == 96);
    assert(na == 96);
    let bg = background_cues_exec();
    let cues = relation_cues_exec();
    assert(n * n <= 1600) by (nonlinear_arith)
        requires
            n <= 40,
    ;
    let nn = n * n;
    assert(nn * na <= 1600 * 96) by (nonlinear_arith)
        requires
            nn <= 1600,
            na == 96,
    ;
    let total = nn * na;
    let mut hints: Vec<u32> = Vec::new();
    let mut h: usize = 0;
    while h < total
        invariant
            h <= total,
            hints@.len() == h,
            forall|j: int| 0 <= j < h ==> hints@[j] == 0,
        decreases total - h,
    {
        hints.push(0);
        h += 1;
    }
    let mut weight: Vec<u32> = Vec::new();
    let mut last: Vec<Option<usize>> = Vec::new();
    let mut chapters: Vec<u32> = Vec::new();
    let mut first: Vec<Option<usize>> = Vec::new();
    let mut i: usize = 0;
    while i < nn
        invariant
            i <= nn,
            weight@.len() == i,
            forall|j: int| 0 <= j < i ==> weight@[j] == 0,
        decreases nn - i,
    {
        weight.push(0);
        i += 1;
    }
    let mut i: usize = 0;
    while i < n
        invariant
            i <= n,
            last@.len() == i,
            chapters@.len() == i,
            first@.len() == i,
            forall|j: int| 0 <= j < i ==> (#[trigger] last@[j]) is None,
            forall|j: int| 0 <= j < i ==> (#[trigger] chapters@[j]) == 0,
            forall|j: int| 0 <= j < i ==> (#[trigger] first@[j]) is None,
        decreases n - i,
    {
        last.push(None);
        chapters.push(0);
        first.push(None);
        i += 1;
    }
    let mut acc = Acc {
        last,
        chapters,
        first,
        solo_strong: fresh_reservoirs(n),
        solo_weak: fresh_reservoirs(n),
        weight,
        hints,
        pair_strong: fresh_reservoirs(nn),
        pair_weak: fresh_reservoirs(nn),
    };
    assert(presence_ok(acc, pv, pvw, n as int, 0)) by {
        assert forall|pid: int| 0 <= pid < n implies {
            let st = #[trigger] presence(pv, pvw, pid, 0);
            &&& opt_view(acc.last@[pid]) == st.0
            &&& acc.chapters@[pid] == st.1
            &&& opt_view(acc.first@[pid]) == st.2
        } by {
            assert(acc.last@[pid] is None);
        }
    }
    let ghost av = name_views(app@);
    let ghost mv = member_views(members@);
    assert(pv == pats_of(mv, n as int));
    assert((acc.weight@, acc.hints@) == acc_upto(pv, pvw, n as int, 96, av, mv, 0)) by {
        assert(acc.weight@ =~= Seq::new((n * n) as nat, |i: int| 0u32));
        assert(acc.hints@ =~= Seq::new((n * n * 96) as nat, |i: int| 0u32));
    }
    assert(acc_samples(acc) == samples_upto(pv, pvw, n as int, av, mv, 0)) by {
        let e: ResV = (Seq::empty(), 0u32);
        assert(acc_samples(acc).0 =~= Seq::new(n as nat, |i: int| e));
        assert(acc_samples(acc).1 =~= Seq::new(n as nat, |i: int| e));
        assert(acc_samples(acc).2 =~= Seq::new((n * n) as nat, |i: int| e));
        assert(acc_samples(acc).3 =~= Seq::new((n * n) as nat, |i: int| e));
    }
    let mut span: usize = 0;
    let mut p: usize = 0;
    while p < ps.len()
        invariant
            av == name_views(app@),
            av == app_views(),
            mv == member_views(members@),
            na == 96,
            (acc.weight@, acc.hints@) == acc_upto(pv, pvw, n as int, 96, av, mv, p as int),
            acc_samples(acc) == samples_upto(pv, pvw, n as int, av, mv, p as int),
            bg@ == background_cues(),
            cues@ == relation_cues(),
            n == members@.len(),
            n <= MAX_CAST,
            nn == n * n,
            na == app@.len(),
            pvw == para_views(ps@),
            pv == pat_views(pats@),
            forall|i: int| 0 <= i < pats@.len() ==> (#[trigger] pats@[i]).1 < n,
            p <= ps@.len(),
            acc_ok(acc, n as int, na as int),
            presence_ok(acc, pv, pvw, n as int, p as int),
            span == chapter_span(pvw, p as int),
            forall|i: int| 0 <= i < ps@.len() ==> (#[trigger] ps@[i]).0 < usize::MAX,
        decreases ps.len() - p,
    {
        let ci = ps[p].0;
        assert(pvw[p as int] == (ci as int, ps@[p as int].1@));
        let ghost before = acc_upto(pv, pvw, n as int, 96, av, mv, p as int);
        let ghost sbefore = samples_upto(pv, pvw, n as int, av, mv, p as int);
        visit_paragraph(&mut acc, members, &pats, &ps[p].1, ci, &app, &bg, &cues, Ghost(pvw), Ghost(p as int));
        assert(pvw[p as int].1 == ps@[p as int].1@);
        assert(acc_upto(pv, pvw, n as int, 96, av, mv, p + 1) == para_acc(before.0, before.1, pv, pvw[p as int].1, n as int, 96, av, mv));
        assert(samples_upto(pv, pvw, n as int, av, mv, p + 1) == para_samples(sbefore, pv, pvw[p as int].1, ci, n as int, av, mv));
        if ci >= span {
            span = ci + 1;
        }
        p += 1;
    }
    // people
    let ghost gs = acc_samples(acc);
    assert(gs == graph_samples(pvw, member_views(members@)));
    let mut people: Vec<Person> = Vec::new();
    let mut pid: usize = 0;
    while pid < n
        invariant
            n == members@.len(),
            n <= MAX_CAST,
            nn == n * n,
            pvw == para_views(ps@),
            pv == pat_views(pats@),
            pv == pats_of(member_views(members@), members@.len() as int),
            pid <= n,
            acc_ok(acc, n as int, na as int),
            presence_ok(acc, pv, pvw, n as int, ps@.len() as int),
            people@.len() == pid,
            forall|i: int| 0 <= i < pid ==> person_ok(#[trigger] people@[i], member_views(members@)[i], pv, pvw, i),
            (acc.weight@, acc.hints@) == graph_acc(pvw, member_views(members@)),
            gs == graph_samples(pvw, member_views(members@)),
            forall|j: int| pid <= j < n ==> #[trigger] res_views(acc.solo_strong@)[j] == gs.0[j],
            forall|j: int| pid <= j < n ==> #[trigger] res_views(acc.solo_weak@)[j] == gs.1[j],
            res_views(acc.pair_strong@) == gs.2,
            res_views(acc.pair_weak@) == gs.3,
            forall|i: int| 0 <= i < pid ==> ev_strs((#[trigger] people@[i]).evidence@) == evidence_spec(gs.0[i].0, gs.1[i].0),
        decreases n - pid,
    {
        let ghost ss0 = acc.solo_strong@;
        let ghost sw0 = acc.solo_weak@;
        assert(res_views(acc.solo_strong@)[pid as int] == gs.0[pid as int]);
        assert(res_views(ss0)[pid as int] == gs.0[pid as int]);
        assert(res_views(sw0)[pid as int] == gs.1[pid as int]);
        let strong = take_reservoir(&mut acc.solo_strong, pid);
        let weak = take_reservoir(&mut acc.solo_weak, pid);
        assert(strong == ss0[pid as int]);
        assert(weak == sw0[pid as int]);
        assert(res_view(strong) == gs.0[pid as int]);
        assert(res_view(weak) == gs.1[pid as int]);
        let evs = evidence_of(strong, weak);
        assert(item_views(evs@) == evidence_spec(gs.0[pid as int].0, gs.1[pid as int].0));
        let ev = strings_of(evs);
        assert(ev_strs(ev@) == evidence_spec(gs.0[pid as int].0, gs.1[pid as int].0));
        assert forall|j: int| pid + 1 <= j < n implies #[trigger] res_views(acc.solo_strong@)[j] == gs.0[j] by {
            assert(res_views(ss0)[j] == gs.0[j]);
            assert(acc.solo_strong@[j] == ss0[j]);
        }
        assert forall|j: int| pid + 1 <= j < n implies #[trigger] res_views(acc.solo_weak@)[j] == gs.1[j] by {
            assert(res_views(sw0)[j] == gs.1[j]);
            assert(acc.solo_weak@[j] == sw0[j]);
        }
        let m = &members[pid];
        assert(member_views(members@)[pid as int] == m@);
        let first_chapter = match acc.first[pid] {
            Some(c) => c,
            None => 0,
        };
        let person = Person {
            name: from_chars(m.name.as_slice()),
            aliases: strings(&m.aliases),
            mentions: m.mentions,
            chapters: acc.chapters[pid],
            first_chapter,
            uncertain: false,
            evidence: ev,
        };
        let ghost pre = people@;
        people.push(person);
        assert forall|i: int| 0 <= i < pid + 1 implies ev_strs((#[trigger] people@[i]).evidence@) == evidence_spec(gs.0[i].0, gs.1[i].0) by {
            if i < pid {
                assert(people@[i] == pre[i]);
            }
        }
        pid += 1;
    }
    // edges
    let ghost gw = acc.weight@;
    let ghost gh = acc.hints@;
    assert((gw, gh) == graph_acc(pvw, member_views(members@)));
    let mut all: Vec<Edge> = Vec::new();
    let mut a: usize = 0;
    while a < n
        invariant
            n == members@.len(),
            n <= MAX_CAST,
            nn == n * n,
            na == app@.len(),
            na == 96,
            name_views(app@) == app_views(),
            a <= n,
            acc_ok(acc, n as int, na as int),
            acc.weight@ == gw,
            acc.hints@ == gh,
            forall|i: int| 0 <= i < all@.len() ==> edge_ok(#[trigger] all@[i], n as int),
            forall|i: int| 0 <= i < all@.len() ==> hints_ok(#[trigger] all@[i], gh, n as int),
            gs == graph_samples(pvw, member_views(members@)),
            forall|j: int| a * n <= j < n * n ==> #[trigger] res_views(acc.pair_strong@)[j] == gs.2[j],
            forall|j: int| a * n <= j < n * n ==> #[trigger] res_views(acc.pair_weak@)[j] == gs.3[j],
            forall|i: int|
                0 <= i < all@.len() ==> ev_strs((#[trigger] all@[i]).evidence@) == evidence_spec(
                    gs.2[all@[i].a * n + all@[i].b].0,
                    gs.3[all@[i].a * n + all@[i].b].0,
                ),
            edge_keys(all@) == pair_keys(gw, n as int, a * n),
        decreases n - a,
    {
        let mut b: usize = a + 1;
        proof {
            lemma_keys_skip(gw, n as int, a as int, a * n + a + 1);
        }
        while b < n
            invariant
                n == members@.len(),
                n <= MAX_CAST,
                nn == n * n,
                na == app@.len(),
                na == 96,
                name_views(app@) == app_views(),
                a < n,
                a + 1 <= b <= n,
                acc_ok(acc, n as int, na as int),
                acc.weight@ == gw,
                acc.hints@ == gh,
                forall|i: int| 0 <= i < all@.len() ==> edge_ok(#[trigger] all@[i], n as int),
                forall|i: int| 0 <= i < all@.len() ==> hints_ok(#[trigger] all@[i], gh, n as int),
            gs == graph_samples(pvw, member_views(members@)),
            forall|j: int| a * n + b <= j < n * n ==> #[trigger] res_views(acc.pair_strong@)[j] == gs.2[j],
            forall|j: int| a * n + b <= j < n * n ==> #[trigger] res_views(acc.pair_weak@)[j] == gs.3[j],
            forall|i: int|
                0 <= i < all@.len() ==> ev_strs((#[trigger] all@[i]).evidence@) == evidence_spec(
                    gs.2[all@[i].a * n + all@[i].b].0,
                    gs.3[all@[i].a * n + all@[i].b].0,
                ),
                edge_keys(all@) == pair_keys(gw, n as int, a * n + b),
            decreases n - b,
        {
            mul_bound(a, b, n);
            let idx = a * n + b;
            proof {
                lemma_index_split(idx as int, n as int, a as int, b as int);
            }
            let ghost pre_keys = edge_keys(all@);
            let w = acc.weight[idx];
            if w >= MIN_EDGE {
                assert(idx * na + na <= nn * na && nn * na <= 1600 * 96) by (nonlinear_arith)
                    requires
                        idx < nn,
                        nn <= 1600,
                        na == 96,
                ;
                let hs = sorted_hints(&acc.hints, idx * na, &app);
                let label = label_of(&hs);
                let ghost hsv = hs@;
                let ghost lv = label;
                let ghost ps0 = acc.pair_strong@;
                let ghost pw0 = acc.pair_weak@;
                assert(res_views(ps0)[idx as int] == gs.2[idx as int]);
                assert(res_views(pw0)[idx as int] == gs.3[idx as int]);
                let strong = take_reservoir(&mut acc.pair_strong, idx);
                let weak = take_reservoir(&mut acc.pair_weak, idx);
                assert(strong == ps0[idx as int]);
                assert(weak == pw0[idx as int]);
                let ev = strings_of(evidence_of(strong, weak));
                assert(ev_strs(ev@) == evidence_spec(gs.2[idx as int].0, gs.3[idx as int].0));
                assert forall|j: int| a * n + b + 1 <= j < n * n implies #[trigger] res_views(acc.pair_strong@)[j] == gs.2[j] by {
                    assert(res_views(ps0)[j] == gs.2[j]);
                    assert(acc.pair_strong@[j] == ps0[j]);
                }
                assert forall|j: int| a * n + b + 1 <= j < n * n implies #[trigger] res_views(acc.pair_weak@)[j] == gs.3[j] by {
                    assert(res_views(pw0)[j] == gs.3[j]);
                    assert(acc.pair_weak@[j] == pw0[j]);
                }
                let e = Edge { a, b, weight: w, hints: hs, label, evidence: ev };
                assert(e.hints@ == hsv);
                assert(e.label == lv);
                assert(e.a < e.b < n);
                assert(e.weight >= MIN_EDGE);
                assert(e.evidence@.len() <= MAX_EVIDENCE);
                assert(ev_sorted(e.evidence@));
                assert(forall|x: int, y: int| 0 <= x < y < e.hints@.len() ==> !hint_before(hint_views(e.hints@)[y], hint_views(e.hints@)[x]));
                assert(forall|x: int| 0 <= x < e.hints@.len() ==> (#[trigger] e.hints@[x]).1 > 0);
                assert(e.label matches Some(s) ==> exists|l: usize| l < 8 && decides(e.hints@, l) && s@ == labels()[l as int]@);
                assert(e.label is None && voting_total(e.hints@, e.hints@.len() as int) <= u32::MAX ==> forall|l: usize| l < 8 ==> !decides(e.hints@, l));
                assert(edge_ok(e, n as int));
                assert(hints_ok(e, gh, n as int));
                let ghost pre = all@;
                all.push(e);
                assert forall|i: int| 0 <= i < all@.len() implies edge_ok(#[trigger] all@[i], n as int) && hints_ok(all@[i], gh, n as int)
                    && ev_strs(all@[i].evidence@) == evidence_spec(gs.2[all@[i].a * n + all@[i].b].0, gs.3[all@[i].a * n + all@[i].b].0) by {
                    if i < pre.len() {
                        assert(all@[i] == pre[i]);
                    }
                }
                assert(edge_keys(all@) =~= pre_keys.push((a, b, w)));
            }
            assert(edge_keys(all@) == pair_keys(gw, n as int, a * n + b + 1));
            b += 1;
        }
        assert(a * n + n == (a + 1) * n) by (nonlinear_arith);
        a += 1;
    }
    let edges = rank_edges(all, Ghost(n as int));
    (people, edges, span)
}

} // verus!
