//! Who is in this book, and who stands with whom: by counting, not by asking
//! a model to read it.
//!
//! The one truly regular structure in a web novel is dialogue attribution:
//! 「……」吕树说道. Names are seeded from whatever stands before a speech verb
//! (and after a word whose object is a person), then validated against the
//! whole text by statistics: a real name recurs, in varied company, standing
//! alone; a fragment like 树笑 cut out of 吕树笑道 has 吕 welded to its left
//! forever. Relationships are sentence co-occurrence counts, with appellation
//! words (师父、夫人、哥哥) collected as typed hints, and every edge keeps its
//! evidence sentences verbatim.
pub mod words;
pub mod bind;
pub mod census;
pub mod seeds;
pub mod select;
pub mod graph;
pub mod prune;

use vstd::prelude::*;
use crate::book::{Chapter, ChapV};
use crate::cast::census::{lemma_para_chapters, candidates, chapter_views, para_views, paragraphs, paras_upto, stat_spec, table_ok, ParaV, StatV};
use crate::cast::graph::{chapter_span, edge_before, edge_ok, edges_ok, graph, pats_of, people_evidence_ok, person_ok, pat_views};
use crate::cast::prune::{dense, kept_edges, kept_people, prune, seated, unsure};
use crate::cast::seeds::{key_of, line_views, name_shape, seed_ok, seeded};
use crate::cast::select::{member_views, name_views, raw_members, select, stat_views, top_members, MemberV};
use crate::focus::bodies_ok;
use crate::chunk::boundary;
use crate::romance::{analysis_ok, candidate_count_spec, RelationshipPerson, RelationshipReport, RELATIONSHIP_VERSION};
use crate::romance::ledger::Ledger;
use crate::focus::{analyze_spec, zh_spec};
use crate::text::from_chars;

verus! {

/// One person of the cast.
#[derive(Debug, Clone)]
pub struct Person {
    pub name: String,
    /// Shorter forms folded into this person (吕小鱼 ← 小鱼), and courtesy
    /// forms (齐先生 ← 齐静春).
    pub aliases: Vec<String>,
    pub mentions: u32,
    /// Distinct chapters the person appears in.
    pub chapters: u32,
    pub first_chapter: usize,
    /// Statistics put this one in the band where they stop discriminating.
    pub uncertain: bool,
    /// (chapter, sentence): a sample of this person's own sentences.
    pub evidence: Vec<(usize, String)>,
}

/// Two people who share sentences and paragraphs.
#[derive(Debug, Clone)]
pub struct Edge {
    /// Indices into [`Cast::people`].
    pub a: usize,
    pub b: usize,
    /// Sharing a sentence counts double sharing a paragraph.
    pub weight: u32,
    /// Appellation words bound to the pair in their shared sentences, with counts.
    pub hints: Vec<(String, u32)>,
    /// The relationship label the hints settle on their own, if they do.
    pub label: Option<String>,
    /// (chapter, sentence): the raw material any claim about this pair rests on.
    pub evidence: Vec<(usize, String)>,
}

/// The graph a reader sees.
#[derive(Debug, Clone)]
pub struct Cast {
    pub people: Vec<Person>,
    pub edges: Vec<Edge>,
    /// Whole-book relationship structure computed from the larger roster.
    pub relationship: Option<RelationshipReport>,
    /// The [`SCAN_VERSION`] that produced this.
    pub version: u32,
}

/// The graph a reader sees holds at most this many people.
pub const TOP_CAST: usize = 10;

/// Bumped whenever a change of the scan's shape makes an older cached cast
/// wrong to reuse.
pub const SCAN_VERSION: u32 = 10;

/// The chapters scanned: the first `upto`, or all of them.
pub open spec fn scanned(chapters: Seq<Chapter>, upto: int) -> int {
    if upto < chapters.len() {
        upto
    } else {
        chapters.len() as int
    }
}

/// The paragraphs of the scanned range.
pub open spec fn scanned_paras(text: Seq<char>, chapters: Seq<Chapter>, upto: int) -> Seq<ParaV> {
    paras_upto(text, chapter_views(chapters), scanned(chapters, upto))
}

pub open spec fn texts(ps: Seq<ParaV>) -> Seq<Seq<char>> {
    ps.map_values(|p: ParaV| p.1)
}

/// The candidate table of the paragraphs: every seed that survives the
/// filter, once, ascending by key, with its statistics.
pub open spec fn census_ok(ls: Seq<Seq<char>>, ns: Seq<Seq<char>>, keys: Seq<u128>, ss: Seq<StatV>) -> bool {
    &&& ns.len() == keys.len()
    &&& ns.len() == ss.len()
    &&& forall|a: int, b: int| 0 <= a < b < keys.len() ==> keys[a] < keys[b]
    &&& forall|t: int|
        0 <= t < ns.len() ==> {
            &&& keys[t] == key_of(#[trigger] ns[t])
            &&& name_shape(ns[t])
            &&& seed_ok(ns[t])
            &&& seeded(ls, ns[t])
            &&& ss[t] == stat_spec(ls, ns[t])
        }
    &&& forall|w: Seq<char>| seeded(ls, w) && seed_ok(w) ==> exists|t: int| 0 <= t < ns.len() && #[trigger] ns[t] == w
}

/// The ranked cast of the paragraphs before pruning: the candidate table,
/// the selected members, and a person per member with their presence.
pub open spec fn ranked_ok(ps: Seq<ParaV>, r: Seq<Person>) -> bool {
    exists|ns: Seq<Seq<char>>, keys: Seq<u128>, ss: Seq<StatV>, ms: Seq<MemberV>|
        #![trigger census_ok(texts(ps), ns, keys, ss), top_members(raw_members(ns, ss, keys, ns.len() as int), ms)]
        {
            &&& census_ok(texts(ps), ns, keys, ss)
            &&& top_members(raw_members(ns, ss, keys, ns.len() as int), ms)
            &&& r.len() == ms.len()
            &&& forall|i: int| 0 <= i < r.len() ==> person_ok(#[trigger] r[i], ms[i], pats_of(ms, ms.len() as int), ps, i)
        }
}

/// The ranked cast `r` of the paragraphs and its edges `es`: the census,
/// the members selected from it, a person for each, and the heaviest pairs
/// among them.
pub open spec fn rank_ok(ps: Seq<ParaV>, r: Seq<Person>, es: Seq<Edge>) -> bool {
    exists|ns: Seq<Seq<char>>, keys: Seq<u128>, ss: Seq<StatV>, ms: Seq<MemberV>|
        #![trigger census_ok(texts(ps), ns, keys, ss), top_members(raw_members(ns, ss, keys, ns.len() as int), ms)]
        {
            &&& census_ok(texts(ps), ns, keys, ss)
            &&& top_members(raw_members(ns, ss, keys, ns.len() as int), ms)
            &&& r.len() == ms.len()
            &&& forall|i: int| 0 <= i < r.len() ==> person_ok(#[trigger] r[i], ms[i], pats_of(ms, ms.len() as int), ps, i)
            &&& edges_ok(es, ps, ms)
            &&& people_evidence_ok(r, ps, ms)
        }
}

proof fn lemma_texts(ps: Seq<(usize, Vec<char>)>)
    ensures
        texts(para_views(ps)) == line_views(ps),
{
    assert(texts(para_views(ps)) =~= line_views(ps));
}

/// The raw candidate table, for probes: each candidate with its count,
/// its clean speech anchors, and its left and right island counts.
pub fn candidate_stats(text: &str, chapters: &[Chapter], upto: usize) -> (r: Vec<(String, u32, u32, u32, u32)>)
    requires
        bodies_ok(text@, chapter_views(chapters@)),
    ensures
        exists|ns: Seq<Seq<char>>, keys: Seq<u128>, ss: Seq<StatV>|
            #![trigger census_ok(texts(scanned_paras(text@, chapters@, upto as int)), ns, keys, ss)]
            {
                &&& census_ok(texts(scanned_paras(text@, chapters@, upto as int)), ns, keys, ss)
                &&& r@.len() == ns.len()
                &&& forall|t: int|
                    0 <= t < r@.len() ==> {
                        &&& (#[trigger] r@[t]).0@ == ns[t]
                        &&& r@[t].1 == ss[t].0
                        &&& r@[t].2 == ss[t].3
                        &&& r@[t].3 == ss[t].4
                        &&& r@[t].4 == ss[t].5
                    }
            },
{
    let ps = paragraphs(text, chapters, upto);
    proof {
        lemma_texts(ps@);
    }
    let (names, keys, stats) = candidates(&ps);
    let ghost ns = name_views(names@);
    let ghost ss = stat_views(stats@);
    let mut out: Vec<(String, u32, u32, u32, u32)> = Vec::new();
    let mut t: usize = 0;
    while t < names.len()
        invariant
            names@.len() == stats@.len(),
            ns == name_views(names@),
            ss == stat_views(stats@),
            t <= names@.len(),
            out@.len() == t,
            forall|u: int|
                0 <= u < t ==> {
                    &&& (#[trigger] out@[u]).0@ == ns[u]
                    &&& out@[u].1 == ss[u].0
                    &&& out@[u].2 == ss[u].3
                    &&& out@[u].3 == ss[u].4
                    &&& out@[u].4 == ss[u].5
                },
        decreases names.len() - t,
    {
        let st = &stats[t];
        out.push((from_chars(names[t].as_slice()), st.count, st.anchored, st.boundary, st.boundary_r));
        t += 1;
    }
    proof {
        let ls = line_views(ps@);
        assert forall|w: Seq<char>| seeded(ls, w) && seed_ok(w) implies exists|t: int| 0 <= t < ns.len() && #[trigger] ns[t] == w by {
            let t = choose|t: int| 0 <= t < names@.len() && #[trigger] names@[t]@ == w;
            assert(ns[t] == w);
        }
        assert(census_ok(ls, ns, keys@, ss));
        assert(texts(scanned_paras(text@, chapters@, upto as int)) == ls);
        assert(census_ok(texts(scanned_paras(text@, chapters@, upto as int)), ns, keys@, ss));
    }
    out
}

/// The ranked cast of the paragraphs, its edges and the chapters it spans.
fn rank(ps: &Vec<(usize, Vec<char>)>) -> (r: (Vec<Person>, Vec<Edge>, usize))
    requires
        forall|i: int| 0 <= i < ps@.len() ==> (#[trigger] ps@[i]).0 < usize::MAX,
    ensures
        ranked_ok(para_views(ps@), r.0@),
        forall|i: int| 0 <= i < r.1@.len() ==> edge_ok(#[trigger] r.1@[i], r.0@.len() as int),
        forall|a: int, b: int| 0 <= a < b < r.1@.len() ==> !edge_before(#[trigger] r.1@[b], #[trigger] r.1@[a]),
        r.2 == chapter_span(para_views(ps@), ps@.len() as int),
        rank_ok(para_views(ps@), r.0@, r.1@),
{
    proof {
        lemma_texts(ps@);
    }
    let (names, keys, stats) = candidates(ps);
    let members = select(&names, &keys, &stats);
    let (people, edges, span) = graph(ps, &members);
    proof {
        let ls = line_views(ps@);
        let ns = name_views(names@);
        let ss = stat_views(stats@);
        assert forall|w: Seq<char>| seeded(ls, w) && seed_ok(w) implies exists|t: int| 0 <= t < ns.len() && #[trigger] ns[t] == w by {
            let t = choose|t: int| 0 <= t < names@.len() && #[trigger] names@[t]@ == w;
            assert(ns[t] == w);
        }
        assert(census_ok(ls, ns, keys@, ss));
        let ms = member_views(members@);
        assert(top_members(raw_members(ns, ss, keys@, ns.len() as int), ms));
        assert(census_ok(texts(para_views(ps@)), ns, keys@, ss));
    }
    (people, edges, span)
}

/// The paragraphs of the scanned range, each chapter index below the limit.
fn scanned_lines(text: &str, chapters: &[Chapter], upto: usize) -> (ps: Vec<(usize, Vec<char>)>)
    requires
        bodies_ok(text@, chapter_views(chapters@)),
        forall|i: int| 0 <= i < chapters@.len() ==> (#[trigger] chapters@[i]).index < usize::MAX,
    ensures
        para_views(ps@) == scanned_paras(text@, chapters@, upto as int),
        forall|i: int| 0 <= i < ps@.len() ==> (#[trigger] ps@[i]).0 < usize::MAX,
{
    let ps = paragraphs(text, chapters, upto);
    let ghost pv = para_views(ps@);
    proof {
        assert forall|j: int| 0 <= j < scanned(chapters@, upto as int) implies (#[trigger] chapter_views(chapters@)[j]).0 < usize::MAX by {
            assert(chapter_views(chapters@)[j].0 == chapters@[j].index);
        }
        lemma_para_chapters(text@, chapter_views(chapters@), scanned(chapters@, upto as int), usize::MAX as int);
        assert forall|i: int| 0 <= i < ps@.len() implies (#[trigger] ps@[i]).0 < usize::MAX by {
            assert(pv[i].0 == ps@[i].0);
        }
    }
    ps
}

/// Everything the scan knows of the people before pruning: the whole
/// ranked cast, so a probe can see where a missed lead fell.
pub fn scan_ranked(text: &str, chapters: &[Chapter], upto: usize) -> (r: Vec<Person>)
    requires
        bodies_ok(text@, chapter_views(chapters@)),
        forall|i: int| 0 <= i < chapters@.len() ==> (#[trigger] chapters@[i]).index < usize::MAX,
    ensures
        ranked_ok(scanned_paras(text@, chapters@, upto as int), r@),
{
    let ps = scanned_lines(text, chapters, upto);
    let (people, _edges, _span) = rank(&ps);
    people
}

/// What a scan owes: the ranked cast `r` of the paragraphs and its edges
/// `es`, pruned to the people a reader sees, with the relationship report
/// read from the whole ranked cast.
pub open spec fn scan_ok(ps: Seq<ParaV>, r: Seq<Person>, es: Seq<Edge>, c: Cast) -> bool {
    let span = chapter_span(ps, ps.len() as int);
    let seats = seated(r, span);
    &&& ranked_ok(ps, r)
    &&& forall|i: int| 0 <= i < es.len() ==> edge_ok(#[trigger] es[i], r.len() as int)
    &&& forall|a: int, b: int| 0 <= a < b < es.len() ==> !edge_before(#[trigger] es[b], #[trigger] es[a])
    &&& c.people@ == kept_people(r, seats, r.len() as int)
    &&& c.edges@ == kept_edges(es, seats, es.len() as int)
    &&& c.version == SCAN_VERSION
    &&& c.relationship matches Some(rel) && {
        &&& rel.analyzed_chapters == span
        &&& rel.version == RELATIONSHIP_VERSION
        &&& r.len() > 0 ==> rel.protagonist@ == r[0].name@ && rel.candidate_count == candidate_count_spec(r)
    }
}

/// The paragraphs as the relationship rules read them.
pub open spec fn para_ints(pp: Seq<(usize, &str)>) -> Seq<ParaV> {
    pp.map_values(|p: (usize, &str)| (p.0 as int, p.1@))
}

/// How much of the scanned chapters is romance, in words.
pub open spec fn focus_word(text: Seq<char>, chapters: Seq<Chapter>, upto: int) -> Seq<char> {
    zh_spec(analyze_spec(text, chapter_views(chapters).subrange(0, scanned(chapters, upto))).romance)@
}

/// All a scan owes: `scan_ok`, the ranked cast and its edges as `rank`
/// computes them, and the relationship report as `romance::analyze`
/// computes it from the scanned paragraphs, that cast and those edges.
pub open spec fn scan_full(text: Seq<char>, chapters: Seq<Chapter>, upto: int, r: Seq<Person>, es: Seq<Edge>, c: Cast) -> bool {
    let ps = scanned_paras(text, chapters, upto);
    &&& scan_ok(ps, r, es, c)
    &&& rank_ok(ps, r, es)
    &&& c.relationship matches Some(rel) && {
        &&& r.len() == 0 ==> rel.label@ == "无法判断"@ && rel.confidence == 0 && rel.people@.len() == 0
            && rel.group_evidence@.len() == 0 && rel.candidate_count == 0
        &&& r.len() > 0 ==> exists|
            pp: Seq<(usize, &str)>,
            pv: Seq<(usize, Vec<char>)>,
            wv: Seq<(usize, Vec<char>)>,
            nm: Seq<Vec<Vec<char>>>,
            cs: Seq<&Person>,
            lg: Seq<Ledger>,
            pre: Seq<RelationshipPerson>,
            merged: Seq<RelationshipPerson>,
            rows: Seq<RelationshipPerson>,
        | para_ints(pp) == ps && #[trigger] analysis_ok(pp, r, es, focus_word(text, chapters, upto), pv, wv, nm, cs, lg, pre, merged, rows, rel)
    }
}

/// The cast of the first `upto` chapters (all of them when fewer): the
/// paragraphs' candidates, validated and ranked, their co-occurrence graph,
/// the relationship structure of the whole ranked cast, and the graph a
/// reader sees.
pub fn scan(text: &str, chapters: &[Chapter], upto: usize) -> (c: Cast)
    requires
        bodies_ok(text@, chapter_views(chapters@)),
        forall|i: int| 0 <= i < chapters@.len() ==> (#[trigger] chapters@[i]).index < usize::MAX,
    ensures
        exists|r: Seq<Person>, es: Seq<Edge>| #[trigger] scan_ok(scanned_paras(text@, chapters@, upto as int), r, es, c),
        exists|r: Seq<Person>, es: Seq<Edge>| #[trigger] scan_full(text@, chapters@, upto as int, r, es, c),
{
    let n = if upto < chapters.len() { upto } else { chapters.len() };
    let ps = scanned_lines(text, chapters, upto);
    let ghost pv = para_views(ps@);
    let (people, edges, span) = rank(&ps);
    // the paragraphs as text, for the relationship rules
    let mut lines: Vec<(usize, String)> = Vec::new();
    let mut i: usize = 0;
    while i < ps.len()
        invariant
            lines@.len() == i,
            i <= ps@.len(),
            forall|j: int| 0 <= j < i ==> #[trigger] lines@[j].0 == ps@[j].0 && lines@[j].1@ == ps@[j].1@,
        decreases ps@.len() - i,
    {
        lines.push((ps[i].0, from_chars(ps[i].1.as_slice())));
        i += 1;
    }
    let mut paras: Vec<(usize, &str)> = Vec::new();
    let mut i: usize = 0;
    while i < lines.len()
        invariant
            i <= lines@.len(),
            paras@.len() == i,
            forall|j: int| 0 <= j < i ==> #[trigger] paras@[j].0 == lines@[j].0 && paras@[j].1@ == lines@[j].1@,
        decreases lines@.len() - i,
    {
        paras.push((lines[i].0, lines[i].1.as_str()));
        i += 1;
    }
    assert(para_ints(paras@) =~= pv);
    let read = vstd::slice::slice_subrange(chapters, 0, n);
    proof {
        let cv = chapter_views(chapters@);
        let sub = cv.subrange(0, n as int);
        assert forall|i: int| 0 <= i < sub.len() implies #[trigger] sub[i] == cv[i] by {}
        assert(bodies_ok(text@, sub));
        assert(read@.map_values(|c: Chapter| c@) =~= sub);
    }
    let focus = crate::focus::analyze(text, read);
    let fw = focus.romance.zh();
    let relationship = crate::romance::analyze(paras.as_slice(), people.as_slice(), edges.as_slice(), span, fw);
    let ghost rv = people@;
    let ghost ev = edges@;
    let mut cast = prune(people, edges, span);
    cast.relationship = Some(relationship);
    assert(scan_ok(pv, rv, ev, cast));
    assert(zh_spec(focus.romance)@ == focus_word(text@, chapters@, upto as int));
    assert(scan_full(text@, chapters@, upto as int, rv, ev, cast));
    cast
}

proof fn lemma_paras_prefix(t: Seq<char>, a: Seq<ChapV>, b: Seq<ChapV>, n: int)
    requires
        0 <= n <= a.len(),
        n <= b.len(),
        forall|i: int| 0 <= i < n ==> a[i] == b[i],
    ensures
        paras_upto(t, a, n) == paras_upto(t, b, n),
    decreases n,
{
    if n > 0 {
        lemma_paras_prefix(t, a, b, n - 1);
        assert(a[n - 1] == b[n - 1]);
    }
}

/// The scan reads no further than it was asked to: two tables of contents
/// that agree on the chapters scanned give the same paragraphs, so nothing
/// past the reader's progress can shape the cast.
pub proof fn scan_reads_only_reached_chapters(text: Seq<char>, a: Seq<Chapter>, b: Seq<Chapter>, upto: int)
    requires
        scanned(a, upto) == scanned(b, upto),
        forall|i: int| 0 <= i < scanned(a, upto) ==> #[trigger] a[i] == b[i],
    ensures
        scanned_paras(text, a, upto) == scanned_paras(text, b, upto),
{
    let n = scanned(a, upto);
    let ca = chapter_views(a);
    let cb = chapter_views(b);
    assert forall|i: int| 0 <= i < n implies ca[i] == cb[i] by {
        assert(a[i] == b[i]);
    }
    if n >= 0 {
        lemma_paras_prefix(text, ca, cb, n);
    }
}

/// `a` is `b` with some people left out, in `b`'s order, each keeping all
/// but its uncertain flag: `idx` says where each came from.
pub open spec fn sublist_at(a: Seq<Person>, b: Seq<Person>, idx: Seq<int>) -> bool {
    &&& idx.len() == a.len()
    &&& forall|k: int| 0 <= k < idx.len() ==> 0 <= #[trigger] idx[k] < b.len()
    &&& forall|x: int, y: int| 0 <= x < y < idx.len() ==> idx[x] < idx[y]
    &&& forall|k: int|
        0 <= k < a.len() ==> (#[trigger] a[k]) == Person { uncertain: a[k].uncertain, ..b[idx[k]] }
}

proof fn lemma_kept_sublist(ps: Seq<Person>, s: Seq<bool>, k: int) -> (idx: Seq<int>)
    requires
        0 <= k <= ps.len(),
        k <= s.len(),
    ensures
        sublist_at(kept_people(ps, s, k), ps, idx),
        forall|j: int| 0 <= j < idx.len() ==> #[trigger] idx[j] < k,
        forall|j: int| 0 <= j < idx.len() ==> s[#[trigger] idx[j]] && kept_people(ps, s, k)[j].uncertain == unsure(ps[idx[j]]),
    decreases k,
{
    if k == 0 {
        Seq::empty()
    } else {
        let prev = lemma_kept_sublist(ps, s, k - 1);
        if s[k - 1] {
            let idx = prev.push(k - 1);
            let a = kept_people(ps, s, k);
            assert forall|j: int| 0 <= j < a.len() implies (#[trigger] a[j]) == Person { uncertain: a[j].uncertain, ..ps[idx[j]] } by {
                if j < prev.len() {
                    assert(a[j] == kept_people(ps, s, k - 1)[j]);
                }
            }
            assert forall|j: int| 0 <= j < idx.len() implies s[#[trigger] idx[j]] && a[j].uncertain == unsure(ps[idx[j]]) by {
                if j < prev.len() {
                    assert(a[j] == kept_people(ps, s, k - 1)[j]);
                    assert(idx[j] == prev[j]);
                }
            }
            idx
        } else {
            prev
        }
    }
}

/// The people a scan shows are a pruned sub-list of the cast it ranked
/// (the cast `scan_ranked` describes): some left out, the rest in rank
/// order, each with the same name, aliases, mentions, chapters, first
/// chapter and evidence.
pub proof fn scanned_people_are_a_pruned_sublist(text: Seq<char>, chapters: Seq<Chapter>, upto: int, r: Seq<Person>, es: Seq<Edge>, c: Cast)
    requires
        scan_full(text, chapters, upto, r, es, c),
    ensures
        ranked_ok(scanned_paras(text, chapters, upto), r),
        exists|idx: Seq<int>| sublist_at(c.people@, r, idx),
{
    let ps = scanned_paras(text, chapters, upto);
    let span = chapter_span(ps, ps.len() as int);
    let seats = seated(r, span);
    crate::cast::prune::lemma_seated_len(r, span);
    let idx = lemma_kept_sublist(r, seats, r.len() as int);
}

/// The people a scan shows are at most `TOP_CAST`, each dense enough to
/// have been seated, and marked uncertain exactly where the density is low.
pub proof fn scanned_people_are_few_and_dense(ps: Seq<ParaV>, r: Seq<Person>, es: Seq<Edge>, c: Cast)
    requires
        scan_ok(ps, r, es, c),
    ensures
        c.people@.len() <= TOP_CAST,
        forall|k: int| 0 <= k < c.people@.len() ==> dense(#[trigger] c.people@[k]) && c.people@[k].uncertain == unsure(c.people@[k]),
{
    let span = chapter_span(ps, ps.len() as int);
    let seats = seated(r, span);
    crate::cast::prune::lemma_seated_len(r, span);
    crate::cast::prune::pruned_cast_fits(r, span);
    let idx = lemma_kept_sublist(r, seats, r.len() as int);
    crate::cast::prune::lemma_seated_dense(r, span);
    assert forall|k: int| 0 <= k < c.people@.len() implies dense(#[trigger] c.people@[k]) && c.people@[k].uncertain == unsure(c.people@[k]) by {
        assert(seats[idx[k]]);
        assert(dense(r[idx[k]]));
    }
}

/// The edges a scan shows join two of the people it shows, the smaller
/// index first, each heavy enough to count and keeping the hints and label
/// its pair was given.
pub proof fn scanned_edges_join_shown_people(ps: Seq<ParaV>, r: Seq<Person>, es: Seq<Edge>, c: Cast)
    requires
        scan_ok(ps, r, es, c),
    ensures
        forall|k: int|
            0 <= k < c.edges@.len() ==> {
                let e = #[trigger] c.edges@[k];
                &&& e.a < e.b < c.people@.len()
                &&& e.weight >= crate::cast::graph::MIN_EDGE
            },
{
    let span = chapter_span(ps, ps.len() as int);
    let seats = seated(r, span);
    crate::cast::prune::lemma_seated_len(r, span);
    crate::cast::prune::lemma_kept_len(r, seats, r.len() as int);
    crate::cast::prune::lemma_kept_edges(es, seats, es.len() as int);
    assert forall|k: int| 0 <= k < c.edges@.len() implies {
        let e = #[trigger] c.edges@[k];
        &&& e.a < e.b < c.people@.len()
        &&& e.weight >= crate::cast::graph::MIN_EDGE
    } by {
        let e = c.edges@[k];
        let i = choose|i: int| 0 <= i < es.len() && e.weight == es[i].weight && e.hints == es[i].hints && e.label == es[i].label;
        assert(edge_ok(es[i], r.len() as int));
    }
}

} // verus!
