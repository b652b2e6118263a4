//! What the reader's screens are drawn from: the records handed to the shelf,
//! the reader, the notes and the reading log, and the rules applied to what
//! the reader types before any of it is stored.
use vstd::prelude::*;
use crate::store::AnnotationRecord;
use crate::text::{from_chars, to_chars, trim, trim_chars, decimal, dec};
use crate::cast::{Cast, Edge, Person};

verus! {

/// What one book has cost in model output, and what deleting it would win back.
#[derive(Debug, Clone)]
pub struct CacheEntry {
    pub book_id: i64,
    pub title: String,
    pub chapter_count: i64,
    /// Chapters that carry a summary.
    pub summaries: i64,
    pub summary_bytes: i64,
    pub chunks: i64,
    pub chunk_bytes: i64,
}

#[derive(Debug, Clone)]
pub struct CacheUsage {
    pub books: Vec<CacheEntry>,
    /// The whole library file; always bigger than the sum of the parts.
    pub db_bytes: i64,
}

#[derive(Debug, Clone)]
pub struct ChapterInfo {
    pub index: u32,
    /// What the author numbered it; never a key.
    pub number: Option<i64>,
    pub title: String,
    pub start: i64,
    pub end: i64,
    /// One-sentence summary from the enrichment pass, when it has got here.
    pub summary: Option<String>,
    /// One-word mood label from the same pass.
    pub mood: Option<String>,
}

#[derive(Debug, Clone)]
pub struct VolumeInfo {
    pub title: String,
    pub first_chapter: u32,
}

#[derive(Debug, Clone)]
pub struct BookInfo {
    pub id: i64,
    pub path: String,
    pub title: String,
    pub author: Option<String>,
    pub encoding: String,
    pub style: String,
    pub total_bytes: i64,
    pub chapters: Vec<ChapterInfo>,
    pub volumes: Vec<VolumeInfo>,
    pub interstitial_count: u32,
    /// Numbering that does not climb; shown as a hint, never acted on.
    pub anomalies: Vec<String>,
    pub last_chapter: i64,
    pub last_offset: i64,
    pub cover_path: Option<String>,
    /// Coarse, independent estimates, never percentages.
    pub career_focus: String,
    pub romance_focus: String,
    pub growth_focus: String,
}

/// What the shelf shows of a book.
#[derive(Debug, Clone)]
pub struct ShelfItem {
    pub id: i64,
    pub path: String,
    pub title: String,
    pub author: Option<String>,
    pub chapter_count: i64,
    pub last_chapter: i64,
    pub last_offset: i64,
    pub total_bytes: i64,
    pub last_opened_at: Option<i64>,
    pub encoding: String,
    /// Stable per title, so a book keeps its cover colour forever.
    pub cover_hue: u32,
    pub last_chapter_title: String,
    /// Pinned books hold the top of the shelf, above recency.
    pub pinned: bool,
    /// At most two genre tags; empty when the text does not say.
    pub genre_tags: Vec<String>,
    pub cover_path: Option<String>,
}

#[derive(Debug, Clone, Copy, PartialEq, Eq, Structural)]
pub enum ParaKind {
    Body,
    Title,
    /// A volume header: divides the story, belongs to no chapter.
    Volume,
    /// Author's note or site ad: rendered, set apart, never in the TOC.
    Interstitial,
}

#[derive(Debug, Clone)]
pub struct Paragraph {
    pub kind: ParaKind,
    pub text: String,
    /// Byte offsets into the decoded book.
    pub start: i64,
    pub end: i64,
}

#[derive(Debug, Clone)]
pub struct BookAnnotation {
    pub id: i64,
    pub book_id: i64,
    pub chapter: i64,
    pub start: i64,
    pub end: i64,
    pub quote: String,
    pub body: String,
    pub visibility: String,
    pub sync_id: Option<String>,
    pub created_at: i64,
    pub updated_at: i64,
}

#[derive(Debug, Clone)]
pub struct ReadingEvent {
    pub book_id: i64,
    pub started: i64,
    pub ended: i64,
}

#[derive(Debug, Clone)]
pub struct BookTime {
    pub title: String,
    pub seconds: i64,
}

// ------------------------------------------------------------ progress

/// The chapter progress is filed under: the one that really holds the saved
/// offset when it is known, otherwise the one the reader was shown.
pub fn save_progress(shown_chapter: i64, chapter_at_offset: Option<i64>) -> (r: i64)
    ensures
        r == match chapter_at_offset {
            Some(c) => c,
            None => shown_chapter,
        },
{
    match chapter_at_offset {
        Some(c) => c,
        None => shown_chapter,
    }
}

// ------------------------------------------------------------ notes

pub open spec fn same_note(a: BookAnnotation, r: AnnotationRecord) -> bool {
    &&& a.id == r.id
    &&& a.book_id == r.book_id
    &&& a.chapter == r.chapter
    &&& a.start == r.start
    &&& a.end == r.end
    &&& a.quote@ == r.quote@
    &&& a.body@ == r.body@
    &&& a.visibility@ == r.visibility@
    &&& a.sync_id.is_some() == r.sync_id.is_some()
    &&& (a.sync_id.is_some() ==> a.sync_id.unwrap()@ == r.sync_id.unwrap()@)
    &&& a.created_at == r.created_at
    &&& a.updated_at == r.updated_at
}

fn copy_opt(o: &Option<String>) -> (r: Option<String>)
    ensures
        r.is_some() == o.is_some(),
        r.is_some() ==> r.unwrap()@ == o.unwrap()@,
{
    match o {
        Some(s) => Some(s.clone()),
        None => None,
    }
}

/// A book's notes, as the notes panel shows them.
pub fn list_annotations(rows: &Vec<AnnotationRecord>) -> (r: Vec<BookAnnotation>)
    ensures
        r@.len() == rows@.len(),
        forall|i: int| 0 <= i < rows@.len() ==> same_note(#[trigger] r@[i], rows@[i]),
{
    let mut out: Vec<BookAnnotation> = Vec::new();
    let mut i: usize = 0;
    while i < rows.len()
        invariant
            i <= rows@.len(),
            out@.len() == i,
            forall|k: int| 0 <= k < i ==> same_note(#[trigger] out@[k], rows@[k]),
        decreases rows.len() - i,
    {
        let a = &rows[i];
        out.push(
            BookAnnotation {
                id: a.id,
                book_id: a.book_id,
                chapter: a.chapter,
                start: a.start,
                end: a.end,
                quote: a.quote.clone(),
                body: a.body.clone(),
                visibility: a.visibility.clone(),
                sync_id: copy_opt(&a.sync_id),
                created_at: a.created_at,
                updated_at: a.updated_at,
            },
        );
        i += 1;
    }
    out
}

/// Check a note before it is stored: its body may not be blank and its range
/// may not run backwards. On success, the quote and the body to store, both
/// trimmed.
pub fn save_annotation(start: i64, end: i64, quote: &str, body: &str) -> (r: Result<(String, String), String>)
    ensures
        match r {
            Ok((q, b)) => trim(body@).len() > 0 && end >= start && q@ == trim(quote@) && b@ == trim(
                body@,
            ),
            Err(e) => if trim(body@).len() == 0 {
                e@ == "标注内容不能为空"@
            } else {
                end < start && e@ == "标注位置无效"@
            },
        },
{
    let b = trim_chars(to_chars(body).as_slice());
    if b.len() == 0 {
        return Err("标注内容不能为空".to_owned());
    }
    if end < start {
        return Err("标注位置无效".to_owned());
    }
    let q = trim_chars(to_chars(quote).as_slice());
    Ok((from_chars(q.as_slice()), from_chars(b.as_slice())))
}

/// A title or author override as typed: trimmed, and a blank one clears the
/// override so what was parsed from the file comes back.
pub open spec fn override_spec(s: Seq<char>) -> Option<Seq<char>> {
    if trim(s).len() == 0 {
        None
    } else {
        Some(trim(s))
    }
}

fn typed_override(s: &str) -> (r: Option<String>)
    ensures
        match r {
            Some(t) => override_spec(s@) == Some(t@),
            None => override_spec(s@) is None,
        },
{
    let t = trim_chars(to_chars(s).as_slice());
    if t.len() == 0 {
        None
    } else {
        Some(from_chars(t.as_slice()))
    }
}

/// The title a book is shown under from now on, or None to fall back to the
/// parsed one. The file itself is never touched.
pub fn rename_book(title: &str) -> (r: Option<String>)
    ensures
        match r {
            Some(t) => override_spec(title@) == Some(t@),
            None => override_spec(title@) is None,
        },
{
    typed_override(title)
}

/// The author a book is shown under from now on, or None to fall back to the
/// parsed one.
pub fn set_book_author(author: &str) -> (r: Option<String>)
    ensures
        match r {
            Some(t) => override_spec(author@) == Some(t@),
            None => override_spec(author@) is None,
        },
{
    typed_override(author)
}

// ------------------------------------------------------------ reading log

/// Sessions since a cutoff, oldest first, from (book, started, ended) rows.
pub fn list_events(rows: &Vec<(i64, i64, i64)>) -> (r: Vec<ReadingEvent>)
    ensures
        r@.len() == rows@.len(),
        forall|i: int|
            0 <= i < rows@.len() ==> (#[trigger] r@[i]).book_id == rows@[i].0 && r@[i].started
                == rows@[i].1 && r@[i].ended == rows@[i].2,
{
    let mut out: Vec<ReadingEvent> = Vec::new();
    let mut i: usize = 0;
    while i < rows.len()
        invariant
            i <= rows@.len(),
            out@.len() == i,
            forall|k: int|
                0 <= k < i ==> (#[trigger] out@[k]).book_id == rows@[k].0 && out@[k].started
                    == rows@[k].1 && out@[k].ended == rows@[k].2,
        decreases rows.len() - i,
    {
        let (b, s, e) = rows[i];
        out.push(ReadingEvent { book_id: b, started: s, ended: e });
        i += 1;
    }
    out
}

/// Total reading time per book, in the order given (most read first).
pub fn time_per_book(rows: &Vec<(String, i64)>) -> (r: Vec<BookTime>)
    ensures
        r@.len() == rows@.len(),
        forall|i: int|
            0 <= i < rows@.len() ==> (#[trigger] r@[i]).title@ == rows@[i].0@ && r@[i].seconds
                == rows@[i].1,
{
    let mut out: Vec<BookTime> = Vec::new();
    let mut i: usize = 0;
    while i < rows.len()
        invariant
            i <= rows@.len(),
            out@.len() == i,
            forall|k: int|
                0 <= k < i ==> (#[trigger] out@[k]).title@ == rows@[k].0@ && out@[k].seconds
                    == rows@[k].1,
        decreases rows.len() - i,
    {
        out.push(BookTime { title: rows[i].0.clone(), seconds: rows[i].1 });
        i += 1;
    }
    out
}

// ------------------------------------------------------------ the cast graph

#[derive(Debug, Clone)]
pub struct RelEvidence {
    pub chapter: u32,
    pub text: String,
}

#[derive(Debug, Clone)]
pub struct CastPerson {
    pub name: String,
    /// Shorter forms folded in.
    pub aliases: Vec<String>,
    pub mentions: u32,
    /// Distinct chapters the person appears in, within the scanned range.
    pub chapters: u32,
    pub first_chapter: u32,
    /// The statistics could not tell whether this is a person and the model
    /// has not ruled on it yet.
    pub uncertain: bool,
    /// The model's account of who this character is, once written.
    pub background: Option<String>,
    /// The sentences that account rests on.
    pub evidence: Vec<RelEvidence>,
}

#[derive(Debug, Clone)]
pub struct CastRelation {
    /// Indices into [`CastGraph::people`].
    pub a: u32,
    pub b: u32,
    /// Sharing a sentence counts double sharing a paragraph.
    pub weight: u32,
    /// The model's summary of how the pair get on, once written.
    pub label: Option<String>,
    /// Appellation chips ("同学×5") for the evidence panel.
    pub hints: Vec<String>,
    pub evidence: Vec<RelEvidence>,
}

#[derive(Debug, Clone)]
pub struct CastGraph {
    pub people: Vec<CastPerson>,
    pub edges: Vec<CastRelation>,
    /// Chapters actually scanned: the spoiler cap.
    pub upto: u32,
}

#[derive(Debug, Clone)]
pub struct RelationshipEvidenceInfo {
    pub chapter: u32,
    pub person: String,
    pub kind: String,
    pub text: String,
}

#[derive(Debug, Clone)]
pub struct RelationshipPersonInfo {
    pub name: String,
    pub status: String,
    pub evidence: Vec<RelationshipEvidenceInfo>,
}

#[derive(Debug, Clone)]
pub struct RelationshipStructureInfo {
    pub label: String,
    pub reason: String,
    pub confidence: u32,
    pub protagonist: String,
    pub analyzed_chapters: u32,
    pub candidate_count: u32,
    pub people: Vec<RelationshipPersonInfo>,
    pub group_evidence: Vec<RelationshipEvidenceInfo>,
}


/// The model's ruling on `name` among the first `k` verdicts; a later one
/// overrides an earlier one.
pub open spec fn verdict_of(vs: Seq<(String, bool)>, name: Seq<char>, k: int) -> Option<bool>
    decreases k,
{
    if k <= 0 {
        None
    } else if vs[k - 1].0@ == name {
        Some(vs[k - 1].1)
    } else {
        verdict_of(vs, name, k - 1)
    }
}

/// The text stored for `key` among the first `k` rows (the last one wins).
pub open spec fn text_of(rows: Seq<(String, String)>, key: Seq<char>, k: int) -> Option<Seq<char>>
    decreases k,
{
    if k <= 0 {
        None
    } else if rows[k - 1].0@ == key {
        Some(rows[k - 1].1@)
    } else {
        text_of(rows, key, k - 1)
    }
}

/// The summary stored for the pair (`a`, `b`) among the first `k` rows.
pub open spec fn summary_of(rows: Seq<(String, String, String)>, a: Seq<char>, b: Seq<char>, k: int) -> Option<Seq<char>>
    decreases k,
{
    if k <= 0 {
        None
    } else if rows[k - 1].0@ == a && rows[k - 1].1@ == b {
        Some(rows[k - 1].2@)
    } else {
        summary_of(rows, a, b, k - 1)
    }
}

/// Nobody is dropped unless the model said outright it is no person.
pub open spec fn kept_by(vs: Seq<(String, bool)>, p: Person) -> bool {
    verdict_of(vs, p.name@, vs.len() as int) != Some(false)
}

pub open spec fn ev_view(ev: Seq<(usize, String)>) -> Seq<(int, Seq<char>)> {
    ev.map_values(|e: (usize, String)| ((e.0 as u32) as int, e.1@))
}

pub open spec fn rel_view(ev: Seq<RelEvidence>) -> Seq<(int, Seq<char>)> {
    ev.map_values(|e: RelEvidence| (e.chapter as int, e.text@))
}

pub open spec fn opt_text(o: Option<String>) -> Option<Seq<char>> {
    match o {
        Some(s) => Some(s@),
        None => None,
    }
}

/// How many of the first `k` people are kept.
pub open spec fn kept_before(vs: Seq<(String, bool)>, ps: Seq<Person>, k: int) -> int
    decreases k,
{
    if k <= 0 {
        0
    } else {
        kept_before(vs, ps, k - 1) + (if kept_by(vs, ps[k - 1]) { 1int } else { 0int })
    }
}

/// The graph person shown for cast person `p`.
pub open spec fn person_shown(c: CastPerson, p: Person, vs: Seq<(String, bool)>, bs: Seq<(String, String)>) -> bool {
    &&& c.name@ == p.name@
    &&& c.aliases@.map_values(|s: String| s@) == p.aliases@.map_values(|s: String| s@)
    &&& c.mentions == p.mentions
    &&& c.chapters == p.chapters
    &&& c.first_chapter == p.first_chapter as u32
    &&& c.uncertain == (p.uncertain && verdict_of(vs, p.name@, vs.len() as int) is None)
    &&& opt_text(c.background) == text_of(bs, p.name@, bs.len() as int)
    &&& rel_view(c.evidence@) == ev_view(p.evidence@)
}

/// An appellation chip: the word, ×, the count.
pub open spec fn chip(h: (String, u32)) -> Seq<char> {
    h.0@ + seq!['×'] + dec(h.1 as nat)
}

/// The graph relation shown for cast edge `e`, whose ends sit at `a` and `b`.
pub open spec fn relation_shown(r: CastRelation, e: Edge, a: int, b: int, ps: Seq<Person>, ss: Seq<(String, String, String)>) -> bool {
    &&& r.a == a as u32
    &&& r.b == b as u32
    &&& r.weight == e.weight
    &&& opt_text(r.label) == summary_of(ss, ps[e.a as int].name@, ps[e.b as int].name@, ss.len() as int)
    &&& r.hints@.map_values(|s: String| s@) == e.hints@.map_values(|h: (String, u32)| chip(h))
    &&& rel_view(r.evidence@) == ev_view(e.evidence@)
}

/// The edges among the first `k` whose two ends are both kept.
pub open spec fn shown_edges(vs: Seq<(String, bool)>, c: Cast, k: int) -> Seq<Edge>
    decreases k,
{
    if k <= 0 {
        Seq::empty()
    } else {
        let e = c.edges@[k - 1];
        if kept_by(vs, c.people@[e.a as int]) && kept_by(vs, c.people@[e.b as int]) {
            shown_edges(vs, c, k - 1).push(e)
        } else {
            shown_edges(vs, c, k - 1)
        }
    }
}

proof fn lemma_kept_mono(vs: Seq<(String, bool)>, ps: Seq<Person>, a: int, b: int)
    requires
        0 <= a <= b,
    ensures
        kept_before(vs, ps, a) <= kept_before(vs, ps, b),
    decreases b - a,
{
    if a < b {
        lemma_kept_mono(vs, ps, a, b - 1);
    }
}

fn find_verdict(vs: &Vec<(String, bool)>, name: &String) -> (r: Option<bool>)
    ensures
        r == verdict_of(vs@, name@, vs@.len() as int),
{
    let mut k = vs.len();
    while k > 0
        invariant
            k <= vs@.len(),
            verdict_of(vs@, name@, vs@.len() as int) == verdict_of(vs@, name@, k as int),
        decreases k,
    {
        if string_eq(&vs[k - 1].0, name) {
            return Some(vs[k - 1].1);
        }
        k -= 1;
    }
    None
}

fn find_text(rows: &Vec<(String, String)>, key: &String) -> (r: Option<String>)
    ensures
        opt_text(r) == text_of(rows@, key@, rows@.len() as int),
{
    let mut k = rows.len();
    while k > 0
        invariant
            k <= rows@.len(),
            text_of(rows@, key@, rows@.len() as int) == text_of(rows@, key@, k as int),
        decreases k,
    {
        if string_eq(&rows[k - 1].0, key) {
            return Some(rows[k - 1].1.clone());
        }
        k -= 1;
    }
    None
}

fn find_summary(rows: &Vec<(String, String, String)>, a: &String, b: &String) -> (r: Option<String>)
    ensures
        opt_text(r) == summary_of(rows@, a@, b@, rows@.len() as int),
{
    let mut k = rows.len();
    while k > 0
        invariant
            k <= rows@.len(),
            summary_of(rows@, a@, b@, rows@.len() as int) == summary_of(rows@, a@, b@, k as int),
        decreases k,
    {
        if string_eq(&rows[k - 1].0, a) && string_eq(&rows[k - 1].1, b) {
            return Some(rows[k - 1].2.clone());
        }
        k -= 1;
    }
    None
}

fn string_eq(a: &String, b: &String) -> (r: bool)
    ensures
        r == (a@ == b@),
{
    let x = to_chars(a.as_str());
    let y = to_chars(b.as_str());
    if x.len() != y.len() {
        return false;
    }
    let mut i: usize = 0;
    while i < x.len()
        invariant
            x@ == a@,
            y@ == b@,
            x@.len() == y@.len(),
            i <= x@.len(),
            forall|j: int| 0 <= j < i ==> x@[j] == y@[j],
        decreases x.len() - i,
    {
        if x[i] != y[i] {
            return false;
        }
        i += 1;
    }
    assert(x@ =~= y@);
    true
}

fn rel_evidence(ev: &Vec<(usize, String)>) -> (r: Vec<RelEvidence>)
    ensures
        rel_view(r@) == ev_view(ev@),
{
    let mut out: Vec<RelEvidence> = Vec::new();
    let mut i: usize = 0;
    while i < ev.len()
        invariant
            i <= ev@.len(),
            rel_view(out@) == ev_view(ev@).take(i as int),
        decreases ev.len() - i,
    {
        let ghost pre = out@;
        #[verifier::truncate]
        let ch = ev[i].0 as u32;
        out.push(RelEvidence { chapter: ch, text: ev[i].1.clone() });
        assert(rel_view(out@) =~= rel_view(pre).push(((ev@[i as int].0 as u32) as int, ev@[i as int].1@)));
        assert(ev_view(ev@).take(i + 1) =~= ev_view(ev@).take(i as int).push(((ev@[i as int].0 as u32) as int, ev@[i as int].1@)));
        i += 1;
    }
    assert(ev_view(ev@).take(ev@.len() as int) =~= ev_view(ev@));
    out
}

fn copy_strings(v: &Vec<String>) -> (r: Vec<String>)
    ensures
        r@.map_values(|s: String| s@) == v@.map_values(|s: String| s@),
{
    let mut out: Vec<String> = Vec::new();
    let mut i: usize = 0;
    while i < v.len()
        invariant
            i <= v@.len(),
            out@.map_values(|s: String| s@) == v@.map_values(|s: String| s@).take(i as int),
        decreases v.len() - i,
    {
        let ghost pre = out@;
        out.push(v[i].clone());
        assert(out@.map_values(|s: String| s@) =~= pre.map_values(|s: String| s@).push(v@[i as int]@));
        assert(v@.map_values(|s: String| s@).take(i + 1) =~= v@.map_values(|s: String| s@).take(i as int).push(v@[i as int]@));
        i += 1;
    }
    assert(v@.map_values(|s: String| s@).take(v@.len() as int) =~= v@.map_values(|s: String| s@));
    out
}

fn chips(hs: &Vec<(String, u32)>) -> (r: Vec<String>)
    ensures
        r@.map_values(|s: String| s@) == hs@.map_values(|h: (String, u32)| chip(h)),
{
    let mut out: Vec<String> = Vec::new();
    let mut i: usize = 0;
    while i < hs.len()
        invariant
            i <= hs@.len(),
            out@.map_values(|s: String| s@) == hs@.map_values(|h: (String, u32)| chip(h)).take(i as int),
        decreases hs.len() - i,
    {
        let mut cs = to_chars(hs[i].0.as_str());
        cs.push('×');
        let d = decimal(hs[i].1 as u64);
        let mut j: usize = 0;
        let ghost base = cs@;
        while j < d.len()
            invariant
                j <= d@.len(),
                cs@ == base + d@.take(j as int),
            decreases d.len() - j,
        {
            cs.push(d[j]);
            j += 1;
            assert(cs@ =~= base + d@.take(j as int));
        }
        assert(d@.take(d@.len() as int) =~= d@);
        let ghost pre = out@;
        out.push(from_chars(cs.as_slice()));
        assert(cs@ == chip(hs@[i as int]));
        assert(out@.map_values(|s: String| s@) =~= pre.map_values(|s: String| s@).push(chip(hs@[i as int])));
        assert(hs@.map_values(|h: (String, u32)| chip(h)).take(i + 1) =~= hs@.map_values(|h: (String, u32)| chip(h)).take(i as int).push(chip(hs@[i as int])));
        i += 1;
    }
    assert(hs@.map_values(|h: (String, u32)| chip(h)).take(hs@.len() as int) =~= hs@.map_values(|h: (String, u32)| chip(h)));
    out
}

/// The cast graph as the reader sees it: the people the model did not
/// rule out, renumbered, with the model's backgrounds; the edges between
/// them with the model's summaries, appellation chips and evidence;
/// `upto` is the number of chapters scanned.
pub fn cast_graph(cast: &Cast, upto: usize, verdicts: &Vec<(String, bool)>, summaries: &Vec<(String, String, String)>, backgrounds: &Vec<(String, String)>) -> (g: CastGraph)
    requires
        forall|i: int| 0 <= i < cast.edges@.len() ==> (#[trigger] cast.edges@[i]).a < cast.people@.len() && cast.edges@[i].b < cast.people@.len(),
    ensures
        g.upto == upto as u32,
        g.people@.len() == kept_before(verdicts@, cast.people@, cast.people@.len() as int),
        forall|i: int| 0 <= i < cast.people@.len() && kept_by(verdicts@, #[trigger] cast.people@[i]) ==> person_shown(
            g.people@[kept_before(verdicts@, cast.people@, i)],
            cast.people@[i],
            verdicts@,
            backgrounds@,
        ),
        g.edges@.len() == shown_edges(verdicts@, *cast, cast.edges@.len() as int).len(),
        forall|j: int| 0 <= j < g.edges@.len() ==> {
            let e = #[trigger] shown_edges(verdicts@, *cast, cast.edges@.len() as int)[j];
            relation_shown(
                g.edges@[j],
                e,
                kept_before(verdicts@, cast.people@, e.a as int),
                kept_before(verdicts@, cast.people@, e.b as int),
                cast.people@,
                summaries@,
            )
        },
{
    let ghost vs = verdicts@;
    let ghost ps = cast.people@;
    let n = cast.people.len();
    let mut keep: Vec<bool> = Vec::new();
    let mut remap: Vec<usize> = Vec::new();
    let mut people: Vec<CastPerson> = Vec::new();
    let mut i: usize = 0;
    while i < n
        invariant
            n == ps.len(),
            ps == cast.people@,
            vs == verdicts@,
            i <= n,
            keep@.len() == i,
            remap@.len() == i,
            forall|k: int| 0 <= k < i ==> keep@[k] == kept_by(vs, ps[k]),
            forall|k: int| 0 <= k < i ==> remap@[k] == kept_before(vs, ps, k),
            people@.len() == kept_before(vs, ps, i as int),
            people@.len() <= i,
            forall|k: int| 0 <= k < i && kept_by(vs, #[trigger] ps[k]) ==> person_shown(
                people@[kept_before(vs, ps, k)],
                ps[k],
                vs,
                backgrounds@,
            ),
        decreases n - i,
    {
        let p = &cast.people[i];
        let v = find_verdict(verdicts, &p.name);
        let k = match v {
            Some(b) => b,
            None => true,
        };
        keep.push(k);
        remap.push(people.len());
        if k {
            #[verifier::truncate]
            let fc = p.first_chapter as u32;
            let c = CastPerson {
                name: p.name.clone(),
                aliases: copy_strings(&p.aliases),
                mentions: p.mentions,
                chapters: p.chapters,
                first_chapter: fc,
                uncertain: p.uncertain && v.is_none(),
                background: find_text(backgrounds, &p.name),
                evidence: rel_evidence(&p.evidence),
            };
            let ghost pre = people@;
            people.push(c);
            assert forall|q: int| 0 <= q < i + 1 && kept_by(vs, #[trigger] ps[q]) implies person_shown(
                people@[kept_before(vs, ps, q)],
                ps[q],
                vs,
                backgrounds@,
            ) by {
                if q < i {
                    lemma_kept_mono(vs, ps, q + 1, i as int);
                    assert(people@[kept_before(vs, ps, q)] == pre[kept_before(vs, ps, q)]);
                }
            }
        }
        i += 1;
    }
    let ghost es = cast.edges@;
    let mut edges: Vec<CastRelation> = Vec::new();
    let mut j: usize = 0;
    while j < cast.edges.len()
        invariant
            n == ps.len(),
            ps == cast.people@,
            es == cast.edges@,
            vs == verdicts@,
            keep@.len() == n,
            remap@.len() == n,
            forall|k: int| 0 <= k < n ==> keep@[k] == kept_by(vs, ps[k]),
            forall|k: int| 0 <= k < n ==> remap@[k] == kept_before(vs, ps, k),
            forall|q: int| 0 <= q < es.len() ==> (#[trigger] es[q]).a < n && es[q].b < n,
            j <= es.len(),
            edges@.len() == shown_edges(vs, *cast, j as int).len(),
            forall|q: int| 0 <= q < edges@.len() ==> {
                let e = #[trigger] shown_edges(vs, *cast, j as int)[q];
                relation_shown(
                    edges@[q],
                    e,
                    kept_before(vs, ps, e.a as int),
                    kept_before(vs, ps, e.b as int),
                    ps,
                    summaries@,
                )
            },
        decreases es.len() - j,
    {
        let e = &cast.edges[j];
        if keep[e.a] && keep[e.b] {
            #[verifier::truncate]
            let ra = remap[e.a] as u32;
            #[verifier::truncate]
            let rb = remap[e.b] as u32;
            let r = CastRelation {
                a: ra,
                b: rb,
                weight: e.weight,
                label: find_summary(summaries, &cast.people[e.a].name, &cast.people[e.b].name),
                hints: chips(&e.hints),
                evidence: rel_evidence(&e.evidence),
            };
            let ghost pre = edges@;
            let ghost prev = shown_edges(vs, *cast, j as int);
            edges.push(r);
            assert(shown_edges(vs, *cast, j + 1) == prev.push(*e));
            assert forall|q: int| 0 <= q < edges@.len() implies {
                let e2 = #[trigger] shown_edges(vs, *cast, j + 1)[q];
                relation_shown(
                    edges@[q],
                    e2,
                    kept_before(vs, ps, e2.a as int),
                    kept_before(vs, ps, e2.b as int),
                    ps,
                    summaries@,
                )
            } by {
                if q < pre.len() {
                    assert(shown_edges(vs, *cast, j + 1)[q] == prev[q]);
                    assert(edges@[q] == pre[q]);
                }
            }
        } else {
            assert(shown_edges(vs, *cast, j + 1) == shown_edges(vs, *cast, j as int));
        }
        j += 1;
    }
    #[verifier::truncate]
    let up = upto as u32;
    CastGraph { people, edges, upto: up }
}


// ------------------------------------------------------------ model work left

/// Every edge names two people of the cast.
pub open spec fn edges_in_cast(c: Cast) -> bool {
    forall|i: int| 0 <= i < c.edges@.len() ==> (#[trigger] c.edges@[i]).a < c.people@.len() && c.edges@[i].b < c.people@.len()
}

/// The first evidence sentence of the first edge from `k` on that touches
/// `name` and has one; empty when none does.
pub open spec fn sample_from(c: Cast, name: Seq<char>, k: int) -> Seq<char>
    decreases c.edges@.len() - k,
{
    if k < 0 || k >= c.edges@.len() {
        Seq::empty()
    } else {
        let e = c.edges@[k];
        if (c.people@[e.a as int].name@ == name || c.people@[e.b as int].name@ == name) && e.evidence@.len() > 0 {
            e.evidence@[0].1@
        } else {
            sample_from(c, name, k + 1)
        }
    }
}

/// Among the first `k` people: those the statistics could not settle and
/// the model has not ruled on, each with a sample sentence.
pub open spec fn unjudged_upto(c: Cast, vs: Seq<(String, bool)>, k: int) -> Seq<(Seq<char>, Seq<char>)>
    decreases k,
{
    if k <= 0 {
        Seq::empty()
    } else {
        let p = c.people@[k - 1];
        let r = unjudged_upto(c, vs, k - 1);
        if p.uncertain && verdict_of(vs, p.name@, vs.len() as int) is None {
            r.push((p.name@, sample_from(c, p.name@, 0)))
        } else {
            r
        }
    }
}

pub open spec fn pair_view(v: Seq<(String, String)>) -> Seq<(Seq<char>, Seq<char>)> {
    v.map_values(|p: (String, String)| (p.0@, p.1@))
}

fn sample(c: &Cast, name: &String) -> (r: String)
    requires
        edges_in_cast(*c),
    ensures
        r@ == sample_from(*c, name@, 0),
{
    let mut k: usize = 0;
    while k < c.edges.len()
        invariant
            k <= c.edges@.len(),
            edges_in_cast(*c),
            sample_from(*c, name@, 0) == sample_from(*c, name@, k as int),
        decreases c.edges@.len() - k,
    {
        let e = &c.edges[k];
        if (string_eq(&c.people[e.a].name, name) || string_eq(&c.people[e.b].name, name)) && e.evidence.len() > 0 {
            return e.evidence[0].1.clone();
        }
        k += 1;
    }
    String::new()
}

/// The people the model should be asked about: those in the band where the
/// statistics stop discriminating, not yet ruled on, each with a sentence
/// from the first edge that has one.
pub fn unjudged_names(cast: &Cast, verdicts: &Vec<(String, bool)>) -> (r: Vec<(String, String)>)
    requires
        edges_in_cast(*cast),
    ensures
        pair_view(r@) == unjudged_upto(*cast, verdicts@, cast.people@.len() as int),
{
    let mut out: Vec<(String, String)> = Vec::new();
    let mut k: usize = 0;
    while k < cast.people.len()
        invariant
            k <= cast.people@.len(),
            edges_in_cast(*cast),
            pair_view(out@) == unjudged_upto(*cast, verdicts@, k as int),
        decreases cast.people@.len() - k,
    {
        let p = &cast.people[k];
        if p.uncertain && find_verdict(verdicts, &p.name).is_none() {
            let ghost pre = out@;
            let sent = sample(cast, &p.name);
            out.push((p.name.clone(), sent));
            assert(pair_view(out@) =~= pair_view(pre).push((p.name@, sample_from(*cast, p.name@, 0))));
        }
        k += 1;
    }
    out
}

pub open spec fn evidence_view(ev: Seq<(usize, String)>) -> Seq<(usize, Seq<char>)> {
    ev.map_values(|e: (usize, String)| (e.0, e.1@))
}

/// Among the first `k` edges, those the model has not summarized, with the
/// two names and the evidence.
pub open spec fn unsummarized_upto(c: Cast, ss: Seq<(String, String, String)>, k: int) -> Seq<(Seq<char>, Seq<char>, Seq<(usize, Seq<char>)>)>
    decreases k,
{
    if k <= 0 {
        Seq::empty()
    } else {
        let e = c.edges@[k - 1];
        let a = c.people@[e.a as int].name@;
        let b = c.people@[e.b as int].name@;
        let r = unsummarized_upto(c, ss, k - 1);
        if summary_of(ss, a, b, ss.len() as int) is None {
            r.push((a, b, evidence_view(e.evidence@)))
        } else {
            r
        }
    }
}

pub open spec fn triple_view(v: Seq<(String, String, Vec<(usize, String)>)>) -> Seq<(Seq<char>, Seq<char>, Seq<(usize, Seq<char>)>)> {
    v.map_values(|t: (String, String, Vec<(usize, String)>)| (t.0@, t.1@, evidence_view(t.2@)))
}

fn copy_evidence(ev: &Vec<(usize, String)>) -> (r: Vec<(usize, String)>)
    ensures
        evidence_view(r@) == evidence_view(ev@),
{
    let mut out: Vec<(usize, String)> = Vec::new();
    let mut i: usize = 0;
    while i < ev.len()
        invariant
            i <= ev@.len(),
            evidence_view(out@) == evidence_view(ev@).take(i as int),
        decreases ev.len() - i,
    {
        let ghost pre = out@;
        out.push((ev[i].0, ev[i].1.clone()));
        assert(evidence_view(out@) =~= evidence_view(pre).push((ev@[i as int].0, ev@[i as int].1@)));
        assert(evidence_view(ev@).take(i + 1) =~= evidence_view(ev@).take(i as int).push((ev@[i as int].0, ev@[i as int].1@)));
        i += 1;
    }
    assert(evidence_view(ev@).take(ev@.len() as int) =~= evidence_view(ev@));
    out
}

/// Every edge the model has not summarized yet, with its two names and its
/// evidence sentences.
pub fn residual_relations(cast: &Cast, summaries: &Vec<(String, String, String)>) -> (r: Vec<(String, String, Vec<(usize, String)>)>)
    requires
        edges_in_cast(*cast),
    ensures
        triple_view(r@) == unsummarized_upto(*cast, summaries@, cast.edges@.len() as int),
{
    let mut out: Vec<(String, String, Vec<(usize, String)>)> = Vec::new();
    let mut k: usize = 0;
    while k < cast.edges.len()
        invariant
            k <= cast.edges@.len(),
            edges_in_cast(*cast),
            triple_view(out@) == unsummarized_upto(*cast, summaries@, k as int),
        decreases cast.edges@.len() - k,
    {
        let e = &cast.edges[k];
        let a = &cast.people[e.a].name;
        let b = &cast.people[e.b].name;
        if find_summary(summaries, a, b).is_none() {
            let ghost pre = out@;
            let ev = copy_evidence(&e.evidence);
            out.push((a.clone(), b.clone(), ev));
            assert(triple_view(out@) =~= triple_view(pre).push((a@, b@, evidence_view(e.evidence@))));
        }
        k += 1;
    }
    out
}

/// Among the first `k` people, those with no background yet whom the model
/// has not ruled out, with their aliases and sampled sentences.
pub open spec fn unwritten_upto(c: Cast, bs: Seq<(String, String)>, vs: Seq<(String, bool)>, k: int) -> Seq<(Seq<char>, Seq<Seq<char>>, Seq<(usize, Seq<char>)>)>
    decreases k,
{
    if k <= 0 {
        Seq::empty()
    } else {
        let p = c.people@[k - 1];
        let r = unwritten_upto(c, bs, vs, k - 1);
        if text_of(bs, p.name@, bs.len() as int) is None && verdict_of(vs, p.name@, vs.len() as int) != Some(false) {
            r.push((p.name@, p.aliases@.map_values(|s: String| s@), evidence_view(p.evidence@)))
        } else {
            r
        }
    }
}

pub open spec fn person_work_view(v: Seq<(String, Vec<String>, Vec<(usize, String)>)>) -> Seq<(Seq<char>, Seq<Seq<char>>, Seq<(usize, Seq<char>)>)> {
    v.map_values(|t: (String, Vec<String>, Vec<(usize, String)>)| (t.0@, t.1@.map_values(|s: String| s@), evidence_view(t.2@)))
}

/// Every character the model has not written a background for (and has
/// not thrown out), with their aliases and sampled sentences.
pub fn residual_people(cast: &Cast, backgrounds: &Vec<(String, String)>, verdicts: &Vec<(String, bool)>) -> (r: Vec<(String, Vec<String>, Vec<(usize, String)>)>)
    ensures
        person_work_view(r@) == unwritten_upto(*cast, backgrounds@, verdicts@, cast.people@.len() as int),
{
    let mut out: Vec<(String, Vec<String>, Vec<(usize, String)>)> = Vec::new();
    let mut k: usize = 0;
    while k < cast.people.len()
        invariant
            k <= cast.people@.len(),
            person_work_view(out@) == unwritten_upto(*cast, backgrounds@, verdicts@, k as int),
        decreases cast.people@.len() - k,
    {
        let p = &cast.people[k];
        let written = find_text(backgrounds, &p.name);
        let verdict = find_verdict(verdicts, &p.name);
        if written.is_none() && verdict != Some(false) {
            let ghost pre = out@;
            let al = copy_strings(&p.aliases);
            let ev = copy_evidence(&p.evidence);
            out.push((p.name.clone(), al, ev));
            assert(person_work_view(out@) =~= person_work_view(pre).push(
                (p.name@, p.aliases@.map_values(|s: String| s@), evidence_view(p.evidence@)),
            ));
        }
        k += 1;
    }
    out
}

} // verus!
