//! Turns decoded text into the structure the reader renders from.
//!
//! Every position here is a byte offset into the *decoded* text, never a line
//! or paragraph index: paragraph segmentation will improve, and anchoring
//! reading progress to paragraph indices would silently shift every bookmark
//! the day it does.
use vstd::prelude::*;
use crate::chapters::{
    candidates, cands_upto, keep, run_lines, validate, validate_spec, views, CandV, Candidate,
    Level, Template, in_run, elect_spec,
};
use crate::fingerprint::{Fingerprint, ParagraphStyle};
use crate::repair::{is_strong_end, strong_end};
use crate::text::{
    blen, byte_offsets, dec, decimal, from_chars, lemma_blen_full, lemma_blen_mono,
    lemma_blen_take, pieces, split, split_ranges, str_blen, string_of, tiles, to_chars, trim,
    trim_end, trim_end_at, trim_range, width,
};
use crate::{indented, indented_chars};

verus! {

/// What a non-blank line is. An author's note sits flush against the margin
/// exactly like a chapter title does, but it is not a chapter; it is shown in
/// the body and kept out of the table of contents.
#[derive(Debug, Clone, Copy, PartialEq, Eq, Structural)]
pub enum LineKind {
    Body,
    ChapterTitle,
    Interstitial,
}

#[derive(Debug, Clone)]
pub struct Span {
    pub start: usize,
    pub end: usize,
}

#[derive(Debug, Clone)]
pub struct Chapter {
    /// Position in the table of contents, dense and climbing from 0.
    pub index: usize,
    /// The number the author wrote, when there was one. Not a key.
    pub number: Option<u64>,
    pub title: String,
    /// Title line plus body, up to the next chapter title.
    pub span: Span,
    /// Where the body starts, just past the title line.
    pub body_start: usize,
}

#[derive(Debug, Clone)]
pub struct Interstitial {
    pub span: Span,
    pub text: String,
}

/// A volume divides the table of contents; it has a title and the chapter it
/// opens, and no text of its own.
#[derive(Debug, Clone)]
pub struct Volume {
    pub title: String,
    pub span: Span,
    /// Index of the first chapter under this volume.
    pub first_chapter: usize,
}

#[derive(Debug)]
pub struct Book {
    pub chapters: Vec<Chapter>,
    pub volumes: Vec<Volume>,
    /// Author notes, ads, front matter. Rendered inline, never in the TOC.
    pub interstitials: Vec<Interstitial>,
    pub anomalies: Vec<String>,
}

/// A chapter as plain values: index, number, title, start, end, body start.
pub type ChapV = (int, Option<u64>, Seq<char>, int, int, int);

/// A volume as plain values: title, start, end, first chapter.
pub type VolV = (Seq<char>, int, int, int);

/// An interstitial as plain values: start, end, text.
pub type InterV = (int, int, Seq<char>);

/// A book as plain values: chapters, volumes, interstitials, anomalies.
pub type BookV = (Seq<ChapV>, Seq<VolV>, Seq<InterV>, Seq<Seq<char>>);

impl View for Chapter {
    type V = ChapV;

    open spec fn view(&self) -> ChapV {
        (
            self.index as int,
            self.number,
            self.title@,
            self.span.start as int,
            self.span.end as int,
            self.body_start as int,
        )
    }
}

impl View for Volume {
    type V = VolV;

    open spec fn view(&self) -> VolV {
        (self.title@, self.span.start as int, self.span.end as int, self.first_chapter as int)
    }
}

impl View for Interstitial {
    type V = InterV;

    open spec fn view(&self) -> InterV {
        (self.span.start as int, self.span.end as int, self.text@)
    }
}

impl View for Book {
    type V = BookV;

    open spec fn view(&self) -> BookV {
        (
            self.chapters@.map_values(|c: Chapter| c@),
            self.volumes@.map_values(|v: Volume| v@),
            self.interstitials@.map_values(|i: Interstitial| i@),
            self.anomalies@.map_values(|s: String| s@),
        )
    }
}

/// The chapter that holds the text before the first real title: cover blurb,
/// site banner, foreword. Losing it would lose text.
pub const FRONT_MATTER: &'static str = "开篇";

/// Target size of one virtual chapter, in bytes of decoded UTF-8 (about 8k
/// Chinese characters, a normal web-novel chapter).
pub const VIRTUAL_SPAN: usize = 24 * 1024;

// ------------------------------------------------------------ line positions

/// Character position where line `k` begins: every earlier line and its
/// newline come before it.
pub open spec fn cstart(ls: Seq<Seq<char>>, k: int) -> int
    decreases k,
{
    if k <= 0 {
        0
    } else {
        cstart(ls, k - 1) + ls[k - 1].len() + 1
    }
}

/// Byte offset where line `k` of `t` begins.
pub open spec fn bstart(t: Seq<char>, k: int) -> int {
    blen(t.take(cstart(split(t, '\n'), k))) as int
}

/// Byte offset where line `k` of `t` ends (its newline excluded).
pub open spec fn bend(t: Seq<char>, k: int) -> int {
    blen(t.take(cstart(split(t, '\n'), k) + split(t, '\n')[k].len())) as int
}

/// The characters of a text, its line ranges, and every byte offset.
pub(crate) struct Table {
    pub(crate) v: Vec<char>,
    pub(crate) rs: Vec<(usize, usize)>,
    pub(crate) offs: Vec<usize>,
}

#[verifier::opaque]
pub(crate) closed spec fn table_ok(tb: Table) -> bool {
    let t = tb.v@;
    &&& pieces(t, tb.rs@) == split(t, '\n')
    &&& tiles(t, tb.rs@, '\n')
    &&& tb.offs@.len() == t.len() + 1
    &&& forall|i: int| 0 <= i <= t.len() ==> tb.offs@[i] == blen(#[trigger] t.take(i))
    &&& forall|k: int|
        0 <= k < tb.rs@.len() ==> (#[trigger] tb.rs@[k]).0 == cstart(split(t, '\n'), k)
}

proof fn lemma_next_start(v: Seq<char>, rs: Seq<(usize, usize)>, j: int)
    requires
        tiles(v, rs, '\n'),
        0 <= j < rs.len() - 1,
    ensures
        rs[j + 1].0 == rs[j].1 + 1,
        v[rs[j].1 as int] == '\n',
{
}

proof fn lemma_starts(v: Seq<char>, rs: Seq<(usize, usize)>, k: int)
    requires
        pieces(v, rs) == split(v, '\n'),
        tiles(v, rs, '\n'),
        0 <= k < rs.len(),
    ensures
        rs[k].0 == cstart(split(v, '\n'), k),
    decreases k,
{
    if k > 0 {
        lemma_starts(v, rs, k - 1);
        assert(pieces(v, rs)[k - 1] == v.subrange(rs[k - 1].0 as int, rs[k - 1].1 as int));
        lemma_next_start(v, rs, k - 1);
    }
}

fn table(text: &str) -> (tb: Table)
    ensures
        table_ok(tb),
        tb.v@ == text@,
{
    let n = str_blen(text);
    let v = to_chars(text);
    table_chars(v)
}

/// The line table of these characters.
pub(crate) fn table_chars(v: Vec<char>) -> (tb: Table)
    requires
        blen(v@) <= usize::MAX,
    ensures
        table_ok(tb),
        tb.v@ == v@,
{
    let rs = split_ranges(v.as_slice(), '\n');
    let offs = byte_offsets(v.as_slice());
    proof {
        reveal(table_ok);
        assert forall|k: int| 0 <= k < rs@.len() implies (#[trigger] rs@[k]).0 == cstart(
            split(v@, '\n'),
            k,
        ) by {
            lemma_starts(v@, rs@, k);
        }
    }
    Table { v, rs, offs }
}

/// Facts about line `k` that every caller needs.
#[verifier::rlimit(40)]
pub(crate) proof fn lemma_line(tb: Table, k: int)
    requires
        table_ok(tb),
        0 <= k < tb.rs@.len(),
    ensures
        split(tb.v@, '\n').len() == tb.rs@.len(),
        split(tb.v@, '\n')[k] == tb.v@.subrange(tb.rs@[k].0 as int, tb.rs@[k].1 as int),
        tb.rs@[k].0 <= tb.rs@[k].1 <= tb.v@.len(),
        tb.offs@[tb.rs@[k].0 as int] == bstart(tb.v@, k),
        tb.offs@[tb.rs@[k].1 as int] == bend(tb.v@, k),
        bstart(tb.v@, k) <= bend(tb.v@, k) <= blen(tb.v@),
        k + 1 < tb.rs@.len() ==> bstart(tb.v@, k + 1) == bend(tb.v@, k) + 1,
        k + 1 == tb.rs@.len() ==> bend(tb.v@, k) == blen(tb.v@),
        k + 1 < tb.rs@.len() ==> tb.rs@[k + 1].0 == tb.rs@[k].1 + 1,
        k == 0 ==> tb.rs@[k].0 == 0,
        tb.offs@.len() == tb.v@.len() + 1,
{
    reveal(table_ok);
    let t = tb.v@;
    let rs = tb.rs@;
    let ls = split(t, '\n');
    let a = rs[k].0 as int;
    let b = rs[k].1 as int;
    assert(pieces(t, rs)[k] == t.subrange(a, b));
    assert(ls[k].len() == b - a);
    assert(cstart(ls, k) == a);
    assert(tb.offs@[a] == blen(t.take(a)));
    assert(tb.offs@[b] == blen(t.take(b)));
    lemma_blen_mono(t, a, b);
    lemma_blen_mono(t, b, t.len() as int);
    lemma_blen_full(t);
    if k + 1 < rs.len() {
        lemma_next_start(t, rs, k);
        assert(cstart(ls, k + 1) == rs[k + 1].0);
        lemma_blen_take(t, b);
    } else {
        assert(rs.last() == rs[k]);
    }
}

pub(crate) proof fn lemma_table(tb: Table)
    requires
        table_ok(tb),
    ensures
        tb.rs@.len() >= 1,
        split(tb.v@, '\n').len() == tb.rs@.len(),
        tb.offs@.len() == tb.v@.len() + 1,
{
    reveal(table_ok);
    crate::text::lemma_split_nonempty(tb.v@, '\n');
}

pub(crate) proof fn lemma_offset(tb: Table, i: int)
    requires
        table_ok(tb),
        0 <= i <= tb.v@.len(),
    ensures
        tb.offs@[i] == blen(tb.v@.take(i)),
        tb.offs@.len() == tb.v@.len() + 1,
{
    reveal(table_ok);
}

pub(crate) fn total_bytes(tb: &Table) -> (n: usize)
    requires
        table_ok(*tb),
    ensures
        n == blen(tb.v@),
{
    proof {
        reveal(table_ok);
        lemma_blen_full(tb.v@);
    }
    tb.offs[tb.v.len()]
}

pub(crate) fn line_start(tb: &Table, k: usize) -> (r: usize)
    requires
        table_ok(*tb),
        k < tb.rs@.len(),
    ensures
        r == bstart(tb.v@, k as int),
{
    proof {
        lemma_line(*tb, k as int);
    }
    tb.offs[tb.rs[k].0]
}

pub(crate) fn line_end(tb: &Table, k: usize) -> (r: usize)
    requires
        table_ok(*tb),
        k < tb.rs@.len(),
    ensures
        r == bend(tb.v@, k as int),
{
    proof {
        lemma_line(*tb, k as int);
    }
    tb.offs[tb.rs[k].1]
}

// ------------------------------------------------------------ line kinds

pub open spec fn line_kind_spec(line: Seq<char>, is_title: bool, style: ParagraphStyle) -> LineKind {
    if is_title {
        LineKind::ChapterTitle
    } else if style == ParagraphStyle::Indent && !indented(line) && trim(line).len() > 0 {
        LineKind::Interstitial
    } else {
        LineKind::Body
    }
}

/// Classify one line for rendering. `Interstitial` only where the indent
/// signal is trustworthy, i.e. where a flush line provably is not body text.
pub fn line_kind(line: &str, is_title: bool, style: ParagraphStyle) -> (k: LineKind)
    ensures
        k == line_kind_spec(line@, is_title, style),
{
    if is_title {
        return LineKind::ChapterTitle;
    }
    let v = to_chars(line);
    let (a, b) = trim_range(v.as_slice(), 0, v.len());
    assert(v@.subrange(0, v@.len() as int) =~= v@);
    if style == ParagraphStyle::Indent && !indented_chars(v.as_slice()) && b > a {
        LineKind::Interstitial
    } else {
        LineKind::Body
    }
}

// ------------------------------------------------------------ virtual chapters

/// A line a part may end on: blank, or closed by a strong paragraph end.
pub open spec fn clean_break(l: Seq<char>) -> bool {
    trim(l).len() == 0 || (trim_end(l).len() > 0 && strong_end(trim_end(l).last()))
}

/// The parts cut among the first `n` lines, and where the next part starts.
pub open spec fn vcut(t: Seq<char>, n: int) -> (Seq<(int, int)>, int)
    decreases n,
{
    if n <= 0 {
        (Seq::empty(), 0)
    } else {
        let (ps, start) = vcut(t, n - 1);
        let e = bend(t, n - 1);
        let len = e - start;
        if len >= VIRTUAL_SPAN && (clean_break(split(t, '\n')[n - 1]) || len >= VIRTUAL_SPAN * 3
            / 2) {
            let end = if e + 1 < blen(t) {
                e + 1
            } else {
                blen(t) as int
            };
            (ps.push((start, end)), end)
        } else {
            (ps, start)
        }
    }
}

/// Byte ranges of the parts of a book with no chapter markers.
pub open spec fn vparts(t: Seq<char>) -> Seq<(int, int)> {
    let (ps, start) = vcut(t, split(t, '\n').len() as int);
    if start < blen(t) {
        ps.push((start, blen(t) as int))
    } else {
        ps
    }
}

pub open spec fn part_title(i: int) -> Seq<char> {
    "第 "@ + dec((i + 1) as nat) + " 部分"@
}

pub open spec fn virtual_spec(t: Seq<char>) -> BookV {
    let ps = vparts(t);
    (
        Seq::new(ps.len(), |i: int| (i, None, part_title(i), ps[i].0, ps[i].1, ps[i].0)),
        Seq::empty(),
        Seq::empty(),
        seq!["未识别到章节标记，已按篇幅虚拟分章"@],
    )
}

fn part(i: usize, start: usize, end: usize) -> (c: Chapter)
    requires
        i < usize::MAX,
    ensures
        c@ == (i as int, None::<u64>, part_title(i as int), start as int, end as int, start as int),
{
    let mut v = to_chars("第 ");
    let d = decimal((i + 1) as u64);
    let mut j: usize = 0;
    let ghost v0 = v@;
    while j < d.len()
        invariant
            j <= d@.len(),
            v@ == v0 + d@.take(j as int),
        decreases d.len() - j,
    {
        v.push(d[j]);
        j += 1;
        assert(v@ =~= v0 + d@.take(j as int));
    }
    assert(d@.take(d@.len() as int) =~= d@);
    let tail = to_chars(" 部分");
    let ghost v1 = v@;
    let mut k: usize = 0;
    while k < tail.len()
        invariant
            k <= tail@.len(),
            v@ == v1 + tail@.take(k as int),
        decreases tail.len() - k,
    {
        v.push(tail[k]);
        k += 1;
        assert(v@ =~= v1 + tail@.take(k as int));
    }
    assert(tail@.take(tail@.len() as int) =~= tail@);
    assert(v@ =~= part_title(i as int));
    Chapter {
        index: i,
        number: None,
        title: from_chars(v.as_slice()),
        span: Span { start, end },
        body_start: start,
    }
}

fn is_clean_break(tb: &Table, k: usize) -> (r: bool)
    requires
        table_ok(*tb),
        k < tb.rs@.len(),
    ensures
        r == clean_break(split(tb.v@, '\n')[k as int]),
{
    proof {
        lemma_line(*tb, k as int);
    }
    let (s, e) = tb.rs[k];
    let (a, b) = trim_range(tb.v.as_slice(), s, e);
    if b == a {
        return true;
    }
    let z = trim_end_at(tb.v.as_slice(), s, e);
    if z > s {
        assert(tb.v@.subrange(s as int, z as int).last() == tb.v@[z - 1]);
        is_strong_end(tb.v[z - 1])
    } else {
        false
    }
}

/// The chapters are the parts `ps`, numbered in order.
pub open spec fn parts_are(chs: Seq<Chapter>, ps: Seq<(int, int)>) -> bool {
    &&& chs.len() == ps.len()
    &&& forall|i: int|
        0 <= i < chs.len() ==> (#[trigger] chs[i])@ == (
            i,
            None::<u64>,
            part_title(i),
            ps[i].0,
            ps[i].1,
            ps[i].0,
        )
}

proof fn lemma_vcut_step(t: Seq<char>, k: int, e: int, clean: bool)
    requires
        k >= 0,
        e == bend(t, k),
        clean == clean_break(split(t, '\n')[k]),
    ensures
        ({
            let (ps, start) = vcut(t, k);
            let len = e - start;
            vcut(t, k + 1) == if len >= VIRTUAL_SPAN && (clean || len >= VIRTUAL_SPAN * 3 / 2) {
                let end = if e + 1 < blen(t) {
                    e + 1
                } else {
                    blen(t) as int
                };
                (ps.push((start, end)), end)
            } else {
                (ps, start)
            }
        }),
{
}

/// No chapter markers at all: slice the book into parts by length, cutting at
/// paragraph ends so no part opens mid-sentence, but not waiting for one
/// forever.
#[verifier::rlimit(50)]
fn virtual_book(tb: &Table) -> (b: Book)
    requires
        table_ok(*tb),
    ensures
        b@ == virtual_spec(tb.v@),
{
    let ghost t = tb.v@;
    let total = total_bytes(tb);
    let mut chapters: Vec<Chapter> = Vec::new();
    let mut start: usize = 0;
    let mut k: usize = 0;
    proof {
        lemma_table(*tb);
    }
    while k < tb.rs.len()
        invariant
            table_ok(*tb),
            t == tb.v@,
            total == blen(t),
            k <= tb.rs@.len(),
            start <= total,
            k < tb.rs@.len() ==> start <= bstart(t, k as int),
            vcut(t, k as int).1 == start,
            parts_are(chapters@, vcut(t, k as int).0),
            chapters@.len() * 24576 <= start,
        decreases tb.rs.len() - k,
    {
        proof {
            lemma_line(*tb, k as int);
        }
        let ghost prev = vcut(t, k as int);
        let e = line_end(tb, k);
        let len = e - start;
        let clean = is_clean_break(tb, k);
        proof {
            lemma_vcut_step(t, k as int, e as int, clean);
        }
        if len >= VIRTUAL_SPAN {
            if clean || len >= VIRTUAL_SPAN * 3 / 2 {
                let end = if e < total {
                    e + 1
                } else {
                    total
                };
                let ghost before = chapters@;
                assert(chapters@.len() < usize::MAX) by (nonlinear_arith)
                    requires
                        chapters@.len() * 24576 <= start,
                        start <= usize::MAX,
                ;
                assert((chapters@.len() + 1) * 24576 == chapters@.len() * 24576 + 24576)
                    by (nonlinear_arith);
                let c = part(chapters.len(), start, end);
                chapters.push(c);
                assert(vcut(t, k + 1) == (prev.0.push((start as int, end as int)), end as int));
                assert(chapters@[chapters@.len() - 1] == c);
                assert(forall|i: int| 0 <= i < before.len() ==> chapters@[i] == before[i]);
                start = end;
            } else {
                assert(vcut(t, k + 1) == prev);
            }
        } else {
            assert(vcut(t, k + 1) == prev);
        }
        k += 1;
    }
    let ghost ps = vcut(t, k as int).0;
    assert(vparts(t) == if start < total { ps.push((start as int, total as int)) } else { ps });
    if start < total {
        let ghost before = chapters@;
        assert(chapters@.len() < usize::MAX) by (nonlinear_arith)
            requires
                chapters@.len() * 24576 <= start,
                start <= usize::MAX,
        ;
        let c = part(chapters.len(), start, total);
        chapters.push(c);
        assert(forall|i: int| 0 <= i < before.len() ==> chapters@[i] == before[i]);
    }
    let mut anomalies: Vec<String> = Vec::new();
    anomalies.push("未识别到章节标记，已按篇幅虚拟分章".to_owned());
    let b = Book { chapters, volumes: Vec::new(), interstitials: Vec::new(), anomalies };
    assert(b@.0 =~= virtual_spec(t).0);
    assert(b@.1 =~= virtual_spec(t).1);
    assert(b@.2 =~= virtual_spec(t).2);
    assert(b@.3 =~= virtual_spec(t).3);
    b
}

// ------------------------------------------------------------ chapters

/// Every candidate sits on one of the first `n` lines.
pub open spec fn lines_below(s: Seq<CandV>, n: int) -> bool {
    forall|i: int| 0 <= i < s.len() ==> (#[trigger] s[i]).0 < n
}

proof fn lemma_cands_below(ls: Seq<Seq<char>>, style: ParagraphStyle, n: int)
    requires
        n >= 0,
    ensures
        lines_below(cands_upto(ls, style, n), n),
    decreases n,
{
    if n > 0 {
        lemma_cands_below(ls, style, n - 1);
    }
}

proof fn lemma_keep_below(s: Seq<CandV>, p: spec_fn(CandV) -> bool, n: int)
    requires
        lines_below(s, n),
    ensures
        lines_below(keep(s, p), n),
    decreases s.len(),
{
    if s.len() > 0 {
        assert(lines_below(s.drop_last(), n));
        lemma_keep_below(s.drop_last(), p, n);
    }
}

proof fn lemma_validate_below(cands: Seq<CandV>, style: ParagraphStyle, total: nat, n: int)
    requires
        lines_below(cands, n),
    ensures
        lines_below(validate_spec(cands, style, total).0, n),
        lines_below(validate_spec(cands, style, total).1, n),
{
    let templates = elect_spec(cands, total);
    lemma_keep_below(cands, |c: CandV| c.3 == Level::Volume, n);
    let rest = keep(cands, |c: CandV| c.3 != Level::Volume);
    lemma_keep_below(cands, |c: CandV| c.3 != Level::Volume, n);
    let chap0 = keep(rest, |c: CandV| c.2 == Template::Named || templates.contains(c.2));
    lemma_keep_below(rest, |c: CandV| c.2 == Template::Named || templates.contains(c.2), n);
    let run = run_lines(chap0);
    lemma_keep_below(chap0, |c: CandV| in_run(c, run), n);
}

/// Whether the text before the first title needs a chapter of its own.
pub open spec fn front(t: Seq<char>, vc: Seq<CandV>) -> bool {
    vc.len() == 0 || bstart(t, vc[0].0 as int) > 0
}

pub open spec fn shift(t: Seq<char>, vc: Seq<CandV>) -> int {
    if front(t, vc) {
        1
    } else {
        0
    }
}

pub open spec fn nchap(t: Seq<char>, vc: Seq<CandV>) -> int {
    vc.len() + shift(t, vc)
}

/// A chapter runs from its title line to the next one.
pub open spec fn chap_start(t: Seq<char>, vc: Seq<CandV>, i: int) -> int {
    if i < shift(t, vc) {
        0
    } else {
        bstart(t, vc[i - shift(t, vc)].0 as int)
    }
}

pub open spec fn chap_end(t: Seq<char>, vc: Seq<CandV>, i: int) -> int {
    if i + 1 < nchap(t, vc) {
        chap_start(t, vc, i + 1)
    } else {
        blen(t) as int
    }
}

pub open spec fn chapter_spec(t: Seq<char>, vc: Seq<CandV>, i: int) -> ChapV {
    let s = chap_start(t, vc, i);
    let e = chap_end(t, vc, i);
    if i < shift(t, vc) {
        (i, None, FRONT_MATTER@, s, e, s)
    } else {
        let c = vc[i - shift(t, vc)];
        let be = bend(t, c.0 as int);
        (i, c.4, c.1, s, e, if be < e { be } else { e })
    }
}

pub open spec fn chapters_spec(t: Seq<char>, vc: Seq<CandV>) -> Seq<ChapV> {
    Seq::new(nchap(t, vc) as nat, |i: int| chapter_spec(t, vc, i))
}

/// The first chapter that starts at or after byte `e`, else the last chapter.
pub open spec fn first_after(chs: Seq<ChapV>, e: int, i: int) -> int
    decreases chs.len() - i,
{
    if i >= chs.len() {
        if chs.len() == 0 {
            0
        } else {
            chs.len() - 1
        }
    } else if chs[i].3 >= e {
        i
    } else {
        first_after(chs, e, i + 1)
    }
}

/// A volume header opens the first chapter that starts after it.
pub open spec fn volumes_spec(t: Seq<char>, vv: Seq<CandV>, chs: Seq<ChapV>) -> Seq<VolV> {
    vv.map_values(
        |c: CandV|
            (c.1, bstart(t, c.0 as int), bend(t, c.0 as int), first_after(chs, bend(t, c.0 as int), 0)),
    )
}

/// Whether some candidate of `s` sits on line `k`.
pub open spec fn on_line(s: Seq<CandV>, k: int) -> bool
    decreases s.len(),
{
    s.len() > 0 && (s.last().0 == k || on_line(s.drop_last(), k))
}

/// Flush, non-blank lines among the first `n` that are neither titles nor
/// volume headers.
pub open spec fn inter_upto(t: Seq<char>, vc: Seq<CandV>, vv: Seq<CandV>, n: int) -> Seq<InterV>
    decreases n,
{
    if n <= 0 {
        Seq::empty()
    } else {
        let prev = inter_upto(t, vc, vv, n - 1);
        let l = split(t, '\n')[n - 1];
        if trim(l).len() > 0 && !indented(l) && !on_line(vc, n - 1) && !on_line(vv, n - 1) {
            prev.push((bstart(t, n - 1), bend(t, n - 1), trim(l)))
        } else {
            prev
        }
    }
}

/// Interstitials are only identifiable where the indent signal exists: in an
/// indent-styled book a flush line that is not a title is a note or an ad.
pub open spec fn inters_spec(t: Seq<char>, style: ParagraphStyle, vc: Seq<CandV>, vv: Seq<CandV>) -> Seq<InterV> {
    if style == ParagraphStyle::Indent {
        inter_upto(t, vc, vv, split(t, '\n').len() as int)
    } else {
        Seq::empty()
    }
}

/// The whole structure of a book, as plain values.
pub open spec fn build_spec(t: Seq<char>, style: ParagraphStyle, total_lines: nat) -> BookV {
    let ls = split(t, '\n');
    let cands = cands_upto(ls, style, ls.len() as int);
    let (vc, vv, _rej, an, _tm) = validate_spec(cands, style, total_lines);
    if vc.len() == 0 && blen(t) > VIRTUAL_SPAN * 2 {
        virtual_spec(t)
    } else {
        let chs = chapters_spec(t, vc);
        (chs, volumes_spec(t, vv, chs), inters_spec(t, style, vc, vv), an)
    }
}

fn chapter_list(tb: &Table, vc: &Vec<Candidate>) -> (r: Vec<Chapter>)
    requires
        table_ok(*tb),
        lines_below(views(vc@), tb.rs@.len() as int),
    ensures
        r@.map_values(|c: Chapter| c@) == chapters_spec(tb.v@, views(vc@)),
{
    let ghost t = tb.v@;
    let ghost cv = views(vc@);
    let n = vc.len();
    let total = total_bytes(tb);
    let mut out: Vec<Chapter> = Vec::new();
    assert(n > 0 ==> cv[0] == vc@[0]@);
    let has_front = n == 0 || line_start(tb, vc[0].line_idx) > 0;
    assert(has_front == front(t, cv));
    if has_front {
        let end = if n > 0 {
            line_start(tb, vc[0].line_idx)
        } else {
            total
        };
        out.push(
            Chapter {
                index: 0,
                number: None,
                title: FRONT_MATTER.to_owned(),
                span: Span { start: 0, end },
                body_start: 0,
            },
        );
        assert(out@[0]@ == chapter_spec(t, cv, 0));
    }
    let sh: usize = if has_front {
        1
    } else {
        0
    };
    let mut j: usize = 0;
    while j < n
        invariant
            table_ok(*tb),
            t == tb.v@,
            cv == views(vc@),
            n == vc@.len(),
            total == blen(t),
            lines_below(cv, tb.rs@.len() as int),
            sh == shift(t, cv),
            j <= n,
            out@.len() == j + sh,
            forall|i: int| 0 <= i < out@.len() ==> (#[trigger] out@[i])@ == chapter_spec(t, cv, i),
        decreases n - j,
    {
        assert(cv[j as int] == vc@[j as int]@);
        let k = vc[j].line_idx;
        let start = line_start(tb, k);
        let end = if j + 1 < n {
            assert(cv[j + 1] == vc@[j + 1]@);
            line_start(tb, vc[j + 1].line_idx)
        } else {
            total
        };
        let be = line_end(tb, k);
        let body_start = if be < end {
            be
        } else {
            end
        };
        let ghost before = out@;
        out.push(
            Chapter {
                index: j + sh,
                number: vc[j].number,
                title: vc[j].text.clone(),
                span: Span { start, end },
                body_start,
            },
        );
        assert(out@[j + sh]@ == chapter_spec(t, cv, j + sh));
        assert(forall|i: int| 0 <= i < before.len() ==> out@[i] == before[i]);
        j += 1;
    }
    assert(out@.map_values(|c: Chapter| c@) =~= chapters_spec(t, cv));
    out
}

fn volume_list(tb: &Table, vv: &Vec<Candidate>, chs: &Vec<Chapter>) -> (r: Vec<Volume>)
    requires
        table_ok(*tb),
        lines_below(views(vv@), tb.rs@.len() as int),
    ensures
        r@.map_values(|v: Volume| v@) == volumes_spec(
            tb.v@,
            views(vv@),
            chs@.map_values(|c: Chapter| c@),
        ),
{
    let ghost t = tb.v@;
    let ghost cs = chs@.map_values(|c: Chapter| c@);
    let mut out: Vec<Volume> = Vec::new();
    let mut j: usize = 0;
    while j < vv.len()
        invariant
            table_ok(*tb),
            t == tb.v@,
            cs == chs@.map_values(|c: Chapter| c@),
            lines_below(views(vv@), tb.rs@.len() as int),
            j <= vv@.len(),
            out@.len() == j,
            forall|i: int|
                0 <= i < j ==> (#[trigger] out@[i])@ == volumes_spec(t, views(vv@), cs)[i],
        decreases vv.len() - j,
    {
        assert(views(vv@)[j as int] == vv@[j as int]@);
        let k = vv[j].line_idx;
        let s = line_start(tb, k);
        let e = line_end(tb, k);
        let mut p: usize = 0;
        while p < chs.len() && chs[p].span.start < e
            invariant
                p <= chs@.len(),
                cs == chs@.map_values(|c: Chapter| c@),
                first_after(cs, e as int, 0) == first_after(cs, e as int, p as int),
            decreases chs.len() - p,
        {
            p += 1;
        }
        let first = if p < chs.len() {
            p
        } else if chs.len() == 0 {
            0
        } else {
            chs.len() - 1
        };
        let ghost before = out@;
        out.push(Volume { title: vv[j].text.clone(), span: Span { start: s, end: e }, first_chapter: first });
        assert(forall|i: int| 0 <= i < before.len() ==> out@[i] == before[i]);
        j += 1;
    }
    assert(out@.map_values(|v: Volume| v@) =~= volumes_spec(t, views(vv@), cs));
    out
}

/// `r[k]` is whether some candidate of `s` sits on line `k`.
fn line_marks(s: &Vec<Candidate>, r: &mut Vec<bool>)
    requires
        lines_below(views(s@), old(r)@.len() as int),
    ensures
        final(r)@.len() == old(r)@.len(),
        forall|k: int|
            0 <= k < final(r)@.len() ==> final(r)@[k] == (old(r)@[k] || on_line(views(s@), k)),
{
    let ghost r0 = r@;
    let mut j: usize = 0;
    while j < s.len()
        invariant
            j <= s@.len(),
            r@.len() == r0.len(),
            lines_below(views(s@), r0.len() as int),
            forall|k: int|
                0 <= k < r@.len() ==> r@[k] == (r0[k] || on_line(views(s@).take(j as int), k)),
        decreases s.len() - j,
    {
        assert(views(s@)[j as int] == s@[j as int]@);
        let k = s[j].line_idx;
        let ghost sj = views(s@).take(j as int);
        let ghost sj1 = views(s@).take(j + 1);
        assert(sj1.drop_last() =~= sj);
        assert(sj1.last() == views(s@)[j as int]);
        let ghost r1 = r@;
        assert(forall|m: int| 0 <= m < r1.len() ==> r1[m] == (r0[m] || on_line(sj, m)));
        r.set(k, true);
        assert forall|m: int| 0 <= m < r@.len() implies r@[m] == (r0[m] || on_line(sj1, m)) by {
            assert(on_line(sj1, m) == (sj1.last().0 == m || on_line(sj, m)));
            assert(r1[m] == (r0[m] || on_line(sj, m)));
        }
        j += 1;
    }
    assert(views(s@).take(s@.len() as int) =~= views(s@));
}

fn inter_list(tb: &Table, vc: &Vec<Candidate>, vv: &Vec<Candidate>) -> (r: Vec<Interstitial>)
    requires
        table_ok(*tb),
        lines_below(views(vc@), tb.rs@.len() as int),
        lines_below(views(vv@), tb.rs@.len() as int),
    ensures
        r@.map_values(|i: Interstitial| i@) == inter_upto(
            tb.v@,
            views(vc@),
            views(vv@),
            split(tb.v@, '\n').len() as int,
        ),
{
    let ghost t = tb.v@;
    proof {
        lemma_table(*tb);
    }
    let n = tb.rs.len();
    let mut marks: Vec<bool> = Vec::new();
    let mut q: usize = 0;
    while q < n
        invariant
            q <= n,
            marks@.len() == q,
            forall|k: int| 0 <= k < q ==> !marks@[k],
        decreases n - q,
    {
        marks.push(false);
        q += 1;
    }
    line_marks(vc, &mut marks);
    line_marks(vv, &mut marks);
    let mut out: Vec<Interstitial> = Vec::new();
    let mut k: usize = 0;
    while k < n
        invariant
            table_ok(*tb),
            t == tb.v@,
            n == tb.rs@.len(),
            marks@.len() == n,
            forall|m: int|
                0 <= m < n ==> marks@[m] == (on_line(views(vc@), m) || on_line(views(vv@), m)),
            k <= n,
            out@.map_values(|i: Interstitial| i@) == inter_upto(t, views(vc@), views(vv@), k as int),
        decreases n - k,
    {
        proof {
            lemma_line(*tb, k as int);
        }
        let (s, e) = tb.rs[k];
        let (x, y) = trim_range(tb.v.as_slice(), s, e);
        let raw = crate::text::slice_vec(tb.v.as_slice(), s, e);
        let ghost before = out@;
        if y > x && !indented_chars(raw.as_slice()) && !marks[k] {
            let start = line_start(tb, k);
            let end = line_end(tb, k);
            out.push(Interstitial { span: Span { start, end }, text: string_of(tb.v.as_slice(), x, y) });
            assert(out@.map_values(|i: Interstitial| i@) =~= before.map_values(
                |i: Interstitial| i@,
            ).push(out@.last()@));
        }
        k += 1;
    }
    out
}

/// Cut a decoded book into chapters, volumes and interstitials. Text before
/// the first title becomes a chapter of its own; a large book with no titles
/// at all is sliced into parts by length.
pub fn build(text: &str, fp: &Fingerprint) -> (b: Book)
    ensures
        b@ == build_spec(text@, fp.style, fp.total_lines as nat),
{
    let cands = candidates(text, fp);
    let v = validate(cands.as_slice(), fp);
    let tb = table(text);
    proof {
        lemma_table(tb);
        let ls = split(text@, '\n');
        lemma_cands_below(ls, fp.style, ls.len() as int);
        lemma_validate_below(views(cands@), fp.style, fp.total_lines as nat, ls.len() as int);
    }
    if v.chapters.len() == 0 && total_bytes(&tb) > VIRTUAL_SPAN * 2 {
        return virtual_book(&tb);
    }
    let chapters = chapter_list(&tb, &v.chapters);
    let volumes = volume_list(&tb, &v.volumes, &chapters);
    let interstitials = if fp.style == ParagraphStyle::Indent {
        inter_list(&tb, &v.chapters, &v.volumes)
    } else {
        Vec::new()
    };
    let b = Book { chapters, volumes, interstitials, anomalies: v.anomalies };
    assert(b@.2 =~= inters_spec(text@, fp.style, views(v.chapters@), views(v.volumes@)));
    b
}

} // verus!
