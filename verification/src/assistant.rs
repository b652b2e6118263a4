//! The rules around the local model: what it is asked, how its replies are
//! cleaned and read, when a streaming pass stops, and the records the reader's
//! screens are drawn from. Talking to the model is the host's business; every
//! decision about what it said is made here.
use vstd::prelude::*;
use crate::text::{
    first_at, find_from, from_chars, lemma_first_at, prefix, push_all, push_range, sub_at,
    to_chars, trim, trim_range, trim_start, trim_start_at, ws, is_ws,
};

verus! {

// ------------------------------------------------------------ records

/// Cross-platform inference policy handed in by the host.
#[derive(Debug, Clone)]
pub struct AiRuntimeConfig {
    /// 0 = quiet, 1 = balanced, 2 = fast.
    pub mode: u8,
    /// 0 = automatic, 1 = CPU only, 2 = GPU preferred.
    pub backend: u8,
    /// Zero lets the engine choose a profile-derived ceiling.
    pub thread_limit: u32,
    /// 0 = conservative, 1 = balanced, 2 = performance.
    pub thermal_bias: u8,
    /// Zero when the platform cannot report physical memory.
    pub total_memory_mb: u64,
}

impl Default for AiRuntimeConfig {
    fn default() -> (r: Self)
        ensures
            r.mode == 0,
            r.backend == 0,
            r.thread_limit == 0,
            r.thermal_bias == 1,
            r.total_memory_mb == 0,
    {
        AiRuntimeConfig { mode: 0, backend: 0, thread_limit: 0, thermal_bias: 1, total_memory_mb: 0 }
    }
}

/// Platform facts the queue controller reads.
#[derive(Debug, Clone)]
pub struct AiDeviceState {
    pub platform: String,
    pub charging: Option<bool>,
    pub battery_percent: Option<u8>,
    pub idle_seconds: Option<u32>,
    pub logical_cores: u32,
    pub total_memory_mb: Option<u64>,
    pub thermal_state: String,
}

#[derive(Debug, Clone)]
pub struct AiStatus {
    pub dir: String,
    pub engine: bool,
    pub model: Option<String>,
    /// The embedding model, installed separately; absent is a normal state.
    pub embed_model: Option<String>,
    pub engine_bytes: i64,
    pub model_bytes: i64,
    pub embed_bytes: i64,
    pub running: bool,
}

#[derive(Debug, Clone)]
pub struct EnrichProgress {
    pub index: u32,
    pub title: String,
    pub done: u32,
    pub total: u32,
    pub summary: Option<String>,
    pub error: Option<String>,
}

#[derive(Debug, Clone)]
pub struct DescribeProgress {
    pub name: String,
    pub background: String,
    pub done: u32,
    pub total: u32,
    pub error: Option<String>,
}

#[derive(Debug, Clone)]
pub struct RelabelProgress {
    pub a: String,
    pub b: String,
    pub label: String,
    pub done: u32,
    pub total: u32,
    pub error: Option<String>,
}

#[derive(Debug, Clone)]
pub struct VetProgress {
    pub name: String,
    pub is_person: bool,
    pub done: u32,
    pub total: u32,
    pub error: Option<String>,
}

#[derive(Debug, Clone)]
pub struct IndexProgress {
    pub chapter: u32,
    pub title: String,
    pub done: u32,
    pub total: u32,
    pub error: Option<String>,
}

#[derive(Debug, Clone)]
pub struct IndexStatus {
    /// Chapters that already carry vectors.
    pub indexed: u32,
    pub total: u32,
    pub has_model: bool,
}

/// A landmine the scan knows how to look for. A fixed set: an arbitrary query
/// would have no calibrated meaning.
#[derive(Debug, Clone)]
pub struct Landmine {
    pub id: String,
    pub name: String,
    /// What the reader is actually asking, in their words.
    pub note: String,
}

// ------------------------------------------------------------ configuration

pub open spec fn clamp(x: int, hi: int) -> int {
    if x < hi {
        x
    } else {
        hi
    }
}

/// The policy the host asked for, with every knob held to its range.
pub fn set_ai_runtime_config(
    mode: u8,
    backend: u8,
    thread_limit: u32,
    thermal_bias: u8,
    total_memory_mb: u64,
) -> (c: AiRuntimeConfig)
    ensures
        c.mode == clamp(mode as int, 2),
        c.backend == clamp(backend as int, 2),
        c.thread_limit == clamp(thread_limit as int, 64),
        c.thermal_bias == clamp(thermal_bias as int, 2),
        c.total_memory_mb == total_memory_mb,
{
    AiRuntimeConfig {
        mode: if mode < 2 { mode } else { 2 },
        backend: if backend < 2 { backend } else { 2 },
        thread_limit: if thread_limit < 64 { thread_limit } else { 64 },
        thermal_bias: if thermal_bias < 2 { thermal_bias } else { 2 },
        total_memory_mb,
    }
}

// ------------------------------------------------------------ landmines

/// The two landmines offered, in order.
pub fn landmines() -> (r: Vec<Landmine>)
    ensures
        r@.len() == 2,
        r@[0].id@ == "ntr"@ && r@[0].name@ == "绿帽 / NTR"@ && r@[0].note@.len() == 0,
        r@[1].id@ == "chastity"@ && r@[1].name@ == "女主非处"@ && r@[1].note@.len() == 0,
{
    let mut v: Vec<Landmine> = Vec::new();
    v.push(Landmine { id: "ntr".to_owned(), name: "绿帽 / NTR".to_owned(), note: String::new() });
    v.push(
        Landmine { id: "chastity".to_owned(), name: "女主非处".to_owned(), note: String::new() },
    );
    v
}

pub open spec fn ntr_queries() -> Seq<&'static str> {
    seq!["她背着自己的男人和别人上了床", "妻子与其他男人私通、偷情", "他的女人被别的男人夺走、占有", "得知妻子出轨后他愤怒屈辱"]
}

pub open spec fn chastity_queries() -> Seq<&'static str> {
    seq!["她已经不是处子之身，早就被别的男人碰过", "她向他坦白自己曾与他人有过关系", "他发现她并非完璧之身", "她的第一次给了另一个男人"]
}

/// Whether two strings hold the same characters.
pub fn same_text(a: &str, b: &str) -> (r: bool)
    ensures
        r == (a@ == b@),
{
    let x = to_chars(a);
    let y = to_chars(b);
    if x.len() != y.len() {
        return false;
    }
    let mut i: usize = 0;
    while i < x.len()
        invariant
            x@ == a@,
            y@ == b@,
            x@.len() == y@.len(),
            i <= x@.len(),
            forall|k: int| 0 <= k < i ==> x@[k] == y@[k],
        decreases x.len() - i,
    {
        if x[i] != y[i] {
            assert(x@[i as int] != y@[i as int]);
            return false;
        }
        i += 1;
    }
    assert(x@ =~= y@);
    true
}

/// Several phrasings of each landmine: novels write the same event as 出轨,
/// 私通, 失身 or 被夺, and one query sentence only finds the one it resembles.
pub fn landmine_queries(id: &str) -> (r: Option<Vec<&'static str>>)
    ensures
        match r {
            Some(q) => (id@ == "ntr"@ && q@ == ntr_queries()) || (id@ == "chastity"@ && q@
                == chastity_queries()),
            None => id@ != "ntr"@ && id@ != "chastity"@,
        },
{
    if same_text(id, "ntr") {
        Some(vec!["她背着自己的男人和别人上了床", "妻子与其他男人私通、偷情", "他的女人被别的男人夺走、占有", "得知妻子出轨后他愤怒屈辱"])
    } else if same_text(id, "chastity") {
        Some(vec!["她已经不是处子之身，早就被别的男人碰过", "她向他坦白自己曾与他人有过关系", "他发现她并非完璧之身", "她的第一次给了另一个男人"])
    } else {
        None
    }
}

/// The hit plus its nearest indexed neighbour on each side within the same
/// chapter (`rows` are chapter, start, end).
pub open spec fn before_hit(rows: Seq<(i64, i64, i64)>, c: i64, s: i64, n: int) -> Option<(i64, i64)>
    decreases n,
{
    if n <= 0 {
        None
    } else {
        let prev = before_hit(rows, c, s, n - 1);
        let r = rows[n - 1];
        if r.0 == c && r.2 <= s {
            match prev {
                Some(p) => if r.2 >= p.1 {
                    Some((r.1, r.2))
                } else {
                    prev
                },
                None => Some((r.1, r.2)),
            }
        } else {
            prev
        }
    }
}

pub open spec fn after_hit(rows: Seq<(i64, i64, i64)>, c: i64, e: i64, n: int) -> Option<(i64, i64)>
    decreases n,
{
    if n <= 0 {
        None
    } else {
        let prev = after_hit(rows, c, e, n - 1);
        let r = rows[n - 1];
        if r.0 == c && r.1 >= e {
            match prev {
                Some(p) => if r.1 < p.0 {
                    Some((r.1, r.2))
                } else {
                    prev
                },
                None => Some((r.1, r.2)),
            }
        } else {
            prev
        }
    }
}

pub open spec fn context_spans_spec(rows: Seq<(i64, i64, i64)>, c: i64, s: i64, e: i64) -> Seq<(i64, i64)> {
    let b = before_hit(rows, c, s, rows.len() as int);
    let a = after_hit(rows, c, e, rows.len() as int);
    let head = match b {
        Some(p) => seq![p],
        None => Seq::empty(),
    };
    let tail = match a {
        Some(p) => seq![p],
        None => Seq::empty(),
    };
    head + seq![(s, e)] + tail
}

/// A relationship fact and the event it changes often straddle an indexing
/// boundary, so a landmine hit is shown with the indexed passage just before
/// it and just after it in the same chapter: the latest-ending one that ends
/// by its start (the last such row on a tie) and the earliest-starting one
/// that starts at its end (the first such row on a tie).
pub fn landmine_context_spans(chapter: i64, start: i64, end: i64, rows: &[(i64, i64, i64)]) -> (r: Vec<(i64, i64)>)
    ensures
        r@ == context_spans_spec(rows@, chapter, start, end),
{
    let mut before: Option<(i64, i64)> = None;
    let mut after: Option<(i64, i64)> = None;
    let mut i: usize = 0;
    while i < rows.len()
        invariant
            i <= rows@.len(),
            before == before_hit(rows@, chapter, start, i as int),
            after == after_hit(rows@, chapter, end, i as int),
        decreases rows.len() - i,
    {
        let (c, s, e) = rows[i];
        if c == chapter && e <= start {
            before = match before {
                Some(p) => if e >= p.1 {
                    Some((s, e))
                } else {
                    Some(p)
                },
                None => Some((s, e)),
            };
        }
        if c == chapter && s >= end {
            after = match after {
                Some(p) => if s < p.0 {
                    Some((s, e))
                } else {
                    Some(p)
                },
                None => Some((s, e)),
            };
        }
        i += 1;
    }
    let mut out: Vec<(i64, i64)> = Vec::new();
    match before {
        Some(p) => out.push(p),
        None => {},
    }
    out.push((start, end));
    match after {
        Some(p) => out.push(p),
        None => {},
    }
    assert(out@ =~= context_spans_spec(rows@, chapter, start, end));
    out
}

// ------------------------------------------------------------ repeats

/// What `char::to_lowercase` makes of `c`.
pub uninterp spec fn lower_char(c: char) -> Seq<char>;

/// `char::to_lowercase`: the Unicode lower-case mapping of one character (one
/// to three characters), a property of the character alone. Named
/// ([`lower_char`]) rather than spelled out; on ASCII the documentation gives
/// it: an upper-case letter becomes its lower case, every other character
/// stays.
#[verifier::external_body]
fn lower_of(c: char) -> (r: Vec<char>)
    ensures
        r@ == lower_char(c),
        (c as u32) < 128 ==> r@.len() == 1 && crate::source::rule::ascii_lower(c, r@[0]),
{
    c.to_lowercase().collect()
}

/// ASCII punctuation: `!` to `/`, `:` to `@`, `[` to `` ` `` and `{` to `~`.
pub open spec fn ascii_punct(c: char) -> bool {
    ('!' <= c <= '/') || (':' <= c <= '@') || ('[' <= c <= '`') || ('{' <= c <= '~')
}

/// Text reduced to what matters for spotting a repeat: no whitespace, no
/// ASCII punctuation, lower case.
pub open spec fn normalized_spec(t: Seq<char>) -> Seq<char>
    decreases t.len(),
{
    if t.len() == 0 {
        Seq::empty()
    } else {
        let c = t.last();
        normalized_spec(t.drop_last()) + if !ws(c) && !ascii_punct(c) {
            lower_char(c)
        } else {
            Seq::empty()
        }
    }
}

pub fn normalized_evidence(text: &str) -> (r: Vec<char>)
    ensures
        r@ == normalized_spec(text@),
{
    let v = to_chars(text);
    let mut out: Vec<char> = Vec::new();
    let mut i: usize = 0;
    while i < v.len()
        invariant
            i <= v@.len(),
            out@ == normalized_spec(v@.take(i as int)),
        decreases v.len() - i,
    {
        assert(v@.take(i + 1).drop_last() =~= v@.take(i as int));
        let c = v[i];
        let punct = ('!' <= c && c <= '/') || (':' <= c && c <= '@') || ('[' <= c && c <= '`')
            || ('{' <= c && c <= '~');
        if !is_ws(c) && !punct {
            let l = lower_of(c);
            push_all(&mut out, l.as_slice());
        } else {
            assert(out@ + Seq::<char>::empty() =~= out@);
        }
        i += 1;
    }
    assert(v@.take(v@.len() as int) =~= v@);
    out
}

/// Both hold the same run of `k` characters somewhere.
pub open spec fn shares_run(a: Seq<char>, b: Seq<char>, k: int) -> bool {
    exists|i: int, j: int|
        0 <= i && i + k <= a.len() && 0 <= j && j + k <= b.len() && #[trigger] a.subrange(i, i + k)
            == #[trigger] b.subrange(j, j + k)
}

/// Substantial verbatim overlap: identical normalized excerpts of at least 24
/// characters, or an uninterrupted shared run of 64.
pub open spec fn repeats_spec(a: Seq<char>, b: Seq<char>) -> bool {
    (a.len() >= 24 && a == b) || (a.len() >= 64 && b.len() >= 64 && shares_run(a, b, 64))
}

fn same_run(a: &[char], i: usize, b: &[char], j: usize, k: usize) -> (r: bool)
    requires
        i + k <= a@.len(),
        j + k <= b@.len(),
    ensures
        r == (a@.subrange(i as int, i + k) == b@.subrange(j as int, j + k)),
{
    let al = a.len();
    let bl = b.len();
    let mut q: usize = 0;
    while q < k
        invariant
            q <= k,
            i + k <= a@.len(),
            j + k <= b@.len(),
            al == a@.len(),
            bl == b@.len(),
            a@.subrange(i as int, i + q) == b@.subrange(j as int, j + q),
        decreases k - q,
    {
        if a[i + q] != b[j + q] {
            assert(a@.subrange(i as int, i + k)[q as int] != b@.subrange(j as int, j + k)[q as int]);
            return false;
        }
        assert(a@.subrange(i as int, i + q + 1) =~= a@.subrange(i as int, i + q).push(a@[i + q]));
        assert(b@.subrange(j as int, j + q + 1) =~= b@.subrange(j as int, j + q).push(b@[j + q]));
        q += 1;
    }
    true
}

/// Conservative repeat detection: not a claim that two passages describe the
/// same event, only that one is a verbatim copy of the other. Paraphrased
/// recaps stay separate.
pub fn repeats_original(a: &[char], b: &[char]) -> (r: bool)
    ensures
        r == repeats_spec(a@, b@),
{
    if a.len() >= 24 && a.len() == b.len() && same_run(a, 0, b, 0, a.len()) {
        assert(a@.subrange(0, a@.len() as int) =~= a@);
        assert(b@.subrange(0, b@.len() as int) =~= b@);
        return true;
    }
    proof {
        if a@ == b@ {
            assert(a@.subrange(0, a@.len() as int) =~= a@);
        }
    }
    if a.len() < 64 || b.len() < 64 {
        return false;
    }
    let mut i: usize = 0;
    while i <= a.len() - 64
        invariant
            a@.len() >= 64,
            b@.len() >= 64,
            i <= a@.len() - 63,
            forall|x: int, y: int|
                0 <= x < i && 0 <= y && y + 64 <= b@.len() ==> #[trigger] a@.subrange(x, x + 64)
                    != #[trigger] b@.subrange(y, y + 64),
        decreases a.len() - i,
    {
        let mut j: usize = 0;
        while j <= b.len() - 64
            invariant
                a@.len() >= 64,
                b@.len() >= 64,
                i + 64 <= a@.len(),
                j <= b@.len() - 63,
                forall|y: int| 0 <= y < j ==> a@.subrange(i as int, i + 64) != #[trigger] b@.subrange(y, y + 64),
            decreases b.len() - j,
        {
            if same_run(a, i, b, j, 64) {
                return true;
            }
            j += 1;
        }
        i += 1;
    }
    proof {
        if shares_run(a@, b@, 64) {
            let (x, y) = choose|x: int, y: int|
                0 <= x && x + 64 <= a@.len() && 0 <= y && y + 64 <= b@.len() && #[trigger] a@.subrange(
                    x,
                    x + 64,
                ) == #[trigger] b@.subrange(y, y + 64);
            assert(a@.subrange(x, x + 64) != b@.subrange(y, y + 64));
        }
    }
    false
}

// ------------------------------------------------------------ replies

/// Strip every leading character found in `set`.
pub open spec fn drop_lead(s: Seq<char>, set: Seq<char>) -> Seq<char>
    decreases s.len(),
{
    if s.len() > 0 && set.contains(s[0]) {
        drop_lead(s.drop_first(), set)
    } else {
        s
    }
}

/// Strip every trailing character found in `set`.
pub open spec fn drop_tail(s: Seq<char>, set: Seq<char>) -> Seq<char>
    decreases s.len(),
{
    if s.len() > 0 && set.contains(s.last()) {
        drop_tail(s.drop_last(), set)
    } else {
        s
    }
}

/// Strip `w` from the front as many times as it repeats there.
pub open spec fn drop_word(s: Seq<char>, w: Seq<char>) -> Seq<char>
    decreases s.len(),
{
    if w.len() > 0 && prefix(s, w) {
        drop_word(s.skip(w.len() as int), w)
    } else {
        s
    }
}

/// What follows the first `</think>`, less leading blanks, or all of `s`.
pub open spec fn after_first_think(s: Seq<char>) -> Seq<char> {
    let f = first_at(s, "</think>"@, 0);
    if f >= 0 {
        trim_start(s.skip(f + "</think>"@.len()))
    } else {
        s
    }
}

pub open spec fn flatten_lines(s: Seq<char>) -> Seq<char> {
    s.map_values(|c: char| if c == '\n' || c == '\r' { ' ' } else { c })
}

/// A model reply reduced to a one-line summary: the reasoning block, line
/// breaks, quotes and a leading 摘要：/本章 removed, at most 60 characters.
pub open spec fn clean_summary_spec(raw: Seq<char>) -> Seq<char> {
    let s1 = after_first_think(trim(raw));
    let s3 = trim(flatten_lines(s1));
    let s4 = drop_lead(s3, seq!['“', '"', '「']);
    let s5 = drop_tail(s4, seq!['”', '"', '」']);
    let s7 = drop_word(drop_word(s5, "摘要："@), "本章"@);
    let s8 = trim(s7);
    if s8.len() > 60 {
        s8.take(60)
    } else {
        s8
    }
}

fn trimmed(v: &Vec<char>) -> (r: Vec<char>)
    ensures
        r@ == trim(v@),
{
    crate::text::trim_chars(v.as_slice())
}

fn strip_lead(v: Vec<char>, set: &Vec<char>) -> (r: Vec<char>)
    ensures
        r@ == drop_lead(v@, set@),
{
    let mut a: usize = 0;
    assert(v@.skip(0) =~= v@);
    while a < v.len() && crate::text::has_char(set.as_slice(), v[a])
        invariant
            a <= v@.len(),
            drop_lead(v@, set@) == drop_lead(v@.skip(a as int), set@),
        decreases v.len() - a,
    {
        assert(v@.skip(a as int).drop_first() =~= v@.skip(a + 1));
        a += 1;
    }
    let mut out: Vec<char> = Vec::new();
    push_range(&mut out, v.as_slice(), a, v.len());
    assert(v@.subrange(a as int, v@.len() as int) =~= v@.skip(a as int));
    out
}

fn strip_tail(v: Vec<char>, set: &Vec<char>) -> (r: Vec<char>)
    ensures
        r@ == drop_tail(v@, set@),
{
    let mut b: usize = v.len();
    assert(v@.take(v@.len() as int) =~= v@);
    while b > 0 && crate::text::has_char(set.as_slice(), v[b - 1])
        invariant
            b <= v@.len(),
            drop_tail(v@, set@) == drop_tail(v@.take(b as int), set@),
        decreases b,
    {
        assert(v@.take(b as int).drop_last() =~= v@.take(b - 1));
        b -= 1;
    }
    let mut out: Vec<char> = Vec::new();
    push_range(&mut out, v.as_slice(), 0, b);
    assert(v@.subrange(0, b as int) =~= v@.take(b as int));
    assert(v@.take(v@.len() as int) =~= v@);
    out
}

fn strip_word(v: Vec<char>, w: &Vec<char>) -> (r: Vec<char>)
    ensures
        r@ == drop_word(v@, w@),
{
    let mut a: usize = 0;
    assert(v@.skip(0) =~= v@);
    while w.len() > 0 && a <= v.len() && w.len() <= v.len() - a && crate::text::matches_at(
        v.as_slice(),
        w.as_slice(),
        a,
    )
        invariant
            a <= v@.len(),
            drop_word(v@, w@) == drop_word(v@.skip(a as int), w@),
        decreases v.len() - a,
    {
        assert(v@.skip(a as int).skip(w@.len() as int) =~= v@.skip(a + w@.len()));
        assert(v@.skip(a as int).subrange(0, w@.len() as int) =~= v@.subrange(a as int, a + w@.len()));
        a += w.len();
    }
    proof {
        if w@.len() > 0 && a + w@.len() <= v@.len() {
            assert(v@.skip(a as int).subrange(0, w@.len() as int) =~= v@.subrange(a as int, a + w@.len()));
        }
    }
    let mut out: Vec<char> = Vec::new();
    push_range(&mut out, v.as_slice(), a, v.len());
    assert(v@.subrange(a as int, v@.len() as int) =~= v@.skip(a as int));
    out
}

/// Clean a one-sentence summary from the model: drop its reasoning block,
/// fold it to one line, peel quotes and the "摘要：" or "本章" it tends to
/// open with, and keep at most 60 characters.
pub fn clean_summary(raw: &str) -> (r: String)
    ensures
        r@ == clean_summary_spec(raw@),
{
    let v0 = trimmed(&to_chars(raw));
    let think = to_chars("</think>");
    let n0 = v0.len();
    proof {
        lemma_first_at(v0@, think@, 0);
    }
    let v1 = match find_from(v0.as_slice(), think.as_slice(), 0) {
        Some(f) => {
            let a = trim_start_at(v0.as_slice(), f + think.len(), v0.len());
            let mut t: Vec<char> = Vec::new();
            push_range(&mut t, v0.as_slice(), a, v0.len());
            assert(v0@.subrange((f + think@.len()) as int, v0@.len() as int) =~= v0@.skip(f + think@.len()));
            assert(v0@.subrange(a as int, v0@.len() as int) =~= t@);
            t
        },
        None => v0,
    };
    let mut v2: Vec<char> = Vec::new();
    let mut i: usize = 0;
    while i < v1.len()
        invariant
            i <= v1@.len(),
            v2@ == flatten_lines(v1@).take(i as int),
        decreases v1.len() - i,
    {
        let c = v1[i];
        v2.push(if c == '\n' || c == '\r' { ' ' } else { c });
        i += 1;
        assert(v2@ =~= flatten_lines(v1@).take(i as int));
    }
    assert(flatten_lines(v1@).take(v1@.len() as int) =~= flatten_lines(v1@));
    let v3 = trimmed(&v2);
    let v4 = strip_lead(v3, &vec!['“', '"', '「']);
    let v5 = strip_tail(v4, &vec!['”', '"', '」']);
    let v6 = strip_word(v5, &to_chars("摘要："));
    let v7 = strip_word(v6, &to_chars("本章"));
    let v8 = trimmed(&v7);
    let n = if v8.len() > 60 {
        60
    } else {
        v8.len()
    };
    let mut out: Vec<char> = Vec::new();
    push_range(&mut out, v8.as_slice(), 0, n);
    assert(v8@.subrange(0, n as int) =~= v8@.take(n as int));
    assert(v8@.take(v8@.len() as int) =~= v8@);
    from_chars(out.as_slice())
}

/// The mood vocabulary. Closed on purpose: the model picks, never invents.
pub open spec fn moods() -> Seq<&'static str> {
    seq!["轻松", "紧张", "热血", "悲伤", "温馨", "悬疑", "平静", "压抑"]
}

/// Among the first `n` moods, the one whose first appearance in `t` comes
/// earliest (the earlier listed on a tie), with that position.
pub open spec fn earliest_mood(t: Seq<char>, n: int) -> Option<(int, &'static str)>
    decreases n,
{
    if n <= 0 {
        None
    } else {
        let prev = earliest_mood(t, n - 1);
        let m = moods()[n - 1];
        let p = first_at(t, m@, 0);
        if p < 0 {
            prev
        } else {
            match prev {
                Some(q) => if p < q.0 {
                    Some((p, m))
                } else {
                    prev
                },
                None => Some((p, m)),
            }
        }
    }
}

/// The mood a reply names: the vocabulary word appearing first in the cleaned
/// reply ("答案是：紧张" still counts), or none.
pub fn mood_of(reply: &str) -> (r: Option<&'static str>)
    ensures
        r == (match earliest_mood(clean_summary_spec(reply@), 8) {
            Some(q) => Some(q.1),
            None => None,
        }),
{
    let cleaned = clean_summary(reply);
    let t = to_chars(cleaned.as_str());
    let ms: Vec<&'static str> = vec!["轻松", "紧张", "热血", "悲伤", "温馨", "悬疑", "平静", "压抑"];
    assert(ms@ =~= moods());
    let mut best: Option<(usize, &'static str)> = None;
    let mut k: usize = 0;
    while k < ms.len()
        invariant
            ms@ == moods(),
            k <= 8,
            t@ == clean_summary_spec(reply@),
            match best {
                Some(b) => earliest_mood(t@, k as int) == Some((b.0 as int, b.1)),
                None => earliest_mood(t@, k as int) is None,
            },
        decreases ms.len() - k,
    {
        let m = to_chars(ms[k]);
        match find_from(t.as_slice(), m.as_slice(), 0) {
            Some(p) => {
                best = match best {
                    Some(b) => if p < b.0 {
                        Some((p, ms[k]))
                    } else {
                        Some(b)
                    },
                    None => Some((p, ms[k])),
                };
            },
            None => {},
        }
        k += 1;
    }
    match best {
        Some(b) => Some(b.1),
        None => None,
    }
}

// ------------------------------------------------------------ engine files

pub open spec fn ascii_lower(c: char) -> char {
    if 'A' <= c <= 'Z' {
        ((c as u8) + 32) as char
    } else {
        c
    }
}

/// Equal ignoring ASCII case.
pub open spec fn eq_ascii_nocase(a: Seq<char>, b: Seq<char>) -> bool {
    a.len() == b.len() && forall|i: int| 0 <= i < a.len() ==> ascii_lower(#[trigger] a[i]) == ascii_lower(b[i])
}

/// The last `.` of a file name, or -1.
pub open spec fn last_dot(n: Seq<char>, k: int) -> int
    decreases k,
{
    if k <= 0 {
        -1
    } else if n[k - 1] == '.' {
        k - 1
    } else {
        last_dot(n, k - 1)
    }
}

/// The file name's extension is `gguf` in any case: the part after its last
/// dot, where that dot is not the name's first character.
pub open spec fn is_gguf(n: Seq<char>) -> bool {
    let d = last_dot(n, n.len() as int);
    d > 0 && eq_ascii_nocase(n.skip(d + 1), "gguf"@)
}

/// Engine files only: model weights and the app's own download records and
/// rollback copies share the directory, and deleting the engine must never
/// erase them.
pub open spec fn engine_entry_spec(name: Seq<char>) -> bool {
    let l = crate::source::rule::lowercase(name);
    !is_gguf(name) && !prefix(l, ".novel-"@) && !prefix(l, "novel-chat-"@) && !prefix(l, "novel-embed-"@)
}

fn lower_ascii(c: char) -> (r: char)
    ensures
        r == ascii_lower(c),
{
    if 'A' <= c && c <= 'Z' {
        ((c as u8) + 32) as char
    } else {
        c
    }
}

pub(crate) fn eq_nocase(a: &[char], b: &[char]) -> (r: bool)
    ensures
        r == eq_ascii_nocase(a@, b@),
{
    if a.len() != b.len() {
        return false;
    }
    let mut i: usize = 0;
    while i < a.len()
        invariant
            a@.len() == b@.len(),
            i <= a@.len(),
            forall|j: int| 0 <= j < i ==> ascii_lower(#[trigger] a@[j]) == ascii_lower(b@[j]),
        decreases a.len() - i,
    {
        if lower_ascii(a[i]) != lower_ascii(b[i]) {
            return false;
        }
        i += 1;
    }
    true
}

/// Whether a directory entry (by file name) belongs to the engine.
pub fn is_engine_entry(name: &str) -> (r: bool)
    ensures
        r == engine_entry_spec(name@),
{
    let n = to_chars(name);
    let mut k = n.len();
    while k > 0 && n[k - 1] != '.'
        invariant
            k <= n@.len(),
            last_dot(n@, n@.len() as int) == last_dot(n@, k as int),
        decreases k,
    {
        k -= 1;
    }
    let g = to_chars("gguf");
    let mut gguf = false;
    if k > 1 {
        let ext = crate::text::slice_vec(n.as_slice(), k, n.len());
        assert(ext@ =~= n@.skip(k as int));
        gguf = eq_nocase(ext.as_slice(), g.as_slice());
    }
    assert(gguf == is_gguf(n@));
    let l = crate::source::rule::to_lower(name);
    let lv = to_chars(l.as_str());
    let r = !gguf && !crate::text::starts_with(lv.as_slice(), to_chars(".novel-").as_slice())
        && !crate::text::starts_with(lv.as_slice(), to_chars("novel-chat-").as_slice())
        && !crate::text::starts_with(lv.as_slice(), to_chars("novel-embed-").as_slice());
    r
}

// ------------------------------------------------------------ streaming passes

/// What a streaming pass does after one item.
#[derive(Debug, Clone, PartialEq, Eq)]
pub enum Flow {
    /// Go on with the next item.
    Next,
    /// Stop quietly: the listener has gone.
    Stop,
    /// Stop with this error: too many failures in a row.
    Fail(String),
}

pub open spec fn flow_spec(errors: u32, ok: bool, listener_gone: bool, msg: Seq<char>) -> (u32, Option<Seq<char>>, bool) {
    let e = if ok { 0 } else { errors + 1 };
    if listener_gone {
        (e as u32, None, true)
    } else if e >= 3 {
        (e as u32, Some(msg), true)
    } else {
        (e as u32, None, false)
    }
}

pub open spec fn flow_view(f: Flow) -> (Option<Seq<char>>, bool) {
    match f {
        Flow::Next => (None, false),
        Flow::Stop => (None, true),
        Flow::Fail(m) => (Some(m@), true),
    }
}

/// After one item of a pass: a success resets the run of failures, a
/// failure extends it; a departed listener stops the pass, and a third
/// failure in a row ends it with `msg`.
fn next_flow(errors: u32, ok: bool, listener_gone: bool, msg: &str) -> (r: (u32, Flow))
    requires
        errors < u32::MAX,
    ensures
        ({
            let (e, m, stop) = flow_spec(errors, ok, listener_gone, msg@);
            r.0 == e && flow_view(r.1) == (m, stop)
        }),
{
    let e = if ok {
        0
    } else {
        errors + 1
    };
    if listener_gone {
        (e, Flow::Stop)
    } else if e >= 3 {
        (e, Flow::Fail(msg.to_owned()))
    } else {
        (e, Flow::Next)
    }
}

/// One chapter of the summary pass done (`ok`) or failed.
pub fn enrich_book(errors: u32, ok: bool, listener_gone: bool) -> (r: (u32, Flow))
    requires
        errors < u32::MAX,
    ensures
        ({
            let (e, m, stop) = flow_spec(errors, ok, listener_gone, "连续 3 章失败，已停止"@);
            r.0 == e && flow_view(r.1) == (m, stop)
        }),
{
    next_flow(errors, ok, listener_gone, "连续 3 章失败，已停止")
}

/// One character background of the description pass done or failed.
pub fn describe_people(errors: u32, ok: bool, listener_gone: bool) -> (r: (u32, Flow))
    requires
        errors < u32::MAX,
    ensures
        ({
            let (e, m, stop) = flow_spec(errors, ok, listener_gone, "连续 3 位人物归纳失败，已停止"@);
            r.0 == e && flow_view(r.1) == (m, stop)
        }),
{
    next_flow(errors, ok, listener_gone, "连续 3 位人物归纳失败，已停止")
}

/// One pair of the relationship pass done or failed.
pub fn label_relations(errors: u32, ok: bool, listener_gone: bool) -> (r: (u32, Flow))
    requires
        errors < u32::MAX,
    ensures
        ({
            let (e, m, stop) = flow_spec(errors, ok, listener_gone, "连续 3 条关系判定失败，已停止"@);
            r.0 == e && flow_view(r.1) == (m, stop)
        }),
{
    next_flow(errors, ok, listener_gone, "连续 3 条关系判定失败，已停止")
}

/// One name of the vetting pass ruled on or failed.
pub fn vet_names(errors: u32, ok: bool, listener_gone: bool) -> (r: (u32, Flow))
    requires
        errors < u32::MAX,
    ensures
        ({
            let (e, m, stop) = flow_spec(errors, ok, listener_gone, "连续 3 个人名判定失败，已停止"@);
            r.0 == e && flow_view(r.1) == (m, stop)
        }),
{
    next_flow(errors, ok, listener_gone, "连续 3 个人名判定失败，已停止")
}

/// How far the semantic index of a book has got.
pub fn index_status(indexed: usize, total: usize, has_model: bool) -> (r: IndexStatus)
    requires
        indexed <= u32::MAX,
        total <= u32::MAX,
    ensures
        r.indexed == indexed,
        r.total == total,
        r.has_model == has_model,
{
    IndexStatus { indexed: indexed as u32, total: total as u32, has_model }
}

// ------------------------------------------------------------ time

pub open spec fn hour_bucket_spec(h: i64) -> &'static str {
    if 5 <= h <= 7 {
        "清晨"
    } else if 8 <= h <= 11 {
        "上午"
    } else if 12 <= h <= 13 {
        "中午"
    } else if 14 <= h <= 17 {
        "下午"
    } else if 18 <= h <= 21 {
        "晚上"
    } else {
        "深夜"
    }
}

/// The part of the day an hour falls in.
pub fn hour_bucket(h: i64) -> (r: &'static str)
    ensures
        r == hour_bucket_spec(h),
{
    if 5 <= h && h <= 7 {
        "清晨"
    } else if 8 <= h && h <= 11 {
        "上午"
    } else if 12 <= h && h <= 13 {
        "中午"
    } else if 14 <= h && h <= 17 {
        "下午"
    } else if 18 <= h && h <= 21 {
        "晚上"
    } else {
        "深夜"
    }
}

/// `a` divided by a positive `b`, rounded down.
pub(crate) fn floor_div(a: i64, b: i64) -> (r: i64)
    requires
        b > 0,
    ensures
        r == a / b,
{
    if a >= 0 {
        let q = (a as u64) / (b as u64);
        assert(q == a / b);
        q as i64
    } else {
        let na = (-(a + 1)) as u64;
        let q = na / (b as u64);
        assert(a / b == -(q as int) - 1) by (nonlinear_arith)
            requires
                na as int == -(a + 1),
                q as int == (na as int) / (b as int),
                b > 0,
                a < 0,
        ;
        -(q as i64) - 1
    }
}

/// Civil date (year, month, day) of a Unix timestamp, by the days-to-date
/// arithmetic of the proleptic Gregorian calendar in 400-year eras.
pub open spec fn ymd_spec(secs: int) -> (int, int, int) {
    let z = secs / 86400 + 719468;
    let era = z / 146097;
    let doe = z - era * 146097;
    let yoe = (doe - doe / 1460 + doe / 36524 - doe / 146096) / 365;
    let y = yoe + era * 400;
    let doy = doe - (365 * yoe + yoe / 4 - yoe / 100);
    let mp = (5 * doy + 2) / 153;
    let d = doy - (153 * mp + 2) / 5 + 1;
    let m = if mp < 10 {
        mp + 3
    } else {
        mp - 9
    };
    (if m <= 2 {
        y + 1
    } else {
        y
    }, m, d)
}

pub fn ymd_from_epoch(secs: i64) -> (r: (i64, i64, i64))
    ensures
        (r.0 as int, r.1 as int, r.2 as int) == ymd_spec(secs as int),
{
    let days = floor_div(secs, 86400);
    assert(-106751991167301 <= days <= 106751991167300) by (nonlinear_arith)
        requires
            days == secs / 86400,
            i64::MIN <= secs <= i64::MAX,
    ;
    let z = days + 719468;
    let era = floor_div(z, 146097);
    assert(-800000000 <= era <= 800000000) by (nonlinear_arith)
        requires
            era == z / 146097,
            -106751991167301 + 719468 <= z <= 106751991167300 + 719468,
    ;
    let doe = z - era * 146097;
    assert(0 <= doe < 146097) by (nonlinear_arith)
        requires
            era == z / 146097,
            doe == z - era * 146097,
    ;
    let yoe = (doe - doe / 1460 + doe / 36524 - doe / 146096) / 365;
    assert(0 <= yoe <= 400) by (nonlinear_arith)
        requires
            0 <= doe < 146097,
            yoe == (doe - doe / 1460 + doe / 36524 - doe / 146096) / 365,
    ;
    let y = yoe + era * 400;
    let doy = doe - (365 * yoe + yoe / 4 - yoe / 100);
    assert(-1000000 <= doy <= 1000000) by (nonlinear_arith)
        requires
            0 <= doe < 146097,
            0 <= yoe <= 400,
            doy == doe - (365 * yoe + yoe / 4 - yoe / 100),
    ;
    let mp = floor_div(5 * doy + 2, 153);
    assert(-100000 <= mp <= 100000) by (nonlinear_arith)
        requires
            -1000000 <= doy <= 1000000,
            mp == (5 * doy + 2) / 153,
    ;
    let d = doy - floor_div(153 * mp + 2, 5) + 1;
    let m = if mp < 10 {
        mp + 3
    } else {
        mp - 9
    };
    (if m <= 2 {
        y + 1
    } else {
        y
    }, m, d)
}

} // verus!
