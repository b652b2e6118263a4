//! Turning an edge's raw appellation hints into one relationship label from a
//! closed set — the rule half of the label layer.
//!
//! An appellation the text actually uses (师父, 老婆, 仇人) fixes a relationship
//! with more certainty than a small model reading the scene ever could, and it
//! costs nothing. So the rules label every edge whose hints agree, and the model
//! is spent only on the residue: edges with no usable appellation, or a genuine
//! split. The label set is closed on purpose: a missing label degrades to
//! [`UNKNOWN`], a hallucinated one lies forever.
use vstd::prelude::*;
use crate::text::to_chars;

verus! {

/// The closed relationship vocabulary. Coarse by design: a graph edge wants the
/// one bucket a reader would name at a glance, not a kinship-chart's precision.
pub open spec fn labels() -> Seq<&'static str> {
    seq!["师徒", "亲子", "兄弟姐妹", "夫妻恋人", "同门", "朋友", "上下级", "敌对"]
}

/// [`labels`], as a value.
pub const LABELS: [&'static str; 8] = ["师徒", "亲子", "兄弟姐妹", "夫妻恋人", "同门", "朋友", "上下级", "敌对"];

pub fn labels_exec() -> (v: Vec<&'static str>)
    ensures
        v@ == labels(),
{
    vec!["师徒", "亲子", "兄弟姐妹", "夫妻恋人", "同门", "朋友", "上下级", "敌对"]
}

/// Not in [`labels`]: the answer for an edge nothing could decide. A real,
/// honest state — "they share scenes, the relationship isn't spelled out".
pub const UNKNOWN: &'static str = "不明";

/// Which label (by index into [`labels`]) each appellation votes for. Words
/// that are too ambiguous to vote are simply absent:
///
/// - Sworn vs blood / role vs courtesy: 兄弟 and 姐妹 mean sworn brotherhood as
///   often as blood; 大哥 is an elder brother or a gang boss; 大人/公子/小姐/前辈
///   name a rank in one book and mere courtesy in another.
/// - Absolute-rank titles: 殿下/陛下/王爷 mark the *addressee's* station, which
///   pervades every scene that person is in, so the pure titles stay silent;
///   only the position a subordinate names *of the pair* (属下, 卑职, 队长,
///   掌门) votes 上下级.
/// - 娘 and 妈 leak out of 姑娘/娘子/老娘 and 妈的/妈呀 as single characters.
pub open spec fn word_table() -> Seq<(&'static str, usize)> {
    seq![
        ("师父", 0usize), ("师尊", 0usize), ("师傅", 0usize), ("恩师", 0usize),
        ("徒弟", 0usize), ("徒儿", 0usize), ("弟子", 0usize),
        ("爹", 1usize), ("父亲", 1usize), ("母亲", 1usize), ("爸", 1usize), ("儿子", 1usize),
        ("女儿", 1usize), ("闺女", 1usize), ("爷爷", 1usize), ("奶奶", 1usize),
        ("外公", 1usize), ("外婆", 1usize), ("叔叔", 1usize), ("舅舅", 1usize), ("姑姑", 1usize),
        ("哥哥", 2usize), ("二哥", 2usize), ("兄长", 2usize), ("弟弟", 2usize), ("老弟", 2usize),
        ("姐姐", 2usize), ("妹妹", 2usize), ("堂兄", 2usize), ("表哥", 2usize), ("表妹", 2usize),
        ("夫人", 3usize), ("娘子", 3usize), ("相公", 3usize), ("丈夫", 3usize), ("妻子", 3usize),
        ("媳妇", 3usize), ("老婆", 3usize), ("老公", 3usize), ("夫君", 3usize),
        ("未婚妻", 3usize), ("未婚夫", 3usize), ("男朋友", 3usize), ("女朋友", 3usize),
        ("男友", 3usize), ("女友", 3usize), ("恋人", 3usize),
        ("师兄", 4usize), ("师弟", 4usize), ("师姐", 4usize), ("师妹", 4usize), ("师叔", 4usize),
        ("师伯", 4usize), ("同门", 4usize), ("同窗", 4usize),
        ("同学", 5usize), ("同事", 5usize), ("战友", 5usize), ("队友", 5usize), ("搭档", 5usize),
        ("朋友", 5usize), ("好友", 5usize), ("知己", 5usize),
        ("主公", 6usize), ("主人", 6usize), ("属下", 6usize), ("部下", 6usize), ("卑职", 6usize),
        ("微臣", 6usize), ("长老", 6usize), ("掌门", 6usize), ("宗主", 6usize), ("队长", 6usize),
        ("组长", 6usize), ("老板", 6usize), ("上司", 6usize), ("老大", 6usize),
        ("仇人", 7usize), ("仇家", 7usize), ("死敌", 7usize), ("对手", 7usize), ("敌人", 7usize),
    ]
}

pub fn word_table_exec() -> (v: Vec<(&'static str, usize)>)
    ensures
        v@ == word_table(),
{
    vec![
        ("师父", 0usize), ("师尊", 0usize), ("师傅", 0usize), ("恩师", 0usize),
        ("徒弟", 0usize), ("徒儿", 0usize), ("弟子", 0usize),
        ("爹", 1usize), ("父亲", 1usize), ("母亲", 1usize), ("爸", 1usize), ("儿子", 1usize),
        ("女儿", 1usize), ("闺女", 1usize), ("爷爷", 1usize), ("奶奶", 1usize),
        ("外公", 1usize), ("外婆", 1usize), ("叔叔", 1usize), ("舅舅", 1usize), ("姑姑", 1usize),
        ("哥哥", 2usize), ("二哥", 2usize), ("兄长", 2usize), ("弟弟", 2usize), ("老弟", 2usize),
        ("姐姐", 2usize), ("妹妹", 2usize), ("堂兄", 2usize), ("表哥", 2usize), ("表妹", 2usize),
        ("夫人", 3usize), ("娘子", 3usize), ("相公", 3usize), ("丈夫", 3usize), ("妻子", 3usize),
        ("媳妇", 3usize), ("老婆", 3usize), ("老公", 3usize), ("夫君", 3usize),
        ("未婚妻", 3usize), ("未婚夫", 3usize), ("男朋友", 3usize), ("女朋友", 3usize),
        ("男友", 3usize), ("女友", 3usize), ("恋人", 3usize),
        ("师兄", 4usize), ("师弟", 4usize), ("师姐", 4usize), ("师妹", 4usize), ("师叔", 4usize),
        ("师伯", 4usize), ("同门", 4usize), ("同窗", 4usize),
        ("同学", 5usize), ("同事", 5usize), ("战友", 5usize), ("队友", 5usize), ("搭档", 5usize),
        ("朋友", 5usize), ("好友", 5usize), ("知己", 5usize),
        ("主公", 6usize), ("主人", 6usize), ("属下", 6usize), ("部下", 6usize), ("卑职", 6usize),
        ("微臣", 6usize), ("长老", 6usize), ("掌门", 6usize), ("宗主", 6usize), ("队长", 6usize),
        ("组长", 6usize), ("老板", 6usize), ("上司", 6usize), ("老大", 6usize),
        ("仇人", 7usize), ("仇家", 7usize), ("死敌", 7usize), ("对手", 7usize), ("敌人", 7usize),
    ]
}

/// The label index of the first table entry spelled `w`, searching from `k`.
pub open spec fn lookup_from(t: Seq<(&'static str, usize)>, w: Seq<char>, k: int) -> Option<
    usize,
>
    decreases t.len() - k,
{
    if k < 0 || k >= t.len() {
        None
    } else if t[k].0@ == w {
        Some(t[k].1)
    } else {
        lookup_from(t, w, k + 1)
    }
}

/// Which label an appellation implies, as an index into [`labels`].
pub open spec fn word_label_spec(w: Seq<char>) -> Option<usize> {
    lookup_from(word_table(), w, 0)
}

proof fn lemma_lookup_bound(t: Seq<(&'static str, usize)>, w: Seq<char>, k: int)
    requires
        forall|j: int| 0 <= j < t.len() ==> (#[trigger] t[j]).1 < 8,
    ensures
        lookup_from(t, w, k) matches Some(l) ==> l < 8,
    decreases t.len() - k,
{
    if 0 <= k < t.len() && t[k].0@ != w {
        lemma_lookup_bound(t, w, k + 1);
    }
}

/// The table only ever names labels of the closed set.
pub proof fn word_labels_are_closed(w: Seq<char>)
    ensures
        word_label_spec(w) matches Some(l) ==> l < labels().len(),
{
    let t = word_table();
    assert forall|j: int| 0 <= j < t.len() implies (#[trigger] t[j]).1 < 8 by {}
    lemma_lookup_bound(t, w, 0);
}

fn str_eq_chars(a: &str, b: &[char]) -> (r: bool)
    ensures
        r == (a@ == b@),
{
    let av = to_chars(a);
    if av.len() != b.len() {
        return false;
    }
    let mut i: usize = 0;
    while i < b.len()
        invariant
            av@.len() == b@.len(),
            av@ == a@,
            i <= b.len(),
            forall|j: int| 0 <= j < i ==> av@[j] == b@[j],
        decreases b.len() - i,
    {
        if av[i] != b[i] {
            return false;
        }
        i += 1;
    }
    assert(av@ =~= b@);
    true
}

/// Which label an appellation implies, or None when the word is too ambiguous
/// to vote.
pub fn word_label(w: &str) -> (r: Option<&'static str>)
    ensures
        match word_label_spec(w@) {
            Some(l) => r == Some(labels()[l as int]),
            None => r is None,
        },
{
    let names = labels_exec();
    match word_label_index(w) {
        Some(l) => Some(names[l]),
        None => None,
    }
}

/// [`word_label`], answered as an index into [`labels`].
pub fn word_label_index(w: &str) -> (r: Option<usize>)
    ensures
        r == word_label_spec(w@),
        r matches Some(l) ==> l < 8,
{
    let t = word_table_exec();
    let wv = to_chars(w);
    let mut k: usize = 0;
    proof {
        word_labels_are_closed(w@);
    }
    while k < t.len()
        invariant
            t@ == word_table(),
            wv@ == w@,
            k <= t.len(),
            lookup_from(word_table(), w@, 0) == lookup_from(word_table(), w@, k as int),
        decreases t.len() - k,
    {
        if str_eq_chars(t[k].0, wv.as_slice()) {
            return Some(t[k].1);
        }
        k += 1;
    }
    None
}

/// Votes for label `l` in the first `n` hints.
pub open spec fn tally(hints: Seq<(String, u32)>, l: usize, n: int) -> nat
    decreases n,
{
    if n <= 0 {
        0
    } else {
        tally(hints, l, n - 1) + if word_label_spec(hints[n - 1].0@) == Some(l) {
            hints[n - 1].1 as nat
        } else {
            0
        }
    }
}

/// All decisive votes in the first `n` hints.
pub open spec fn voting_total(hints: Seq<(String, u32)>, n: int) -> nat
    decreases n,
{
    if n <= 0 {
        0
    } else {
        voting_total(hints, n - 1) + if word_label_spec(hints[n - 1].0@) is Some {
            hints[n - 1].1 as nat
        } else {
            0
        }
    }
}

/// Label `l` carries the edge: at least two votes, and a strict majority of
/// the decisive weight.
pub open spec fn decides(hints: Seq<(String, u32)>, l: usize) -> bool {
    let t = tally(hints, l, hints.len() as int);
    t >= 2 && 2 * t > voting_total(hints, hints.len() as int)
}

proof fn lemma_tally_le_total(hints: Seq<(String, u32)>, l: usize, n: int)
    ensures
        tally(hints, l, n) <= voting_total(hints, n),
    decreases n,
{
    if n > 0 {
        lemma_tally_le_total(hints, l, n - 1);
    }
}

/// A strict majority is held by at most one label.
pub proof fn decision_is_unique(hints: Seq<(String, u32)>, l1: usize, l2: usize)
    requires
        decides(hints, l1),
        decides(hints, l2),
    ensures
        l1 == l2,
{
    if l1 != l2 {
        lemma_two_tallies(hints, l1, l2, hints.len() as int);
    }
}

proof fn lemma_two_tallies(hints: Seq<(String, u32)>, l1: usize, l2: usize, n: int)
    requires
        l1 != l2,
    ensures
        tally(hints, l1, n) + tally(hints, l2, n) <= voting_total(hints, n),
    decreases n,
{
    if n > 0 {
        lemma_two_tallies(hints, l1, l2, n - 1);
    }
}

/// Resolve an edge's appellation hints to one label, or None when they are
/// absent, all ambiguous, or genuinely split.
///
/// `hints` is (word, count). A label wins only on a clear majority of the
/// decisive weight: a 2-vs-2 split between 亲子 and 上下级 is not one
/// relationship stated two ways, it is two relationships in the same scenes,
/// and the rules must not pick. One address (a single 爹) is evidence, not yet
/// a relationship.
pub fn from_hints(hints: &[(String, u32)]) -> (r: Option<&'static str>)
    requires
        voting_total(hints@, hints@.len() as int) <= u32::MAX,
    ensures
        match r {
            Some(s) => exists|l: usize| l < 8 && decides(hints@, l) && s == labels()[l as int],
            None => forall|l: usize| l < 8 ==> !decides(hints@, l),
        },
{
    let names = labels_exec();
    let mut tallies: Vec<u64> = vec![0u64, 0, 0, 0, 0, 0, 0, 0];
    let mut total: u64 = 0;
    let mut i: usize = 0;
    while i < hints.len()
        invariant
            i <= hints.len(),
            tallies@.len() == 8,
            forall|l: usize| l < 8 ==> tallies@[l as int] == tally(hints@, l, i as int),
            total == voting_total(hints@, i as int),
            voting_total(hints@, hints@.len() as int) <= u32::MAX,
        decreases hints.len() - i,
    {
        proof {
            lemma_voting_mono(hints@, i + 1, hints@.len() as int);
            lemma_tally_le_total(hints@, 0, i + 1);
        }
        let c = hints[i].1;
        match word_label_index(hints[i].0.as_str()) {
            Some(l) => {
                proof {
                    lemma_tally_le_total(hints@, l, i + 1);
                }
                let old = tallies[l];
                tallies.set(l, old + c as u64);
                total = total + c as u64;
            },
            None => {},
        }
        i += 1;
    }
    // The label with the most votes; the first such on a tie, which cannot
    // matter: a tied label never holds a strict majority.
    let mut best: usize = 0;
    let mut l: usize = 1;
    while l < 8
        invariant
            1 <= l <= 8,
            best < l,
            tallies@.len() == 8,
            forall|j: int| 0 <= j < l ==> tallies@[j] <= tallies@[best as int],
        decreases 8 - l,
    {
        if tallies[l] > tallies[best] {
            best = l;
        }
        l += 1;
    }
    let top = tallies[best];
    proof {
        lemma_tally_le_total(hints@, best, hints@.len() as int);
    }
    if total == 0 {
        assert forall|l: usize| l < 8 implies !decides(hints@, l) by {
            lemma_tally_le_total(hints@, l, hints@.len() as int);
        }
        return None;
    }
    if top >= 2 && top * 2 > total {
        Some(names[best])
    } else {
        assert forall|l: usize| l < 8 implies !decides(hints@, l) by {
            assert(tallies@[l as int] <= top);
        }
        None
    }
}

proof fn lemma_voting_mono(hints: Seq<(String, u32)>, i: int, n: int)
    requires
        i <= n,
    ensures
        voting_total(hints, i) <= voting_total(hints, n),
    decreases n - i,
{
    if i < n {
        lemma_voting_mono(hints, i, n - 1);
    }
}

} // verus!
