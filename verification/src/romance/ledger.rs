//! The evidence each candidate collects, the verdict it adds up to, and
//! the book's label read from all verdicts.
use vstd::prelude::*;
use crate::cast::{Edge, Person};
use crate::romance::people::same;
use crate::romance::rules::Kind;
use crate::romance::words::{has_any, non_romance_labels, non_romance_labels_words, romantic_roles, romantic_roles_words};
use crate::romance::{RelationshipEvidence, RelationshipPerson};
use crate::text::{contains, from_chars, push_all, to_chars};

verus! {

/// One candidate's evidence, with what was already recorded (chapter,
/// kind, matched text) so the same scene is not counted twice.
pub struct Ledger {
    pub evidence: Vec<(Kind, &'static str, RelationshipEvidence)>,
    pub seen: Vec<(usize, Kind, Vec<char>)>,
}

/// Evidence as plain values: chapter, person, kind, strength, text.
pub type EvV = (usize, Seq<char>, Seq<char>, u32, Seq<char>);

pub open spec fn ev_view(e: RelationshipEvidence) -> EvV {
    (e.chapter, e.person@, e.kind@, e.strength, e.text@)
}

/// A ledger as plain values: (kind, direction, evidence) items, and the
/// recorded (chapter, kind, matched) keys.
pub type LedgerV = (Seq<(Kind, Seq<char>, EvV)>, Seq<(usize, Kind, Seq<char>)>);

pub open spec fn ledger_view(l: Ledger) -> LedgerV {
    (
        l.evidence@.map_values(|e: (Kind, &'static str, RelationshipEvidence)| (e.0, e.1@, ev_view(e.2))),
        l.seen@.map_values(|x: (usize, Kind, Vec<char>)| (x.0, x.1, x.2@)),
    )
}

/// One piece of evidence offered to a ledger: chapter, kind, matched text,
/// direction, evidence.
pub type EventV = (usize, Kind, Seq<char>, Seq<char>, EvV);

/// The ledger after offering `e`: unchanged when its key was recorded.
pub open spec fn add_view(l: LedgerV, e: EventV) -> LedgerV {
    if l.1.contains((e.0, e.1, e.2)) {
        l
    } else {
        (l.0.push((e.1, e.3, e.4)), l.1.push((e.0, e.1, e.2)))
    }
}

/// The ledger after offering each of `es` in turn.
pub open spec fn fold_add(l: LedgerV, es: Seq<EventV>) -> LedgerV
    decreases es.len(),
{
    if es.len() == 0 {
        l
    } else {
        add_view(fold_add(l, es.drop_last()), es.last())
    }
}

/// Whether (chapter, kind, matched) stands among the recorded keys.
pub open spec fn recorded(seen: Seq<(usize, Kind, Vec<char>)>, chapter: usize, kind: Kind, matched: Seq<char>) -> bool {
    exists|i: int| 0 <= i < seen.len() && (#[trigger] seen[i]).0 == chapter && seen[i].1 == kind && seen[i].2@ == matched
}

impl Ledger {
    pub fn new() -> (r: Ledger)
        ensures
            r.evidence@ == Seq::<(Kind, &'static str, RelationshipEvidence)>::empty(),
            r.seen@ == Seq::<(usize, Kind, Vec<char>)>::empty(),
    {
        Ledger { evidence: Vec::new(), seen: Vec::new() }
    }

    /// Record evidence unless (chapter, kind, matched) was recorded before;
    /// whether it was new.
    pub fn add(&mut self, chapter: usize, kind: Kind, matched: Vec<char>, direction: &'static str, ev: RelationshipEvidence) -> (r: bool)
        ensures
            r == !recorded(old(self).seen@, chapter, kind, matched@),
            r ==> final(self).seen@ == old(self).seen@.push((chapter, kind, matched)),
            r ==> final(self).evidence@ == old(self).evidence@.push((kind, direction, ev)),
            !r ==> final(self).seen@ == old(self).seen@ && final(self).evidence@ == old(self).evidence@,
            ledger_view(*final(self)) == add_view(ledger_view(*old(self)), (chapter, kind, matched@, direction@, ev_view(ev))),
    {
        let ghost l0 = ledger_view(*self);
        let ghost key = (chapter, kind, matched@);
        assert(l0.1.contains(key) == recorded(self.seen@, chapter, kind, matched@)) by {
            if l0.1.contains(key) {
                let j = choose|j: int| 0 <= j < l0.1.len() && l0.1[j] == key;
                assert(self.seen@[j].0 == chapter && self.seen@[j].1 == kind && self.seen@[j].2@ == matched@);
            }
            if recorded(self.seen@, chapter, kind, matched@) {
                let j = choose|j: int| 0 <= j < self.seen@.len() && (#[trigger] self.seen@[j]).0 == chapter && self.seen@[j].1 == kind && self.seen@[j].2@ == matched@;
                assert(l0.1[j] == key);
            }
        }
        let mut i: usize = 0;
        while i < self.seen.len()
            invariant
                self.seen@ == old(self).seen@,
                self.evidence@ == old(self).evidence@,
                i <= self.seen@.len(),
                forall|j: int| 0 <= j < i ==> !((#[trigger] self.seen@[j]).0 == chapter && self.seen@[j].1 == kind && self.seen@[j].2@ == matched@),
                l0 == ledger_view(*old(self)),
                key == (chapter, kind, matched@),
                l0.1.contains(key) == recorded(old(self).seen@, chapter, kind, matched@),
            decreases self.seen@.len() - i,
        {
            if self.seen[i].0 == chapter && self.seen[i].1 == kind && same(&self.seen[i].2, &matched) {
                assert(recorded(old(self).seen@, chapter, kind, matched@));
                assert(ledger_view(*self) == l0);
                assert(l0.1.contains(key));
                assert(add_view(l0, (chapter, kind, matched@, direction@, ev_view(ev))) == l0);
                return false;
            }
            i += 1;
        }
        let ghost ev0 = self.evidence@;
        let ghost se0 = self.seen@;
        self.seen.push((chapter, kind, matched));
        self.evidence.push((kind, direction, ev));
        assert(ledger_view(*self).0 =~= l0.0.push((kind, direction@, ev_view(ev))));
        assert(ledger_view(*self).1 =~= l0.1.push(key));
        true
    }
}

/// The first edge from the `i`-th on that joins `a` and `b`, either way.
pub open spec fn pair_edge(es: Seq<Edge>, a: usize, b: usize, i: int) -> Option<int>
    decreases es.len() - i,
{
    if i < 0 || i >= es.len() {
        None
    } else if (es[i].a == a && es[i].b == b) || (es[i].a == b && es[i].b == a) {
        Some(i)
    } else {
        pair_edge(es, a, b, i + 1)
    }
}

/// The counts of the first `k` hints that are one of `words`, added with
/// saturation.
pub open spec fn role_hint_sum(hs: Seq<(String, u32)>, words: Seq<&'static str>, k: int) -> u32
    decreases k,
{
    if k <= 0 {
        0
    } else {
        let prev = role_hint_sum(hs, words, k - 1);
        if is_word(hs[k - 1].0@, words) {
            if prev + hs[k - 1].1 > u32::MAX { u32::MAX } else { (prev + hs[k - 1].1) as u32 }
        } else {
            prev
        }
    }
}

/// `w` is one of `words`.
pub open spec fn is_word(w: Seq<char>, words: Seq<&'static str>) -> bool {
    exists|k: int| 0 <= k < words.len() && (#[trigger] words[k])@ == w
}

pub open spec fn label_view(l: Option<String>) -> Option<Seq<char>> {
    match l {
        Some(s) => Some(s@),
        None => None,
    }
}

pub open spec fn opt_chars(l: Option<Vec<char>>) -> Option<Seq<char>> {
    match l {
        Some(s) => Some(s@),
        None => None,
    }
}

/// The label the cast graph gave the pair.
pub open spec fn context_label(es: Seq<Edge>, a: usize, b: usize) -> Option<Seq<char>> {
    match pair_edge(es, a, b, 0) {
        Some(i) => label_view(es[i].label),
        None => None,
    }
}

/// How many romantic-role appellations bind the pair in the cast graph.
pub open spec fn context_hints(es: Seq<Edge>, a: usize, b: usize) -> u32 {
    match pair_edge(es, a, b, 0) {
        Some(i) => role_hint_sum(es[i].hints@, romantic_roles_words(), es[i].hints@.len() as int),
        None => 0,
    }
}

/// The label the cast graph gave the pair, and how many romantic-role
/// appellations bind them.
pub fn cast_context(edges: &[Edge], a: usize, b: usize) -> (r: (Option<Vec<char>>, u32))
    ensures
        match pair_edge(edges@, a, b, 0) {
            Some(i) => opt_chars(r.0) == label_view(edges@[i].label) && r.1 == role_hint_sum(
                edges@[i].hints@,
                romantic_roles_words(),
                edges@[i].hints@.len() as int,
            ),
            None => r.0 is None && r.1 == 0,
        },
        opt_chars(r.0) == context_label(edges@, a, b),
        r.1 == context_hints(edges@, a, b),
{
    let roles = romantic_roles();
    let mut i: usize = 0;
    while i < edges.len()
        invariant
            i <= edges@.len(),
            pair_edge(edges@, a, b, 0) == pair_edge(edges@, a, b, i as int),
            roles@ == romantic_roles_words(),
        decreases edges@.len() - i,
    {
        let e = &edges[i];
        if (e.a == a && e.b == b) || (e.a == b && e.b == a) {
            let mut sum: u32 = 0;
            let mut k: usize = 0;
            while k < e.hints.len()
                invariant
                    roles@ == romantic_roles_words(),
                    k <= e.hints@.len(),
                    sum == role_hint_sum(e.hints@, roles@, k as int),
                decreases e.hints@.len() - k,
            {
                let w = to_chars(e.hints[k].0.as_str());
                if is_role(&w, &roles) {
                    sum = sum.saturating_add(e.hints[k].1);
                }
                k += 1;
            }
            let label = match &e.label {
                Some(l) => Some(to_chars(l.as_str())),
                None => None,
            };
            return (label, sum);
        }
        i += 1;
    }
    (None, 0)
}

fn is_role(w: &Vec<char>, words: &Vec<&'static str>) -> (r: bool)
    ensures
        r == is_word(w@, words@),
{
    let mut k: usize = 0;
    while k < words.len()
        invariant
            k <= words@.len(),
            forall|j: int| 0 <= j < k ==> (#[trigger] words@[j])@ != w@,
        decreases words@.len() - k,
    {
        let x = to_chars(words[k]);
        if same(&x, w) {
            return true;
        }
        k += 1;
    }
    false
}

/// The chapters of the first `k` items that hold evidence of `kind`,
/// each once, in the order first seen.
pub open spec fn chapter_list(ev: Seq<(Kind, &'static str, RelationshipEvidence)>, kind: Kind, k: int) -> Seq<usize>
    decreases k,
{
    if k <= 0 {
        Seq::empty()
    } else {
        let r = chapter_list(ev, kind, k - 1);
        if ev[k - 1].0 == kind && !r.contains(ev[k - 1].2.chapter) {
            r.push(ev[k - 1].2.chapter)
        } else {
            r
        }
    }
}

/// How many distinct chapters hold evidence of `kind`.
pub open spec fn chapter_count(ev: Seq<(Kind, &'static str, RelationshipEvidence)>, kind: Kind) -> int {
    chapter_list(ev, kind, ev.len() as int).len() as int
}

/// How many distinct chapters hold evidence of `kind`.
fn chapters_of(ev: &Vec<(Kind, &'static str, RelationshipEvidence)>, kind: Kind) -> (r: usize)
    ensures
        r == chapter_count(ev@, kind),
        r <= ev@.len(),
{
    let mut chs: Vec<usize> = Vec::new();
    let mut i: usize = 0;
    while i < ev.len()
        invariant
            chs@.len() <= i,
            i <= ev@.len(),
            chs@ == chapter_list(ev@, kind, i as int),
        decreases ev@.len() - i,
    {
        if ev[i].0 == kind {
            let c = ev[i].2.chapter;
            let mut seen = false;
            let mut j: usize = 0;
            while j < chs.len()
                invariant
                    j <= chs@.len(),
                    seen == exists|q: int| 0 <= q < j && chs@[q] == c,
                decreases chs@.len() - j,
            {
                if chs[j] == c {
                    seen = true;
                }
                j += 1;
            }
            assert(seen == chs@.contains(c));
            if !seen {
                chs.push(c);
            }
        }
        i += 1;
    }
    chs.len()
}

/// Some love or mutual evidence points the way `d` says.
pub open spec fn points(ev: Seq<(Kind, &'static str, RelationshipEvidence)>, d: Seq<char>) -> bool {
    exists|i: int| 0 <= i < ev.len() && ((#[trigger] ev[i]).0 == Kind::Love || ev[i].0 == Kind::Mutual) && ev[i].1@ == d
}

fn has_direction(ev: &Vec<(Kind, &'static str, RelationshipEvidence)>, d: &str) -> (r: bool)
    ensures
        r == points(ev@, d@),
{
    let mut i: usize = 0;
    while i < ev.len()
        invariant
            i <= ev@.len(),
            forall|j: int| 0 <= j < i ==> !(((#[trigger] ev@[j]).0 == Kind::Love || ev@[j].0 == Kind::Mutual) && ev@[j].1@ == d@),
        decreases ev@.len() - i,
    {
        if (ev[i].0 == Kind::Love || ev[i].0 == Kind::Mutual) && str_same(ev[i].1, d) {
            return true;
        }
        i += 1;
    }
    false
}

pub fn str_same(a: &str, b: &str) -> (r: bool)
    ensures
        r == (a@ == b@),
{
    let x = to_chars(a);
    let y = to_chars(b);
    same(&x, &y)
}

/// `x` placed after the last item at least as strong.
pub open spec fn ins_strength(s: Seq<RelationshipEvidence>, x: RelationshipEvidence) -> Seq<RelationshipEvidence>
    decreases s.len(),
{
    if s.len() == 0 || s.last().strength >= x.strength {
        s.push(x)
    } else {
        ins_strength(s.drop_last(), x).push(s.last())
    }
}

/// The items strongest first, equal strengths in their order.
pub open spec fn strength_sorted(s: Seq<RelationshipEvidence>) -> Seq<RelationshipEvidence>
    decreases s.len(),
{
    if s.len() == 0 {
        Seq::empty()
    } else {
        ins_strength(strength_sorted(s.drop_last()), s.last())
    }
}

proof fn lemma_ins_strength(s: Seq<RelationshipEvidence>, x: RelationshipEvidence, p: int)
    requires
        0 <= p <= s.len(),
        forall|q: int| p <= q < s.len() ==> (#[trigger] s[q]).strength < x.strength,
        p == 0 || s[p - 1].strength >= x.strength,
    ensures
        ins_strength(s, x) == s.insert(p, x),
    decreases s.len(),
{
    if p == s.len() {
        assert(s.insert(p, x) =~= s.push(x));
    } else {
        let d = s.drop_last();
        lemma_ins_strength(d, x, p);
        assert(s.insert(p, x) =~= d.insert(p, x).push(s.last()));
    }
}

/// Evidence ordered strongest first, equal strengths keeping their order.
pub fn by_strength(ev: Vec<RelationshipEvidence>) -> (r: Vec<RelationshipEvidence>)
    ensures
        r@ == strength_sorted(ev@),
        r@.len() == ev@.len(),
        forall|a: int, b: int| 0 <= a <= b < r@.len() ==> r@[a].strength >= r@[b].strength,
{
    let ghost orig = ev@;
    let mut out: Vec<RelationshipEvidence> = Vec::new();
    let mut ev = ev;
    let n = ev.len();
    let mut k: usize = 0;
    assert(orig.take(0) =~= Seq::<RelationshipEvidence>::empty());
    while k < n
        invariant
            n == ev@.len(),
            n == orig.len(),
            k <= n,
            out@.len() == k,
            out@ == strength_sorted(orig.take(k as int)),
            forall|j: int| k <= j < n ==> ev@[j] == orig[j],
            forall|a: int, b: int| 0 <= a <= b < out@.len() ==> out@[a].strength >= out@[b].strength,
        decreases n - k,
    {
        let mut item = RelationshipEvidence { chapter: 0, person: String::new(), kind: String::new(), strength: 0, text: String::new() };
        let ghost evb = ev@;
        ev.set_and_swap(k, &mut item);
        assert(item == orig[k as int]);
        let st = item.strength;
        let mut p: usize = out.len();
        while p > 0 && out[p - 1].strength < st
            invariant
                p <= out@.len(),
                forall|a: int, b: int| 0 <= a <= b < out@.len() ==> out@[a].strength >= out@[b].strength,
                forall|j: int| p <= j < out@.len() ==> out@[j].strength < st,
            decreases p,
        {
            p -= 1;
        }
        let ghost pre = out@;
        proof {
            lemma_ins_strength(pre, item, p as int);
            assert(orig.take(k + 1).drop_last() =~= orig.take(k as int));
        }
        out.insert(p, item);
        assert forall|j: int| k + 1 <= j < n implies ev@[j] == orig[j] by {
            assert(ev@[j] == evb[j]);
        }
        assert forall|a: int, b: int| 0 <= a <= b < out@.len() implies out@[a].strength >= out@[b].strength by {
            if a < p && b == p {
                assert(pre[p - 1].strength >= st);
                assert(pre[a].strength >= pre[p - 1].strength);
            } else if a < p && b > p {
                assert(out@[b] == pre[b - 1]);
            } else if a == p && b > p {
                assert(out@[b] == pre[b - 1]);
            } else if a > p {
                assert(out@[a] == pre[a - 1] && out@[b] == pre[b - 1]);
            }
        }
        k += 1;
    }
    assert(orig.take(n as int) =~= orig);
    out
}

/// The status a verdict is reported under.
pub open spec fn status_spec(confirmed: bool, sustained: bool, ambiguous_only: bool, possible: bool) -> &'static str {
    if confirmed {
        "已确认伴侣"
    } else if sustained {
        if ambiguous_only {
            "持续暧昧关系"
        } else {
            "持续双向关系"
        }
    } else if possible {
        "可能感情对象"
    } else {
        "没有成对证据"
    }
}

/// The evidence items of a ledger, in order.
pub open spec fn evidence_items(ev: Seq<(Kind, &'static str, RelationshipEvidence)>) -> Seq<RelationshipEvidence> {
    ev.map_values(|e: (Kind, &'static str, RelationshipEvidence)| e.2)
}

/// The cast graph's label for the pair is one of the non-romantic ones.
pub open spec fn nonromance_spec(label: Option<Seq<char>>) -> bool {
    match label {
        Some(l) => is_word(l, non_romance_labels_words()),
        None => false,
    }
}

/// An explicit, sexual or cultivation statement in some chapter.
pub open spec fn confirmed_spec(ev: Seq<(Kind, &'static str, RelationshipEvidence)>) -> bool {
    chapter_count(ev, Kind::Explicit) >= 1 || chapter_count(ev, Kind::Sexual) >= 1 || chapter_count(ev, Kind::SexualCultivation) >= 1
}

/// The evidence makes a conventional relationship.
pub open spec fn conventional_spec(ev: Seq<(Kind, &'static str, RelationshipEvidence)>, hints: u32) -> bool {
    let mutual = chapter_count(ev, Kind::Mutual);
    let love = chapter_count(ev, Kind::Love);
    let rintimate = chapter_count(ev, Kind::RomanticIntimate);
    let intimate = chapter_count(ev, Kind::Intimate);
    let both_ways = points(ev, "A→B"@) && points(ev, "B→A"@);
    confirmed_spec(ev) || mutual >= 1 || (love >= 2 && (both_ways || intimate >= 2)) || (love >= 1 && intimate >= 2)
        || (both_ways && love >= 1 && intimate >= 1) || rintimate >= 2 || (intimate >= 3 && hints >= 2)
}

/// A non-romantic label vetoes anything short of confirmation, mutual
/// feeling or repeated romance.
pub open spec fn vetoed_spec(ev: Seq<(Kind, &'static str, RelationshipEvidence)>, label: Option<Seq<char>>) -> bool {
    let love = chapter_count(ev, Kind::Love);
    let rintimate = chapter_count(ev, Kind::RomanticIntimate);
    let intimate = chapter_count(ev, Kind::Intimate);
    let repeated = love >= 2 || rintimate >= 2 || (love >= 1 && intimate >= 2);
    nonromance_spec(label) && !confirmed_spec(ev) && chapter_count(ev, Kind::Mutual) == 0 && !repeated
}

pub open spec fn sustained_spec(ev: Seq<(Kind, &'static str, RelationshipEvidence)>, label: Option<Seq<char>>, hints: u32) -> bool {
    (conventional_spec(ev, hints) || chapter_count(ev, Kind::EmotionalComfort) >= 2) && !vetoed_spec(ev, label)
}

pub open spec fn possible_spec(ev: Seq<(Kind, &'static str, RelationshipEvidence)>, label: Option<Seq<char>>, hints: u32) -> bool {
    (conventional_spec(ev, hints) || chapter_count(ev, Kind::Love) >= 2 || chapter_count(ev, Kind::RomanticIntimate) >= 1
        || chapter_count(ev, Kind::Intimate) >= 2 || chapter_count(ev, Kind::RomanticTension) >= 2
        || chapter_count(ev, Kind::EmotionalComfort) >= 2 || hints >= 2) && !vetoed_spec(ev, label)
}

/// The weighted chapter counts, hints capped at six, less four for a
/// non-romantic label without confirmation.
pub open spec fn raw_score(ev: Seq<(Kind, &'static str, RelationshipEvidence)>, label: Option<Seq<char>>, hints: u32) -> int {
    chapter_count(ev, Kind::Explicit) * 12 + chapter_count(ev, Kind::Sexual) * 10 + chapter_count(ev, Kind::SexualCultivation) * 10
        + chapter_count(ev, Kind::Mutual) * 8 + chapter_count(ev, Kind::Love) * 3 + chapter_count(ev, Kind::RomanticIntimate) * 4
        + chapter_count(ev, Kind::Intimate) * 2 + chapter_count(ev, Kind::RomanticTension) * 3
        + chapter_count(ev, Kind::EmotionalComfort) * 3 + (if hints < 6 { hints as int } else { 6 })
        - (if nonromance_spec(label) && !confirmed_spec(ev) { 4int } else { 0int })
}

/// The raw score held to the range of an `i32`.
pub open spec fn clamp_i32(x: int) -> int {
    if x > i32::MAX { i32::MAX as int } else if x < i32::MIN { i32::MIN as int } else { x }
}

/// Add up one candidate's ledger: how many chapters hold each kind of
/// evidence decides whether the relationship is confirmed, sustained or
/// merely possible; a non-romantic cast label vetoes anything short of
/// confirmation or repeated romance.
/// The verdict on person `p` from its ledger, the cast graph's label and
/// the romantic-role appellations.
pub open spec fn summary_ok(p: Person, ledger: Ledger, label: Option<Seq<char>>, hints: u32, r: RelationshipPerson) -> bool {
    let ev = ledger.evidence@;
    &&& r.name@ == p.name@
    &&& r.confirmed == confirmed_spec(ev)
    &&& r.sustained == sustained_spec(ev, label, hints)
    &&& r.possible == possible_spec(ev, label, hints)
    &&& r.status@ == status_spec(
        confirmed_spec(ev),
        sustained_spec(ev, label, hints),
        chapter_count(ev, Kind::EmotionalComfort) >= 2 && !conventional_spec(ev, hints),
        possible_spec(ev, label, hints),
    )@
    &&& r.score == clamp_i32(raw_score(ev, label, hints))
    &&& r.evidence@ == crate::romance::first_n(strength_sorted(evidence_items(ev)), 10)
}

#[verifier::rlimit(50)]
pub fn summarize(p: &Person, ledger: Ledger, cast_label: Option<Vec<char>>, hints: u32) -> (r: RelationshipPerson)
    ensures
        summary_ok(*p, ledger, opt_chars(cast_label), hints, r),
        ({
            let ev = ledger.evidence@;
            let label = opt_chars(cast_label);
            &&& r.name@ == p.name@
            &&& r.confirmed == confirmed_spec(ev)
            &&& r.sustained == sustained_spec(ev, label, hints)
            &&& r.possible == possible_spec(ev, label, hints)
            &&& r.status@ == status_spec(
                confirmed_spec(ev),
                sustained_spec(ev, label, hints),
                chapter_count(ev, Kind::EmotionalComfort) >= 2 && !conventional_spec(ev, hints),
                possible_spec(ev, label, hints),
            )@
            &&& r.score == clamp_i32(raw_score(ev, label, hints))
            &&& r.evidence@ == crate::romance::first_n(strength_sorted(evidence_items(ev)), 10)
            &&& r.evidence@.len() == (if ev.len() < 10 { ev.len() } else { 10 })
            &&& forall|a: int, b: int| 0 <= a <= b < r.evidence@.len() ==> r.evidence@[a].strength >= r.evidence@[b].strength
        }),
{
    let ghost evv = ledger.evidence@;
    let ev = &ledger.evidence;
    let explicit = chapters_of(ev, Kind::Explicit);
    let sexual = chapters_of(ev, Kind::Sexual);
    let cultivation = chapters_of(ev, Kind::SexualCultivation);
    let mutual = chapters_of(ev, Kind::Mutual);
    let love = chapters_of(ev, Kind::Love);
    let rintimate = chapters_of(ev, Kind::RomanticIntimate);
    let intimate = chapters_of(ev, Kind::Intimate);
    let tension = chapters_of(ev, Kind::RomanticTension);
    let comfort = chapters_of(ev, Kind::EmotionalComfort);
    let nonromance = match &cast_label {
        Some(l) => is_role(l, &non_romance_labels()),
        None => false,
    };
    assert(nonromance == nonromance_spec(opt_chars(cast_label)));
    let confirmed = explicit >= 1 || sexual >= 1 || cultivation >= 1;
    let both_ways = has_direction(ev, "A→B") && has_direction(ev, "B→A");
    let conventional = confirmed || mutual >= 1 || (love >= 2 && (both_ways || intimate >= 2)) || (love >= 1
        && intimate >= 2) || (both_ways && love >= 1 && intimate >= 1) || rintimate >= 2 || (intimate >= 3
        && hints >= 2);
    let ambiguous = comfort >= 2;
    let mut sustained = conventional || ambiguous;
    let mut possible = sustained || love >= 2 || rintimate >= 1 || intimate >= 2 || tension >= 2 || comfort >= 2
        || hints >= 2;
    let repeated = love >= 2 || rintimate >= 2 || (love >= 1 && intimate >= 2);
    if nonromance && !confirmed && mutual == 0 && !repeated {
        sustained = false;
        possible = false;
    }
    let hint_part: i64 = if hints < 6 { hints as i64 } else { 6 };
    let penalty: i64 = if nonromance && !confirmed { 4 } else { 0 };
    let raw: i128 = (explicit as i128) * 12 + (sexual as i128) * 10 + (cultivation as i128) * 10 + (mutual as i128) * 8
        + (love as i128) * 3 + (rintimate as i128) * 4 + (intimate as i128) * 2 + (tension as i128) * 3
        + (comfort as i128) * 3 + hint_part as i128 - penalty as i128;
    let score: i32 = if raw > 0x7fff_ffff { 0x7fff_ffff } else if raw < -0x8000_0000 { -0x8000_0000 } else { raw as i32 };
    let status = if confirmed {
        "已确认伴侣"
    } else if sustained {
        if ambiguous && !conventional {
            "持续暧昧关系"
        } else {
            "持续双向关系"
        }
    } else if possible {
        "可能感情对象"
    } else {
        "没有成对证据"
    };
    let mut items: Vec<RelationshipEvidence> = Vec::new();
    let mut evs = ledger.evidence;
    let mut i: usize = 0;
    while i < evs.len()
        invariant
            items@.len() == i,
            i <= evs@.len(),
            evs@.len() == evv.len(),
            items@ == evidence_items(evv.take(i as int)),
            forall|j: int| i <= j < evv.len() ==> evs@[j] == evv[j],
        decreases evs@.len() - i,
    {
        let mut e = (Kind::Explicit, "", RelationshipEvidence { chapter: 0, person: String::new(), kind: String::new(), strength: 0, text: String::new() });
        let ghost eb = evs@;
        let ghost pre = items@;
        evs.set_and_swap(i, &mut e);
        items.push(e.2);
        proof {
            assert(evidence_items(evv.take(i + 1)) =~= evidence_items(evv.take(i as int)).push(evv[i as int].2));
            assert forall|j: int| i + 1 <= j < evv.len() implies evs@[j] == evv[j] by {
                assert(evs@[j] == eb[j]);
            }
        }
        i += 1;
    }
    assert(evv.take(evv.len() as int) =~= evv);
    let mut items = by_strength(items);
    items.truncate(10);
    let r = RelationshipPerson {
        name: p.name.clone(),
        status: status.to_owned(),
        score,
        confirmed,
        sustained,
        possible,
        evidence: items,
    };
    assert(r.name@ == p.name@);
    assert(r.confirmed == confirmed_spec(evv));
    assert(r.sustained == sustained_spec(evv, opt_chars(cast_label), hints));
    assert(r.possible == possible_spec(evv, opt_chars(cast_label), hints));
    assert(r.score == clamp_i32(raw_score(evv, opt_chars(cast_label), hints)));
    assert(r.evidence@.len() == (if evv.len() < 10 { evv.len() } else { 10 }));
    r
}

/// The book's label, why, and how confident the ledger is: 后宫 when the
/// text states several relationships at once or confirms two; 多女主 when
/// two are sustained; 单女主 when exactly one chain exists; otherwise a
/// cautious 无法判断, or 未发现明确感情线 when nothing pairs and the focus
/// estimate says romance is rare.
pub open spec fn classify_spec(confirmed: int, sustained: int, possible: int, focus_low: bool, group: bool) -> (Seq<char>, int) {
    if group {
        ("后宫"@, 3)
    } else if confirmed >= 2 {
        ("后宫"@, 3)
    } else if sustained >= 2 {
        ("多女主"@, 2)
    } else if sustained == 1 && possible == 1 {
        ("单女主"@, 2)
    } else if sustained == 1 && possible > 1 {
        ("无法判断"@, 1)
    } else if possible == 0 && focus_low {
        ("未发现明确感情线"@, 2)
    } else if possible >= 2 {
        ("无法判断"@, 1)
    } else if possible == 1 {
        ("无法判断"@, 1)
    } else {
        ("无法判断"@, 0)
    }
}

fn decimal_i(n: usize) -> (r: Vec<char>)
    ensures
        r@ == crate::text::dec(n as nat),
{
    crate::text::decimal(n as u64)
}

/// The first of the first `k` rows whose relationship is sustained.
pub open spec fn first_sustained(rows: Seq<RelationshipPerson>, k: int) -> int
    decreases k,
{
    if k <= 0 {
        -1
    } else {
        let prev = first_sustained(rows, k - 1);
        if prev < 0 && rows[k - 1].sustained {
            k - 1
        } else {
            prev
        }
    }
}

/// Why the label was given.
pub open spec fn reason_spec(rows: Seq<RelationshipPerson>, c: int, s: int, q: int, low: bool, group: bool) -> Seq<char> {
    if group {
        "发现主角与多名对象同时维持关系的直接原文"@
    } else if c >= 2 {
        "找到 "@ + crate::text::dec(c as nat) + " 名分别与主角建立明确关系的对象"@
    } else if s >= 2 {
        "找到 "@ + crate::text::dec(s as nat) + " 名持续感情对象，但不足以确认多段正式关系"@
    } else if s == 1 && q == 1 {
        "当前只找到 "@ + rows[first_sustained(rows, rows.len() as int)].name@ + " 一条持续关系链"@
    } else if s == 1 && q > 1 {
        "有一个持续对象，但还有未排除的竞争感情对象"@
    } else if q == 0 && low {
        "全书关系扫描无成对证据，且感情线规则估计较低"@
    } else if q >= 2 {
        "存在多个可能对象，但证据不足以区分多女主与普通暧昧"@
    } else if q == 1 {
        "只发现单向或零散亲密证据，不能据此判为单女主"@
    } else {
        "未找到关系不等于能够证明全书没有感情线"@
    }
}

/// The label, the reason and the confidence for the verdicts `rows`.
pub fn classify(rows: &Vec<RelationshipPerson>, focus: &str, group: bool) -> (r: (String, String, u32))
    ensures
        ({
            let c = rows@.filter(|p: RelationshipPerson| p.confirmed).len() as int;
            let s = rows@.filter(|p: RelationshipPerson| p.sustained).len() as int;
            let q = rows@.filter(|p: RelationshipPerson| p.possible).len() as int;
            let low = focus@ == "很少"@ || focus@ == "较少"@;
            let k = classify_spec(c, s, q, low, group);
            r.0@ == k.0 && r.2 == k.1 && r.1@ == reason_spec(rows@, c, s, q, low, group)
        }),
{
    let mut confirmed: usize = 0;
    let mut sustained: usize = 0;
    let mut possible: usize = 0;
    let mut first_sustained: usize = 0;
    let mut i: usize = 0;
    while i < rows.len()
        invariant
            i <= rows@.len(),
            confirmed == rows@.take(i as int).filter(|p: RelationshipPerson| p.confirmed).len(),
            sustained == rows@.take(i as int).filter(|p: RelationshipPerson| p.sustained).len(),
            possible == rows@.take(i as int).filter(|p: RelationshipPerson| p.possible).len(),
            confirmed <= i,
            sustained <= i,
            possible <= i,
            sustained > 0 ==> first_sustained < rows@.len(),
            sustained > 0 ==> first_sustained == crate::romance::ledger::first_sustained(rows@, i as int),
            sustained == 0 ==> crate::romance::ledger::first_sustained(rows@, i as int) == -1,
        decreases rows.len() - i,
    {
        proof {
            let t = rows@.take(i + 1);
            assert(t.drop_last() =~= rows@.take(i as int));
            rows@.take(i as int).lemma_filter_push(rows@[i as int], |p: RelationshipPerson| p.confirmed);
            rows@.take(i as int).lemma_filter_push(rows@[i as int], |p: RelationshipPerson| p.sustained);
            rows@.take(i as int).lemma_filter_push(rows@[i as int], |p: RelationshipPerson| p.possible);
            assert(rows@.take(i as int).push(rows@[i as int]) =~= t);
        }
        if rows[i].confirmed {
            confirmed += 1;
        }
        if rows[i].sustained {
            if sustained == 0 {
                first_sustained = i;
            }
            sustained += 1;
        }
        if rows[i].possible {
            possible += 1;
        }
        i += 1;
    }
    assert(rows@.take(rows@.len() as int) =~= rows@);
    let low = str_same(focus, "很少") || str_same(focus, "较少");
    if group {
        return ("后宫".to_owned(), "发现主角与多名对象同时维持关系的直接原文".to_owned(), 3);
    }
    if confirmed >= 2 {
        let mut r = to_chars("找到 ");
        push_all(&mut r, decimal_i(confirmed).as_slice());
        push_all(&mut r, to_chars(" 名分别与主角建立明确关系的对象").as_slice());
        return ("后宫".to_owned(), from_chars(r.as_slice()), 3);
    }
    if sustained >= 2 {
        let mut r = to_chars("找到 ");
        push_all(&mut r, decimal_i(sustained).as_slice());
        push_all(&mut r, to_chars(" 名持续感情对象，但不足以确认多段正式关系").as_slice());
        return ("多女主".to_owned(), from_chars(r.as_slice()), 2);
    }
    if sustained == 1 && possible == 1 {
        let mut r = to_chars("当前只找到 ");
        push_all(&mut r, to_chars(rows[first_sustained].name.as_str()).as_slice());
        push_all(&mut r, to_chars(" 一条持续关系链").as_slice());
        return ("单女主".to_owned(), from_chars(r.as_slice()), 2);
    }
    if sustained == 1 && possible > 1 {
        return ("无法判断".to_owned(), "有一个持续对象，但还有未排除的竞争感情对象".to_owned(), 1);
    }
    if possible == 0 && low {
        return ("未发现明确感情线".to_owned(), "全书关系扫描无成对证据，且感情线规则估计较低".to_owned(), 2);
    }
    if possible >= 2 {
        return ("无法判断".to_owned(), "存在多个可能对象，但证据不足以区分多女主与普通暧昧".to_owned(), 1);
    }
    if possible == 1 {
        return ("无法判断".to_owned(), "只发现单向或零散亲密证据，不能据此判为单女主".to_owned(), 1);
    }
    ("无法判断".to_owned(), "未找到关系不等于能够证明全书没有感情线".to_owned(), 0)
}


/// A candidate with a mutual-feeling statement (双向感情) in some chapter
/// has a sustained relationship, and so a possible one, whatever the cast
/// graph calls the pair and however many appellations bind them: only a
/// confirmed, mutual or repeated romance stands against a non-romantic
/// label.
pub proof fn mutual_feeling_sustains(p: Person, ledger: Ledger, label: Option<Seq<char>>, hints: u32, r: RelationshipPerson)
    requires
        summary_ok(p, ledger, label, hints, r),
        chapter_list(ledger.evidence@, Kind::Mutual, ledger.evidence@.len() as int).len() >= 1,
    ensures
        r.sustained,
        r.possible,
{
}

/// An explicit, sexual or cultivation statement in some chapter confirms
/// the relationship, and a confirmed one is sustained.
pub proof fn explicit_statements_confirm(p: Person, ledger: Ledger, label: Option<Seq<char>>, hints: u32, r: RelationshipPerson)
    requires
        summary_ok(p, ledger, label, hints, r),
        chapter_list(ledger.evidence@, Kind::Explicit, ledger.evidence@.len() as int).len() >= 1
            || chapter_list(ledger.evidence@, Kind::Sexual, ledger.evidence@.len() as int).len() >= 1
            || chapter_list(ledger.evidence@, Kind::SexualCultivation, ledger.evidence@.len() as int).len() >= 1,
    ensures
        r.confirmed,
        r.sustained,
        r.possible,
{
}
} // verus!
