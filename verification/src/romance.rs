//! What the book's love story looks like: one heroine, several, or none
//! the text commits to, read from relationship sentences between the lead
//! and the rest of the cast.
pub mod words;
pub mod rules;
pub mod people;
pub mod ledger;
pub mod dialogue;
pub mod order;

use vstd::prelude::*;
use crate::cast::{Edge, Person};
use crate::romance::dialogue::{add_dialogue, cand_events, char_at, is_named, lemma_fold_push, nested_views, offer_event, sentence_windows, sents, turns_spec, win_views, windows};
use crate::romance::ledger::{EvV, reason_spec, add_view, by_strength, cast_context, clamp_i32, classify, classify_spec, context_hints, context_label, ev_view, fold_add, ledger_view, str_same, strength_sorted, summarize, summary_ok, EventV, Ledger, LedgerV};
use crate::romance::people::{canonical_group_name, canonical_spec, candidate_usable, group_candidate_usable, group_usable_spec, named_in, same, usable_spec, variants, variants_spec};
use crate::romance::order::{group_views, groups_sorted, place_group, place_spec, rows_sorted, sort_rows};
use crate::romance::rules::{alt_spec, first_match, kind_zh_spec, regex_first, relation_rules, rule_views, rules_spec, vec_views, Kind, Rule, alt};
use crate::romance::words::{clip_spec, comfort_context_words, group_cues_words, trap_cues_words};
use crate::chunk::at_byte;
use crate::romance::words::{
    clip, comfort_actions, comfort_context, commit_actions, group_cues, has_any, intimate_actions,
    love_actions, romantic_intimate_actions, romantic_roles, sexual_actions, tension_cues, trap_cues,
    comfort_actions_words, commit_actions_words, intimate_actions_words, love_actions_words,
    romantic_intimate_actions_words, romantic_roles_words, sexual_actions_words, tension_cues_words,
};
use crate::text::{contains, from_chars, lex_less, lex_lt, occurs, occurs_any, push_all, slice_vec, to_chars};

verus! {

/// Bumped whenever the shape or the rules of the report change.
pub const RELATIONSHIP_VERSION: u32 = 3;

/// One sentence that says something about a relationship.
#[derive(Debug, Clone)]
pub struct RelationshipEvidence {
    /// Zero-based chapter index.
    pub chapter: usize,
    pub person: String,
    pub kind: String,
    pub strength: u32,
    pub text: String,
}

/// Where one candidate stands with the lead.
#[derive(Debug, Clone)]
pub struct RelationshipPerson {
    pub name: String,
    pub status: String,
    pub score: i32,
    pub confirmed: bool,
    pub sustained: bool,
    pub possible: bool,
    pub evidence: Vec<RelationshipEvidence>,
}

/// The whole book's relationship structure.
#[derive(Debug, Clone)]
pub struct RelationshipReport {
    pub label: String,
    pub reason: String,
    /// 0 = insufficient, 1 = weak, 2 = useful, 3 = direct hard evidence.
    pub confidence: u32,
    pub protagonist: String,
    pub analyzed_chapters: usize,
    /// Internal candidates checked, independent of the people the graph shows.
    pub candidate_count: usize,
    pub people: Vec<RelationshipPerson>,
    pub group_evidence: Vec<RelationshipEvidence>,
    pub version: u32,
}


/// Words that mark a sentence as about romance beyond the rule vocabulary.
pub open spec fn extra_cue_words() -> Seq<&'static str> {
    seq!["表白", "告白", "情意", "醋意", "吃醋", "暧昧", "婚约", "婚事"]
}

/// Some word of the relationship vocabulary occurs in `t`.
pub open spec fn romance_cue(t: Seq<char>) -> bool {
    occurs_any(t, romantic_roles_words()) || occurs_any(t, commit_actions_words()) || occurs_any(t, love_actions_words())
        || occurs_any(t, intimate_actions_words()) || occurs_any(t, romantic_intimate_actions_words())
        || occurs_any(t, sexual_actions_words()) || occurs_any(t, tension_cues_words())
        || occurs_any(t, comfort_actions_words()) || occurs_any(t, extra_cue_words())
}

fn has_romance_cue(t: &Vec<char>) -> (r: bool)
    ensures
        r == romance_cue(t@),
{
    has_any(t.as_slice(), &romantic_roles()) || has_any(t.as_slice(), &commit_actions()) || has_any(t.as_slice(), &love_actions())
        || has_any(t.as_slice(), &intimate_actions()) || has_any(t.as_slice(), &romantic_intimate_actions())
        || has_any(t.as_slice(), &sexual_actions()) || has_any(t.as_slice(), &tension_cues())
        || has_any(t.as_slice(), &comfort_actions()) || has_any(
        t.as_slice(),
        &vec!["表白", "告白", "情意", "醋意", "吃醋", "暧昧", "婚约", "婚事"],
    )
}

fn empty_row() -> (r: RelationshipPerson)
    ensures
        r.name@ == Seq::<char>::empty(),
        r.status@ == Seq::<char>::empty(),
        r.score == 0,
        !r.confirmed && !r.sustained && !r.possible,
        r.evidence@ == Seq::<RelationshipEvidence>::empty(),
{
    RelationshipPerson {
        name: String::new(),
        status: String::new(),
        score: 0,
        confirmed: false,
        sustained: false,
        possible: false,
        evidence: Vec::new(),
    }
}

fn evidence_same(a: &RelationshipEvidence, b: &RelationshipEvidence) -> (r: bool)
    ensures
        r == (a.chapter == b.chapter && a.kind@ == b.kind@ && a.text@ == b.text@),
{
    a.chapter == b.chapter && str_same(a.kind.as_str(), b.kind.as_str()) && str_same(a.text.as_str(), b.text.as_str())
}

/// The words that say two names are one person.
pub open spec fn identity_words() -> Seq<&'static str> {
    seq!["副人格", "第二人格", "主人格"]
}

/// The four ways a window says `x` and `y` are one person through `kd`:
/// x的kd y, y的kd x, x是y的kd, y是x的kd.
pub open spec fn identity_phrases(x: Seq<char>, y: Seq<char>, kd: Seq<char>) -> Seq<Seq<char>> {
    seq![
        x + "的"@ + kd + y,
        y + "的"@ + kd + x,
        x + "是"@ + y + "的"@ + kd,
        y + "是"@ + x + "的"@ + kd,
    ]
}

/// Some window that speaks of a second personality says `x` and `y` are
/// one person.
pub open spec fn linked(x: Seq<char>, y: Seq<char>, ws: Seq<(usize, Vec<char>)>) -> bool {
    exists|k: int, w: int, f: int|
        0 <= k < 3 && 0 <= w < ws.len() && 0 <= f < 4 && occurs_any(ws[w].1@, identity_words()) && #[trigger] occurs(ws[w].1@, identity_phrases(x, y, identity_words()[k]@)[f])
}

/// Every entry labelled `from` relabelled `to`.
pub open spec fn relabel(g: Seq<usize>, from: usize, to: usize) -> Seq<usize> {
    Seq::new(g.len(), |q: int| if g[q] == from { to } else { g[q] })
}

/// Join the groups of rows `a` and `b` when the windows link their names.
pub open spec fn join_step(rows: Seq<RelationshipPerson>, ws: Seq<(usize, Vec<char>)>, g: Seq<usize>, a: int, b: int) -> Seq<usize> {
    if linked(rows[a].name@, rows[b].name@, ws) && g[a] != g[b] {
        relabel(g, g[b], g[a])
    } else {
        g
    }
}

/// The group labels once every pair before (a, b) was looked at: pairs
/// a < b in order, each row starting as its own group.
pub open spec fn labels_at(rows: Seq<RelationshipPerson>, ws: Seq<(usize, Vec<char>)>, a: int, b: int) -> Seq<usize>
    decreases a, b,
{
    if a < 0 || b < 0 || (a == 0 && b <= 1) {
        Seq::new(rows.len(), |i: int| i as usize)
    } else if b <= a + 1 {
        labels_at(rows, ws, a - 1, rows.len() as int)
    } else {
        join_step(rows, ws, labels_at(rows, ws, a, b - 1), a, b - 1)
    }
}

/// The final group labels.
pub open spec fn final_labels(rows: Seq<RelationshipPerson>, ws: Seq<(usize, Vec<char>)>) -> Seq<usize> {
    labels_at(rows, ws, rows.len() as int, (rows.len() + 1) as int)
}

/// Row `g` is the first of its group.
pub open spec fn first_of_group(l: Seq<usize>, g: int) -> bool {
    forall|q: int| 0 <= q < g ==> l[q] != l[g]
}

/// The first rows of the groups among the first `k`, in order.
pub open spec fn group_heads(l: Seq<usize>, k: int) -> Seq<int>
    decreases k,
{
    if k <= 0 {
        Seq::empty()
    } else if first_of_group(l, k - 1) {
        group_heads(l, k - 1).push(k - 1)
    } else {
        group_heads(l, k - 1)
    }
}

/// The rows from `g` up to `k` labelled `label`, in order.
pub open spec fn group_from(rows: Seq<RelationshipPerson>, l: Seq<usize>, label: usize, g: int, k: int) -> Seq<RelationshipPerson>
    decreases k - g,
{
    if k <= g {
        Seq::empty()
    } else if l[k - 1] == label {
        group_from(rows, l, label, g, k - 1).push(rows[k - 1])
    } else {
        group_from(rows, l, label, g, k - 1)
    }
}

/// `x` placed after the last row mentioned at least as often.
pub open spec fn ins_mentioned(s: Seq<RelationshipPerson>, x: RelationshipPerson, cs: Seq<&Person>) -> Seq<RelationshipPerson>
    decreases s.len(),
{
    if s.len() == 0 || mentions_of(cs, s.last().name@, 0) >= mentions_of(cs, x.name@, 0) {
        s.push(x)
    } else {
        ins_mentioned(s.drop_last(), x, cs).push(s.last())
    }
}

/// The rows most mentioned first, ties in their order.
pub open spec fn by_mentions(s: Seq<RelationshipPerson>, cs: Seq<&Person>) -> Seq<RelationshipPerson>
    decreases s.len(),
{
    if s.len() == 0 {
        Seq::empty()
    } else {
        ins_mentioned(by_mentions(s.drop_last(), cs), s.last(), cs)
    }
}

/// The group whose first row is `g`, most mentioned first.
pub open spec fn group_at(rows: Seq<RelationshipPerson>, l: Seq<usize>, g: int, cs: Seq<&Person>) -> Seq<RelationshipPerson> {
    by_mentions(group_from(rows, l, l[g], g, rows.len() as int), cs)
}

/// One row per group, in the order of the groups' first rows: the row
/// itself when alone, else the group merged.
pub open spec fn identity_merged(rows: Seq<RelationshipPerson>, cs: Seq<&Person>, ws: Seq<(usize, Vec<char>)>, r: Seq<RelationshipPerson>) -> bool {
    let l = final_labels(rows, ws);
    let hs = group_heads(l, rows.len() as int);
    &&& r.len() == hs.len()
    &&& forall|k: int|
        0 <= k < hs.len() ==> {
            let m = group_at(rows, l, #[trigger] hs[k], cs);
            if m.len() == 1 {
                r[k] == m[0]
            } else {
                merged_ok(m, r[k])
            }
        }
}

proof fn lemma_ins_mentioned(s: Seq<RelationshipPerson>, x: RelationshipPerson, cs: Seq<&Person>, p: int)
    requires
        0 <= p <= s.len(),
        forall|q: int| p <= q < s.len() ==> mentions_of(cs, (#[trigger] s[q]).name@, 0) < mentions_of(cs, x.name@, 0),
        p == 0 || mentions_of(cs, s[p - 1].name@, 0) >= mentions_of(cs, x.name@, 0),
    ensures
        ins_mentioned(s, x, cs) == s.insert(p, x),
    decreases s.len(),
{
    if p == s.len() {
        assert(s.insert(p, x) =~= s.push(x));
    } else {
        let d = s.drop_last();
        lemma_ins_mentioned(d, x, cs, p);
        assert(s.insert(p, x) =~= d.insert(p, x).push(s.last()));
    }
}

proof fn lemma_by_mentions_len(s: Seq<RelationshipPerson>, cs: Seq<&Person>)
    ensures
        by_mentions(s, cs).len() == s.len(),
    decreases s.len(),
{
    if s.len() > 0 {
        lemma_by_mentions_len(s.drop_last(), cs);
        lemma_ins_mentioned_len(by_mentions(s.drop_last(), cs), s.last(), cs);
    }
}

proof fn lemma_ins_mentioned_len(s: Seq<RelationshipPerson>, x: RelationshipPerson, cs: Seq<&Person>)
    ensures
        ins_mentioned(s, x, cs).len() == s.len() + 1,
    decreases s.len(),
{
    if !(s.len() == 0 || mentions_of(cs, s.last().name@, 0) >= mentions_of(cs, x.name@, 0)) {
        lemma_ins_mentioned_len(s.drop_last(), x, cs);
    }
}

/// Rows that the text says are one person (青翎是青灵的副人格) become one row,
/// most-mentioned name first; their evidence is pooled, and two chapters of
/// emotional closeness make the merged relationship sustained.
fn merge_same_identity(rows: Vec<RelationshipPerson>, candidates: &Vec<&Person>, windows: &Vec<(usize, Vec<char>)>) -> (r: Vec<RelationshipPerson>)
    ensures
        identity_merged(rows@, candidates@, windows@, r@),
{
    let ghost orig = rows@;
    let ghost ws = windows@;
    let n = rows.len();
    let kinds: Vec<&'static str> = vec!["副人格", "第二人格", "主人格"];
    assert(kinds@ == identity_words());
    let mut ident: Vec<usize> = Vec::new();
    let mut w: usize = 0;
    while w < windows.len()
        invariant
            kinds@ == identity_words(),
            w <= windows@.len(),
            forall|i: int| 0 <= i < ident@.len() ==> (#[trigger] ident@[i]) < windows@.len(),
            forall|i: int| 0 <= i < ident@.len() ==> occurs_any(windows@[#[trigger] ident@[i] as int].1@, identity_words()),
            forall|v: int| 0 <= v < w && occurs_any(windows@[v].1@, identity_words()) ==> (exists|i: int| 0 <= i < ident@.len() && ident@[i] == v),
        decreases windows@.len() - w,
    {
        let ghost pre = ident@;
        if has_any(windows[w].1.as_slice(), &kinds) {
            ident.push(w);
            assert(ident@[ident@.len() - 1] == w);
        }
        assert forall|v: int| 0 <= v < w + 1 && occurs_any(windows@[v].1@, identity_words()) implies (exists|i: int| 0 <= i < ident@.len() && ident@[i] == v) by {
            if v < w {
                let x = choose|x: int| 0 <= x < pre.len() && pre[x] == v;
                assert(ident@[x] == v);
            } else {
                assert(ident@[ident@.len() - 1] == v);
            }
        }
        w += 1;
    }
    let mut grp: Vec<usize> = Vec::new();
    let mut i: usize = 0;
    while i < n
        invariant
            grp@.len() == i,
            i <= n,
            forall|j: int| 0 <= j < i ==> grp@[j] == j,
        decreases n - i,
    {
        grp.push(i);
        i += 1;
    }
    assert(grp@ =~= labels_at(orig, ws, 0, 1));
    let mut a: usize = 0;
    while a < n
        invariant
            grp@.len() == n,
            n == rows@.len(),
            rows@ == orig,
            ws == windows@,
            a <= n,
            kinds@ == identity_words(),
            grp@ == labels_at(orig, ws, a as int, a + 1),
            forall|i: int| 0 <= i < ident@.len() ==> (#[trigger] ident@[i]) < windows@.len(),
            forall|i: int| 0 <= i < ident@.len() ==> occurs_any(windows@[#[trigger] ident@[i] as int].1@, identity_words()),
            forall|v: int| 0 <= v < windows@.len() && occurs_any(windows@[v].1@, identity_words()) ==> (exists|i: int| 0 <= i < ident@.len() && ident@[i] == v),
        decreases n - a,
    {
        let mut b: usize = a + 1;
        while b < n
            invariant
                grp@.len() == n,
                n == rows@.len(),
                rows@ == orig,
                ws == windows@,
                a < n,
                a + 1 <= b <= n,
                kinds@ == identity_words(),
                grp@ == labels_at(orig, ws, a as int, b as int),
                forall|i: int| 0 <= i < ident@.len() ==> (#[trigger] ident@[i]) < windows@.len(),
                forall|i: int| 0 <= i < ident@.len() ==> occurs_any(windows@[#[trigger] ident@[i] as int].1@, identity_words()),
                forall|v: int| 0 <= v < windows@.len() && occurs_any(windows@[v].1@, identity_words()) ==> (exists|i: int| 0 <= i < ident@.len() && ident@[i] == v),
            decreases n - b,
        {
            let na = to_chars(rows[a].name.as_str());
            let nb = to_chars(rows[b].name.as_str());
            let ghost x = orig[a as int].name@;
            let ghost y = orig[b as int].name@;
            let mut hit = false;
            let mut k: usize = 0;
            while k < kinds.len() && !hit
                invariant
                    kinds@ == identity_words(),
                    k <= 3,
                    na@ == x,
                    nb@ == y,
                    hit ==> linked(x, y, windows@),
                    !hit ==> forall|k2: int, w2: int, f: int|
                        0 <= k2 < k && 0 <= w2 < windows@.len() && 0 <= f < 4 && occurs_any(windows@[w2].1@, identity_words()) ==> !#[trigger] occurs(windows@[w2].1@, identity_phrases(x, y, identity_words()[k2]@)[f]),
                    forall|i: int| 0 <= i < ident@.len() ==> (#[trigger] ident@[i]) < windows@.len(),
                    forall|i: int| 0 <= i < ident@.len() ==> occurs_any(windows@[#[trigger] ident@[i] as int].1@, identity_words()),
                    forall|v: int| 0 <= v < windows@.len() && occurs_any(windows@[v].1@, identity_words()) ==> (exists|i: int| 0 <= i < ident@.len() && ident@[i] == v),
                decreases kinds@.len() - k,
            {
                let kd = to_chars(kinds[k]);
                let de = to_chars("的");
                let shi = to_chars("是");
                let mut phrases: Vec<Vec<char>> = Vec::new();
                let mut p1 = crate::cast::graph::copy_vec(&na);
                push_all(&mut p1, de.as_slice());
                push_all(&mut p1, kd.as_slice());
                push_all(&mut p1, nb.as_slice());
                phrases.push(p1);
                let mut p2 = crate::cast::graph::copy_vec(&nb);
                push_all(&mut p2, de.as_slice());
                push_all(&mut p2, kd.as_slice());
                push_all(&mut p2, na.as_slice());
                phrases.push(p2);
                let mut p3 = crate::cast::graph::copy_vec(&na);
                push_all(&mut p3, shi.as_slice());
                push_all(&mut p3, nb.as_slice());
                push_all(&mut p3, de.as_slice());
                push_all(&mut p3, kd.as_slice());
                phrases.push(p3);
                let mut p4 = crate::cast::graph::copy_vec(&nb);
                push_all(&mut p4, shi.as_slice());
                push_all(&mut p4, na.as_slice());
                push_all(&mut p4, de.as_slice());
                push_all(&mut p4, kd.as_slice());
                phrases.push(p4);
                let ghost ph = identity_phrases(x, y, identity_words()[k as int]@);
                assert(vec_views(phrases@) =~= ph);
                let ghost hit0 = hit;
                let mut xi: usize = 0;
                while xi < ident.len()
                    invariant
                        xi <= ident@.len(),
                        vec_views(phrases@) == ph,
                        phrases@.len() == 4,
                        hit == (hit0 || exists|t: int, f: int| 0 <= t < xi && 0 <= f < 4 && #[trigger] occurs(windows@[ident@[t] as int].1@, ph[f])),
                        forall|i: int| 0 <= i < ident@.len() ==> (#[trigger] ident@[i]) < windows@.len(),
                    decreases ident@.len() - xi,
                {
                    let r = named_in(&phrases, windows[ident[xi]].1.as_slice());
                    proof {
                        let win = windows@[ident@[xi as int] as int].1@;
                        if r {
                            let f = choose|f: int| 0 <= f < phrases@.len() && occurs(win, #[trigger] phrases@[f]@);
                            assert(ph[f] == phrases@[f]@);
                        }
                        if exists|f: int| 0 <= f < 4 && occurs(win, #[trigger] ph[f]) {
                            let f = choose|f: int| 0 <= f < 4 && occurs(win, #[trigger] ph[f]);
                            assert(ph[f] == phrases@[f]@);
                        }
                    }
                    if r {
                        hit = true;
                    }
                    xi += 1;
                }
                proof {
                    if hit && !hit0 {
                        let (t, f) = choose|t: int, f: int| 0 <= t < xi && 0 <= f < 4 && #[trigger] occurs(windows@[ident@[t] as int].1@, ph[f]);
                        assert(occurs_any(windows@[ident@[t] as int].1@, identity_words()));
                        assert(occurs(windows@[ident@[t] as int].1@, identity_phrases(x, y, identity_words()[k as int]@)[f]));
                    }
                    if !hit {
                        assert forall|k2: int, w2: int, f: int|
                            0 <= k2 < k + 1 && 0 <= w2 < windows@.len() && 0 <= f < 4 && occurs_any(windows@[w2].1@, identity_words()) implies !#[trigger] occurs(windows@[w2].1@, identity_phrases(x, y, identity_words()[k2]@)[f]) by {
                            if k2 == k {
                                assert(exists|i: int| 0 <= i < ident@.len() && ident@[i] == w2);
                                let t = choose|t: int| 0 <= t < ident@.len() && ident@[t] == w2;
                                assert(ident@[t] as int == w2);
                                assert(xi == ident@.len());
                                assert(!occurs(windows@[ident@[t] as int].1@, ph[f]));
                                assert(ph == identity_phrases(x, y, identity_words()[k2]@));
                            }
                        }
                    }
                }
                k += 1;
            }
            proof {
                if !hit {
                    assert(!linked(x, y, windows@));
                }
            }
            let ghost g0 = grp@;
            if hit {
                let ga = grp[a];
                let gb = grp[b];
                if ga != gb {
                    let mut q: usize = 0;
                    while q < n
                        invariant
                            grp@.len() == n,
                            g0.len() == n,
                            q <= n,
                            ga == g0[a as int],
                            gb == g0[b as int],
                            ga != gb,
                            forall|j: int| 0 <= j < q ==> grp@[j] == (if g0[j] == gb { ga } else { g0[j] }),
                            forall|j: int| q <= j < n ==> grp@[j] == g0[j],
                        decreases n - q,
                    {
                        if grp[q] == gb {
                            grp.set(q, ga);
                        }
                        q += 1;
                    }
                    assert(grp@ =~= relabel(g0, gb, ga));
                }
            }
            assert(grp@ == join_step(orig, ws, g0, a as int, b as int));
            b += 1;
        }
        a += 1;
    }
    let ghost l = grp@;
    assert(l == final_labels(orig, ws));
    let mut rows = rows;
    let mut merged: Vec<RelationshipPerson> = Vec::new();
    let mut g: usize = 0;
    while g < n
        invariant
            grp@ == l,
            l.len() == n,
            rows@.len() == n,
            orig.len() == n,
            g <= n,
            forall|q: int| 0 <= q < n && !(exists|g2: int| 0 <= g2 < g && l[g2] == l[q]) ==> #[trigger] rows@[q] == orig[q],
            merged@.len() == group_heads(l, g as int).len(),
            forall|k: int|
                0 <= k < merged@.len() ==> {
                    let m = group_at(orig, l, #[trigger] group_heads(l, g as int)[k], candidates@);
                    if m.len() == 1 {
                        merged@[k] == m[0]
                    } else {
                        merged_ok(m, merged@[k])
                    }
                },
        decreases n - g,
    {
        // the group whose first member is g
        let mut first = true;
        let mut q: usize = 0;
        while q < g
            invariant
                grp@ == l,
                l.len() == n,
                g < n,
                q <= g,
                first == forall|j: int| 0 <= j < q ==> l[j] != l[g as int],
            decreases g - q,
        {
            if grp[q] == grp[g] {
                first = false;
            }
            q += 1;
        }
        assert(first == first_of_group(l, g as int));
        let ghost heads0 = group_heads(l, g as int);
        let ghost merged0 = merged@;
        let ghost rows0 = rows@;
        if first {
            let label = grp[g];
            let mut members: Vec<RelationshipPerson> = Vec::new();
            let mut mentions: Vec<u32> = Vec::new();
            let mut q: usize = g;
            assert(group_from(orig, l, label, g as int, g as int) =~= Seq::<RelationshipPerson>::empty());
            while q < n
                invariant
                    grp@ == l,
                    l.len() == n,
                    rows@.len() == n,
                    orig.len() == n,
                    g <= q <= n,
                    label == l[g as int],
                    first_of_group(l, g as int),
                    members@.len() == mentions@.len(),
                    forall|j: int| 0 <= j < mentions@.len() ==> mentions@[j] == mentions_of(candidates@, (#[trigger] members@[j]).name@, 0),
                    members@ == by_mentions(group_from(orig, l, label, g as int, q as int), candidates@),
                    forall|j: int| q <= j < n && !(exists|g2: int| 0 <= g2 < g && l[g2] == l[j]) ==> #[trigger] rows@[j] == orig[j],
                    forall|j: int| 0 <= j < n && !(exists|g2: int| 0 <= g2 < g && l[g2] == l[j]) && l[j] != label ==> #[trigger] rows@[j] == orig[j],
                decreases n - q,
            {
                if grp[q] == label {
                    let mut r = empty_row();
                    let ghost rb = rows@;
                    assert(!(exists|g2: int| 0 <= g2 < g && l[g2] == l[q as int])) by {
                        if exists|g2: int| 0 <= g2 < g && l[g2] == l[q as int] {
                            let g2 = choose|g2: int| 0 <= g2 < g && l[g2] == l[q as int];
                            assert(l[g2] != l[g as int]);
                        }
                    }
                    rows.set_and_swap(q, &mut r);
                    assert(r == orig[q as int]);
                    let m = mention_count(&r.name, candidates);
                    // most mentioned first, stable
                    let mut p: usize = members.len();
                    while p > 0 && mentions[p - 1] < m
                        invariant
                            p <= mentions@.len(),
                            members@.len() == mentions@.len(),
                            forall|j: int| p <= j < members@.len() ==> mentions_of(candidates@, (#[trigger] members@[j]).name@, 0) < m,
                            forall|j: int| 0 <= j < mentions@.len() ==> mentions@[j] == mentions_of(candidates@, (#[trigger] members@[j]).name@, 0),
                        decreases p,
                    {
                        p -= 1;
                    }
                    let ghost mb = members@;
                    let ghost mnb = mentions@;
                    proof {
                        lemma_ins_mentioned(mb, r, candidates@, p as int);
                    }
                    members.insert(p, r);
                    mentions.insert(p, m);
                    assert forall|j: int| 0 <= j < mentions@.len() implies mentions@[j] == mentions_of(candidates@, (#[trigger] members@[j]).name@, 0) by {
                        if j < p {
                            assert(members@[j] == mb[j] && mentions@[j] == mnb[j]);
                        } else if j > p {
                            assert(members@[j] == mb[j - 1] && mentions@[j] == mnb[j - 1]);
                        }
                    }
                    assert(group_from(orig, l, label, g as int, q + 1) == group_from(orig, l, label, g as int, q as int).push(orig[q as int]));
                    assert(group_from(orig, l, label, g as int, q + 1).drop_last() =~= group_from(orig, l, label, g as int, q as int));
                    assert forall|j: int| q + 1 <= j < n && !(exists|g2: int| 0 <= g2 < g && l[g2] == l[j]) implies #[trigger] rows@[j] == orig[j] by {
                        assert(rows@[j] == rb[j]);
                    }
                    assert forall|j: int| 0 <= j < n && !(exists|g2: int| 0 <= g2 < g && l[g2] == l[j]) && l[j] != label implies #[trigger] rows@[j] == orig[j] by {
                        assert(rows@[j] == rb[j]);
                    }
                }
                q += 1;
            }
            proof {
                lemma_by_mentions_len(group_from(orig, l, label, g as int, n as int), candidates@);
            }
            let ghost mm = members@;
            if members.len() == 1 {
                let mut r = empty_row();
                members.set_and_swap(0, &mut r);
                assert(r == mm[0]);
                merged.push(r);
            } else {
                merged.push(merge_rows(members));
            }
            proof {
                assert(group_heads(l, g + 1) == heads0.push(g as int));
                assert forall|k: int|
                    0 <= k < merged@.len() implies {
                        let m = group_at(orig, l, #[trigger] group_heads(l, g + 1)[k], candidates@);
                        if m.len() == 1 {
                            merged@[k] == m[0]
                        } else {
                            merged_ok(m, merged@[k])
                        }
                    } by {
                    if k < merged0.len() {
                        assert(merged@[k] == merged0[k]);
                        assert(group_heads(l, g + 1)[k] == heads0[k]);
                    }
                }
            }
        } else {
            assert(group_heads(l, g + 1) == heads0);
        }
        assert forall|q: int| 0 <= q < n && !(exists|g2: int| 0 <= g2 < g + 1 && l[g2] == l[q]) implies #[trigger] rows@[q] == orig[q] by {
            assert(l[g as int] != l[q]);
        }
        g += 1;
    }
    assert(group_heads(l, n as int) == group_heads(final_labels(orig, ws), orig.len() as int));
    merged
}

/// The mentions of the first candidate from the `i`-th on named `name`; 0
/// when none is.
pub open spec fn mentions_of(cs: Seq<&Person>, name: Seq<char>, i: int) -> u32
    decreases cs.len() - i,
{
    if i < 0 || i >= cs.len() {
        0
    } else if cs[i].name@ == name {
        cs[i].mentions
    } else {
        mentions_of(cs, name, i + 1)
    }
}

fn mention_count(name: &String, candidates: &Vec<&Person>) -> (r: u32)
    ensures
        r == mentions_of(candidates@, name@, 0),
{
    let mut i: usize = 0;
    while i < candidates.len()
        invariant
            i <= candidates@.len(),
            mentions_of(candidates@, name@, 0) == mentions_of(candidates@, name@, i as int),
        decreases candidates@.len() - i,
    {
        if str_same(candidates[i].name.as_str(), name.as_str()) {
            return candidates[i].mentions;
        }
        i += 1;
    }
    0
}

/// The members' names joined by " / ".
pub open spec fn joined_names(ms: Seq<RelationshipPerson>) -> Seq<char>
    decreases ms.len(),
{
    if ms.len() == 0 {
        Seq::empty()
    } else if ms.len() == 1 {
        ms[0].name@
    } else {
        joined_names(ms.drop_last()) + seq![' ', '/', ' '] + ms.last().name@
    }
}

/// The members' scores added, held to the range of an `i64` at each step.
pub open spec fn score_sum(ms: Seq<RelationshipPerson>) -> int
    decreases ms.len(),
{
    if ms.len() == 0 {
        0
    } else {
        let prev = score_sum(ms.drop_last());
        let x = ms.last().score as int;
        if prev + x > i64::MAX { i64::MAX as int } else if prev + x < i64::MIN { i64::MIN as int } else { prev + x }
    }
}

/// All the members' evidence, member by member.
pub open spec fn pooled(ms: Seq<RelationshipPerson>) -> Seq<RelationshipEvidence>
    decreases ms.len(),
{
    if ms.len() == 0 {
        Seq::empty()
    } else {
        pooled(ms.drop_last()) + ms.last().evidence@
    }
}

pub open spec fn same_evidence(a: RelationshipEvidence, b: RelationshipEvidence) -> bool {
    a.chapter == b.chapter && a.kind@ == b.kind@ && a.text@ == b.text@
}

/// The items without one that repeats the item before it.
pub open spec fn drop_same(es: Seq<RelationshipEvidence>) -> Seq<RelationshipEvidence>
    decreases es.len(),
{
    if es.len() == 0 {
        Seq::empty()
    } else {
        let r = drop_same(es.drop_last());
        if r.len() > 0 && same_evidence(r.last(), es.last()) {
            r
        } else {
            r.push(es.last())
        }
    }
}

/// The chapters of emotional-closeness evidence, each once, first seen
/// first.
pub open spec fn comfort_chapters(es: Seq<RelationshipEvidence>) -> Seq<usize>
    decreases es.len(),
{
    if es.len() == 0 {
        Seq::empty()
    } else {
        let r = comfort_chapters(es.drop_last());
        if es.last().kind@ == kind_zh_spec(Kind::EmotionalComfort)@ && !r.contains(es.last().chapter) {
            r.push(es.last().chapter)
        } else {
            r
        }
    }
}

/// The pooled evidence, strongest first, repeats dropped.
pub open spec fn merged_evidence(ms: Seq<RelationshipPerson>) -> Seq<RelationshipEvidence> {
    drop_same(strength_sorted(pooled(ms)))
}

/// One row for several that are one person.
pub open spec fn merged_ok(ms: Seq<RelationshipPerson>, r: RelationshipPerson) -> bool {
    let dd = merged_evidence(ms);
    let comfort = comfort_chapters(dd).len() >= 2;
    let confirmed = exists|i: int| 0 <= i < ms.len() && (#[trigger] ms[i]).confirmed;
    let sustained = comfort || exists|i: int| 0 <= i < ms.len() && (#[trigger] ms[i]).sustained;
    let possible = comfort || exists|i: int| 0 <= i < ms.len() && (#[trigger] ms[i]).possible;
    &&& r.name@ == joined_names(ms)
    &&& r.confirmed == confirmed
    &&& r.sustained == sustained
    &&& r.possible == possible
    &&& r.status@ == (if confirmed { "已确认伴侣"@ } else if sustained { "持续暧昧关系"@ } else if possible { "可能感情对象"@ } else { "没有成对证据"@ })
    &&& r.score == clamp_i32(score_sum(ms))
    &&& r.evidence@ == first_n(dd, 10)
}

fn merge_rows(members: Vec<RelationshipPerson>) -> (r: RelationshipPerson)
    ensures
        merged_ok(members@, r),
{
    let ghost orig = members@;
    let mut name: Vec<char> = Vec::new();
    let mut confirmed = false;
    let mut sustained = false;
    let mut possible = false;
    let mut score: i64 = 0;
    let mut pooled_v: Vec<RelationshipEvidence> = Vec::new();
    let mut members = members;
    let n = members.len();
    let mut i: usize = 0;
    assert(orig.take(0) =~= Seq::<RelationshipPerson>::empty());
    while i < n
        invariant
            n == members@.len(),
            n == orig.len(),
            i <= n,
            forall|j: int| i <= j < n ==> members@[j] == orig[j],
            name@ == joined_names(orig.take(i as int)),
            confirmed == exists|j: int| 0 <= j < i && (#[trigger] orig[j]).confirmed,
            sustained == exists|j: int| 0 <= j < i && (#[trigger] orig[j]).sustained,
            possible == exists|j: int| 0 <= j < i && (#[trigger] orig[j]).possible,
            score == score_sum(orig.take(i as int)),
            pooled_v@ == pooled(orig.take(i as int)),
        decreases n - i,
    {
        let mut m = empty_row();
        let ghost mb = members@;
        members.set_and_swap(i, &mut m);
        assert(m == orig[i as int]);
        let ghost t1 = orig.take(i + 1);
        assert(t1.drop_last() =~= orig.take(i as int));
        assert(t1.last() == m);
        let sep = to_chars(" / ");
        proof {
            reveal_strlit(" / ");
        }
        if i > 0 {
            push_all(&mut name, sep.as_slice());
        }
        push_all(&mut name, to_chars(m.name.as_str()).as_slice());
        proof {
            if i == 0 {
                assert(name@ =~= t1[0].name@);
            } else {
                assert(sep@ =~= seq![' ', '/', ' ']);
            }
        }
        confirmed = confirmed || m.confirmed;
        sustained = sustained || m.sustained;
        possible = possible || m.possible;
        let s = m.score as i64;
        score = if s > 0 { if score > i64::MAX - s { i64::MAX } else { score + s } } else { if score < i64::MIN - s { i64::MIN } else { score + s } };
        let ghost pb = pooled_v@;
        let mut ev = m.evidence;
        let ghost eo = ev@;
        let mut j: usize = 0;
        while j < ev.len()
            invariant
                eo.len() == ev@.len(),
                j <= ev@.len(),
                forall|q: int| j <= q < eo.len() ==> ev@[q] == eo[q],
                pooled_v@ == pb + eo.take(j as int),
            decreases ev@.len() - j,
        {
            let mut e = RelationshipEvidence { chapter: 0, person: String::new(), kind: String::new(), strength: 0, text: String::new() };
            let ghost eb = ev@;
            ev.set_and_swap(j, &mut e);
            pooled_v.push(e);
            proof {
                assert(pb + eo.take(j + 1) =~= (pb + eo.take(j as int)).push(eo[j as int]));
                assert forall|q: int| j + 1 <= q < eo.len() implies ev@[q] == eo[q] by {
                    assert(ev@[q] == eb[q]);
                }
            }
            j += 1;
        }
        assert(eo.take(eo.len() as int) =~= eo);
        assert forall|q: int| i + 1 <= q < n implies members@[q] == orig[q] by {
            assert(members@[q] == mb[q]);
        }
        i += 1;
    }
    assert(orig.take(n as int) =~= orig);
    let ghost pl = pooled_v@;
    let sorted = by_strength(pooled_v);
    let ghost so = sorted@;
    let mut evidence: Vec<RelationshipEvidence> = Vec::new();
    let mut sorted = sorted;
    let mut k: usize = 0;
    assert(so.take(0) =~= Seq::<RelationshipEvidence>::empty());
    while k < sorted.len()
        invariant
            so.len() == sorted@.len(),
            k <= so.len(),
            forall|q: int| k <= q < so.len() ==> sorted@[q] == so[q],
            evidence@ == drop_same(so.take(k as int)),
        decreases sorted@.len() - k,
    {
        let mut e = RelationshipEvidence { chapter: 0, person: String::new(), kind: String::new(), strength: 0, text: String::new() };
        let ghost sb = sorted@;
        sorted.set_and_swap(k, &mut e);
        assert(e == so[k as int]);
        let dup = evidence.len() > 0 && evidence_same(&evidence[evidence.len() - 1], &e);
        proof {
            assert(so.take(k + 1).drop_last() =~= so.take(k as int));
            assert forall|q: int| k + 1 <= q < so.len() implies sorted@[q] == so[q] by {
                assert(sorted@[q] == sb[q]);
            }
        }
        if !dup {
            evidence.push(e);
        }
        k += 1;
    }
    assert(so.take(so.len() as int) =~= so);
    let ghost dd = evidence@;
    assert(dd == merged_evidence(orig));
    let comfort = Kind::EmotionalComfort.zh();
    let mut chs: Vec<usize> = Vec::new();
    let mut k: usize = 0;
    assert(dd.take(0) =~= Seq::<RelationshipEvidence>::empty());
    while k < evidence.len()
        invariant
            dd == evidence@,
            comfort == kind_zh_spec(Kind::EmotionalComfort),
            k <= dd.len(),
            chs@ == comfort_chapters(dd.take(k as int)),
        decreases evidence@.len() - k,
    {
        assert(dd.take(k + 1).drop_last() =~= dd.take(k as int));
        if str_same(evidence[k].kind.as_str(), comfort) {
            let c = evidence[k].chapter;
            let mut seen = false;
            let mut j: usize = 0;
            while j < chs.len()
                invariant
                    j <= chs@.len(),
                    seen == exists|q: int| 0 <= q < j && chs@[q] == c,
                decreases chs@.len() - j,
            {
                if chs[j] == c {
                    seen = true;
                }
                j += 1;
            }
            assert(seen == chs@.contains(c));
            if !seen {
                chs.push(c);
            }
        }
        k += 1;
    }
    assert(dd.take(dd.len() as int) =~= dd);
    if chs.len() >= 2 {
        sustained = true;
        possible = true;
    }
    evidence.truncate(10);
    let status = if confirmed {
        "已确认伴侣"
    } else if sustained {
        "持续暧昧关系"
    } else if possible {
        "可能感情对象"
    } else {
        "没有成对证据"
    };
    let score32: i32 = if score > 0x7fff_ffff { 0x7fff_ffff } else if score < -0x8000_0000 { -0x8000_0000 } else { score as i32 };
    let r = RelationshipPerson {
        name: from_chars(name.as_slice()),
        status: status.to_owned(),
        score: score32,
        confirmed,
        sustained,
        possible,
        evidence,
    };
    assert(r.evidence@ =~= first_n(dd, 10));
    r
}


/// A verdict the report lists: some relationship chain exists.
pub open spec fn kept_row(p: RelationshipPerson) -> bool {
    p.confirmed || p.sustained || p.possible
}

/// The first `n` of `s`, or all of it.
pub open spec fn first_n<T>(s: Seq<T>, n: int) -> Seq<T> {
    if n <= s.len() { s.take(n) } else { s }
}

/// The book's label and confidence for the verdicts `rows` (and whether a
/// group scene was found), and the listed verdicts: those with a chain, at most twelve, in the rows' order.
pub open spec fn verdict_ok(rows: Seq<RelationshipPerson>, focus: Seq<char>, r: RelationshipReport) -> bool {
    let group = r.group_evidence@.len() > 0;
    let c = rows.filter(|p: RelationshipPerson| p.confirmed).len() as int;
    let s = rows.filter(|p: RelationshipPerson| p.sustained).len() as int;
    let q = rows.filter(|p: RelationshipPerson| p.possible).len() as int;
    let low = focus == "很少"@ || focus == "较少"@;
    let k = classify_spec(c, s, q, low, group);
    &&& r.label@ == k.0
    &&& r.reason@ == reason_spec(rows, c, s, q, low, group)
    &&& r.confidence == k.1
    &&& r.people@ == first_n(rows.filter(|p: RelationshipPerson| kept_row(p)), 12)
}

/// How many people after the lead may be romantic candidates.
pub open spec fn candidate_count_spec(people: Seq<Person>) -> nat {
    people.skip(1).filter(|p: Person| usable_spec(p)).len()
}

/// The paragraphs as characters.
pub open spec fn para_chars(ps: Seq<(usize, &str)>) -> Seq<(usize, Seq<char>)> {
    ps.map_values(|p: (usize, &str)| (p.0, p.1@))
}

/// The candidates among people `1..k`, by index.
pub open spec fn cand_list(ps: Seq<Person>, k: int) -> Seq<usize>
    decreases k,
{
    if k <= 1 {
        Seq::empty()
    } else if usable_spec(ps[k - 1]) {
        cand_list(ps, k - 1).push((k - 1) as usize)
    } else {
        cand_list(ps, k - 1)
    }
}

/// Words that make a cultivation scene a sexual one.
pub open spec fn cultivation_words() -> Seq<&'static str> {
    seq!["元阴", "元阳", "合欢", "欢愉", "欲火", "情欲", "阴阳交泰", "交合"]
}

/// Kinship words: closeness among kin is no romance.
pub open spec fn kin_words() -> Seq<&'static str> {
    seq!["妹妹", "哥哥", "姐姐", "弟弟", "兄弟", "父女", "母女", "父子", "母子"]
}

/// A match at characters `sc..ec` of `kind` survives the trap and context
/// tests of its window.
pub open spec fn kept_match(wv: Seq<char>, sc: int, ec: int, kind: Kind) -> bool {
    let n = wv.len() as int;
    let ls = if sc >= 30 { sc - 30 } else { 0 };
    let le = if n - ec > 11 { ec + 11 } else { n };
    &&& !occurs_any(wv.subrange(ls, le), trap_cues_words())
    &&& !((kind == Kind::RomanticTension || kind == Kind::EmotionalComfort) && occurs_any(wv, trap_cues_words()))
    &&& !(kind == Kind::SexualCultivation && !occurs_any(wv, cultivation_words()))
    &&& !(kind == Kind::EmotionalComfort && (!occurs_any(wv, comfort_context_words()) || occurs_any(wv, kin_words())))
}

/// The evidence the first `k` rules find in a window for one candidate.
pub open spec fn rule_events(
    wv: Seq<char>,
    ch: usize,
    person: Seq<char>,
    third: bool,
    rl: Seq<(Seq<char>, u32, Kind, Seq<char>)>,
    k: int,
) -> Seq<EventV>
    decreases k,
{
    if k <= 0 {
        Seq::empty()
    } else {
        let x = rl[k - 1];
        rule_events(wv, ch, person, third, rl, k - 1) + match regex_first(x.0, wv) {
            Some(m) => {
                let sc = at_byte(wv, m.0 as int);
                let ec = at_byte(wv, m.1 as int);
                if sc <= ec && !(third && x.1 < 9) && kept_match(wv, sc, ec, x.2) {
                    seq![(ch, x.2, wv.subrange(sc, ec), x.3, (ch, person, kind_zh_spec(x.2)@, x.1, clip_spec(wv, 300)))]
                } else {
                    Seq::empty()
                }
            },
            None => Seq::empty(),
        }
    }
}

/// Someone of the cast but the lead and candidate `cp` is named in the window.
pub open spec fn third_named(wv: Seq<char>, ns: Seq<Seq<Seq<char>>>, cp: int) -> bool {
    exists|k: int| 1 <= k < ns.len() && k != cp + 1 && is_named(#[trigger] ns[k], wv)
}

/// The evidence one window holds for candidate `cp`: it must name the lead
/// and the candidate and carry a romance cue.
pub open spec fn window_events(wv: Seq<char>, ch: usize, ns: Seq<Seq<Seq<char>>>, cp: int, person: Seq<char>) -> Seq<EventV> {
    if is_named(ns[0], wv) && romance_cue(wv) && is_named(ns[cp + 1], wv) {
        let rl = rules_spec(alt_spec(ns[0]), alt_spec(ns[cp + 1]));
        rule_events(wv, ch, person, third_named(wv, ns, cp), rl, rl.len() as int)
    } else {
        Seq::empty()
    }
}

/// The evidence the first `k` windows hold for candidate `cp`.
pub open spec fn text_events(ws: Seq<(usize, Seq<char>)>, ns: Seq<Seq<Seq<char>>>, cp: int, person: Seq<char>, k: int) -> Seq<EventV>
    decreases k,
{
    if k <= 0 {
        Seq::empty()
    } else {
        text_events(ws, ns, cp, person, k - 1) + window_events(ws[k - 1].1, ws[k - 1].0, ns, cp, person)
    }
}

pub open spec fn empty_ledger() -> LedgerV {
    (Seq::empty(), Seq::empty())
}

/// The people after the lead among the first `k` who may stand in a group
/// statement.
pub open spec fn group_list(ps: Seq<Person>, k: int) -> Seq<Person>
    decreases k,
{
    if k <= 1 {
        Seq::empty()
    } else if group_usable_spec(ps[k - 1]) {
        group_list(ps, k - 1).push(ps[k - 1])
    } else {
        group_list(ps, k - 1)
    }
}

/// `x` added to the ascending names `u`, once.
pub open spec fn ins_name(u: Seq<Seq<char>>, x: Seq<char>) -> Seq<Seq<char>>
    decreases u.len(),
{
    if u.len() == 0 {
        seq![x]
    } else if lex_lt(u[0], x) {
        seq![u[0]] + ins_name(u.drop_first(), x)
    } else if u[0] == x {
        u
    } else {
        seq![x] + u
    }
}

proof fn lemma_ins_name_skip(u: Seq<Seq<char>>, x: Seq<char>, p: int)
    requires
        0 <= p <= u.len(),
        forall|q: int| 0 <= q < p ==> lex_lt(#[trigger] u[q], x),
    ensures
        ins_name(u, x) == u.take(p) + ins_name(u.skip(p), x),
    decreases p,
{
    if p == 0 {
        assert(u.skip(0) =~= u);
        assert(u.take(0) + u =~= u);
    } else {
        lemma_ins_name_skip(u.drop_first(), x, p - 1);
        assert(u.drop_first().skip(p - 1) =~= u.skip(p));
        assert(seq![u[0]] + u.drop_first().take(p - 1) =~= u.take(p));
    }
}

/// Among the first `k` group members, how many a window names, and the
/// names they are reported under, ascending and once each.
pub open spec fn scene_at(gl: Seq<Person>, cs: Seq<&Person>, wv: Seq<char>, k: int) -> (int, Seq<Seq<char>>)
    decreases k,
{
    if k <= 0 {
        (0, Seq::empty())
    } else {
        let s = scene_at(gl, cs, wv, k - 1);
        if is_named(variants_spec(gl[k - 1]), wv) {
            (s.0 + 1, ins_name(s.1, canonical_spec(gl[k - 1], cs)))
        } else {
            s
        }
    }
}

/// The names joined by 、.
pub open spec fn join_names(u: Seq<Seq<char>>) -> Seq<char>
    decreases u.len(),
{
    if u.len() == 0 {
        Seq::empty()
    } else if u.len() == 1 {
        u[0]
    } else {
        join_names(u.drop_last()) + seq!['、'] + u.last()
    }
}

/// The group scenes of the first `k` windows: a window that names the lead
/// and states a group relationship, with two or more partners named, is a
/// scene; each chapter keeps its richest (more partners, then a longer
/// window), chapters in order.
pub open spec fn scenes_upto(ws: Seq<(usize, Seq<char>)>, lead: Seq<Seq<char>>, gl: Seq<Person>, cs: Seq<&Person>, k: int) -> Seq<(u128, EvV)>
    decreases k,
{
    if k <= 0 {
        Seq::empty()
    } else {
        let prev = scenes_upto(ws, lead, gl, cs, k - 1);
        let ch = ws[k - 1].0;
        let wv = ws[k - 1].1;
        let sc = scene_at(gl, cs, wv, gl.len() as int);
        if is_named(lead, wv) && occurs_any(wv, group_cues_words()) && sc.1.len() >= 2 {
            place_spec(prev, ((sc.0 * 1000 + wv.len()) as u128, (ch, join_names(sc.1), "多段关系同时存在"@, 10u32, clip_spec(wv, 420))))
        } else {
            prev
        }
    }
}

pub open spec fn ev_seq_views(es: Seq<RelationshipEvidence>) -> Seq<EvV> {
    es.map_values(|e: RelationshipEvidence| ev_view(e))
}

/// The relationship report `r` as computed from the paragraphs, the ranked
/// cast and the cast graph. The witnesses stand for the intermediate values
/// and are pinned by their views: `pv` the paragraphs, `wv` the sentence
/// windows, `nm` the names of the lead and each candidate, `cs` the
/// candidates, `lg` each candidate's ledger after the rules and the
/// dialogue, `pre` the verdicts, `merged` them after joining rows that are
/// one person, `rows` those ordered by score, then name.
pub open spec fn analysis_ok(
    paras: Seq<(usize, &str)>,
    people: Seq<Person>,
    edges: Seq<Edge>,
    focus: Seq<char>,
    pv: Seq<(usize, Vec<char>)>,
    wv: Seq<(usize, Vec<char>)>,
    nm: Seq<Vec<Vec<char>>>,
    cs: Seq<&Person>,
    lg: Seq<Ledger>,
    pre: Seq<RelationshipPerson>,
    merged: Seq<RelationshipPerson>,
    rows: Seq<RelationshipPerson>,
    r: RelationshipReport,
) -> bool {
    let cand = cand_list(people, people.len() as int);
    let nc = cand.len() as int;
    let ns = nested_views(nm);
    let ws = win_views(wv);
    let ts = turns_spec(pv, nm);
    &&& win_views(pv) == para_chars(paras)
    &&& ws == windows(sents(pv))
    &&& ns.len() == nc + 1
    &&& ns[0] == variants_spec(people[0])
    &&& forall|c: int| 0 <= c < nc ==> ns[c + 1] == variants_spec(people[#[trigger] cand[c] as int])
    &&& cs.len() == nc
    &&& forall|c: int| 0 <= c < nc ==> *cs[c] == people[#[trigger] cand[c] as int]
    &&& lg.len() == nc
    &&& pre.len() == nc
    &&& forall|c: int|
        0 <= c < nc ==> ledger_view(#[trigger] lg[c]) == fold_add(
            fold_add(empty_ledger(), text_events(ws, ns, c, people[cand[c] as int].name@, ws.len() as int)),
            cand_events((c + 1) as usize, ts, pv, ns, people[cand[c] as int].name@, ts.len() as int),
        )
    &&& forall|c: int|
        0 <= c < nc ==> summary_ok(
            people[cand[c] as int],
            #[trigger] lg[c],
            context_label(edges, 0, cand[c]),
            context_hints(edges, 0, cand[c]),
            pre[c],
        )
    &&& identity_merged(pre, cs, wv, merged)
    &&& ev_seq_views(r.group_evidence@) == first_n(scenes_upto(ws, ns[0], group_list(people, people.len() as int), cs, ws.len() as int), 5).map_values(
        |g: (u128, EvV)| g.1,
    )
    &&& rows.to_multiset() == merged.to_multiset()
    &&& rows_sorted(rows)
    &&& verdict_ok(rows, focus, r)
}

proof fn lemma_named(vs: Seq<Vec<char>>, t: Seq<char>)
    ensures
        is_named(vec_views(vs), t) == exists|i: int| 0 <= i < vs.len() && occurs(t, #[trigger] vs[i]@),
{
    if is_named(vec_views(vs), t) {
        let k = choose|k: int| 0 <= k < vec_views(vs).len() && occurs(t, #[trigger] vec_views(vs)[k]);
        assert(occurs(t, vs[k]@));
    }
    if exists|i: int| 0 <= i < vs.len() && occurs(t, #[trigger] vs[i]@) {
        let i = choose|i: int| 0 <= i < vs.len() && occurs(t, #[trigger] vs[i]@);
        assert(occurs(t, vec_views(vs)[i]));
    }
}


/// The relationship structure of the lead (the first person) with the rest
/// of the ranked cast, read from the paragraphs: every candidate's evidence
/// adds up to a verdict, the verdicts (ordered by score, then name) decide
/// the label, and scenes naming the lead with two or more partners at once
/// are kept, the richest one per chapter, for the first five chapters that
/// hold one.
pub fn analyze(paras: &[(usize, &str)], people: &[Person], edges: &[Edge], analyzed_chapters: usize, romance_focus: &str) -> (r: RelationshipReport)
    ensures
        r.analyzed_chapters == analyzed_chapters,
        r.version == RELATIONSHIP_VERSION,
        people@.len() == 0 ==> {
            &&& r.label@ == "无法判断"@
            &&& r.reason@ == "没有识别到可用的主角人物"@
            &&& r.confidence == 0
            &&& r.protagonist@.len() == 0
            &&& r.candidate_count == 0
            &&& r.people@.len() == 0
            &&& r.group_evidence@.len() == 0
        },
        people@.len() > 0 ==> {
            &&& r.protagonist@ == people@[0].name@
            &&& r.candidate_count == candidate_count_spec(people@)
        },
        people@.len() > 0 ==> exists|
            pv: Seq<(usize, Vec<char>)>,
            wv: Seq<(usize, Vec<char>)>,
            nm: Seq<Vec<Vec<char>>>,
            cs: Seq<&Person>,
            lg: Seq<Ledger>,
            pre: Seq<RelationshipPerson>,
            merged: Seq<RelationshipPerson>,
            rows: Seq<RelationshipPerson>,
        | #[trigger] analysis_ok(paras@, people@, edges@, romance_focus@, pv, wv, nm, cs, lg, pre, merged, rows, r),
        r.group_evidence@.len() <= 5,
        forall|a: int, b: int|
            0 <= a < b < r.group_evidence@.len() ==> (#[trigger] r.group_evidence@[a]).chapter < (#[trigger] r.group_evidence@[b]).chapter,
        forall|k: int|
            0 <= k < r.group_evidence@.len() ==> (#[trigger] r.group_evidence@[k]).kind@ == "多段关系同时存在"@
                && r.group_evidence@[k].strength == 10,
{
    if people.len() == 0 {
        return RelationshipReport {
            label: "无法判断".to_owned(),
            reason: "没有识别到可用的主角人物".to_owned(),
            confidence: 0,
            protagonist: String::new(),
            analyzed_chapters,
            candidate_count: 0,
            people: Vec::new(),
            group_evidence: Vec::new(),
            version: RELATIONSHIP_VERSION,
        };
    }
    let mut pv: Vec<(usize, Vec<char>)> = Vec::new();
    let mut i: usize = 0;
    while i < paras.len()
        invariant
            i <= paras@.len(),
            win_views(pv@) == para_chars(paras@).take(i as int),
        decreases paras@.len() - i,
    {
        let ghost pre = pv@;
        pv.push((paras[i].0, to_chars(paras[i].1)));
        assert(win_views(pv@) =~= win_views(pre).push((paras@[i as int].0, paras@[i as int].1@)));
        assert(para_chars(paras@).take(i + 1) =~= para_chars(paras@).take(i as int).push((paras@[i as int].0, paras@[i as int].1@)));
        i += 1;
    }
    assert(para_chars(paras@).take(paras@.len() as int) =~= para_chars(paras@));
    let lead = &people[0];
    // candidates, by their index in `people`
    let mut cand: Vec<usize> = Vec::new();
    let mut cand_refs: Vec<&Person> = Vec::new();
    let mut group: Vec<&Person> = Vec::new();
    let mut i: usize = 1;
    assert(people@.subrange(1, 1).filter(|p: Person| usable_spec(p)) =~= Seq::<Person>::empty());
    while i < people.len()
        invariant
            1 <= i <= people@.len(),
            cand@.len() == cand_refs@.len(),
            cand@.len() == people@.subrange(1, i as int).filter(|p: Person| usable_spec(p)).len(),
            cand@ == cand_list(people@, i as int),
            forall|k: int| 0 <= k < cand@.len() ==> 1 <= #[trigger] cand@[k] < people@.len(),
            forall|k: int| 0 <= k < cand@.len() ==> *cand_refs@[k] == people@[#[trigger] cand@[k] as int],
            group@.len() == group_list(people@, i as int).len(),
            forall|k: int| 0 <= k < group@.len() ==> *group@[k] == #[trigger] group_list(people@, i as int)[k],
        decreases people@.len() - i,
    {
        proof {
            let t = people@.subrange(1, i + 1);
            assert(t.drop_last() =~= people@.subrange(1, i as int));
            people@.subrange(1, i as int).lemma_filter_push(people@[i as int], |p: Person| usable_spec(p));
            assert(people@.subrange(1, i as int).push(people@[i as int]) =~= t);
        }
        if candidate_usable(&people[i]) {
            cand.push(i);
            cand_refs.push(&people[i]);
        }
        if group_candidate_usable(&people[i]) {
            group.push(&people[i]);
        }
        i += 1;
    }
    assert(people@.subrange(1, people@.len() as int) =~= people@.skip(1));
    let ghost candv = cand@;
    let nc = cand.len();
    let windows = sentence_windows(&pv);
    let ghost ws = win_views(windows@);
    // the names of the lead (0) and of each candidate (position + 1)
    let mut names: Vec<Vec<Vec<char>>> = Vec::new();
    let mut roster: Vec<String> = Vec::new();
    names.push(variants(lead));
    roster.push(lead.name.clone());
    let mut c: usize = 0;
    while c < nc
        invariant
            nc == cand@.len(),
            candv == cand@,
            c <= nc,
            names@.len() == c + 1,
            roster@.len() == c + 1,
            nested_views(names@)[0] == variants_spec(people@[0]),
            forall|k: int| 0 <= k < c ==> nested_views(names@)[k + 1] == variants_spec(people@[#[trigger] cand@[k] as int]),
            forall|k: int| 0 <= k < c ==> roster@[k + 1]@ == people@[#[trigger] cand@[k] as int].name@,
            forall|k: int| 0 <= k < cand@.len() ==> 1 <= #[trigger] cand@[k] < people@.len(),
        decreases nc - c,
    {
        names.push(variants(&people[cand[c]]));
        roster.push(people[cand[c]].name.clone());
        c += 1;
    }
    let ghost ns = nested_views(names@);
    let lead_alt = alt(&names[0]);
    let mut rules: Vec<Vec<Rule>> = Vec::new();
    let mut ledgers: Vec<Ledger> = Vec::new();
    let mut c: usize = 0;
    while c < nc
        invariant
            names@.len() == nc + 1,
            ns == nested_views(names@),
            lead_alt@ == alt_spec(ns[0]),
            rules@.len() == c,
            ledgers@.len() == c,
            c <= nc,
            forall|k: int| 0 <= k < c ==> rule_views(#[trigger] rules@[k]@) == rules_spec(alt_spec(ns[0]), alt_spec(ns[k + 1])),
            forall|k: int| 0 <= k < c ==> ledger_view(#[trigger] ledgers@[k]) == empty_ledger(),
        decreases nc - c,
    {
        rules.push(relation_rules(&lead_alt, &alt(&names[c + 1])));
        let l = Ledger::new();
        assert(ledger_view(l) =~= empty_ledger());
        ledgers.push(l);
        c += 1;
    }
    let traps = trap_cues();
    let np = names.len();
    let mut w: usize = 0;
    while w < windows.len()
        invariant
            np == nc + 1,
            names@.len() == nc + 1,
            roster@.len() == nc + 1,
            rules@.len() == nc,
            ledgers@.len() == nc,
            ns == nested_views(names@),
            ws == win_views(windows@),
            traps@ == trap_cues_words(),
            w <= windows@.len(),
            forall|k: int| 0 <= k < nc ==> rule_views(#[trigger] rules@[k]@) == rules_spec(alt_spec(ns[0]), alt_spec(ns[k + 1])),
            forall|k: int| 0 <= k < nc ==> roster@[k + 1]@ == people@[#[trigger] cand@[k] as int].name@,
            nc == cand@.len(),
            forall|k: int| 0 <= k < nc ==> ledger_view(#[trigger] ledgers@[k]) == fold_add(empty_ledger(), text_events(ws, ns, k, roster@[k + 1]@, w as int)),
        decreases windows@.len() - w,
    {
        let chapter = windows[w].0;
        let window = &windows[w].1;
        assert(ws[w as int] == (chapter, window@));
        let lead_here = named_in(&names[0], window.as_slice());
        proof {
            lemma_named(names@[0]@, window@);
        }
        if lead_here && has_romance_cue(window) {
            let mut present: Vec<bool> = Vec::new();
            let mut k: usize = 0;
            while k < np
                invariant
                    np == nc + 1,
                    names@.len() == nc + 1,
                    ns == nested_views(names@),
                    k <= np,
                    present@.len() == k,
                    forall|j: int| 0 <= j < k ==> present@[j] == is_named(#[trigger] ns[j], window@),
                decreases np - k,
            {
                proof {
                    lemma_named(names@[k as int]@, window@);
                }
                present.push(named_in(&names[k], window.as_slice()));
                k += 1;
            }
            let ws_s = from_chars(window.as_slice());
            let mut cp: usize = 0;
            while cp < nc
                invariant
                    np == nc + 1,
                    names@.len() == nc + 1,
                    roster@.len() == nc + 1,
                    present@.len() == nc + 1,
                    rules@.len() == nc,
                    ledgers@.len() == nc,
                    ws_s@ == window@,
                    ns == nested_views(names@),
                    ws == win_views(windows@),
                    traps@ == trap_cues_words(),
                    w < windows@.len(),
                    ws[w as int] == (chapter, window@),
                    is_named(ns[0], window@) && romance_cue(window@),
                    cp <= nc,
                    forall|j: int| 0 <= j < np ==> present@[j] == is_named(#[trigger] ns[j], window@),
                    forall|k: int| 0 <= k < nc ==> rule_views(#[trigger] rules@[k]@) == rules_spec(alt_spec(ns[0]), alt_spec(ns[k + 1])),
                    forall|k: int| 0 <= k < nc ==> roster@[k + 1]@ == people@[#[trigger] cand@[k] as int].name@,
                    nc == cand@.len(),
                    forall|k: int| 0 <= k < cp ==> ledger_view(#[trigger] ledgers@[k]) == fold_add(empty_ledger(), text_events(ws, ns, k, roster@[k + 1]@, w + 1)),
                    forall|k: int| cp <= k < nc ==> ledger_view(#[trigger] ledgers@[k]) == fold_add(empty_ledger(), text_events(ws, ns, k, roster@[k + 1]@, w as int)),
                decreases nc - cp,
            {
                let ghost person = roster@[cp + 1]@;
                let ghost done = text_events(ws, ns, cp as int, person, w as int);
                let ghost before_cp = ledgers@;
                let ghost mut part: Seq<EventV> = Seq::empty();
                assert(done + part =~= done);
                if present[cp + 1] {
                    let mut third = false;
                    let mut k: usize = 1;
                    while k < np
                        invariant
                            np == nc + 1,
                            cp < nc,
                            present@.len() == np,
                            1 <= k <= np,
                            third == exists|j: int| 1 <= j < k && j != cp + 1 && present@[j],
                        decreases np - k,
                    {
                        if present[k] && k != cp + 1 {
                            third = true;
                        }
                        k += 1;
                    }
                    proof {
                        if third {
                            let j = choose|j: int| 1 <= j < np && j != cp + 1 && present@[j];
                            assert(is_named(ns[j], window@));
                        }
                        if third_named(window@, ns, cp as int) {
                            let j = choose|j: int| 1 <= j < ns.len() && j != cp + 1 && is_named(#[trigger] ns[j], window@);
                            assert(present@[j]);
                        }
                    }
                    let ghost third_s = third_named(window@, ns, cp as int);
                    assert(third == third_s);
                    let rs = &rules[cp];
                    let ghost rl = rules_spec(alt_spec(ns[0]), alt_spec(ns[cp + 1]));
                    assert(rule_views(rs@) == rl);
                    let mut x: usize = 0;
                    while x < rs.len()
                        invariant
                            names@.len() == nc + 1,
                            roster@.len() == nc + 1,
                            ledgers@.len() == nc,
                            cp < nc,
                            ws_s@ == window@,
                            traps@ == trap_cues_words(),
                            rule_views(rs@) == rl,
                            x <= rs@.len(),
                            person == roster@[cp + 1]@,
                            part == rule_events(window@, chapter, person, third, rl, x as int),
                            forall|k: int| 0 <= k < nc && k != cp ==> #[trigger] ledgers@[k] == before_cp[k],
                            ledger_view(ledgers@[cp as int]) == fold_add(empty_ledger(), done + part),
                        decreases rs@.len() - x,
                    {
                        let rule = &rs[x];
                        assert(rl[x as int] == (rule.pattern@, rule.strength, rule.kind, rule.direction@));
                        let ghost pp = part;
                        if let Some((s, e)) = first_match(rule.pattern.as_str(), ws_s.as_str()) {
                            let sc = char_at(window, s);
                            let ec = char_at(window, e);
                            if sc <= ec && !(third && rule.strength < 9) {
                                let n = window.len();
                                let local_start = if sc >= 30 { sc - 30 } else { 0 };
                                let local_end = if n - ec > 11 { ec + 11 } else { n };
                                let local = slice_vec(window.as_slice(), local_start, local_end);
                                let mut keep = !has_any(local.as_slice(), &traps);
                                if keep && (rule.kind == Kind::RomanticTension || rule.kind == Kind::EmotionalComfort)
                                    && has_any(window.as_slice(), &traps) {
                                    keep = false;
                                }
                                if keep && rule.kind == Kind::SexualCultivation && !has_any(
                                    window.as_slice(),
                                    &vec!["元阴", "元阳", "合欢", "欢愉", "欲火", "情欲", "阴阳交泰", "交合"],
                                ) {
                                    keep = false;
                                }
                                if keep && rule.kind == Kind::EmotionalComfort && (!has_any(window.as_slice(), &comfort_context())
                                    || has_any(
                                    window.as_slice(),
                                    &vec!["妹妹", "哥哥", "姐姐", "弟弟", "兄弟", "父女", "母女", "父子", "母子"],
                                )) {
                                    keep = false;
                                }
                                assert(keep == kept_match(window@, sc as int, ec as int, rule.kind));
                                if keep {
                                    let matched = slice_vec(window.as_slice(), sc, ec);
                                    let ev = RelationshipEvidence {
                                        chapter,
                                        person: roster[cp + 1].clone(),
                                        kind: rule.kind.zh().to_owned(),
                                        strength: rule.strength,
                                        text: from_chars(clip(window.as_slice(), 300).as_slice()),
                                    };
                                    let ghost e: EventV = (chapter, rule.kind, matched@, rule.direction@, ev_view(ev));
                                    offer_event(&mut ledgers, cp, chapter, rule.kind, matched, rule.direction, ev);
                                    proof {
                                        lemma_fold_push(empty_ledger(), done + part, e);
                                        part = part.push(e);
                                        assert((done + pp).push(e) =~= done + part);
                                    }
                                }
                            }
                        }
                        proof {
                            assert(part =~= rule_events(window@, chapter, person, third, rl, x + 1));
                        }
                        x += 1;
                    }
                    assert(part == window_events(window@, chapter, ns, cp as int, person));
                } else {
                    assert(part =~= window_events(window@, chapter, ns, cp as int, person));
                }
                assert(done + part =~= text_events(ws, ns, cp as int, person, w + 1));
                assert forall|k: int| 0 <= k < cp + 1 implies ledger_view(#[trigger] ledgers@[k]) == fold_add(empty_ledger(), text_events(ws, ns, k, roster@[k + 1]@, w + 1)) by {
                    if k < cp {
                        assert(ledgers@[k] == before_cp[k]);
                    }
                }
                assert forall|k: int| cp + 1 <= k < nc implies ledger_view(#[trigger] ledgers@[k]) == fold_add(empty_ledger(), text_events(ws, ns, k, roster@[k + 1]@, w as int)) by {
                    assert(ledgers@[k] == before_cp[k]);
                }
                cp += 1;
            }
        } else {
            assert forall|k: int| 0 <= k < nc implies ledger_view(#[trigger] ledgers@[k]) == fold_add(empty_ledger(), text_events(ws, ns, k, roster@[k + 1]@, w + 1)) by {
                assert(window_events(window@, chapter, ns, k, roster@[k + 1]@) =~= Seq::<EventV>::empty());
                assert(text_events(ws, ns, k, roster@[k + 1]@, w + 1) =~= text_events(ws, ns, k, roster@[k + 1]@, w as int));
            }
        }
        w += 1;
    }
    let ghost lg0 = ledgers@;
    add_dialogue(&pv, &names, &roster, &mut ledgers);
    let ghost lg = ledgers@;
    let mut rows: Vec<RelationshipPerson> = Vec::new();
    let mut c: usize = 0;
    while c < nc
        invariant
            ledgers@.len() == nc,
            nc == cand@.len(),
            lg.len() == nc,
            c <= nc,
            rows@.len() == c,
            forall|k: int| c <= k < nc ==> #[trigger] ledgers@[k] == lg[k],
            forall|k: int| 0 <= k < cand@.len() ==> 1 <= #[trigger] cand@[k] < people@.len(),
            forall|k: int|
                0 <= k < c ==> summary_ok(
                    people@[cand@[k] as int],
                    #[trigger] lg[k],
                    context_label(edges@, 0, cand@[k]),
                    context_hints(edges@, 0, cand@[k]),
                    rows@[k],
                ),
        decreases nc - c,
    {
        let (label, hints) = cast_context(edges, 0, cand[c]);
        let mut l = Ledger::new();
        let ghost lb = ledgers@;
        ledgers.set_and_swap(c, &mut l);
        assert(l == lg[c as int]);
        rows.push(summarize(&people[cand[c]], l, label, hints));
        assert forall|k: int| c + 1 <= k < nc implies #[trigger] ledgers@[k] == lg[k] by {
            assert(ledgers@[k] == lb[k]);
        }
        c += 1;
    }
    let ghost pre_rows = rows@;
    let rows = merge_same_identity(rows, &cand_refs, &windows);
    let ghost merged = rows@;
    let rows = sort_rows(rows);
    let ghost sorted = rows@;
    // the richest group scene of each chapter
    let ghost gl = group_list(people@, people@.len() as int);
    let ghost csv = cand_refs@;
    let cues = group_cues();
    let mut groups: Vec<(u128, RelationshipEvidence)> = Vec::new();
    let mut w: usize = 0;
    while w < windows.len()
        invariant
            names@.len() == nc + 1,
            ns == nested_views(names@),
            ws == win_views(windows@),
            csv == cand_refs@,
            cues@ == group_cues_words(),
            group@.len() == gl.len(),
            forall|k: int| 0 <= k < group@.len() ==> *group@[k] == #[trigger] gl[k],
            w <= windows@.len(),
            groups_sorted(groups@),
            forall|k: int| 0 <= k < groups@.len() ==> (#[trigger] groups@[k]).1.kind@ == "多段关系同时存在"@
                && groups@[k].1.strength == 10,
            group_views(groups@) == scenes_upto(ws, ns[0], gl, csv, w as int),
        decreases windows@.len() - w,
    {
        let window = &windows[w].1;
        assert(ws[w as int] == (windows@[w as int].0, window@));
        proof {
            lemma_named(names@[0]@, window@);
        }
        let mut present: usize = 0;
        let mut unique: Vec<Vec<char>> = Vec::new();
        let lead_here = named_in(&names[0], window.as_slice()) && has_any(window.as_slice(), &cues);
        if lead_here {
            let mut g: usize = 0;
            while g < group.len()
                invariant
                    present <= g,
                    g <= group@.len(),
                    group@.len() == gl.len(),
                    forall|k: int| 0 <= k < group@.len() ==> *group@[k] == #[trigger] gl[k],
                    csv == cand_refs@,
                    (present as int, vec_views(unique@)) == scene_at(gl, csv, window@, g as int),
                decreases group@.len() - g,
            {
                let vs = variants(group[g]);
                proof {
                    lemma_named(vs@, window@);
                }
                if named_in(&vs, window.as_slice()) {
                    present += 1;
                    let name = canonical_group_name(group[g], &cand_refs);
                    let ghost u = vec_views(unique@);
                    // keep the names sorted and once each
                    let mut p: usize = 0;
                    let mut dup = false;
                    while p < unique.len() && !dup && lex_less(unique[p].as_slice(), name.as_slice())
                        invariant
                            p <= unique@.len(),
                            !dup,
                            u == vec_views(unique@),
                            forall|q: int| 0 <= q < p ==> lex_lt(#[trigger] u[q], name@),
                        decreases unique@.len() - p,
                    {
                        p += 1;
                    }
                    proof {
                        lemma_ins_name_skip(u, name@, p as int);
                    }
                    if p < unique.len() && same(&unique[p], &name) {
                        dup = true;
                    }
                    let ghost nv = name@;
                    if !dup {
                        unique.insert(p, name);
                        proof {
                            if p < u.len() {
                                assert(u.skip(p as int)[0] == u[p as int]);
                                assert(u.skip(p as int).drop_first() =~= u.skip(p + 1));
                            }
                            assert(vec_views(unique@) =~= u.take(p as int) + ins_name(u.skip(p as int), nv));
                        }
                    } else {
                        proof {
                            assert(u.skip(p as int)[0] == u[p as int]);
                            assert(u.take(p as int) + u.skip(p as int) =~= u);
                        }
                    }
                }
                g += 1;
            }
        }
        let ghost sc = scene_at(gl, csv, window@, gl.len() as int);
        if lead_here && unique.len() >= 2 {
            let mut person: Vec<char> = Vec::new();
            let sep = to_chars("、");
            proof {
                reveal_strlit("、");
                assert(sep@ =~= seq!['、']);
            }
            let ghost uv = vec_views(unique@);
            let mut p: usize = 0;
            while p < unique.len()
                invariant
                    p <= unique@.len(),
                    uv == vec_views(unique@),
                    sep@ == seq!['、'],
                    person@ == join_names(uv.take(p as int)),
                decreases unique@.len() - p,
            {
                let ghost pre = person@;
                if p > 0 {
                    push_all(&mut person, sep.as_slice());
                }
                push_all(&mut person, unique[p].as_slice());
                proof {
                    assert(uv.take(p + 1).drop_last() =~= uv.take(p as int));
                    if p == 0 {
                        assert(person@ =~= uv.take(1)[0]);
                    }
                }
                p += 1;
            }
            assert(uv.take(uv.len() as int) =~= uv);
            let kind = "多段关系同时存在".to_owned();
            let ev = RelationshipEvidence {
                chapter: windows[w].0,
                person: from_chars(person.as_slice()),
                kind,
                strength: 10,
                text: from_chars(clip(window.as_slice(), 420).as_slice()),
            };
            let richness: u128 = (present as u128) * 1000 + (window.len() as u128);
            let ghost pre = groups@;
            place_group(&mut groups, richness, ev);
            assert forall|k: int| 0 <= k < groups@.len() implies (#[trigger] groups@[k]).1.kind@ == "多段关系同时存在"@
                && groups@[k].1.strength == 10 by {
                if groups@[k] != (richness, ev) {
                    let j = choose|j: int| 0 <= j < pre.len() && groups@[k] == #[trigger] pre[j];
                }
            }
        }
        w += 1;
    }
    let ghost gfull = groups@;
    groups.truncate(5);
    let ghost gs = groups@;
    assert(group_views(gs) =~= first_n(group_views(gfull), 5));
    let mut group_evidence: Vec<RelationshipEvidence> = Vec::new();
    let mut k: usize = 0;
    while k < groups.len()
        invariant
            k <= groups@.len(),
            gs.len() == groups@.len(),
            gs.len() <= 5,
            forall|j: int| k <= j < gs.len() ==> #[trigger] groups@[j] == gs[j],
            group_evidence@.len() == k,
            forall|j: int| 0 <= j < k ==> #[trigger] group_evidence@[j] == gs[j].1,
        decreases groups@.len() - k,
    {
        let mut g = (0u128, RelationshipEvidence { chapter: 0, person: String::new(), kind: String::new(), strength: 0, text: String::new() });
        groups.set_and_swap(k, &mut g);
        group_evidence.push(g.1);
        k += 1;
    }
    assert(group_evidence@ =~= gs.map_values(|g: (u128, RelationshipEvidence)| g.1));
    assert(ev_seq_views(group_evidence@) =~= group_views(gs).map_values(|g: (u128, EvV)| g.1));
    let (label, reason, confidence) = classify(&rows, romance_focus, group_evidence.len() > 0);
    let mut kept: Vec<RelationshipPerson> = Vec::new();
    let mut rows = rows;
    let nr = rows.len();
    let mut k: usize = 0;
    assert(sorted.take(0).filter(|p: RelationshipPerson| kept_row(p)) =~= Seq::<RelationshipPerson>::empty());
    while k < nr
        invariant
            nr == rows@.len(),
            nr == sorted.len(),
            k <= nr,
            forall|j: int| k <= j < nr ==> rows@[j] == sorted[j],
            kept@ == sorted.take(k as int).filter(|p: RelationshipPerson| kept_row(p)),
        decreases nr - k,
    {
        proof {
            let t = sorted.take(k + 1);
            assert(t.drop_last() =~= sorted.take(k as int));
            sorted.take(k as int).lemma_filter_push(sorted[k as int], |p: RelationshipPerson| kept_row(p));
            assert(sorted.take(k as int).push(sorted[k as int]) =~= t);
        }
        let mut row = empty_row();
        rows.set_and_swap(k, &mut row);
        if row.confirmed || row.sustained || row.possible {
            kept.push(row);
        }
        k += 1;
    }
    assert(sorted.take(nr as int) =~= sorted);
    kept.truncate(12);
    let r = RelationshipReport {
        label,
        reason,
        confidence,
        protagonist: lead.name.clone(),
        analyzed_chapters,
        candidate_count: nc,
        people: kept,
        group_evidence,
        version: RELATIONSHIP_VERSION,
    };
    assert(verdict_ok(sorted, romance_focus@, r));
    proof {
        let tsp = turns_spec(pv@, names@);
        assert forall|k: int|
            0 <= k < nc implies ledger_view(#[trigger] lg[k]) == fold_add(
                fold_add(empty_ledger(), text_events(ws, ns, k, people@[cand@[k] as int].name@, ws.len() as int)),
                cand_events((k + 1) as usize, tsp, pv@, ns, people@[cand@[k] as int].name@, tsp.len() as int),
            ) by {
            assert(roster@[k + 1]@ == people@[cand@[k] as int].name@);
        }
        assert(ev_seq_views(r.group_evidence@) == first_n(scenes_upto(ws, ns[0], group_list(people@, people@.len() as int), cand_refs@, ws.len() as int), 5).map_values(
            |g: (u128, EvV)| g.1,
        ));
        assert(analysis_ok(paras@, people@, edges@, romance_focus@, pv@, windows@, names@, cand_refs@, lg, pre_rows, merged, sorted, r));
    }
    r
}

/// A verdict whose flags agree: confirmed implies sustained, sustained
/// implies possible and some evidence, and at most ten pieces of evidence.
pub open spec fn consistent(p: RelationshipPerson) -> bool {
    &&& p.confirmed ==> p.sustained
    &&& p.sustained ==> p.possible
    &&& p.sustained ==> p.evidence@.len() > 0
    &&& p.evidence@.len() <= 10
}

proof fn lemma_chapter_list_len(ev: Seq<(Kind, &'static str, RelationshipEvidence)>, kind: Kind, k: int)
    requires
        0 <= k,
    ensures
        crate::romance::ledger::chapter_list(ev, kind, k).len() <= k,
    decreases k,
{
    if k > 0 {
        lemma_chapter_list_len(ev, kind, k - 1);
    }
}

proof fn lemma_comfort_len(es: Seq<RelationshipEvidence>)
    ensures
        comfort_chapters(es).len() <= es.len(),
    decreases es.len(),
{
    if es.len() > 0 {
        lemma_comfort_len(es.drop_last());
    }
}

proof fn lemma_ins_strength_len(s: Seq<RelationshipEvidence>, x: RelationshipEvidence)
    ensures
        crate::romance::ledger::ins_strength(s, x).len() == s.len() + 1,
    decreases s.len(),
{
    if !(s.len() == 0 || s.last().strength >= x.strength) {
        lemma_ins_strength_len(s.drop_last(), x);
    }
}

proof fn lemma_strength_sorted_len(s: Seq<RelationshipEvidence>)
    ensures
        strength_sorted(s).len() == s.len(),
    decreases s.len(),
{
    if s.len() > 0 {
        lemma_strength_sorted_len(s.drop_last());
        lemma_ins_strength_len(strength_sorted(s.drop_last()), s.last());
    }
}

proof fn lemma_pooled_len(ms: Seq<RelationshipPerson>, i: int)
    requires
        0 <= i < ms.len(),
    ensures
        ms[i].evidence@.len() <= pooled(ms).len(),
    decreases ms.len(),
{
    if i < ms.len() - 1 {
        lemma_pooled_len(ms.drop_last(), i);
    }
}

proof fn lemma_ins_mentioned_has(s: Seq<RelationshipPerson>, x: RelationshipPerson, cs: Seq<&Person>, y: RelationshipPerson)
    requires
        ins_mentioned(s, x, cs).contains(y),
    ensures
        s.contains(y) || y == x,
    decreases s.len(),
{
    if !(s.len() == 0 || mentions_of(cs, s.last().name@, 0) >= mentions_of(cs, x.name@, 0)) {
        let t = ins_mentioned(s.drop_last(), x, cs);
        if y != s.last() {
            let j = choose|j: int| 0 <= j < t.push(s.last()).len() && #[trigger] t.push(s.last())[j] == y;
            assert(t[j] == y);
            lemma_ins_mentioned_has(s.drop_last(), x, cs, y);
            if s.drop_last().contains(y) {
                let q = choose|q: int| 0 <= q < s.drop_last().len() && #[trigger] s.drop_last()[q] == y;
                assert(s[q] == y);
            }
        } else {
            assert(s[s.len() - 1] == y);
        }
    } else if y != x {
        let j = choose|j: int| 0 <= j < s.push(x).len() && #[trigger] s.push(x)[j] == y;
        assert(s[j] == y);
    }
}

proof fn lemma_by_mentions_has(s: Seq<RelationshipPerson>, cs: Seq<&Person>, y: RelationshipPerson)
    requires
        by_mentions(s, cs).contains(y),
    ensures
        s.contains(y),
    decreases s.len(),
{
    if s.len() > 0 {
        lemma_ins_mentioned_has(by_mentions(s.drop_last(), cs), s.last(), cs, y);
        if y != s.last() {
            lemma_by_mentions_has(s.drop_last(), cs, y);
            let q = choose|q: int| 0 <= q < s.drop_last().len() && #[trigger] s.drop_last()[q] == y;
            assert(s[q] == y);
        } else {
            assert(s[s.len() - 1] == y);
        }
    }
}

proof fn lemma_group_from_has(rows: Seq<RelationshipPerson>, l: Seq<usize>, label: usize, g: int, k: int, y: RelationshipPerson)
    requires
        0 <= g,
        k <= rows.len(),
        group_from(rows, l, label, g, k).contains(y),
    ensures
        rows.contains(y),
    decreases k - g,
{
    if k > g {
        if l[k - 1] == label && y == rows[k - 1] {
            assert(rows[k - 1] == y);
        } else if l[k - 1] == label {
            let t = group_from(rows, l, label, g, k - 1);
            let j = choose|j: int| 0 <= j < t.push(rows[k - 1]).len() && #[trigger] t.push(rows[k - 1])[j] == y;
            assert(t[j] == y);
            lemma_group_from_has(rows, l, label, g, k - 1, y);
        } else {
            lemma_group_from_has(rows, l, label, g, k - 1, y);
        }
    }
}

proof fn lemma_heads_range(l: Seq<usize>, k: int)
    requires
        0 <= k,
    ensures
        group_heads(l, k).len() <= k,
        forall|i: int| 0 <= i < group_heads(l, k).len() ==> 0 <= #[trigger] group_heads(l, k)[i] < k,
    decreases k,
{
    if k > 0 {
        lemma_heads_range(l, k - 1);
    }
}

proof fn lemma_summary_consistent(p: Person, lg: Ledger, label: Option<Seq<char>>, hints: u32, r: RelationshipPerson)
    requires
        summary_ok(p, lg, label, hints, r),
    ensures
        consistent(r),
{
    let ev = lg.evidence@;
    let items = crate::romance::ledger::evidence_items(ev);
    lemma_strength_sorted_len(items);
    if r.sustained {
        lemma_chapter_list_len(ev, Kind::Explicit, ev.len() as int);
        lemma_chapter_list_len(ev, Kind::Sexual, ev.len() as int);
        lemma_chapter_list_len(ev, Kind::SexualCultivation, ev.len() as int);
        lemma_chapter_list_len(ev, Kind::Mutual, ev.len() as int);
        lemma_chapter_list_len(ev, Kind::Love, ev.len() as int);
        lemma_chapter_list_len(ev, Kind::RomanticIntimate, ev.len() as int);
        lemma_chapter_list_len(ev, Kind::Intimate, ev.len() as int);
        lemma_chapter_list_len(ev, Kind::EmotionalComfort, ev.len() as int);
        assert(ev.len() > 0);
    }
}

proof fn lemma_merged_consistent(ms: Seq<RelationshipPerson>, r: RelationshipPerson)
    requires
        merged_ok(ms, r),
        forall|i: int| 0 <= i < ms.len() ==> consistent(#[trigger] ms[i]),
    ensures
        consistent(r),
{
    let dd = merged_evidence(ms);
    if r.confirmed {
        let i = choose|i: int| 0 <= i < ms.len() && (#[trigger] ms[i]).confirmed;
        assert(ms[i].sustained);
    }
    if r.sustained {
        if comfort_chapters(dd).len() >= 2 {
            lemma_comfort_len(dd);
        } else {
            let i = choose|i: int| 0 <= i < ms.len() && (#[trigger] ms[i]).sustained;
            assert(ms[i].possible);
            lemma_pooled_len(ms, i);
            lemma_strength_sorted_len(pooled(ms));
        }
        assert(dd.len() > 0);
    }
}

proof fn lemma_cand_len(ps: Seq<Person>, k: int)
    requires
        1 <= k,
    ensures
        cand_list(ps, k).len() <= k - 1,
    decreases k,
{
    if k > 1 {
        lemma_cand_len(ps, k - 1);
    }
}

/// Every verdict row of an analysis has flags that agree, and there are no
/// more rows than candidates.
proof fn lemma_rows_consistent(
    paras: Seq<(usize, &str)>,
    people: Seq<Person>,
    edges: Seq<Edge>,
    focus: Seq<char>,
    pv: Seq<(usize, Vec<char>)>,
    wv: Seq<(usize, Vec<char>)>,
    nm: Seq<Vec<Vec<char>>>,
    cs: Seq<&Person>,
    lg: Seq<Ledger>,
    pre: Seq<RelationshipPerson>,
    merged: Seq<RelationshipPerson>,
    rows: Seq<RelationshipPerson>,
    r: RelationshipReport,
)
    requires
        analysis_ok(paras, people, edges, focus, pv, wv, nm, cs, lg, pre, merged, rows, r),
    ensures
        forall|k: int| 0 <= k < rows.len() ==> consistent(#[trigger] rows[k]),
        rows.len() <= pre.len(),
        pre.len() == cand_list(people, people.len() as int).len(),
{
    broadcast use vstd::seq_lib::group_seq_properties;

    let cand = cand_list(people, people.len() as int);
    assert forall|c: int| 0 <= c < pre.len() implies consistent(#[trigger] pre[c]) by {
        lemma_summary_consistent(
            people[cand[c] as int],
            lg[c],
            context_label(edges, 0, cand[c]),
            context_hints(edges, 0, cand[c]),
            pre[c],
        );
    }
    let l = final_labels(pre, wv);
    let hs = group_heads(l, pre.len() as int);
    lemma_heads_range(l, pre.len() as int);
    assert forall|k: int| 0 <= k < merged.len() implies consistent(#[trigger] merged[k]) by {
        assert(0 <= hs[k] < pre.len());
        let m = group_at(pre, l, hs[k], cs);
        assert forall|i: int| 0 <= i < m.len() implies consistent(#[trigger] m[i]) by {
            assert(m.contains(m[i]));
            lemma_by_mentions_has(group_from(pre, l, l[hs[k]], hs[k], pre.len() as int), cs, m[i]);
            lemma_group_from_has(pre, l, l[hs[k]], hs[k], pre.len() as int, m[i]);
            let c = choose|c: int| 0 <= c < pre.len() && #[trigger] pre[c] == m[i];
        }
        if m.len() != 1 {
            lemma_merged_consistent(m, merged[k]);
        }
    }
    assert forall|k: int| 0 <= k < rows.len() implies consistent(#[trigger] rows[k]) by {
        assert(rows.contains(rows[k]));
        assert(rows.to_multiset().count(rows[k]) > 0);
        assert(merged.contains(rows[k]));
        let j = choose|j: int| 0 <= j < merged.len() && #[trigger] merged[j] == rows[k];
    }
    assert(rows.len() == rows.to_multiset().len());
    assert(merged.len() == merged.to_multiset().len());
}

/// The report lists only verdicts whose flags agree: each listed person is
/// at least a possible partner, a confirmed one is sustained, a sustained
/// one carries evidence, and none carries more than ten pieces of it.
pub proof fn listed_verdicts_are_consistent(
    paras: Seq<(usize, &str)>,
    people: Seq<Person>,
    edges: Seq<Edge>,
    focus: Seq<char>,
    r: RelationshipReport,
)
    requires
        exists|
            pv: Seq<(usize, Vec<char>)>,
            wv: Seq<(usize, Vec<char>)>,
            nm: Seq<Vec<Vec<char>>>,
            cs: Seq<&Person>,
            lg: Seq<Ledger>,
            pre: Seq<RelationshipPerson>,
            merged: Seq<RelationshipPerson>,
            rows: Seq<RelationshipPerson>,
        | #[trigger] analysis_ok(paras, people, edges, focus, pv, wv, nm, cs, lg, pre, merged, rows, r),
    ensures
        forall|k: int|
            0 <= k < r.people@.len() ==> {
                let p = #[trigger] r.people@[k];
                &&& p.possible
                &&& p.confirmed ==> p.sustained
                &&& p.sustained ==> p.evidence@.len() > 0
                &&& p.evidence@.len() <= 10
            },
{
    broadcast use vstd::seq_lib::group_seq_properties;

    let (pv, wv, nm, cs, lg, pre, merged, rows) = choose|
        pv: Seq<(usize, Vec<char>)>,
        wv: Seq<(usize, Vec<char>)>,
        nm: Seq<Vec<Vec<char>>>,
        cs: Seq<&Person>,
        lg: Seq<Ledger>,
        pre: Seq<RelationshipPerson>,
        merged: Seq<RelationshipPerson>,
        rows: Seq<RelationshipPerson>,
    | #[trigger] analysis_ok(paras, people, edges, focus, pv, wv, nm, cs, lg, pre, merged, rows, r);
    lemma_rows_consistent(paras, people, edges, focus, pv, wv, nm, cs, lg, pre, merged, rows, r);
    let kept = rows.filter(|p: RelationshipPerson| kept_row(p));
    assert forall|k: int| 0 <= k < r.people@.len() implies {
        let p = #[trigger] r.people@[k];
        &&& p.possible
        &&& p.confirmed ==> p.sustained
        &&& p.sustained ==> p.evidence@.len() > 0
        &&& p.evidence@.len() <= 10
    } by {
        let p = r.people@[k];
        assert(p == kept[k]);
        rows.lemma_filter_pred(|p: RelationshipPerson| kept_row(p), k);
        assert(kept.contains(p));
        rows.lemma_filter_contains_rev(|p: RelationshipPerson| kept_row(p), p);
        let j = choose|j: int| 0 <= j < rows.len() && #[trigger] rows[j] == p;
        assert(consistent(rows[j]));
    }
}

/// Filtering by a weaker test first changes nothing.
proof fn lemma_filter_sub(s: Seq<RelationshipPerson>, p: spec_fn(RelationshipPerson) -> bool, q: spec_fn(RelationshipPerson) -> bool)
    requires
        forall|i: int| 0 <= i < s.len() && q(#[trigger] s[i]) ==> p(s[i]),
    ensures
        s.filter(p).filter(q) == s.filter(q),
    decreases s.len(),
{
    broadcast use vstd::seq_lib::group_seq_properties;

    if s.len() > 0 {
        let d = s.drop_last();
        let x = s.last();
        assert(d.push(x) =~= s);
        lemma_filter_sub(d, p, q);
        d.lemma_filter_push(x, p);
        d.lemma_filter_push(x, q);
        d.filter(p).lemma_filter_push(x, q);
    } else {
        assert(s.filter(p) =~= Seq::<RelationshipPerson>::empty());
        assert(s.filter(q) =~= Seq::<RelationshipPerson>::empty());
    }
}

/// Filters by tests that agree on every row give the same rows.
proof fn lemma_filter_same(s: Seq<RelationshipPerson>, p: spec_fn(RelationshipPerson) -> bool, q: spec_fn(RelationshipPerson) -> bool)
    requires
        forall|i: int| 0 <= i < s.len() ==> (p(#[trigger] s[i]) <==> q(s[i])),
    ensures
        s.filter(p) == s.filter(q),
    decreases s.len(),
{
    broadcast use vstd::seq_lib::group_seq_properties;

    if s.len() > 0 {
        let d = s.drop_last();
        let x = s.last();
        assert(d.push(x) =~= s);
        lemma_filter_same(d, p, q);
        d.lemma_filter_push(x, p);
        d.lemma_filter_push(x, q);
    } else {
        assert(s.filter(p) =~= Seq::<RelationshipPerson>::empty());
        assert(s.filter(q) =~= Seq::<RelationshipPerson>::empty());
    }
}

/// With at most twelve candidates (so no verdict is cut from the list),
/// the label follows from the listed people and the group scenes alone:
/// 后宫 when a group scene was found or two are confirmed; 多女主 when two
/// are sustained; 单女主 when exactly one person is listed and sustained;
/// 未发现明确感情线 when nobody is listed and the book shows little romance.
pub proof fn label_follows_the_listed_people(
    paras: Seq<(usize, &str)>,
    people: Seq<Person>,
    edges: Seq<Edge>,
    focus: Seq<char>,
    r: RelationshipReport,
)
    requires
        1 <= people.len() <= 13,
        exists|
            pv: Seq<(usize, Vec<char>)>,
            wv: Seq<(usize, Vec<char>)>,
            nm: Seq<Vec<Vec<char>>>,
            cs: Seq<&Person>,
            lg: Seq<Ledger>,
            pre: Seq<RelationshipPerson>,
            merged: Seq<RelationshipPerson>,
            rows: Seq<RelationshipPerson>,
        | #[trigger] analysis_ok(paras, people, edges, focus, pv, wv, nm, cs, lg, pre, merged, rows, r),
    ensures
        ({
            let e = r.group_evidence@.len() > 0;
            let c = r.people@.filter(|p: RelationshipPerson| p.confirmed).len();
            let s = r.people@.filter(|p: RelationshipPerson| p.sustained).len();
            let n = r.people@.len();
            let low = focus == "很少"@ || focus == "较少"@;
            &&& (r.label@ == "后宫"@) == (e || c >= 2)
            &&& (r.label@ == "多女主"@) == (!e && c < 2 && s >= 2)
            &&& (r.label@ == "单女主"@) == (!e && s == 1 && n == 1)
            &&& (r.label@ == "未发现明确感情线"@) == (!e && n == 0 && low)
            &&& r.confidence == (if e || c >= 2 { 3 } else if s >= 2 || (s == 1 && n == 1) || (n == 0 && low) { 2 } else if n > 0 { 1 } else { 0int })
        }),
{
    broadcast use vstd::seq_lib::group_seq_properties;

    let (pv, wv, nm, cs, lg, pre, merged, rows) = choose|
        pv: Seq<(usize, Vec<char>)>,
        wv: Seq<(usize, Vec<char>)>,
        nm: Seq<Vec<Vec<char>>>,
        cs: Seq<&Person>,
        lg: Seq<Ledger>,
        pre: Seq<RelationshipPerson>,
        merged: Seq<RelationshipPerson>,
        rows: Seq<RelationshipPerson>,
    | #[trigger] analysis_ok(paras, people, edges, focus, pv, wv, nm, cs, lg, pre, merged, rows, r);
    lemma_rows_consistent(paras, people, edges, focus, pv, wv, nm, cs, lg, pre, merged, rows, r);
    lemma_cand_len(people, people.len() as int);
    let kp = |p: RelationshipPerson| kept_row(p);
    let cf = |p: RelationshipPerson| p.confirmed;
    let su = |p: RelationshipPerson| p.sustained;
    let po = |p: RelationshipPerson| p.possible;
    let kept = rows.filter(kp);
    rows.lemma_filter_len(kp);
    assert(kept.len() <= 12);
    assert(r.people@ == kept);
    lemma_filter_sub(rows, kp, cf);
    lemma_filter_sub(rows, kp, su);
    lemma_filter_same(rows, kp, po);
    lemma_filter_sub(rows, su, cf);
    rows.filter(su).lemma_filter_len(cf);
    rows.filter(po).lemma_filter_len(su);
    lemma_filter_sub(rows, po, su);
    reveal_strlit("后宫");
    reveal_strlit("多女主");
    reveal_strlit("单女主");
    reveal_strlit("无法判断");
    reveal_strlit("未发现明确感情线");
    assert("多女主"@[0] != "单女主"@[0]);
    let c = rows.filter(cf).len() as int;
    let sv = rows.filter(su).len() as int;
    let q = rows.filter(po).len() as int;
    assert(kept.filter(cf).len() == c);
    assert(kept.filter(su).len() == sv);
    assert(kept.len() == q);
    assert(c <= sv && sv <= q);
    assert(r.people@.filter(|p: RelationshipPerson| p.confirmed).len() == c);
    assert(r.people@.filter(|p: RelationshipPerson| p.sustained).len() == sv);
    let low = focus == "很少"@ || focus == "较少"@;
    assert(r.label@ == classify_spec(c, sv, q, low, r.group_evidence@.len() > 0).0);
}

} // verus!
