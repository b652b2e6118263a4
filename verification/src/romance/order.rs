//! The order the report lists its verdicts and its group scenes in.
use vstd::prelude::*;
use crate::romance::{RelationshipEvidence, RelationshipPerson};
use crate::romance::ledger::{ev_view, EvV};
use crate::text::{lemma_lex_asym, lemma_lex_total, lemma_lex_trans, lex_less, lex_lt};

verus! {

/// `x` is listed before `y`: a higher score first, then the name.
pub open spec fn row_before(x: RelationshipPerson, y: RelationshipPerson) -> bool {
    x.score > y.score || (x.score == y.score && lex_lt(x.name@, y.name@))
}

/// No row is listed after one that should follow it.
pub open spec fn rows_sorted(rs: Seq<RelationshipPerson>) -> bool {
    forall|a: int, b: int| 0 <= a < b < rs.len() ==> !row_before(#[trigger] rs[b], #[trigger] rs[a])
}

pub proof fn lemma_before_asym(x: RelationshipPerson, y: RelationshipPerson)
    requires
        row_before(x, y),
    ensures
        !row_before(y, x),
{
    if x.score == y.score {
        lemma_lex_asym(x.name@, y.name@);
    }
}

pub proof fn lemma_not_before_trans(x: RelationshipPerson, y: RelationshipPerson, z: RelationshipPerson)
    requires
        !row_before(x, y),
        !row_before(y, z),
    ensures
        !row_before(x, z),
{
    if row_before(x, z) {
        assert(x.score == y.score && y.score == z.score);
        let (a, b, c) = (x.name@, y.name@, z.name@);
        if a == b {
            assert(lex_lt(b, c));
        } else {
            lemma_lex_total(a, b);
            assert(lex_lt(b, a));
            if b == c {
                lemma_lex_asym(b, a);
            } else {
                lemma_lex_total(b, c);
                lemma_lex_trans(c, b, a);
                lemma_lex_asym(a, c);
            }
        }
    }
}

fn before(x: &RelationshipPerson, y: &RelationshipPerson) -> (r: bool)
    ensures
        r == row_before(*x, *y),
{
    let xn = crate::text::to_chars(x.name.as_str());
    let yn = crate::text::to_chars(y.name.as_str());
    x.score > y.score || (x.score == y.score && lex_less(xn.as_slice(), yn.as_slice()))
}

/// The rows, stably ordered by score (highest first), then by name.
pub fn sort_rows(rows: Vec<RelationshipPerson>) -> (r: Vec<RelationshipPerson>)
    ensures
        r@.to_multiset() == rows@.to_multiset(),
        rows_sorted(r@),
{
    broadcast use {vstd::seq_lib::to_multiset_insert, vstd::seq_lib::to_multiset_build};
    let mut rows = rows;
    let ghost orig = rows@;
    let n = rows.len();
    let mut out: Vec<RelationshipPerson> = Vec::new();
    let mut i: usize = 0;
    assert(out@ =~= orig.take(0));
    while i < n
        invariant
            n == rows@.len(),
            i <= n,
            orig.len() == n,
            forall|k: int| i <= k < n ==> rows@[k] == orig[k],
            out@.to_multiset() == orig.take(i as int).to_multiset(),
            rows_sorted(out@),
        decreases n - i,
    {
        let mut x = RelationshipPerson {
            name: String::new(),
            status: String::new(),
            score: 0,
            confirmed: false,
            sustained: false,
            possible: false,
            evidence: Vec::new(),
        };
        rows.set_and_swap(i, &mut x);
        assert(x == orig[i as int]);
        let mut p: usize = out.len();
        while p > 0 && before(&x, &out[p - 1])
            invariant
                p <= out@.len(),
                forall|q: int| p <= q < out@.len() ==> row_before(x, #[trigger] out@[q]),
            decreases p,
        {
            p -= 1;
        }
        let ghost pre = out@;
        proof {
            assert forall|a: int, b: int| 0 <= a < b < pre.len() + 1 implies !row_before(
                #[trigger] pre.insert(p as int, x)[b],
                #[trigger] pre.insert(p as int, x)[a],
            ) by {
                let s = pre.insert(p as int, x);
                if b < p {
                    assert(s[a] == pre[a] && s[b] == pre[b]);
                } else if b == p {
                    assert(s[b] == x && s[a] == pre[a]);
                    assert(!row_before(x, pre[p - 1]));
                    if a < p - 1 {
                        assert(!row_before(pre[p - 1], pre[a]));
                        lemma_not_before_trans(x, pre[p - 1], pre[a]);
                    }
                } else if a == p {
                    assert(s[a] == x && s[b] == pre[b - 1]);
                    assert(row_before(x, pre[b - 1]));
                    lemma_before_asym(x, pre[b - 1]);
                } else if a < p {
                    assert(s[a] == pre[a] && s[b] == pre[b - 1]);
                } else {
                    assert(s[a] == pre[a - 1] && s[b] == pre[b - 1]);
                }
            }
        }
        out.insert(p, x);
        proof {
            assert(orig.take(i + 1) =~= orig.take(i as int).push(orig[i as int]));
            assert(out@ == pre.insert(p as int, x));
            vstd::seq_lib::to_multiset_insert(pre, p as int, x);
            vstd::seq_lib::to_multiset_build(orig.take(i as int), x);
            assert(out@.to_multiset() == orig.take(i + 1).to_multiset());
        }
        i += 1;
    }
    assert(orig.take(n as int) =~= orig);
    out
}

/// Group scenes ordered by chapter, one per chapter.
pub open spec fn groups_sorted(gs: Seq<(u128, RelationshipEvidence)>) -> bool {
    forall|a: int, b: int| 0 <= a < b < gs.len() ==> (#[trigger] gs[a]).1.chapter < (#[trigger] gs[b]).1.chapter
}

/// A group scene as plain values: richness, evidence.
pub open spec fn group_views(gs: Seq<(u128, RelationshipEvidence)>) -> Seq<(u128, EvV)> {
    gs.map_values(|g: (u128, RelationshipEvidence)| (g.0, ev_view(g.1)))
}

/// The scenes ordered by chapter with `x` placed at its chapter: it
/// replaces that chapter's scene only when richer.
pub open spec fn place_spec(gs: Seq<(u128, EvV)>, x: (u128, EvV)) -> Seq<(u128, EvV)>
    decreases gs.len(),
{
    if gs.len() == 0 {
        seq![x]
    } else if gs[0].1.0 < x.1.0 {
        seq![gs[0]] + place_spec(gs.drop_first(), x)
    } else if gs[0].1.0 == x.1.0 {
        if gs[0].0 < x.0 {
            seq![x] + gs.drop_first()
        } else {
            gs
        }
    } else {
        seq![x] + gs
    }
}

proof fn lemma_place_skip(gs: Seq<(u128, EvV)>, x: (u128, EvV), p: int)
    requires
        0 <= p <= gs.len(),
        forall|q: int| 0 <= q < p ==> (#[trigger] gs[q]).1.0 < x.1.0,
    ensures
        place_spec(gs, x) == gs.take(p) + place_spec(gs.skip(p), x),
    decreases p,
{
    if p == 0 {
        assert(gs.take(0) + gs.skip(0) =~= gs);
        assert(gs.skip(0) =~= gs);
    } else {
        lemma_place_skip(gs.drop_first(), x, p - 1);
        assert(gs.drop_first().skip(p - 1) =~= gs.skip(p));
        assert(seq![gs[0]] + gs.drop_first().take(p - 1) =~= gs.take(p));
    }
}

/// Keep `ev` as its chapter's group scene unless the chapter already has
/// one at least as rich.
pub fn place_group(groups: &mut Vec<(u128, RelationshipEvidence)>, richness: u128, ev: RelationshipEvidence)
    requires
        groups_sorted(old(groups)@),
    ensures
        groups_sorted(final(groups)@),
        forall|k: int|
            0 <= k < final(groups)@.len() ==> (exists|j: int| 0 <= j < old(groups)@.len() && #[trigger] final(groups)@[k] == #[trigger] old(groups)@[j])
                || final(groups)@[k] == (richness, ev),
        forall|j: int| 0 <= j < old(groups)@.len() && (#[trigger] old(groups)@[j]).1.chapter == ev.chapter ==> if old(groups)@[j].0 < richness {
            final(groups)@ == old(groups)@.update(j, (richness, ev))
        } else {
            final(groups)@ == old(groups)@
        },
        (forall|j: int| 0 <= j < old(groups)@.len() ==> (#[trigger] old(groups)@[j]).1.chapter != ev.chapter) ==> exists|p: int|
            0 <= p <= old(groups)@.len() && final(groups)@ == old(groups)@.insert(p, (richness, ev)),
        group_views(final(groups)@) == place_spec(group_views(old(groups)@), (richness, ev_view(ev))),
{
    let ghost item = (richness, ev);
    let mut p: usize = 0;
    while p < groups.len() && groups[p].1.chapter < ev.chapter
        invariant
            p <= groups@.len(),
            forall|q: int| 0 <= q < p ==> (#[trigger] groups@[q]).1.chapter < ev.chapter,
        decreases groups@.len() - p,
    {
        p += 1;
    }
    let ghost pre = groups@;
    let ghost gv = group_views(pre);
    let ghost xv = (richness, ev_view(ev));
    proof {
        lemma_place_skip(gv, xv, p as int);
    }
    assert forall|j: int| 0 <= j < pre.len() && (#[trigger] pre[j]).1.chapter == ev.chapter implies j == p by {
        if j < p {
        } else if j > p {
            assert(pre[p as int].1.chapter < pre[j].1.chapter);
        }
    }
    if p < groups.len() && groups[p].1.chapter == ev.chapter {
        if groups[p].0 < richness {
            groups.set(p, (richness, ev));
            assert(groups@[p as int] == item);
            assert forall|k: int| 0 <= k < groups@.len() && k != p implies #[trigger] groups@[k] == pre[k] by {}
            assert(groups@ =~= pre.update(p as int, item));
            assert(group_views(groups@) =~= gv.take(p as int) + (seq![xv] + gv.skip(p as int).drop_first()));
        } else {
            assert(gv.skip(p as int)[0] == gv[p as int]);
            assert(gv.take(p as int) + gv.skip(p as int) =~= gv);
        }
    } else {
        groups.insert(p, (richness, ev));
        assert(groups@ == pre.insert(p as int, item));
        proof {
            if p < pre.len() {
                assert(gv.skip(p as int)[0] == gv[p as int]);
            }
        }
        assert(group_views(groups@) =~= gv.take(p as int) + (seq![xv] + gv.skip(p as int)));
        assert forall|k: int| 0 <= k < groups@.len() implies (exists|j: int| 0 <= j < pre.len() && #[trigger] groups@[k] == #[trigger] pre[j])
            || groups@[k] == item by {
            if k < p {
                assert(groups@[k] == pre[k]);
            } else if k > p {
                assert(groups@[k] == pre[k - 1]);
            }
        }
    }
}

} // verus!
