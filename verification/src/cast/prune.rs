//! Reduce the scan to the graph a reader sees: drop everyone below the
//! density floor, fill the seats with the perennial leads and the opening
//! cast, mark the uncertain band, and renumber the edges.
use vstd::prelude::*;
use crate::cast::{Cast, Edge, Person, SCAN_VERSION, TOP_CAST};

verus! {

/// Of the `TOP_CAST` seats, this many go to the highest mention counts.
pub const PRIMARY_BY_COUNT: usize = 8;

/// A character debuts in the opening if their first chapter is within
/// this fraction of the book (1/20), floored so short books still get a
/// usable window.
pub const EARLY_FRACTION: usize = 20;
pub const EARLY_FLOOR: usize = 40;

/// Mentions per chapter-appeared-in of at least 1.2: below it nothing real
/// has ever landed.
pub open spec fn dense(p: Person) -> bool {
    5 * (p.mentions as int) >= 6 * (if p.chapters == 0 { 1 } else { p.chapters as int })
}

/// Below 4 mentions per chapter the statistics stop discriminating.
pub open spec fn unsure(p: Person) -> bool {
    (p.mentions as int) < 4 * (if p.chapters == 0 { 1 } else { p.chapters as int })
}

/// The dense people among the first `k`, in order.
pub open spec fn dense_upto(ps: Seq<Person>, k: int) -> Seq<int>
    decreases k,
{
    if k <= 0 {
        Seq::empty()
    } else if dense(ps[k - 1]) {
        dense_upto(ps, k - 1).push(k - 1)
    } else {
        dense_upto(ps, k - 1)
    }
}

/// The seats after the leads and the opening cast among the first `k`
/// dense people: (seated flags, seats taken, opening seats taken).
pub open spec fn seat_upto(ps: Seq<Person>, al: Seq<int>, cut: int, k: int) -> (Seq<bool>, int, int)
    decreases k,
{
    if k <= 0 {
        (Seq::new(ps.len(), |i: int| false), 0, 0)
    } else {
        let st = seat_upto(ps, al, cut, k - 1);
        let i = al[k - 1];
        let lead = k - 1 < PRIMARY_BY_COUNT;
        let leads = if al.len() < PRIMARY_BY_COUNT { al.len() as int } else { PRIMARY_BY_COUNT as int };
        if lead {
            (st.0.update(i, true), st.1 + 1, st.2)
        } else if ps[i].first_chapter <= cut && st.2 < TOP_CAST - leads {
            (st.0.update(i, true), st.1 + 1, st.2 + 1)
        } else {
            st
        }
    }
}

/// The seats once the free ones are filled by count among the first `k`
/// dense people: (seated flags, seats taken).
pub open spec fn fill_upto(ps: Seq<Person>, al: Seq<int>, cut: int, k: int) -> (Seq<bool>, int)
    decreases k,
{
    if k <= 0 {
        let st = seat_upto(ps, al, cut, al.len() as int);
        (st.0, st.1)
    } else {
        let st = fill_upto(ps, al, cut, k - 1);
        let i = al[k - 1];
        if st.1 >= TOP_CAST || st.0[i] {
            st
        } else {
            (st.0.update(i, true), st.1 + 1)
        }
    }
}

/// Who is seated in the pruned graph.
pub open spec fn seated(ps: Seq<Person>, n_chapters: int) -> Seq<bool> {
    let al = dense_upto(ps, ps.len() as int);
    let q = n_chapters / (EARLY_FRACTION as int);
    let cut = if q > EARLY_FLOOR { q } else { EARLY_FLOOR as int };
    fill_upto(ps, al, cut, al.len() as int).0
}

/// Of the first `k` people, how many are seated.
pub open spec fn seats_before(s: Seq<bool>, k: int) -> int
    decreases k,
{
    if k <= 0 {
        0
    } else {
        seats_before(s, k - 1) + (if s[k - 1] { 1int } else { 0int })
    }
}

/// The seated people in order, marked uncertain where the density is low.
pub open spec fn kept_people(ps: Seq<Person>, s: Seq<bool>, k: int) -> Seq<Person>
    decreases k,
{
    if k <= 0 {
        Seq::empty()
    } else if s[k - 1] {
        kept_people(ps, s, k - 1).push(Person { uncertain: unsure(ps[k - 1]), ..ps[k - 1] })
    } else {
        kept_people(ps, s, k - 1)
    }
}

/// The edges whose two ends are both seated, renumbered to the seats.
pub open spec fn kept_edges(es: Seq<Edge>, s: Seq<bool>, k: int) -> Seq<Edge>
    decreases k,
{
    if k <= 0 {
        Seq::empty()
    } else {
        let e = es[k - 1];
        let r = kept_edges(es, s, k - 1);
        if 0 <= e.a < s.len() && 0 <= e.b < s.len() && s[e.a as int] && s[e.b as int] {
            r.push(Edge { a: seats_before(s, e.a as int) as usize, b: seats_before(s, e.b as int) as usize, ..e })
        } else {
            r
        }
    }
}

proof fn lemma_dense_len(ps: Seq<Person>, k: int)
    requires
        0 <= k <= ps.len(),
    ensures
        dense_upto(ps, k).len() <= k,
        forall|j: int| 0 <= j < dense_upto(ps, k).len() ==> 0 <= #[trigger] dense_upto(ps, k)[j] < k,
    decreases k,
{
    if k > 0 {
        lemma_dense_len(ps, k - 1);
    }
}

proof fn lemma_seat_len(ps: Seq<Person>, al: Seq<int>, cut: int, k: int)
    requires
        0 <= k <= al.len(),
        forall|j: int| 0 <= j < al.len() ==> 0 <= #[trigger] al[j] < ps.len(),
    ensures
        seat_upto(ps, al, cut, k).0.len() == ps.len(),
        0 <= seat_upto(ps, al, cut, k).1 <= k,
    decreases k,
{
    if k > 0 {
        lemma_seat_len(ps, al, cut, k - 1);
    }
}

proof fn lemma_fill_len(ps: Seq<Person>, al: Seq<int>, cut: int, k: int)
    requires
        0 <= k <= al.len(),
        forall|j: int| 0 <= j < al.len() ==> 0 <= #[trigger] al[j] < ps.len(),
    ensures
        fill_upto(ps, al, cut, k).0.len() == ps.len(),
        0 <= fill_upto(ps, al, cut, k).1,
    decreases k,
{
    lemma_seat_len(ps, al, cut, al.len() as int);
    if k > 0 {
        lemma_fill_len(ps, al, cut, k - 1);
    }
}

proof fn lemma_seats_before(s: Seq<bool>, k: int)
    requires
        0 <= k,
    ensures
        0 <= seats_before(s, k) <= k,
    decreases k,
{
    if k > 0 {
        lemma_seats_before(s, k - 1);
    }
}

proof fn lemma_dense_ascending(ps: Seq<Person>, k: int)
    requires
        0 <= k <= ps.len(),
    ensures
        forall|a: int, b: int| 0 <= a < b < dense_upto(ps, k).len() ==> dense_upto(ps, k)[a] < dense_upto(ps, k)[b],
    decreases k,
{
    if k > 0 {
        lemma_dense_ascending(ps, k - 1);
        lemma_dense_len(ps, k - 1);
    }
}

proof fn lemma_seats_update(s: Seq<bool>, i: int, k: int)
    requires
        0 <= i < s.len(),
        0 <= k <= s.len(),
    ensures
        seats_before(s.update(i, true), k) == seats_before(s, k) + (if i < k && !s[i] { 1int } else { 0int }),
    decreases k,
{
    if k > 0 {
        lemma_seats_update(s, i, k - 1);
    }
}

proof fn lemma_seats_none(s: Seq<bool>, k: int)
    requires
        k <= s.len(),
        forall|j: int| 0 <= j < s.len() ==> !#[trigger] s[j],
    ensures
        seats_before(s, k) == 0,
    decreases k,
{
    if k > 0 {
        lemma_seats_none(s, k - 1);
    }
}

pub(crate) proof fn lemma_kept_len(ps: Seq<Person>, s: Seq<bool>, k: int)
    requires
        0 <= k,
    ensures
        kept_people(ps, s, k).len() == seats_before(s, k),
    decreases k,
{
    if k > 0 {
        lemma_kept_len(ps, s, k - 1);
    }
}

proof fn lemma_seat_count(ps: Seq<Person>, al: Seq<int>, cut: int, k: int)
    requires
        0 <= k <= al.len(),
        forall|j: int| 0 <= j < al.len() ==> 0 <= #[trigger] al[j] < ps.len(),
        forall|a: int, b: int| 0 <= a < b < al.len() ==> al[a] < al[b],
    ensures
        seat_upto(ps, al, cut, k).0.len() == ps.len(),
        seats_before(seat_upto(ps, al, cut, k).0, ps.len() as int) == seat_upto(ps, al, cut, k).1,
        seat_upto(ps, al, cut, k).1 == (if k < PRIMARY_BY_COUNT { k } else { PRIMARY_BY_COUNT as int })
            + seat_upto(ps, al, cut, k).2,
        0 <= seat_upto(ps, al, cut, k).2,
        seat_upto(ps, al, cut, k).2 <= TOP_CAST - (if al.len() < PRIMARY_BY_COUNT { al.len() as int } else { PRIMARY_BY_COUNT as int }),
        forall|j: int| 0 <= j < ps.len() && #[trigger] seat_upto(ps, al, cut, k).0[j] ==> k > 0 && j <= al[k - 1],
    decreases k,
{
    if k > 0 {
        lemma_seat_count(ps, al, cut, k - 1);
        let st = seat_upto(ps, al, cut, k - 1);
        let i = al[k - 1];
        assert(!st.0[i]) by {
            if st.0[i] {
                assert(al[k - 2] < al[k - 1]);
            }
        }
        lemma_seats_update(st.0, i, ps.len() as int);
    } else {
        lemma_seats_none(seat_upto(ps, al, cut, 0).0, ps.len() as int);
    }
}

proof fn lemma_fill_count(ps: Seq<Person>, al: Seq<int>, cut: int, k: int)
    requires
        0 <= k <= al.len(),
        forall|j: int| 0 <= j < al.len() ==> 0 <= #[trigger] al[j] < ps.len(),
        forall|a: int, b: int| 0 <= a < b < al.len() ==> al[a] < al[b],
    ensures
        fill_upto(ps, al, cut, k).0.len() == ps.len(),
        seats_before(fill_upto(ps, al, cut, k).0, ps.len() as int) == fill_upto(ps, al, cut, k).1,
        fill_upto(ps, al, cut, k).1 <= TOP_CAST,
    decreases k,
{
    if k == 0 {
        lemma_seat_count(ps, al, cut, al.len() as int);
    } else {
        lemma_fill_count(ps, al, cut, k - 1);
        let st = fill_upto(ps, al, cut, k - 1);
        lemma_seats_update(st.0, al[k - 1], ps.len() as int);
    }
}

proof fn lemma_dense_members(ps: Seq<Person>, k: int)
    requires
        0 <= k <= ps.len(),
    ensures
        forall|m: int| 0 <= m < dense_upto(ps, k).len() ==> dense(ps[#[trigger] dense_upto(ps, k)[m]]),
    decreases k,
{
    if k > 0 {
        lemma_dense_members(ps, k - 1);
        let prev = dense_upto(ps, k - 1);
        let cur = dense_upto(ps, k);
        assert forall|m: int| 0 <= m < cur.len() implies dense(ps[#[trigger] cur[m]]) by {
            if m < prev.len() {
                assert(cur[m] == prev[m]);
            }
        }
    }
}

proof fn lemma_seat_flags(ps: Seq<Person>, al: Seq<int>, cut: int, k: int)
    requires
        0 <= k <= al.len(),
        forall|j: int| 0 <= j < al.len() ==> 0 <= #[trigger] al[j] < ps.len(),
    ensures
        forall|j: int| 0 <= j < ps.len() && #[trigger] seat_upto(ps, al, cut, k).0[j] ==> exists|m: int| 0 <= m < al.len() && al[m] == j,
    decreases k,
{
    lemma_seat_len(ps, al, cut, k);
    if k > 0 {
        lemma_seat_flags(ps, al, cut, k - 1);
        lemma_seat_len(ps, al, cut, k - 1);
        assert forall|j: int| 0 <= j < ps.len() && #[trigger] seat_upto(ps, al, cut, k).0[j] implies exists|m: int| 0 <= m < al.len() && al[m] == j by {
            if j == al[k - 1] {
                assert(al[k - 1] == j);
            } else {
                assert(seat_upto(ps, al, cut, k - 1).0[j]);
            }
        }
    }
}

proof fn lemma_fill_flags(ps: Seq<Person>, al: Seq<int>, cut: int, k: int)
    requires
        0 <= k <= al.len(),
        forall|j: int| 0 <= j < al.len() ==> 0 <= #[trigger] al[j] < ps.len(),
    ensures
        forall|j: int| 0 <= j < ps.len() && #[trigger] fill_upto(ps, al, cut, k).0[j] ==> exists|m: int| 0 <= m < al.len() && al[m] == j,
    decreases k,
{
    lemma_fill_len(ps, al, cut, k);
    if k == 0 {
        lemma_seat_flags(ps, al, cut, al.len() as int);
    } else {
        lemma_fill_flags(ps, al, cut, k - 1);
        lemma_fill_len(ps, al, cut, k - 1);
        assert forall|j: int| 0 <= j < ps.len() && #[trigger] fill_upto(ps, al, cut, k).0[j] implies exists|m: int| 0 <= m < al.len() && al[m] == j by {
            if j == al[k - 1] {
                assert(al[k - 1] == j);
            } else {
                assert(fill_upto(ps, al, cut, k - 1).0[j]);
            }
        }
    }
}

/// Only dense people are seated.
pub proof fn lemma_seated_dense(people: Seq<Person>, n_chapters: int)
    ensures
        forall|j: int| 0 <= j < people.len() && #[trigger] seated(people, n_chapters)[j] ==> dense(people[j]),
{
    let n = people.len() as int;
    let al = dense_upto(people, n);
    let q = n_chapters / (EARLY_FRACTION as int);
    let cut = if q > EARLY_FLOOR { q } else { EARLY_FLOOR as int };
    lemma_dense_len(people, n);
    lemma_dense_members(people, n);
    lemma_fill_flags(people, al, cut, al.len() as int);
    assert forall|j: int| 0 <= j < people.len() && #[trigger] seated(people, n_chapters)[j] implies dense(people[j]) by {
        let m = choose|m: int| 0 <= m < al.len() && al[m] == j;
        assert(dense(people[al[m]]));
    }
}

proof fn lemma_seats_mono(s: Seq<bool>, a: int, b: int)
    requires
        0 <= a <= b <= s.len(),
    ensures
        seats_before(s, a) <= seats_before(s, b),
        a < b && s[a] ==> seats_before(s, a) < seats_before(s, b),
    decreases b - a,
{
    if a < b {
        lemma_seats_mono(s, a + 1, b);
    }
}

/// Every kept edge joins two seated people, renumbered to their seats, and
/// keeps its weight, hints, label and evidence.
pub proof fn lemma_kept_edges(es: Seq<Edge>, s: Seq<bool>, k: int)
    requires
        0 <= k <= es.len(),
        forall|i: int| 0 <= i < es.len() ==> (#[trigger] es[i]).a < es[i].b,
    ensures
        forall|j: int|
            0 <= j < kept_edges(es, s, k).len() ==> {
                let e = #[trigger] kept_edges(es, s, k)[j];
                &&& e.a < e.b < seats_before(s, s.len() as int)
                &&& exists|i: int| 0 <= i < k && e.weight == es[i].weight && e.hints == es[i].hints && e.label == es[i].label
            },
    decreases k,
{
    if k > 0 {
        lemma_kept_edges(es, s, k - 1);
        let e = es[k - 1];
        let prev = kept_edges(es, s, k - 1);
        let cur = kept_edges(es, s, k);
        if 0 <= e.a < s.len() && 0 <= e.b < s.len() && s[e.a as int] && s[e.b as int] {
            lemma_seats_mono(s, e.a as int, e.b as int);
            lemma_seats_mono(s, e.b as int, s.len() as int);
            lemma_seats_before(s, s.len() as int);
            assert(seats_before(s, e.b as int) < seats_before(s, s.len() as int));
            assert(seats_before(s, s.len() as int) <= s.len());
            lemma_seats_before(s, e.a as int);
            lemma_seats_before(s, e.b as int);
        }
        assert forall|j: int| 0 <= j < cur.len() implies {
            let x = #[trigger] cur[j];
            &&& x.a < x.b < seats_before(s, s.len() as int)
            &&& exists|i: int| 0 <= i < k && x.weight == es[i].weight && x.hints == es[i].hints && x.label == es[i].label
        } by {
            if j < prev.len() {
                assert(cur[j] == prev[j]);
                let x = prev[j];
                let i = choose|i: int| 0 <= i < k - 1 && x.weight == es[i].weight && x.hints == es[i].hints && x.label == es[i].label;
                assert(0 <= i < k);
            } else {
                assert(cur[j].weight == es[k - 1].weight && cur[j].hints == es[k - 1].hints && cur[j].label == es[k - 1].label);
            }
        }
    }
}

/// There is a seat flag for every person.
pub proof fn lemma_seated_len(people: Seq<Person>, n_chapters: int)
    ensures
        seated(people, n_chapters).len() == people.len(),
{
    let n = people.len() as int;
    let al = dense_upto(people, n);
    let q = n_chapters / (EARLY_FRACTION as int);
    let cut = if q > EARLY_FLOOR { q } else { EARLY_FLOOR as int };
    lemma_dense_len(people, n);
    lemma_fill_len(people, al, cut, al.len() as int);
}

/// The graph a reader sees holds at most `TOP_CAST` people, whatever the
/// scan found.
pub proof fn pruned_cast_fits(people: Seq<Person>, n_chapters: int)
    ensures
        kept_people(people, seated(people, n_chapters), people.len() as int).len() <= TOP_CAST,
{
    let n = people.len() as int;
    let al = dense_upto(people, n);
    let q = n_chapters / (EARLY_FRACTION as int);
    let cut = if q > EARLY_FLOOR { q } else { EARLY_FLOOR as int };
    lemma_dense_len(people, n);
    lemma_dense_ascending(people, n);
    lemma_fill_count(people, al, cut, al.len() as int);
    lemma_kept_len(people, seated(people, n_chapters), n);
}

fn dummy_person() -> (r: Person)
    ensures
        r.name@ == Seq::<char>::empty(),
        r.aliases@ == Seq::<String>::empty(),
        r.mentions == 0,
        r.chapters == 0,
        r.first_chapter == 0,
        !r.uncertain,
        r.evidence@ == Seq::<(usize, String)>::empty(),
{
    Person {
        name: String::new(),
        aliases: Vec::new(),
        mentions: 0,
        chapters: 0,
        first_chapter: 0,
        uncertain: false,
        evidence: Vec::new(),
    }
}

fn dummy_edge() -> (r: Edge)
    ensures
        r.a == 0,
        r.b == 0,
        r.weight == 0,
        r.hints@ == Seq::<(String, u32)>::empty(),
        r.label is None,
        r.evidence@ == Seq::<(usize, String)>::empty(),
{
    Edge { a: 0, b: 0, weight: 0, hints: Vec::new(), label: None, evidence: Vec::new() }
}

/// Seat the graph: the first `PRIMARY_BY_COUNT` dense people (people come
/// ranked by mentions), then the best-ranked dense people who debut in the
/// opening, then anyone dense by rank until `TOP_CAST` seats are taken.
pub fn prune(people: Vec<Person>, edges: Vec<Edge>, n_chapters: usize) -> (c: Cast)
    ensures
        c.people@ == kept_people(people@, seated(people@, n_chapters as int), people@.len() as int),
        c.edges@ == kept_edges(edges@, seated(people@, n_chapters as int), edges@.len() as int),
        c.relationship is None,
        c.version == SCAN_VERSION,
{
    let ghost pv = people@;
    let n = people.len();
    let mut al: Vec<usize> = Vec::new();
    let mut i: usize = 0;
    while i < n
        invariant
            n == people@.len(),
            pv == people@,
            i <= n,
            al@.map_values(|x: usize| x as int) == dense_upto(pv, i as int),
        decreases n - i,
    {
        let p = &people[i];
        let ch: u64 = if p.chapters == 0 { 1 } else { p.chapters as u64 };
        if 5 * (p.mentions as u64) >= 6 * ch {
            let ghost pre = al@;
            al.push(i);
            assert(al@.map_values(|x: usize| x as int) =~= pre.map_values(|x: usize| x as int).push(i as int));
        }
        i += 1;
    }
    let ghost alv = dense_upto(pv, n as int);
    proof {
        lemma_dense_len(pv, n as int);
    }
    let q = n_chapters / EARLY_FRACTION;
    let cut = if q > EARLY_FLOOR { q } else { EARLY_FLOOR };
    let na = al.len();
    let leads = if na < PRIMARY_BY_COUNT { na } else { PRIMARY_BY_COUNT };
    let mut seat: Vec<bool> = Vec::new();
    let mut k: usize = 0;
    while k < n
        invariant
            k <= n,
            seat@.len() == k,
            forall|j: int| 0 <= j < k ==> !seat@[j],
        decreases n - k,
    {
        seat.push(false);
        k += 1;
    }
    assert(seat@ =~= Seq::new(pv.len(), |i: int| false));
    let mut taken: usize = 0;
    let mut opening: usize = 0;
    let mut k: usize = 0;
    while k < na
        invariant
            n == pv.len(),
            na == al@.len(),
            alv == al@.map_values(|x: usize| x as int),
            forall|j: int| 0 <= j < alv.len() ==> 0 <= #[trigger] alv[j] < n,
            leads == (if na < PRIMARY_BY_COUNT { na } else { PRIMARY_BY_COUNT }),
            pv == people@,
            k <= na,
            (seat@, taken as int, opening as int) == seat_upto(pv, alv, cut as int, k as int),
            taken <= k,
            opening <= k,
        decreases na - k,
    {
        proof {
            lemma_seat_len(pv, alv, cut as int, k as int);
        }
        let idx = al[k];
        assert(alv[k as int] == idx);
        if k < PRIMARY_BY_COUNT {
            seat.set(idx, true);
            taken += 1;
        } else if people[idx].first_chapter <= cut && opening < TOP_CAST - leads {
            seat.set(idx, true);
            taken += 1;
            opening += 1;
        }
        k += 1;
    }
    let mut k: usize = 0;
    while k < na
        invariant
            n == pv.len(),
            na == al@.len(),
            alv == al@.map_values(|x: usize| x as int),
            forall|j: int| 0 <= j < alv.len() ==> 0 <= #[trigger] alv[j] < n,
            pv == people@,
            k <= na,
            (seat@, taken as int) == fill_upto(pv, alv, cut as int, k as int),
            taken <= na + k,
        decreases na - k,
    {
        proof {
            lemma_fill_len(pv, alv, cut as int, k as int);
        }
        let idx = al[k];
        assert(alv[k as int] == idx);
        if !(taken >= TOP_CAST || seat[idx]) {
            seat.set(idx, true);
            taken += 1;
        }
        k += 1;
    }
    proof {
        lemma_fill_len(pv, alv, cut as int, na as int);
    }
    let ghost sv = seated(pv, n_chapters as int);
    assert(seat@ == sv);
    // people, in order, with the uncertain band marked
    let mut people = people;
    let mut kept: Vec<Person> = Vec::new();
    let mut remap: Vec<usize> = Vec::new();
    let mut i: usize = 0;
    while i < n
        invariant
            n == pv.len(),
            people@.len() == n,
            seat@ == sv,
            sv.len() == n,
            i <= n,
            forall|j: int| i <= j < n ==> people@[j] == pv[j],
            kept@ == kept_people(pv, sv, i as int),
            kept@.len() == seats_before(sv, i as int),
            remap@.len() == i,
            forall|j: int| 0 <= j < i ==> remap@[j] == seats_before(sv, j),
        decreases n - i,
    {
        proof {
            lemma_seats_before(sv, i as int);
        }
        remap.push(kept.len());
        if seat[i] {
            let mut p = dummy_person();
            people.set_and_swap(i, &mut p);
            let ch: u64 = if p.chapters == 0 { 1 } else { p.chapters as u64 };
            p.uncertain = (p.mentions as u64) < 4 * ch;
            kept.push(p);
        }
        i += 1;
    }
    let mut edges = edges;
    let ne = edges.len();
    let ghost ev = edges@;
    let mut out: Vec<Edge> = Vec::new();
    let mut j: usize = 0;
    while j < ne
        invariant
            ne == ev.len(),
            edges@.len() == ne,
            seat@ == sv,
            sv.len() == n,
            remap@.len() == n,
            forall|x: int| 0 <= x < n ==> remap@[x] == seats_before(sv, x),
            j <= ne,
            forall|x: int| j <= x < ne ==> edges@[x] == ev[x],
            out@ == kept_edges(ev, sv, j as int),
        decreases ne - j,
    {
        let mut e = dummy_edge();
        edges.set_and_swap(j, &mut e);
        assert(e == ev[j as int]);
        if e.a < n && e.b < n && seat[e.a] && seat[e.b] {
            e.a = remap[e.a];
            e.b = remap[e.b];
            out.push(e);
        }
        j += 1;
    }
    Cast { people: kept, edges: out, relationship: None, version: SCAN_VERSION }
}

} // verus!
