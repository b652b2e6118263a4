//! From candidates to cast members: the statistical person tests, the folds
//! that merge a bare given name or a courtesy title into its full name, and
//! the ranking by mentions.
use vstd::prelude::*;
use crate::cast::census::{Stat, StatV};
use crate::cast::words::{
    closes_with_any, closes_with_any_exec, full_name_shaped, full_name_shaped_spec, titles,
    titles_exec, SURNAMES,
};
use crate::text::{ends_with, in_set, occurs, prefix, slice_vec, starts_with, suffix, contains, to_chars};

verus! {

/// A candidate needs this many mentions before anything else is asked.
pub const MIN_MENTIONS: u32 = 6;

/// Mentions a candidate needs before the acted-upon test may judge it: the
/// test is a rate, and a rate needs a sample.
pub const OBJECT_FLOOR: u32 = 120;

/// The largest cast the scan keeps before pruning.
pub const MAX_CAST: usize = 40;

/// A referential island: at least two in five standalone occurrences have
/// no CJK character on their left.
pub open spec fn island(boundary: int, standalone: int) -> bool {
    boundary * 5 >= standalone * 2
}

/// A frequent two-character name shaped `surname + given name` that stands
/// alone often enough, ends clauses often enough and is acted upon often
/// enough is a person even with a slightly weak island rate (张雅 yes,
/// 张开 no).
pub open spec fn strong_two_char_spec(name: Seq<char>, st: StatV, standalone: int) -> bool {
    &&& name.len() == 2
    &&& SURNAMES@.contains(name[0])
    &&& standalone >= OBJECT_FLOOR
    &&& st.4 * 3 >= standalone
    &&& st.5 * 10 >= standalone
    &&& st.6 * 20 >= standalone
}

pub fn strong_two_char_name(name: &str, st: &Stat, standalone: u32) -> (r: bool)
    ensures
        r == strong_two_char_spec(name@, st@, standalone as int),
{
    let v = to_chars(name);
    v.len() == 2 && in_set(SURNAMES, v[0]) && standalone >= OBJECT_FLOOR && (st.boundary as u64) * 3
        >= standalone as u64 && (st.boundary_r as u64) * 10 >= standalone as u64 && (st.object as u64)
        * 20 >= standalone as u64
}

fn strong_two_char_chars(name: &Vec<char>, st: &Stat, standalone: u32) -> (r: bool)
    ensures
        r == strong_two_char_spec(name@, st@, standalone as int),
{
    name.len() == 2 && in_set(SURNAMES, name[0]) && standalone >= OBJECT_FLOOR && (st.boundary as u64)
        * 3 >= standalone as u64 && (st.boundary_r as u64) * 10 >= standalone as u64 && (st.object
        as u64) * 20 >= standalone as u64
}

/// A candidate table as plain values: names and statistics, aligned.
pub open spec fn stat_views(ss: Seq<Stat>) -> Seq<StatV> {
    ss.map_values(|s: Stat| s@)
}

pub open spec fn name_views(ns: Seq<Vec<char>>) -> Seq<Seq<char>> {
    ns.map_values(|n: Vec<char>| n@)
}

pub open spec fn frequent(ss: Seq<StatV>, i: int) -> bool {
    ss[i].0 >= MIN_MENTIONS
}

/// Candidate `j` claims the ink of candidate `i`: it extends `i` at either
/// end, is shaped like a full name, and is itself an island.
pub open spec fn claims(ns: Seq<Seq<char>>, ss: Seq<StatV>, j: int, i: int) -> bool {
    &&& j != i
    &&& frequent(ss, j)
    &&& (suffix(ns[j], ns[i]) || prefix(ns[j], ns[i]))
    &&& full_name_shaped_spec(ns[j])
    &&& island(ss[j].4, ss[j].0)
}

/// The largest count among the first `n` candidates that claim `i`.
pub open spec fn overlap_upto(ns: Seq<Seq<char>>, ss: Seq<StatV>, i: int, n: int) -> int
    decreases n,
{
    if n <= 0 {
        0
    } else {
        let m = overlap_upto(ns, ss, i, n - 1);
        if claims(ns, ss, n - 1, i) && ss[n - 1].0 > m {
            ss[n - 1].0
        } else {
            m
        }
    }
}

/// The occurrences of `i` that are not some longer name's.
pub open spec fn standalone(ns: Seq<Seq<char>>, ss: Seq<StatV>, i: int) -> int {
    let over = overlap_upto(ns, ss, i, ns.len() as int);
    if ss[i].0 >= over {
        ss[i].0 - over
    } else {
        0
    }
}

/// The person tests: frequent, met in varied company on both sides, an
/// island (or a strong two-character name), and acted upon when frequent
/// enough to judge.
pub open spec fn passes(ns: Seq<Seq<char>>, ss: Seq<StatV>, i: int) -> bool {
    let st = ss[i];
    let sa = standalone(ns, ss, i);
    let need = if st.0 >= 15 { 3int } else { 2int };
    &&& frequent(ss, i)
    &&& st.1.len() >= need
    &&& st.2.len() >= need
    &&& (island(st.4, sa) || strong_two_char_spec(ns[i], st, sa))
    &&& (sa < OBJECT_FLOOR || (st.6 * 50 >= sa && st.5 * 33 >= sa))
}

/// Passes the tests and is not an adverb stuck to a far more frequent
/// name (吕树笑 out of 吕树笑道).
pub open spec fn alive(ns: Seq<Seq<char>>, ss: Seq<StatV>, b: int) -> bool {
    &&& passes(ns, ss, b)
    &&& !exists|a: int|
        #![trigger passes(ns, ss, a)]
        0 <= a < ns.len() && a != b && passes(ns, ss, a) && occurs(ns[b], ns[a]) && ss[b].0 < ss[a].0 / 8
}

pub open spec fn table(ns: Seq<Seq<char>>, ss: Seq<StatV>) -> bool {
    ns.len() == ss.len()
}

fn overlap_of(ns: &Vec<Vec<char>>, ss: &Vec<Stat>, i: usize) -> (r: u32)
    requires
        ns@.len() == ss@.len(),
        i < ns@.len(),
    ensures
        r == overlap_upto(name_views(ns@), stat_views(ss@), i as int, ns@.len() as int),
{
    let ghost nv = name_views(ns@);
    let ghost sv = stat_views(ss@);
    let mut m: u32 = 0;
    let mut j: usize = 0;
    while j < ns.len()
        invariant
            ns@.len() == ss@.len(),
            nv == name_views(ns@),
            sv == stat_views(ss@),
            i < ns@.len(),
            j <= ns@.len(),
            m == overlap_upto(nv, sv, i as int, j as int),
        decreases ns.len() - j,
    {
        let w = &ns[j];
        let st = &ss[j];
        assert(nv[j as int] == w@ && sv[j as int] == st@);
        assert(nv[i as int] == ns@[i as int]@);
        let cl = j != i && st.count >= MIN_MENTIONS && (ends_with(w.as_slice(), ns[i].as_slice())
            || starts_with(w.as_slice(), ns[i].as_slice())) && full_name_shaped(w.as_slice())
            && (st.boundary as u64) * 5 >= (st.count as u64) * 2;
        if cl && st.count > m {
            m = st.count;
        }
        j += 1;
    }
    m
}

fn passes_exec(ns: &Vec<Vec<char>>, ss: &Vec<Stat>, i: usize) -> (r: bool)
    requires
        ns@.len() == ss@.len(),
        i < ns@.len(),
    ensures
        r == passes(name_views(ns@), stat_views(ss@), i as int),
{
    let ghost nv = name_views(ns@);
    let ghost sv = stat_views(ss@);
    let st = &ss[i];
    assert(sv[i as int] == st@ && nv[i as int] == ns@[i as int]@);
    let over = overlap_of(ns, ss, i);
    let sa: u32 = if st.count >= over { st.count - over } else { 0 };
    let need: usize = if st.count >= 15 { 3 } else { 2 };
    let ok = (st.boundary as u64) * 5 >= (sa as u64) * 2 || strong_two_char_chars(&ns[i], st, sa);
    let acted = sa < OBJECT_FLOOR || ((st.object as u64) * 50 >= sa as u64 && (st.boundary_r as u64)
        * 33 >= sa as u64);
    st.count >= MIN_MENTIONS && st.left.len() >= need && st.right.len() >= need && ok && acted
}

/// Which candidates are alive.
pub fn alive_flags(ns: &Vec<Vec<char>>, ss: &Vec<Stat>) -> (r: Vec<bool>)
    requires
        ns@.len() == ss@.len(),
    ensures
        r@.len() == ns@.len(),
        forall|b: int| 0 <= b < r@.len() ==> r@[b] == alive(name_views(ns@), stat_views(ss@), b),
{
    let ghost nv = name_views(ns@);
    let ghost sv = stat_views(ss@);
    let n = ns.len();
    let mut pass: Vec<bool> = Vec::new();
    let mut i: usize = 0;
    while i < n
        invariant
            n == ns@.len(),
            ns@.len() == ss@.len(),
            nv == name_views(ns@),
            sv == stat_views(ss@),
            i <= n,
            pass@.len() == i,
            forall|a: int| 0 <= a < i ==> pass@[a] == passes(nv, sv, a),
        decreases n - i,
    {
        pass.push(passes_exec(ns, ss, i));
        i += 1;
    }
    let mut out: Vec<bool> = Vec::new();
    let mut b: usize = 0;
    while b < n
        invariant
            n == ns@.len(),
            ns@.len() == ss@.len(),
            nv == name_views(ns@),
            sv == stat_views(ss@),
            pass@.len() == n,
            forall|a: int| 0 <= a < n ==> pass@[a] == passes(nv, sv, a),
            b <= n,
            out@.len() == b,
            forall|c: int| 0 <= c < b ==> out@[c] == alive(nv, sv, c),
        decreases n - b,
    {
        let mut stuck = false;
        if pass[b] {
            let mut a: usize = 0;
            while a < n
                invariant
                    n == ns@.len(),
                    ns@.len() == ss@.len(),
                    nv == name_views(ns@),
                    sv == stat_views(ss@),
                    pass@.len() == n,
                    forall|x: int| 0 <= x < n ==> pass@[x] == passes(nv, sv, x),
                    b < n,
                    a <= n,
                    stuck == exists|x: int|
                        #![trigger passes(nv, sv, x)]
                        0 <= x < a && x != b && passes(nv, sv, x) && occurs(nv[b as int], nv[x])
                            && sv[b as int].0 < sv[x].0 / 8,
                decreases n - a,
            {
                assert(nv[a as int] == ns@[a as int]@ && sv[a as int] == ss@[a as int]@);
                assert(nv[b as int] == ns@[b as int]@ && sv[b as int] == ss@[b as int]@);
                if a != b && pass[a] && contains(ns[b].as_slice(), ns[a].as_slice()) && ss[b].count
                    < ss[a].count / 8 {
                    stuck = true;
                }
                a += 1;
            }
        }
        out.push(pass[b] && !stuck);
        b += 1;
    }
    out
}

pub open spec fn bit(b: bool) -> int {
    if b {
        1
    } else {
        0
    }
}

/// An alive full name that ends with the given name `g` (苏如雪 for 如雪).
pub open spec fn full_host(ns: Seq<Seq<char>>, ss: Seq<StatV>, g: int, f: int) -> bool {
    alive(ns, ss, f) && suffix(ns[f], ns[g]) && full_name_shaped_spec(ns[f])
}

/// An alive longer name that opens with `g` (许不令 for 许不).
pub open spec fn prefix_host(ns: Seq<Seq<char>>, ss: Seq<StatV>, g: int, f: int) -> bool {
    alive(ns, ss, f) && f != g && prefix(ns[f], ns[g])
}

/// Among the first `n` candidates: how many satisfy `which` (0 full host,
/// 1 prefix host) for `g`, the first that does (or -1), and the sum of their
/// counts.
pub open spec fn hosts(ns: Seq<Seq<char>>, ss: Seq<StatV>, g: int, which: int, n: int) -> (int, int, int)
    decreases n,
{
    if n <= 0 {
        (0, -1, 0)
    } else {
        let h = hosts(ns, ss, g, which, n - 1);
        let f = n - 1;
        let hit = if which == 0 {
            full_host(ns, ss, g, f)
        } else {
            prefix_host(ns, ss, g, f)
        };
        if hit {
            (h.0 + 1, if h.1 < 0 { f } else { h.1 }, h.2 + ss[f].0)
        } else {
            h
        }
    }
}

/// What the given-name fold does with candidate `g`: whether it is taken
/// out of the cast, and the full name it joins, if any.
pub open spec fn fold_of(ns: Seq<Seq<char>>, ss: Seq<StatV>, g: int) -> (bool, Option<int>) {
    let n = ns.len() as int;
    let full = hosts(ns, ss, g, 0, n);
    let pre = hosts(ns, ss, g, 1, n);
    if !(alive(ns, ss, g) && ns[g].len() == 2) {
        (false, None)
    } else if full.0 == 1 {
        (true, Some(full.1))
    } else if pre.2 * 4 >= ss[g].0 * 3 {
        (true, if pre.0 == 1 { Some(pre.1) } else { None })
    } else {
        (false, None)
    }
}

fn hosts_exec(ns: &Vec<Vec<char>>, ss: &Vec<Stat>, live: &Vec<bool>, g: usize, which: u8) -> (r: (usize, usize, u128))
    requires
        ns@.len() == ss@.len(),
        live@.len() == ns@.len(),
        forall|b: int| 0 <= b < live@.len() ==> live@[b] == alive(name_views(ns@), stat_views(ss@), b),
        g < ns@.len(),
    ensures
        ({
            let h = hosts(name_views(ns@), stat_views(ss@), g as int, which as int, ns@.len() as int);
            &&& r.0 == h.0
            &&& (h.1 >= 0 ==> r.1 == h.1)
            &&& (h.0 == 0) == (h.1 < 0)
            &&& r.2 == h.2
            &&& r.2 <= ns@.len() * 0xffff_ffff
        }),
{
    let ghost nv = name_views(ns@);
    let ghost sv = stat_views(ss@);
    let mut cnt: usize = 0;
    let mut first: usize = 0;
    let mut sum: u128 = 0;
    let mut f: usize = 0;
    while f < ns.len()
        invariant
            ns@.len() == ss@.len(),
            nv == name_views(ns@),
            sv == stat_views(ss@),
            live@.len() == ns@.len(),
            forall|b: int| 0 <= b < live@.len() ==> live@[b] == alive(nv, sv, b),
            g < ns@.len(),
            f <= ns@.len(),
            ({
                let h = hosts(nv, sv, g as int, which as int, f as int);
                &&& cnt == h.0
                &&& (h.1 >= 0 ==> first == h.1)
                &&& (h.0 == 0) == (h.1 < 0)
                &&& sum == h.2
                &&& h.0 <= f
                &&& h.2 <= f * 0xffff_ffff
            }),
        decreases ns.len() - f,
    {
        assert(nv[f as int] == ns@[f as int]@ && sv[f as int] == ss@[f as int]@);
        assert(nv[g as int] == ns@[g as int]@);
        let hit = if which == 0 {
            live[f] && ends_with(ns[f].as_slice(), ns[g].as_slice()) && full_name_shaped(ns[f].as_slice())
        } else {
            live[f] && f != g && starts_with(ns[f].as_slice(), ns[g].as_slice())
        };
        if hit {
            if cnt == 0 {
                first = f;
            }
            cnt += 1;
            sum = sum + ss[f].count as u128;
        }
        f += 1;
    }
    (cnt, first, sum)
}

fn fold_exec(ns: &Vec<Vec<char>>, ss: &Vec<Stat>, live: &Vec<bool>, g: usize) -> (r: (bool, Option<usize>))
    requires
        ns@.len() == ss@.len(),
        live@.len() == ns@.len(),
        forall|b: int| 0 <= b < live@.len() ==> live@[b] == alive(name_views(ns@), stat_views(ss@), b),
        g < ns@.len(),
    ensures
        r.0 == fold_of(name_views(ns@), stat_views(ss@), g as int).0,
        r.1 matches Some(f) ==> fold_of(name_views(ns@), stat_views(ss@), g as int).1 == Some(f as int),
        r.1 is None ==> fold_of(name_views(ns@), stat_views(ss@), g as int).1 is None,
{
    let ghost nv = name_views(ns@);
    let ghost sv = stat_views(ss@);
    assert(nv[g as int] == ns@[g as int]@ && sv[g as int] == ss@[g as int]@);
    if !(live[g] && ns[g].len() == 2) {
        return (false, None);
    }
    let full = hosts_exec(ns, ss, live, g, 0);
    if full.0 == 1 {
        return (true, Some(full.1));
    }
    let pre = hosts_exec(ns, ss, live, g, 1);
    let nn = ns.len();
    assert(nn == ns@.len());
    assert(usize::MAX <= 0xffff_ffff_ffff_ffff);
    assert(pre.2 * 4 <= 0xffff_ffff_ffff_ffff * 0xffff_ffff * 4) by (nonlinear_arith)
        requires
            pre.2 <= ns@.len() * 0xffff_ffff,
            ns@.len() <= 0xffff_ffff_ffff_ffff,
    ;
    if pre.2 * 4 >= (ss[g].count as u128) * 3 {
        if pre.0 == 1 {
            (true, Some(pre.1))
        } else {
            (true, None)
        }
    } else {
        (false, None)
    }
}

/// The surname left of the first courtesy title that ends `name`
/// (齐 of 齐先生).
pub open spec fn title_stem_from(name: Seq<char>, k: int) -> Option<Seq<char>>
    decreases titles().len() - k,
{
    if k < 0 || k >= titles().len() {
        None
    } else if suffix(name, titles()[k]@) {
        Some(name.take(name.len() - titles()[k]@.len()))
    } else {
        title_stem_from(name, k + 1)
    }
}

/// A name this courtesy form could be: alive, not yet taken, extending the
/// surname, and not itself another courtesy form.
pub open spec fn title_host(ns: Seq<Seq<char>>, ss: Seq<StatV>, taken: Seq<bool>, sur: Seq<char>, f: int) -> bool {
    &&& alive(ns, ss, f)
    &&& !taken[f]
    &&& prefix(ns[f], sur)
    &&& ns[f].len() > sur.len()
    &&& !closes_with_any(ns[f], titles())
}

/// Among the first `n` candidates: how many could host `sur`, and the first.
pub open spec fn title_hosts(ns: Seq<Seq<char>>, ss: Seq<StatV>, taken: Seq<bool>, sur: Seq<char>, n: int) -> (int, int)
    decreases n,
{
    if n <= 0 {
        (0, -1)
    } else {
        let h = title_hosts(ns, ss, taken, sur, n - 1);
        if title_host(ns, ss, taken, sur, n - 1) {
            (h.0 + 1, if h.1 < 0 { n - 1 } else { h.1 })
        } else {
            h
        }
    }
}

/// The one full name a courtesy form `t` names, when exactly one could.
pub open spec fn host_of(ns: Seq<Seq<char>>, ss: Seq<StatV>, taken: Seq<bool>, t: int) -> Option<int> {
    match title_stem_from(ns[t], 0) {
        None => None,
        Some(sur) => {
            let h = title_hosts(ns, ss, taken, sur, ns.len() as int);
            if sur.len() == 0 || h.0 != 1 {
                None
            } else {
                Some(h.1)
            }
        },
    }
}

/// Which candidates are taken out of the cast after the courtesy forms
/// among the first `k` have been folded, in candidate order.
pub open spec fn taken_upto(ns: Seq<Seq<char>>, ss: Seq<StatV>, k: int) -> Seq<bool>
    decreases k,
{
    if k <= 0 {
        Seq::new(ns.len(), |i: int| fold_of(ns, ss, i).0)
    } else {
        let tk = taken_upto(ns, ss, k - 1);
        let t = k - 1;
        if alive(ns, ss, t) && !tk[t] && host_of(ns, ss, tk, t) is Some {
            tk.update(t, true)
        } else {
            tk
        }
    }
}

/// The full name the courtesy form `t` folds into, if any.
pub open spec fn title_of(ns: Seq<Seq<char>>, ss: Seq<StatV>, t: int) -> Option<int> {
    let tk = taken_upto(ns, ss, t);
    if alive(ns, ss, t) && !tk[t] {
        host_of(ns, ss, tk, t)
    } else {
        None
    }
}

proof fn lemma_taken_len(ns: Seq<Seq<char>>, ss: Seq<StatV>, k: int)
    requires
        k <= ns.len(),
    ensures
        taken_upto(ns, ss, k).len() == ns.len(),
    decreases k,
{
    if k > 0 {
        lemma_taken_len(ns, ss, k - 1);
        let tk = taken_upto(ns, ss, k - 1);
        assert(tk.update(k - 1, true).len() == tk.len());
    } else {
        assert(Seq::new(ns.len(), |i: int| fold_of(ns, ss, i).0).len() == ns.len());
    }
}

fn stem_exec(name: &Vec<char>, tl: &Vec<Vec<char>>) -> (r: Option<Vec<char>>)
    requires
        tl@.len() == titles().len(),
        forall|k: int| 0 <= k < tl@.len() ==> #[trigger] tl@[k]@ == titles()[k]@,
    ensures
        r matches Some(v) ==> title_stem_from(name@, 0) == Some(v@),
        r is None ==> title_stem_from(name@, 0) is None,
{
    let mut k: usize = 0;
    while k < tl.len()
        invariant
            tl@.len() == titles().len(),
            forall|j: int| 0 <= j < tl@.len() ==> #[trigger] tl@[j]@ == titles()[j]@,
            k <= tl@.len(),
            title_stem_from(name@, 0) == title_stem_from(name@, k as int),
        decreases tl.len() - k,
    {
        if ends_with(name.as_slice(), tl[k].as_slice()) {
            let v = slice_vec(name.as_slice(), 0, name.len() - tl[k].len());
            assert(v@ =~= name@.take(name@.len() - titles()[k as int]@.len()));
            return Some(v);
        }
        k += 1;
    }
    None
}

fn host_exec(ns: &Vec<Vec<char>>, ss: &Vec<Stat>, live: &Vec<bool>, taken: &Vec<bool>, t: usize, tl: &Vec<Vec<char>>, tw: &Vec<&'static str>) -> (r: Option<usize>)
    requires
        ns@.len() == ss@.len(),
        live@.len() == ns@.len(),
        taken@.len() == ns@.len(),
        forall|b: int| 0 <= b < live@.len() ==> live@[b] == alive(name_views(ns@), stat_views(ss@), b),
        t < ns@.len(),
        tl@.len() == titles().len(),
        forall|k: int| 0 <= k < tl@.len() ==> #[trigger] tl@[k]@ == titles()[k]@,
        tw@ == titles(),
    ensures
        r matches Some(f) ==> host_of(name_views(ns@), stat_views(ss@), taken@, t as int) == Some(f as int),
        r is None ==> host_of(name_views(ns@), stat_views(ss@), taken@, t as int) is None,
{
    let ghost nv = name_views(ns@);
    let ghost sv = stat_views(ss@);
    assert(nv[t as int] == ns@[t as int]@);
    let sur = match stem_exec(&ns[t], tl) {
        None => {
            return None;
        },
        Some(v) => v,
    };
    if sur.len() == 0 {
        return None;
    }
    let mut cnt: usize = 0;
    let mut first: usize = 0;
    let mut f: usize = 0;
    while f < ns.len()
        invariant
            ns@.len() == ss@.len(),
            nv == name_views(ns@),
            sv == stat_views(ss@),
            live@.len() == ns@.len(),
            taken@.len() == ns@.len(),
            forall|b: int| 0 <= b < live@.len() ==> live@[b] == alive(nv, sv, b),
            tw@ == titles(),
            f <= ns@.len(),
            ({
                let h = title_hosts(nv, sv, taken@, sur@, f as int);
                &&& cnt == h.0
                &&& (h.1 >= 0 ==> first == h.1)
                &&& (h.0 == 0) == (h.1 < 0)
                &&& h.0 <= f
            }),
        decreases ns.len() - f,
    {
        assert(nv[f as int] == ns@[f as int]@);
        if live[f] && !taken[f] && starts_with(ns[f].as_slice(), sur.as_slice()) && ns[f].len() > sur.len()
            && !closes_with_any_exec(ns[f].as_slice(), tw) {
            if cnt == 0 {
                first = f;
            }
            cnt += 1;
        }
        f += 1;
    }
    if cnt == 1 {
        Some(first)
    } else {
        None
    }
}

/// The folds: which candidates are taken out, the full name each given
/// name joins, and the full name each courtesy form joins.
fn folds(ns: &Vec<Vec<char>>, ss: &Vec<Stat>, live: &Vec<bool>) -> (r: (Vec<bool>, Vec<Option<usize>>, Vec<Option<usize>>))
    requires
        ns@.len() == ss@.len(),
        live@.len() == ns@.len(),
        forall|b: int| 0 <= b < live@.len() ==> live@[b] == alive(name_views(ns@), stat_views(ss@), b),
    ensures
        r.0@ == taken_upto(name_views(ns@), stat_views(ss@), ns@.len() as int),
        r.1@.len() == ns@.len(),
        r.2@.len() == ns@.len(),
        forall|g: int| 0 <= g < ns@.len() ==> (match #[trigger] r.1@[g] {
            Some(f) => fold_of(name_views(ns@), stat_views(ss@), g).1 == Some(f as int),
            None => fold_of(name_views(ns@), stat_views(ss@), g).1 is None,
        }),
        forall|t: int| 0 <= t < ns@.len() ==> (match #[trigger] r.2@[t] {
            Some(f) => title_of(name_views(ns@), stat_views(ss@), t) == Some(f as int),
            None => title_of(name_views(ns@), stat_views(ss@), t) is None,
        }),
{
    let ghost nv = name_views(ns@);
    let ghost sv = stat_views(ss@);
    let n = ns.len();
    let mut taken: Vec<bool> = Vec::new();
    let mut target: Vec<Option<usize>> = Vec::new();
    let mut g: usize = 0;
    while g < n
        invariant
            n == ns@.len(),
            ns@.len() == ss@.len(),
            nv == name_views(ns@),
            sv == stat_views(ss@),
            live@.len() == ns@.len(),
            forall|b: int| 0 <= b < live@.len() ==> live@[b] == alive(nv, sv, b),
            g <= n,
            taken@.len() == g,
            target@.len() == g,
            forall|x: int| 0 <= x < g ==> #[trigger] taken@[x] == fold_of(nv, sv, x).0,
            forall|x: int| 0 <= x < g ==> (match #[trigger] target@[x] {
                Some(f) => fold_of(nv, sv, x).1 == Some(f as int),
                None => fold_of(nv, sv, x).1 is None,
            }),
        decreases n - g,
    {
        let (tk, tg) = fold_exec(ns, ss, live, g);
        taken.push(tk);
        target.push(tg);
        g += 1;
    }
    assert(taken@ =~= taken_upto(nv, sv, 0));
    let tw = titles_exec();
    let mut tl: Vec<Vec<char>> = Vec::new();
    let mut k: usize = 0;
    while k < tw.len()
        invariant
            tw@ == titles(),
            k <= tw@.len(),
            tl@.len() == k,
            forall|j: int| 0 <= j < k ==> #[trigger] tl@[j]@ == titles()[j]@,
        decreases tw.len() - k,
    {
        tl.push(to_chars(tw[k]));
        k += 1;
    }
    let mut titled: Vec<Option<usize>> = Vec::new();
    let mut t: usize = 0;
    while t < n
        invariant
            n == ns@.len(),
            ns@.len() == ss@.len(),
            nv == name_views(ns@),
            sv == stat_views(ss@),
            live@.len() == ns@.len(),
            forall|b: int| 0 <= b < live@.len() ==> live@[b] == alive(nv, sv, b),
            tw@ == titles(),
            tl@.len() == titles().len(),
            forall|j: int| 0 <= j < tl@.len() ==> #[trigger] tl@[j]@ == titles()[j]@,
            t <= n,
            taken@ == taken_upto(nv, sv, t as int),
            titled@.len() == t,
            forall|x: int| 0 <= x < t ==> (match #[trigger] titled@[x] {
                Some(f) => title_of(nv, sv, x) == Some(f as int),
                None => title_of(nv, sv, x) is None,
            }),
        decreases n - t,
    {
        proof {
            lemma_taken_len(nv, sv, t as int);
        }
        let mut hit: Option<usize> = None;
        if live[t] && !taken[t] {
            hit = host_exec(ns, ss, live, &taken, t, &tl, &tw);
        }
        match hit {
            Some(f) => {
                taken.set(t, true);
            },
            None => {},
        }
        titled.push(hit);
        t += 1;
    }
    (taken, target, titled)
}

/// A cast member before the graph is built: the name, its key, the shorter
/// forms folded into it, and its mentions.
pub struct Member {
    pub name: Vec<char>,
    pub key: u128,
    pub aliases: Vec<Vec<char>>,
    pub mentions: u32,
}

/// A member as plain values: name, key, aliases, mentions.
pub type MemberV = (Seq<char>, int, Seq<Seq<char>>, int);

impl View for Member {
    type V = MemberV;

    open spec fn view(&self) -> MemberV {
        (self.name@, self.key as int, name_views(self.aliases@), self.mentions as int)
    }
}

pub open spec fn member_views(ms: Seq<Member>) -> Seq<MemberV> {
    ms.map_values(|m: Member| m@)
}

/// The given names folded into `f` among the first `n` candidates, in
/// candidate order, and the mentions they add (only their standalone ink).
pub open spec fn given_into(ns: Seq<Seq<char>>, ss: Seq<StatV>, f: int, n: int) -> (Seq<Seq<char>>, int)
    decreases n,
{
    if n <= 0 {
        (Seq::empty(), 0)
    } else {
        let h = given_into(ns, ss, f, n - 1);
        let g = n - 1;
        if fold_of(ns, ss, g).1 == Some(f) {
            (h.0.push(ns[g]), h.1 + (if ss[g].0 > ss[f].0 { ss[g].0 - ss[f].0 } else { 0 }))
        } else {
            h
        }
    }
}

/// The courtesy forms folded into `f` among the first `n` candidates, in
/// candidate order, and the mentions they add (all of theirs).
pub open spec fn titled_into(ns: Seq<Seq<char>>, ss: Seq<StatV>, f: int, n: int) -> (Seq<Seq<char>>, int)
    decreases n,
{
    if n <= 0 {
        (Seq::empty(), 0)
    } else {
        let h = titled_into(ns, ss, f, n - 1);
        let t = n - 1;
        if title_of(ns, ss, t) == Some(f) {
            (h.0.push(ns[t]), h.1 + ss[t].0)
        } else {
            h
        }
    }
}

/// Candidate `f` stands in the cast: alive and folded into no one.
pub open spec fn in_cast(ns: Seq<Seq<char>>, ss: Seq<StatV>, f: int) -> bool {
    alive(ns, ss, f) && !taken_upto(ns, ss, ns.len() as int)[f]
}

/// The member candidate `f` makes (mentions saturate at `u32::MAX`).
pub open spec fn member_of(ns: Seq<Seq<char>>, ss: Seq<StatV>, keys: Seq<u128>, f: int) -> MemberV {
    let n = ns.len() as int;
    let gi = given_into(ns, ss, f, n);
    let ti = titled_into(ns, ss, f, n);
    let total = ss[f].0 + gi.1 + ti.1;
    (ns[f], keys[f] as int, gi.0 + ti.0, if total > 0xffff_ffff { 0xffff_ffff } else { total })
}

/// The members among the first `n` candidates, in candidate order.
pub open spec fn raw_members(ns: Seq<Seq<char>>, ss: Seq<StatV>, keys: Seq<u128>, n: int) -> Seq<MemberV>
    decreases n,
{
    if n <= 0 {
        Seq::empty()
    } else {
        let r = raw_members(ns, ss, keys, n - 1);
        if in_cast(ns, ss, n - 1) {
            r.push(member_of(ns, ss, keys, n - 1))
        } else {
            r
        }
    }
}

/// More mentions first; on a tie, the smaller key (the name that sorts first).
pub open spec fn ranks_before(x: MemberV, y: MemberV) -> bool {
    x.3 > y.3 || (x.3 == y.3 && x.1 < y.1)
}

fn copy_chars(v: &Vec<char>) -> (r: Vec<char>)
    ensures
        r@ == v@,
{
    let r = slice_vec(v.as_slice(), 0, v.len());
    assert(r@ =~= v@);
    r
}

fn member_exec(ns: &Vec<Vec<char>>, ss: &Vec<Stat>, keys: &Vec<u128>, target: &Vec<Option<usize>>, titled: &Vec<Option<usize>>, f: usize) -> (m: Member)
    requires
        ns@.len() == ss@.len(),
        keys@.len() == ns@.len(),
        target@.len() == ns@.len(),
        titled@.len() == ns@.len(),
        f < ns@.len(),
        forall|g: int| 0 <= g < ns@.len() ==> (match #[trigger] target@[g] {
            Some(h) => fold_of(name_views(ns@), stat_views(ss@), g).1 == Some(h as int),
            None => fold_of(name_views(ns@), stat_views(ss@), g).1 is None,
        }),
        forall|t: int| 0 <= t < ns@.len() ==> (match #[trigger] titled@[t] {
            Some(h) => title_of(name_views(ns@), stat_views(ss@), t) == Some(h as int),
            None => title_of(name_views(ns@), stat_views(ss@), t) is None,
        }),
    ensures
        m@ == member_of(name_views(ns@), stat_views(ss@), keys@, f as int),
{
    let ghost nv = name_views(ns@);
    let ghost sv = stat_views(ss@);
    let n = ns.len();
    let base = ss[f].count;
    assert(sv[f as int].0 == base);
    let mut aliases: Vec<Vec<char>> = Vec::new();
    let mut gain: u128 = 0;
    let mut g: usize = 0;
    while g < n
        invariant
            n == ns@.len(),
            ns@.len() == ss@.len(),
            nv == name_views(ns@),
            sv == stat_views(ss@),
            target@.len() == n,
            f < n,
            base == sv[f as int].0,
            forall|x: int| 0 <= x < n ==> (match #[trigger] target@[x] {
                Some(h) => fold_of(nv, sv, x).1 == Some(h as int),
                None => fold_of(nv, sv, x).1 is None,
            }),
            g <= n,
            name_views(aliases@) == given_into(nv, sv, f as int, g as int).0,
            gain == given_into(nv, sv, f as int, g as int).1,
            gain <= g * 0xffff_ffff,
        decreases n - g,
    {
        let hit = match target[g] {
            Some(h) => h == f,
            None => false,
        };
        if hit {
            let c = ss[g].count;
            assert(sv[g as int].0 == c && nv[g as int] == ns@[g as int]@);
            let ghost pre = aliases@;
            aliases.push(copy_chars(&ns[g]));
            assert(name_views(aliases@) =~= name_views(pre).push(nv[g as int]));
            if c > base {
                gain = gain + (c - base) as u128;
            }
        }
        g += 1;
    }
    let ghost given = given_into(nv, sv, f as int, n as int);
    let ghost mid = aliases@;
    let mut t: usize = 0;
    let mut tgain: u128 = 0;
    while t < n
        invariant
            n == ns@.len(),
            ns@.len() == ss@.len(),
            nv == name_views(ns@),
            sv == stat_views(ss@),
            titled@.len() == n,
            f < n,
            forall|x: int| 0 <= x < n ==> (match #[trigger] titled@[x] {
                Some(h) => title_of(nv, sv, x) == Some(h as int),
                None => title_of(nv, sv, x) is None,
            }),
            t <= n,
            name_views(mid) == given.0,
            name_views(aliases@) == given.0 + titled_into(nv, sv, f as int, t as int).0,
            tgain == titled_into(nv, sv, f as int, t as int).1,
            tgain <= t * 0xffff_ffff,
        decreases n - t,
    {
        let hit = match titled[t] {
            Some(h) => h == f,
            None => false,
        };
        if hit {
            assert(sv[t as int].0 == ss@[t as int].count && nv[t as int] == ns@[t as int]@);
            let ghost pre = aliases@;
            aliases.push(copy_chars(&ns[t]));
            assert(name_views(aliases@) =~= name_views(pre).push(nv[t as int]));
            tgain = tgain + ss[t].count as u128;
        }
        t += 1;
    }
    assert(n <= usize::MAX);
    assert(gain + tgain + base <= 0xffff_ffff_ffff_ffff * 0xffff_ffff * 3) by (nonlinear_arith)
        requires
            gain <= n * 0xffff_ffff,
            tgain <= n * 0xffff_ffff,
            base <= 0xffff_ffff,
            n <= 0xffff_ffff_ffff_ffff,
    ;
    let total: u128 = base as u128 + gain + tgain;
    let mentions: u32 = if total > 0xffff_ffff { 0xffff_ffff } else { total as u32 };
    assert(nv[f as int] == ns@[f as int]@);
    Member { name: copy_chars(&ns[f]), key: keys[f], aliases, mentions }
}

/// The members whose mentions make them the cast, at most `MAX_CAST`,
/// ranked (see [`ranks_before`]).
pub open spec fn top_members(raw: Seq<MemberV>, r: Seq<MemberV>) -> bool {
    &&& r.len() == (if raw.len() < MAX_CAST { raw.len() as int } else { MAX_CAST as int })
    &&& forall|k: int| 0 <= k < r.len() ==> raw.contains(#[trigger] r[k])
    &&& forall|a: int, b: int| 0 <= a < b < r.len() ==> r[a].1 != r[b].1 && !ranks_before(r[b], r[a])
    &&& forall|u: int|
        0 <= u < raw.len() && (forall|k: int| 0 <= k < r.len() ==> r[k].1 != (#[trigger] raw[u]).1)
            ==> forall|k: int| 0 <= k < r.len() ==> !ranks_before(raw[u], #[trigger] r[k])
}

fn ranks_before_exec(x: &Member, y: &Member) -> (r: bool)
    ensures
        r == ranks_before(x@, y@),
{
    x.mentions > y.mentions || (x.mentions == y.mentions && x.key < y.key)
}

/// Keep the `MAX_CAST` best-ranked of `raw`, best first.
fn rank(raw: Vec<Member>) -> (r: Vec<Member>)
    requires
        forall|a: int, b: int| 0 <= a < b < raw@.len() ==> raw@[a].key != raw@[b].key,
    ensures
        top_members(member_views(raw@), member_views(r@)),
{
    let ghost rv = member_views(raw@);
    let n = raw.len();
    let mut used: Vec<bool> = Vec::new();
    let mut u: usize = 0;
    while u < n
        invariant
            u <= n,
            used@.len() == u,
            forall|x: int| 0 <= x < u ==> !used@[x],
        decreases n - u,
    {
        used.push(false);
        u += 1;
    }
    let want = if n < MAX_CAST { n } else { MAX_CAST };
    let mut picked: Vec<usize> = Vec::new();
    let mut out: Vec<Member> = Vec::new();
    while out.len() < want
        invariant
            n == raw@.len(),
            rv == member_views(raw@),
            forall|a: int, b: int| 0 <= a < b < n ==> raw@[a].key != raw@[b].key,
            want <= n,
            used@.len() == n,
            out@.len() == picked@.len(),
            out@.len() <= want,
            forall|k: int| 0 <= k < picked@.len() ==> #[trigger] picked@[k] < n && used@[picked@[k] as int]
                && out@[k]@ == rv[picked@[k] as int],
            forall|x: int| 0 <= x < n && used@[x] ==> exists|k: int| 0 <= k < picked@.len() && #[trigger] picked@[k] == x,
            forall|a: int, b: int| 0 <= a < b < picked@.len() ==> picked@[a] != picked@[b],
            forall|a: int, b: int| 0 <= a < b < out@.len() ==> !ranks_before(out@[b]@, out@[a]@),
            forall|x: int, k: int| #![trigger used@[x], out@[k]] 0 <= x < n && !used@[x] && 0 <= k < out@.len() ==> !ranks_before(rv[x], out@[k]@),
        decreases want - out.len(),
    {
        let ghost used0 = used@;
        let ghost picked0 = picked@;
        assert(forall|y: int| 0 <= y < n && used0[y] ==> exists|k: int| 0 <= k < picked0.len() && #[trigger] picked0[k] == y);
        // some unused member remains, since fewer than `want <= n` are used
        assert(exists|x: int| 0 <= x < n && !used@[x]) by {
            if forall|x: int| 0 <= x < n ==> used@[x] {
                let ps = picked@.map_values(|x: usize| x as int);
                assert(ps.no_duplicates()) by {
                    assert forall|a: int, b: int| 0 <= a < ps.len() && 0 <= b < ps.len() && a != b implies ps[a] != ps[b] by {
                        if a < b {
                            assert(picked@[a] != picked@[b]);
                        } else {
                            assert(picked@[b] != picked@[a]);
                        }
                    }
                }
                ps.unique_seq_to_set();
                vstd::set_lib::lemma_int_range(0, n as int);
                assert forall|x: int| #[trigger] vstd::set_lib::set_int_range(0, n as int).contains(x) implies ps.to_set().contains(x) by {
                    assert(0 <= x < n);
                    assert(used@[x]);
                    let k = choose|k: int| 0 <= k < picked@.len() && #[trigger] picked@[k] == x;
                    assert(ps[k] == x);
                }
                vstd::set_lib::lemma_len_subset(vstd::set_lib::set_int_range(0, n as int), ps.to_set());
            }
        }
        let mut best: usize = n;
        let mut x: usize = 0;
        while x < n
            invariant
                n == raw@.len(),
                rv == member_views(raw@),
                used@.len() == n,
                x <= n,
                best == n || (best < x && !used@[best as int]),
                best == n ==> forall|y: int| 0 <= y < x ==> used@[y],
                best < n ==> forall|y: int| 0 <= y < x && !used@[y] ==> !ranks_before(rv[y], rv[best as int]),
            decreases n - x,
        {
            if !used[x] {
                if best == n || ranks_before_exec(&raw[x], &raw[best]) {
                    best = x;
                }
            }
            x += 1;
        }
        let b = best;
        assert(b < n);
        let ghost old_used = used@;
        used.set(b, true);
        picked.push(b);
        let m = Member {
            name: copy_chars(&raw[b].name),
            key: raw[b].key,
            aliases: copy_names(&raw[b].aliases),
            mentions: raw[b].mentions,
        };
        out.push(m);
        assert forall|y: int| 0 <= y < n && used@[y] implies exists|k: int| 0 <= k < picked@.len() && #[trigger] picked@[k] == y by {
            if y == b {
                assert(picked@[picked@.len() - 1] == y);
            } else {
                assert(used0[y]);
                let k = choose|k: int| 0 <= k < picked0.len() && #[trigger] picked0[k] == y;
                assert(picked@[k] == y);
            }
        }
    }
    proof {
        assert forall|k: int| 0 <= k < out@.len() implies rv.contains(#[trigger] member_views(out@)[k]) by {
            assert(rv[picked@[k] as int] == out@[k]@);
        }
        assert forall|a: int, b: int| 0 <= a < b < out@.len() implies out@[a]@.1 != out@[b]@.1 by {
            assert(picked@[a] != picked@[b]);
        }
        assert forall|x: int| 0 <= x < n && (forall|k: int| 0 <= k < out@.len() ==> member_views(out@)[k].1 != (#[trigger] rv[x]).1)
            implies forall|k: int| 0 <= k < out@.len() ==> !ranks_before(rv[x], #[trigger] member_views(out@)[k]) by {
            if used@[x] {
                let k = choose|k: int| 0 <= k < picked@.len() && #[trigger] picked@[k] == x;
                assert(member_views(out@)[k].1 == rv[x].1);
            }
        }
    }
    out
}

fn copy_names(v: &Vec<Vec<char>>) -> (r: Vec<Vec<char>>)
    ensures
        name_views(r@) == name_views(v@),
{
    let mut r: Vec<Vec<char>> = Vec::new();
    let mut i: usize = 0;
    while i < v.len()
        invariant
            i <= v@.len(),
            name_views(r@) == name_views(v@).take(i as int),
        decreases v.len() - i,
    {
        let ghost pre = r@;
        r.push(copy_chars(&v[i]));
        assert(name_views(r@) =~= name_views(pre).push(v@[i as int]@));
        assert(name_views(v@).take(i + 1) =~= name_views(v@).take(i as int).push(v@[i as int]@));
        i += 1;
    }
    assert(name_views(v@).take(v@.len() as int) =~= name_views(v@));
    r
}

/// The cast members among the candidates: every alive candidate that no
/// fold took, carrying the given names and courtesy forms folded into it,
/// best-ranked first, at most `MAX_CAST`.
pub fn select(names: &Vec<Vec<char>>, keys: &Vec<u128>, stats: &Vec<Stat>) -> (r: Vec<Member>)
    requires
        names@.len() == keys@.len(),
        names@.len() == stats@.len(),
        forall|a: int, b: int| 0 <= a < b < keys@.len() ==> keys@[a] < keys@[b],
    ensures
        top_members(
            raw_members(name_views(names@), stat_views(stats@), keys@, names@.len() as int),
            member_views(r@),
        ),
{
    let ghost nv = name_views(names@);
    let ghost sv = stat_views(stats@);
    let live = alive_flags(names, stats);
    let (taken, target, titled) = folds(names, stats, &live);
    let n = names.len();
    let mut raw: Vec<Member> = Vec::new();
    let mut f: usize = 0;
    while f < n
        invariant
            n == names@.len(),
            names@.len() == keys@.len(),
            names@.len() == stats@.len(),
            nv == name_views(names@),
            sv == stat_views(stats@),
            forall|a: int, b: int| 0 <= a < b < keys@.len() ==> keys@[a] < keys@[b],
            live@.len() == n,
            forall|b: int| 0 <= b < n ==> live@[b] == alive(nv, sv, b),
            taken@ == taken_upto(nv, sv, n as int),
            target@.len() == n,
            titled@.len() == n,
            forall|g: int| 0 <= g < n ==> (match #[trigger] target@[g] {
                Some(h) => fold_of(nv, sv, g).1 == Some(h as int),
                None => fold_of(nv, sv, g).1 is None,
            }),
            forall|t: int| 0 <= t < n ==> (match #[trigger] titled@[t] {
                Some(h) => title_of(nv, sv, t) == Some(h as int),
                None => title_of(nv, sv, t) is None,
            }),
            f <= n,
            member_views(raw@) == raw_members(nv, sv, keys@, f as int),
            forall|a: int, j: int| 0 <= a < raw@.len() && f <= j < n ==> (#[trigger] raw@[a]).key < #[trigger] keys@[j],
            forall|a: int, b: int| 0 <= a < b < raw@.len() ==> raw@[a].key != raw@[b].key,
        decreases n - f,
    {
        proof {
            lemma_taken_len(nv, sv, n as int);
        }
        if live[f] && !taken[f] {
            let m = member_exec(names, stats, keys, &target, &titled, f);
            let ghost pre = raw@;
            raw.push(m);
            assert(member_views(raw@) =~= member_views(pre).push(member_of(nv, sv, keys@, f as int)));
            assert forall|a: int, j: int| 0 <= a < raw@.len() && f + 1 <= j < n implies (#[trigger] raw@[a]).key < #[trigger] keys@[j] by {
                if a < pre.len() {
                    assert(pre[a] == raw@[a]);
                } else {
                    assert(raw@[a].key == keys@[f as int]);
                }
            }
            assert forall|a: int, b: int| 0 <= a < b < raw@.len() implies raw@[a].key != raw@[b].key by {
                if b == raw@.len() - 1 {
                    assert(pre[a] == raw@[a]);
                    assert(pre[a].key < keys@[f as int]);
                } else {
                    assert(pre[a] == raw@[a] && pre[b] == raw@[b]);
                }
            }
        }
        f += 1;
    }
    rank(raw)
}

} // verus!
