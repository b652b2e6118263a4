//! Where an appellation sits decides whether it says anything about *this*
//! pair. 「李槐他爹」 is a third party and 「杨家铺子的杨爷爷」 a stranger; only a
//! copula, or direct address with nobody else present, binds the word to the
//! two people in the sentence.
use vstd::prelude::*;
use crate::text::{
    first_at, find_from, lemma_first_at, occurs, contains, suffix, ends_with, sub_at, matches_at,
    has_char, to_chars,
};

verus! {

/// Marks that end the search for an owner: punctuation and quotes.
pub open spec fn stops_owner(c: char) -> bool {
    "，,。！？「」“”"@.contains(c)
}

/// The characters that hand an appellation to an owner.
pub open spec fn owner_mark(c: char) -> bool {
    "的他她其"@.contains(c)
}

/// Among the `k` characters before `s` (nearest first), the position of an
/// owner mark reached before any punctuation.
pub open spec fn possessive_spec(sent: Seq<char>, s: int, k: int) -> Option<int>
    decreases k,
{
    if k <= 0 || s <= 0 {
        None
    } else if stops_owner(sent[s - 1]) {
        None
    } else if owner_mark(sent[s - 1]) {
        Some(s - 1)
    } else {
        possessive_spec(sent, s - 1, k - 1)
    }
}

/// The 的/他/她/其 that hands the appellation at `s` to an owner, if one
/// stands within four characters before it with no punctuation between.
pub fn possessive_before(sent: &[char], s: usize) -> (r: Option<usize>)
    requires
        s <= sent@.len(),
    ensures
        match r {
            Some(p) => possessive_spec(sent@, s as int, 4) == Some(p as int),
            None => possessive_spec(sent@, s as int, 4) is None,
        },
{
    let stops = to_chars("，,。！？「」“”");
    let marks = to_chars("的他她其");
    let mut i = s;
    let mut k: usize = 4;
    while k > 0 && i > 0
        invariant
            i <= s <= sent@.len(),
            k <= 4,
            stops@ == "，,。！？「」“”"@,
            marks@ == "的他她其"@,
            possessive_spec(sent@, s as int, 4) == possessive_spec(sent@, i as int, k as int),
        decreases k,
    {
        let c = sent[i - 1];
        if has_char(stops.as_slice(), c) {
            return None;
        }
        if has_char(marks.as_slice(), c) {
            return Some(i - 1);
        }
        i -= 1;
        k -= 1;
    }
    None
}

/// Marks that open the clause a copula may sit in.
pub open spec fn clause_mark(c: char) -> bool {
    c == '，' || c == ',' || c == '：' || c == '“' || c == '「'
}

/// The last clause mark before `p`, or 0.
pub open spec fn clause_start(sent: Seq<char>, p: int) -> int
    decreases p,
{
    if p <= 0 {
        0
    } else if clause_mark(sent[p - 1]) {
        p - 1
    } else {
        clause_start(sent, p - 1)
    }
}

/// `<other member>是 … <owner>的<appellation>`: in the clause before `p`,
/// some name is followed, somewhere after it, by 是.
pub open spec fn copula_spec(sent: Seq<char>, p: int, names: Seq<Seq<char>>) -> bool {
    let clause = sent.subrange(clause_start(sent, p), p);
    exists|k: int|
        0 <= k < names.len() && {
            let f = first_at(clause, #[trigger] names[k], 0);
            f >= 0 && occurs(clause.skip(f + names[k].len()), seq!['是'])
        }
}

pub open spec fn name_views(names: Seq<Vec<char>>) -> Seq<Seq<char>> {
    names.map_values(|n: Vec<char>| n@)
}

proof fn lemma_clause_start(sent: Seq<char>, p: int)
    requires
        0 <= p <= sent.len(),
    ensures
        0 <= clause_start(sent, p) <= p,
    decreases p,
{
    if p > 0 && !clause_mark(sent[p - 1]) {
        lemma_clause_start(sent, p - 1);
    }
}

/// Whether a copula in the clause before `p` makes a possessive a statement
/// about the pair after all.
pub fn copula_rescue(sent: &[char], p: usize, names: &Vec<Vec<char>>) -> (r: bool)
    requires
        p <= sent@.len(),
    ensures
        r == copula_spec(sent@, p as int, name_views(names@)),
{
    let mut a = p;
    while a > 0 && !(sent[a - 1] == '，' || sent[a - 1] == ',' || sent[a - 1] == '：' || sent[a - 1]
        == '“' || sent[a - 1] == '「')
        invariant
            a <= p <= sent@.len(),
            clause_start(sent@, p as int) == clause_start(sent@, a as int),
        decreases a,
    {
        a -= 1;
    }
    let start = if a > 0 {
        a - 1
    } else {
        0
    };
    proof {
        lemma_clause_start(sent@, p as int);
    }
    assert(start == clause_start(sent@, p as int));
    let clause = crate::text::slice_vec(sent, start, p);
    let shi = vec!['是'];
    let mut k: usize = 0;
    while k < names.len()
        invariant
            k <= names@.len(),
            start <= p <= sent@.len(),
            start == clause_start(sent@, p as int),
            clause@ == sent@.subrange(start as int, p as int),
            shi@ == seq!['是'],
            forall|j: int|
                0 <= j < k ==> !({
                    let f = first_at(clause@, #[trigger] name_views(names@)[j], 0);
                    f >= 0 && occurs(clause@.skip(f + name_views(names@)[j].len()), seq!['是'])
                }),
        decreases names.len() - k,
    {
        let n = &names[k];
        let cl = clause.len();
        assert(name_views(names@)[k as int] == n@);
        proof {
            lemma_first_at(clause@, n@, 0);
        }
        match find_from(clause.as_slice(), n.as_slice(), 0) {
            Some(f) => {
                assert(sub_at(clause@, n@, f as int));
                let rest = crate::text::slice_vec(clause.as_slice(), f + n.len(), clause.len());
                assert(rest@ =~= clause@.skip(f + n@.len()));
                if contains(rest.as_slice(), shi.as_slice()) {
                    assert({
                        let f0 = first_at(clause@, name_views(names@)[k as int], 0);
                        f0 >= 0 && occurs(clause@.skip(f0 + name_views(names@)[k as int].len()), seq!['是'])
                    });
                    return true;
                }
            },
            None => {},
        }
        k += 1;
    }
    false
}

/// Marks that may open a direct address: 「师父，…」.
pub open spec fn opens_address(c: char) -> bool {
    "「“\"'，,：:（("@.contains(c)
}

/// Marks that may close one.
pub open spec fn closes_address(c: char) -> bool {
    "」”\"'，,！!？?。.、"@.contains(c)
}

pub open spec fn quote_mark(c: char) -> bool {
    c == '「' || c == '“' || c == '"'
}

/// The last quote mark before `s`, or -1.
pub open spec fn last_quote(sent: Seq<char>, s: int) -> int
    decreases s,
{
    if s <= 0 {
        -1
    } else if quote_mark(sent[s - 1]) {
        s - 1
    } else {
        last_quote(sent, s - 1)
    }
}

/// The first name (in order) that `sent[..s]` ends with, as an index.
pub open spec fn name_before(sent: Seq<char>, s: int, names: Seq<Seq<char>>, k: int) -> int
    decreases names.len() - k,
{
    if k < 0 || k >= names.len() {
        -1
    } else if suffix(sent.take(s), names[k]) {
        k
    } else {
        name_before(sent, s, names, k + 1)
    }
}

/// Whether the appellation `w` at position `s` binds the pair.
pub open spec fn bound_here_spec(sent: Seq<char>, s: int, w: Seq<char>, names: Seq<Seq<char>>, crowd: int) -> bool {
    match possessive_spec(sent, s, 4) {
        Some(p) => copula_spec(sent, p, names),
        None => {
            let k = name_before(sent, s, names, 0);
            if k >= 0 {
                copula_spec(sent, s - names[k].len(), names)
            } else if crowd != 2 {
                false
            } else {
                let e = s + w.len();
                let opens = s == 0 || opens_address(sent[s - 1]);
                let closes = e >= sent.len() || closes_address(sent[e]);
                if !(opens && closes) {
                    false
                } else {
                    let q = last_quote(sent, s);
                    q < 0 || !(exists|j: int| 0 <= j < names.len() && occurs(sent.skip(q), #[trigger] names[j]))
                }
            }
        },
    }
}

proof fn lemma_name_before(sent: Seq<char>, s: int, names: Seq<Seq<char>>, k: int)
    requires
        0 <= k,
        0 <= s <= sent.len(),
    ensures
        name_before(sent, s, names, k) == -1 || (k <= name_before(sent, s, names, k) < names.len()
            && suffix(sent.take(s), names[name_before(sent, s, names, k)])),
    decreases names.len() - k,
{
    if k < names.len() && !suffix(sent.take(s), names[k]) {
        lemma_name_before(sent, s, names, k + 1);
    }
}

proof fn lemma_last_quote(sent: Seq<char>, s: int)
    requires
        0 <= s <= sent.len(),
    ensures
        -1 <= last_quote(sent, s) < s,
    decreases s,
{
    if s > 0 && !quote_mark(sent[s - 1]) {
        lemma_last_quote(sent, s - 1);
    }
}

proof fn lemma_possessive(sent: Seq<char>, s: int, k: int)
    requires
        0 <= s <= sent.len(),
    ensures
        possessive_spec(sent, s, k) matches Some(p) ==> 0 <= p < s,
    decreases k,
{
    if k > 0 && s > 0 && !stops_owner(sent[s - 1]) && !owner_mark(sent[s - 1]) {
        lemma_possessive(sent, s - 1, k - 1);
    }
}

#[verifier::loop_isolation(false)]
fn bound_here(sent: &[char], s: usize, w: &[char], names: &Vec<Vec<char>>, crowd: usize) -> (r: bool)
    requires
        s + w@.len() <= sent@.len(),
    ensures
        r == bound_here_spec(sent@, s as int, w@, name_views(names@), crowd as int),
{
    let wlen = w.len();
    let sl = sent.len();
    let ghost nv = name_views(names@);
    proof {
        lemma_possessive(sent@, s as int, 4);
    }
    match possessive_before(sent, s) {
        Some(p) => {
            return copula_rescue(sent, p, names);
        },
        None => {},
    }
    let head = crate::text::slice_vec(sent, 0, s);
    assert(head@ =~= sent@.take(s as int));
    let mut k: usize = 0;
    while k < names.len()
        invariant
            k <= names@.len(),
            nv == name_views(names@),
            head@ == sent@.take(s as int),
            name_before(sent@, s as int, nv, 0) == name_before(sent@, s as int, nv, k as int),
        decreases names.len() - k,
    {
        assert(nv[k as int] == names@[k as int]@);
        if ends_with(head.as_slice(), names[k].as_slice()) {
            proof {
                crate::text::lemma_blen_full(head@);
            }
            assert(name_before(sent@, s as int, nv, k as int) == k);
            assert(suffix(head@, names@[k as int]@));
            assert(head@.len() == s);
            assert(names@[k as int]@.len() <= s);
            let n = names[k].len();
            return copula_rescue(sent, s - n, names);
        }
        k += 1;
    }
    assert(name_before(sent@, s as int, nv, k as int) == -1);
    if crowd != 2 {
        return false;
    }
    let e = s + wlen;
    let opens = s == 0 || crate::text::in_set("「“\"'，,：:（(", sent[s - 1]);
    let closes = e >= sent.len() || crate::text::in_set("」”\"'，,！!？?。.、", sent[e]);
    if !(opens && closes) {
        return false;
    }
    let mut q = s;
    while q > 0 && !(sent[q - 1] == '「' || sent[q - 1] == '“' || sent[q - 1] == '"')
        invariant
            q <= s <= sent@.len(),
            last_quote(sent@, s as int) == last_quote(sent@, q as int),
        decreases q,
    {
        q -= 1;
    }
    if q == 0 {
        assert(last_quote(sent@, s as int) == -1);
        return true;
    }
    let qi = q - 1;
    assert(last_quote(sent@, s as int) == qi);
    let rest = crate::text::slice_vec(sent, qi, sent.len());
    assert(rest@ =~= sent@.skip(qi as int));
    let mut j: usize = 0;
    while j < names.len()
        invariant
            j <= names@.len(),
            nv == name_views(names@),
            rest@ == sent@.skip(qi as int),
            forall|t: int| 0 <= t < j ==> !occurs(sent@.skip(qi as int), #[trigger] nv[t]),
        decreases names.len() - j,
    {
        assert(nv[j as int] == names@[j as int]@);
        if contains(rest.as_slice(), names[j].as_slice()) {
            assert(occurs(sent@.skip(qi as int), nv[j as int]));
            return false;
        }
        j += 1;
    }
    true
}

/// Non-overlapping positions of `w` in `s` from `i`, left to right (what
/// `str::match_indices` yields; every position for the empty word).
pub open spec fn match_positions(s: Seq<char>, w: Seq<char>, i: int) -> Seq<int>
    decreases s.len() + 1 - i,
{
    if i < 0 || i > s.len() {
        Seq::empty()
    } else if w.len() == 0 {
        seq![i] + match_positions(s, w, i + 1)
    } else if i + w.len() > s.len() {
        Seq::empty()
    } else if sub_at(s, w, i) {
        seq![i] + match_positions(s, w, i + w.len())
    } else {
        match_positions(s, w, i + 1)
    }
}

/// Some occurrence of `w` binds the pair.
pub open spec fn bound_somewhere(sent: Seq<char>, w: Seq<char>, names: Seq<Seq<char>>, crowd: int) -> bool {
    exists|k: int|
        0 <= k < match_positions(sent, w, 0).len() && bound_here_spec(
            sent,
            #[trigger] match_positions(sent, w, 0)[k],
            w,
            names,
            crowd,
        )
}

/// The appellations among `present` that bind the pair named by `names`.
pub open spec fn bound_hints_spec(sent: Seq<char>, present: Seq<&'static str>, names: Seq<Seq<char>>, crowd: int) -> Seq<&'static str>
    decreases present.len(),
{
    if present.len() == 0 {
        Seq::empty()
    } else {
        let prev = bound_hints_spec(sent, present.drop_last(), names, crowd);
        if bound_somewhere(sent, present.last()@, names, crowd) {
            prev.push(present.last())
        } else {
            prev
        }
    }
}

proof fn lemma_positions(s: Seq<char>, w: Seq<char>, i: int)
    requires
        0 <= i,
    ensures
        forall|k: int|
            0 <= k < match_positions(s, w, i).len() ==> i <= #[trigger] match_positions(s, w, i)[k]
                && match_positions(s, w, i)[k] + w.len() <= s.len(),
    decreases s.len() + 1 - i,
{
    let m = match_positions(s, w, i);
    if i <= s.len() {
        if w.len() == 0 {
            lemma_positions(s, w, i + 1);
            let rest = match_positions(s, w, i + 1);
            assert(m == seq![i] + rest);
            assert forall|k: int| 0 <= k < m.len() implies i <= #[trigger] m[k] && m[k] + w.len() <= s.len() by {
                if k > 0 {
                    assert(m[k] == rest[k - 1]);
                }
            }
        } else if i + w.len() <= s.len() {
            if sub_at(s, w, i) {
                lemma_positions(s, w, i + w.len());
                let rest = match_positions(s, w, i + w.len());
                assert(m == seq![i] + rest);
                assert forall|k: int| 0 <= k < m.len() implies i <= #[trigger] m[k] && m[k] + w.len() <= s.len() by {
                    if k > 0 {
                        assert(m[k] == rest[k - 1]);
                    }
                }
            } else {
                lemma_positions(s, w, i + 1);
                let rest = match_positions(s, w, i + 1);
                assert(m == rest);
                assert forall|k: int| 0 <= k < m.len() implies i <= #[trigger] m[k] && m[k] + w.len() <= s.len() by {
                    assert(m[k] == rest[k]);
                }
            }
        } else {
            assert(m.len() == 0);
        }
    } else {
        assert(m.len() == 0);
    }
}

/// Whether some occurrence of `w` in `sent` binds the pair.
pub(crate) fn bound_anywhere(sent: &[char], w: &[char], names: &Vec<Vec<char>>, crowd: usize) -> (r: bool)
    ensures
        r == bound_somewhere(sent@, w@, name_views(names@), crowd as int),
{
    let ghost nv = name_views(names@);
    let ghost all = match_positions(sent@, w@, 0);
    let sl = sent.len();
    let mut i: usize = 0;
    let mut seen: Ghost<int> = Ghost(0);
    proof {
        lemma_positions(sent@, w@, 0);
    }
    loop
        invariant
            i <= sl,
            sl == sent@.len(),
            nv == name_views(names@),
            all == match_positions(sent@, w@, 0),
            0 <= seen@ <= all.len(),
            all.skip(seen@) == match_positions(sent@, w@, i as int),
            forall|k: int| 0 <= k < seen@ ==> !bound_here_spec(sent@, #[trigger] all[k], w@, nv, crowd as int),
        decreases sl - i, (if w@.len() == 0 { 1int } else { 0int }),
    {
        proof {
            lemma_positions(sent@, w@, i as int);
        }
        let here = if w.len() == 0 {
            true
        } else if w.len() > sl - i {
            assert(match_positions(sent@, w@, i as int).len() == 0);
            assert(all.skip(seen@).len() == 0);
            return false;
        } else {
            matches_at(sent, w, i)
        };
        if here {
            let b = bound_here(sent, i, w, names, crowd);
            assert(match_positions(sent@, w@, i as int)[0] == i);
            assert(all.skip(seen@).len() > 0);
            assert(all.skip(seen@)[0] == all[seen@]);
            if b {
                return true;
            }
            proof {
                assert(all.skip(seen@ + 1) =~= all.skip(seen@).skip(1));
                seen@ = seen@ + 1;
            }
            let step = if w.len() == 0 {
                1
            } else {
                w.len()
            };
            if i == sl {
                assert(match_positions(sent@, w@, i + 1).len() == 0);
                assert(all.skip(seen@).len() == 0);
                return false;
            }
            i += step;
            if i > sl {
                i = sl;
                assert(false);
            }
        } else {
            i += 1;
        }
    }
}

/// The appellations among `present` that speak about the pair named by
/// `names` (the two people, their full names and aliases): a possessive only
/// counts when a copula makes the other member its owner, and direct address
/// only when the pair is alone in the sentence (`crowd` is how many of the
/// cast share it).
pub fn bound_hints(sent: &str, present: &[&'static str], names: &[&str], crowd: usize) -> (r: Vec<&'static str>)
    ensures
        r@ == bound_hints_spec(sent@, present@, names@.map_values(|n: &str| n@), crowd as int),
{
    let s = to_chars(sent);
    let mut nv: Vec<Vec<char>> = Vec::new();
    let mut k: usize = 0;
    while k < names.len()
        invariant
            k <= names@.len(),
            name_views(nv@) == names@.map_values(|n: &str| n@).take(k as int),
        decreases names.len() - k,
    {
        let ghost before = nv@;
        let x = to_chars(names[k]);
        nv.push(x);
        assert(name_views(nv@) =~= name_views(before).push(names@[k as int]@));
        k += 1;
        assert(name_views(nv@) =~= names@.map_values(|n: &str| n@).take(k as int));
    }
    assert(names@.map_values(|n: &str| n@).take(names@.len() as int) =~= names@.map_values(|n: &str| n@));
    let mut out: Vec<&'static str> = Vec::new();
    let mut i: usize = 0;
    while i < present.len()
        invariant
            i <= present@.len(),
            name_views(nv@) == names@.map_values(|n: &str| n@),
            s@ == sent@,
            out@ == bound_hints_spec(sent@, present@.take(i as int), name_views(nv@), crowd as int),
        decreases present.len() - i,
    {
        assert(present@.take(i + 1).drop_last() =~= present@.take(i as int));
        let w = to_chars(present[i]);
        if bound_anywhere(s.as_slice(), w.as_slice(), &nv, crowd) {
            out.push(present[i]);
        }
        i += 1;
    }
    assert(present@.take(present@.len() as int) =~= present@);
    out
}

} // verus!
