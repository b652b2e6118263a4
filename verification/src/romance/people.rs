//! Who may be a romantic candidate, and the names each one goes by.
use vstd::prelude::*;
use crate::cast::Person;
use crate::text::{contains, ends_with, occurs, suffix, to_chars};
use crate::romance::rules::vec_views;

verus! {

/// The aliases among the first `k` that are at least two characters long.
pub open spec fn long_aliases(al: Seq<String>, k: int) -> Seq<Seq<char>>
    decreases k,
{
    if k <= 0 {
        Seq::empty()
    } else if al[k - 1]@.len() >= 2 {
        long_aliases(al, k - 1).push(al[k - 1]@)
    } else {
        long_aliases(al, k - 1)
    }
}

/// The name and then the aliases, those at least two characters long.
pub open spec fn long_names(p: Person) -> Seq<Seq<char>> {
    (if p.name@.len() >= 2 { seq![p.name@] } else { Seq::empty() }) + long_aliases(p.aliases@, p.aliases@.len() as int)
}

/// `x` placed after the last entry at least as long: a stable insertion.
pub open spec fn insert_desc(s: Seq<Seq<char>>, x: Seq<char>) -> Seq<Seq<char>>
    decreases s.len(),
{
    if s.len() == 0 || s.last().len() >= x.len() {
        s.push(x)
    } else {
        insert_desc(s.drop_last(), x).push(s.last())
    }
}

/// The first `k` entries, longest first, equal lengths in their order.
pub open spec fn sort_desc(s: Seq<Seq<char>>, k: int) -> Seq<Seq<char>>
    decreases k,
{
    if k <= 0 {
        Seq::empty()
    } else {
        insert_desc(sort_desc(s, k - 1), s[k - 1])
    }
}

/// The first `k` entries without an entry equal to the one before it.
pub open spec fn drop_repeats(s: Seq<Seq<char>>, k: int) -> Seq<Seq<char>>
    decreases k,
{
    if k <= 0 {
        Seq::empty()
    } else {
        let r = drop_repeats(s, k - 1);
        if r.len() > 0 && r.last() == s[k - 1] {
            r
        } else {
            r.push(s[k - 1])
        }
    }
}

/// The names a person goes by: name and aliases of two characters or
/// more, longest first, repeats dropped.
pub open spec fn variants_spec(p: Person) -> Seq<Seq<char>> {
    let ln = long_names(p);
    let sd = sort_desc(ln, ln.len() as int);
    drop_repeats(sd, sd.len() as int)
}

proof fn lemma_insert_desc(s: Seq<Seq<char>>, x: Seq<char>, p: int)
    requires
        0 <= p <= s.len(),
        forall|q: int| p <= q < s.len() ==> (#[trigger] s[q]).len() < x.len(),
        p == 0 || s[p - 1].len() >= x.len(),
    ensures
        insert_desc(s, x) == s.insert(p, x),
    decreases s.len(),
{
    if p == s.len() {
        assert(s.insert(p, x) =~= s.push(x));
    } else {
        let d = s.drop_last();
        lemma_insert_desc(d, x, p);
        assert(s.insert(p, x) =~= d.insert(p, x).push(s.last()));
    }
}

/// The names a person goes by, longest first, each at least two characters.
pub fn variants(p: &Person) -> (r: Vec<Vec<char>>)
    ensures
        vec_views(r@) == variants_spec(*p),
        forall|i: int| 0 <= i < r@.len() ==> (#[trigger] r@[i])@.len() >= 2,
{
    let ghost al = p.aliases@;
    let ghost first = if p.name@.len() >= 2 { seq![p.name@] } else { Seq::<Seq<char>>::empty() };
    let mut all: Vec<Vec<char>> = Vec::new();
    let n = to_chars(p.name.as_str());
    if n.len() >= 2 {
        all.push(n);
    }
    assert(vec_views(all@) =~= first + long_aliases(al, 0));
    let mut i: usize = 0;
    while i < p.aliases.len()
        invariant
            al == p.aliases@,
            i <= al.len(),
            vec_views(all@) == first + long_aliases(al, i as int),
            forall|k: int| 0 <= k < all@.len() ==> (#[trigger] all@[k])@.len() >= 2,
        decreases p.aliases@.len() - i,
    {
        let a = to_chars(p.aliases[i].as_str());
        let ghost pre = all@;
        if a.len() >= 2 {
            all.push(a);
            assert(vec_views(all@) =~= vec_views(pre).push(al[i as int]@));
            assert(vec_views(all@) =~= first + long_aliases(al, i + 1));
        }
        i += 1;
    }
    let ghost ln = vec_views(all@);
    assert(ln == long_names(*p));
    // stable, longest first
    let mut sorted: Vec<Vec<char>> = Vec::new();
    let mut k: usize = 0;
    while k < all.len()
        invariant
            ln == vec_views(all@),
            k <= all@.len(),
            vec_views(sorted@) == sort_desc(ln, k as int),
            forall|j: int| 0 <= j < all@.len() ==> (#[trigger] all@[j])@.len() >= 2,
            forall|j: int| 0 <= j < sorted@.len() ==> (#[trigger] sorted@[j])@.len() >= 2,
        decreases all@.len() - k,
    {
        let len = all[k].len();
        let mut p: usize = sorted.len();
        while p > 0 && sorted[p - 1].len() < len
            invariant
                p <= sorted@.len(),
                len == all@[k as int]@.len(),
                forall|q: int| p <= q < sorted@.len() ==> (#[trigger] sorted@[q])@.len() < len,
            decreases p,
        {
            p -= 1;
        }
        let ghost pre = sorted@;
        let c = crate::cast::graph::copy_vec(&all[k]);
        sorted.insert(p, c);
        proof {
            let sv = vec_views(pre);
            lemma_insert_desc(sv, ln[k as int], p as int);
            assert(vec_views(sorted@) =~= sv.insert(p as int, ln[k as int]));
            assert forall|j: int| 0 <= j < sorted@.len() implies (#[trigger] sorted@[j])@.len() >= 2 by {
                if j < p {
                    assert(sorted@[j] == pre[j]);
                } else if j > p {
                    assert(sorted@[j] == pre[j - 1]);
                }
            }
        }
        k += 1;
    }
    let ghost sd = vec_views(sorted@);
    // drop consecutive repeats
    let mut out: Vec<Vec<char>> = Vec::new();
    let mut k: usize = 0;
    while k < sorted.len()
        invariant
            sd == vec_views(sorted@),
            k <= sorted@.len(),
            vec_views(out@) == drop_repeats(sd, k as int),
            forall|j: int| 0 <= j < sorted@.len() ==> (#[trigger] sorted@[j])@.len() >= 2,
            forall|j: int| 0 <= j < out@.len() ==> (#[trigger] out@[j])@.len() >= 2,
        decreases sorted@.len() - k,
    {
        let dup = out.len() > 0 && same(&out[out.len() - 1], &sorted[k]);
        let ghost pre = out@;
        if !dup {
            out.push(crate::cast::graph::copy_vec(&sorted[k]));
            assert(vec_views(out@) =~= vec_views(pre).push(sd[k as int]));
        }
        k += 1;
    }
    out
}

pub fn same(a: &Vec<char>, b: &Vec<char>) -> (r: bool)
    ensures
        r == (a@ == b@),
{
    if a.len() != b.len() {
        return false;
    }
    let mut i: usize = 0;
    while i < a.len()
        invariant
            a@.len() == b@.len(),
            i <= a@.len(),
            forall|j: int| 0 <= j < i ==> a@[j] == b@[j],
        decreases a.len() - i,
    {
        if a[i] != b[i] {
            return false;
        }
        i += 1;
    }
    assert(a@ =~= b@);
    true
}

/// Some name of the person occurs in `t`.
pub fn named_in(vs: &Vec<Vec<char>>, t: &[char]) -> (r: bool)
    ensures
        r == exists|i: int| 0 <= i < vs@.len() && occurs(t@, #[trigger] vs@[i]@),
{
    let mut i: usize = 0;
    while i < vs.len()
        invariant
            i <= vs@.len(),
            forall|j: int| 0 <= j < i ==> !occurs(t@, #[trigger] vs@[j]@),
        decreases vs@.len() - i,
    {
        if contains(t, vs[i].as_slice()) {
            return true;
        }
        i += 1;
    }
    false
}

/// At least 1.5 mentions per chapter appeared in.
pub open spec fn dense_enough(p: Person) -> bool {
    2 * (p.mentions as int) >= 3 * (if p.chapters == 0 { 1 } else { p.chapters as int })
}

fn dense_exec(p: &Person) -> (r: bool)
    ensures
        r == dense_enough(*p),
{
    let ch: u64 = if p.chapters == 0 { 1 } else { p.chapters as u64 };
    2 * (p.mentions as u64) >= 3 * ch
}

/// Some word of `words` ends `t`.
pub open spec fn ends_any(t: Seq<char>, words: Seq<&str>) -> bool {
    exists|i: int| 0 <= i < words.len() && suffix(t, #[trigger] words[i]@)
}

/// Family members and roles: names ending so are not romantic candidates.
pub open spec fn role_words() -> Seq<&'static str> {
    seq!["母亲", "父亲", "妈妈", "爸爸", "老师", "同学", "太太", "先生", "小姐", "学姐", "学妹", "学长", "学弟"]
}

/// Parents: the only names a group statement never counts.
pub open spec fn parent_words() -> Seq<&'static str> {
    seq!["母亲", "父亲", "妈妈", "爸爸"]
}

/// Dense enough, and not a family member or a role.
pub open spec fn usable_spec(p: Person) -> bool {
    dense_enough(p) && !ends_any(p.name@, role_words())
}

/// Dense enough, and not a parent.
pub open spec fn group_usable_spec(p: Person) -> bool {
    dense_enough(p) && !ends_any(p.name@, parent_words())
}

fn ends_with_any(t: &Vec<char>, words: &Vec<&'static str>) -> (r: bool)
    ensures
        r == ends_any(t@, words@),
{
    let mut i: usize = 0;
    while i < words.len()
        invariant
            i <= words@.len(),
            forall|j: int| 0 <= j < i ==> !suffix(t@, #[trigger] words@[j]@),
        decreases words@.len() - i,
    {
        let w = to_chars(words[i]);
        if ends_with(t.as_slice(), w.as_slice()) {
            return true;
        }
        i += 1;
    }
    false
}

/// Dense enough, and not a family member or a role (母亲, 老师, 学姐…).
pub fn candidate_usable(p: &Person) -> (r: bool)
    ensures
        r == usable_spec(*p),
{
    let roles: Vec<&'static str> = vec![
        "母亲", "父亲", "妈妈", "爸爸", "老师", "同学", "太太", "先生", "小姐", "学姐", "学妹", "学长", "学弟",
    ];
    dense_exec(p) && !ends_with_any(&to_chars(p.name.as_str()), &roles)
}

/// Dense enough, and not a parent.
pub fn group_candidate_usable(p: &Person) -> (r: bool)
    ensures
        r == group_usable_spec(*p),
{
    let roles: Vec<&'static str> = vec!["母亲", "父亲", "妈妈", "爸爸"];
    dense_exec(p) && !ends_with_any(&to_chars(p.name.as_str()), &roles)
}

/// The role words a group statement's participant may carry after a stem.
pub open spec fn stem_words() -> Seq<&'static str> {
    seq!["老师", "同学", "太太", "先生", "小姐", "学姐", "学妹", "学长", "学弟"]
}

/// The name without the first of the words from the `k`-th on that ends it.
pub open spec fn stem_from(name: Seq<char>, ws: Seq<&'static str>, k: int) -> Seq<char>
    decreases ws.len() - k,
{
    if k < 0 || k >= ws.len() {
        name
    } else if suffix(name, ws[k]@) {
        name.subrange(0, name.len() - ws[k]@.len())
    } else {
        stem_from(name, ws, k + 1)
    }
}

/// The first candidate from the `i`-th on one of whose names holds `stem`.
pub open spec fn first_holder(cs: Seq<&Person>, stem: Seq<char>, i: int) -> Option<int>
    decreases cs.len() - i,
{
    if i < 0 || i >= cs.len() {
        None
    } else if exists|j: int| 0 <= j < variants_spec(*cs[i]).len() && occurs(#[trigger] variants_spec(*cs[i])[j], stem) {
        Some(i)
    } else {
        first_holder(cs, stem, i + 1)
    }
}

/// The name a group statement's participant is reported under.
pub open spec fn canonical_spec(p: Person, cs: Seq<&Person>) -> Seq<char> {
    let stem = stem_from(p.name@, stem_words(), 0);
    if usable_spec(p) || stem.len() < 2 {
        p.name@
    } else {
        match first_holder(cs, stem, 0) {
            Some(i) => cs[i].name@,
            None => p.name@,
        }
    }
}

/// The name a group statement's participant is reported under: the
/// person's own name, or, for a role form like 麻衣学姐, the candidate whose
/// name holds its stem.
pub fn canonical_group_name(p: &Person, candidates: &Vec<&Person>) -> (r: Vec<char>)
    ensures
        r@ == canonical_spec(*p, candidates@),
{
    let name = to_chars(p.name.as_str());
    if candidate_usable(p) {
        return name;
    }
    let roles: Vec<&'static str> = vec!["老师", "同学", "太太", "先生", "小姐", "学姐", "学妹", "学长", "学弟"];
    assert(roles@ == stem_words());
    let mut stem = crate::cast::graph::copy_vec(&name);
    let mut k: usize = 0;
    while k < roles.len()
        invariant_except_break
            stem@ == name@,
        invariant
            roles@ == stem_words(),
            name@ == p.name@,
            k <= roles@.len(),
            stem_from(name@, roles@, 0) == stem_from(name@, roles@, k as int),
        ensures
            stem@ == stem_from(name@, roles@, 0),
        decreases roles@.len() - k,
    {
        let w = to_chars(roles[k]);
        if ends_with(name.as_slice(), w.as_slice()) {
            stem = crate::text::slice_vec(name.as_slice(), 0, name.len() - w.len());
            break;
        }
        k += 1;
    }
    assert(stem@ == stem_from(name@, roles@, 0));
    if stem.len() < 2 {
        return name;
    }
    let mut i: usize = 0;
    while i < candidates.len()
        invariant
            i <= candidates@.len(),
            first_holder(candidates@, stem@, 0) == first_holder(candidates@, stem@, i as int),
            !usable_spec(*p),
            stem@ == stem_from(p.name@, stem_words(), 0),
            stem@.len() >= 2,
        decreases candidates@.len() - i,
    {
        let vs = variants(candidates[i]);
        let mut j: usize = 0;
        while j < vs.len()
            invariant
                i < candidates@.len(),
                j <= vs@.len(),
                first_holder(candidates@, stem@, 0) == first_holder(candidates@, stem@, i as int),
                !usable_spec(*p),
                stem@ == stem_from(p.name@, stem_words(), 0),
                stem@.len() >= 2,
                vec_views(vs@) == variants_spec(*candidates@[i as int]),
                forall|q: int| 0 <= q < j ==> !occurs(#[trigger] vs@[q]@, stem@),
            decreases vs@.len() - j,
        {
            if contains(vs[j].as_slice(), stem.as_slice()) {
                assert(occurs(variants_spec(*candidates@[i as int])[j as int], stem@));
                return to_chars(candidates[i].name.as_str());
            }
            j += 1;
        }
        assert forall|q: int| 0 <= q < variants_spec(*candidates@[i as int]).len() implies !occurs(
            #[trigger] variants_spec(*candidates@[i as int])[q],
            stem@,
        ) by {
            assert(vs@[q]@ == variants_spec(*candidates@[i as int])[q]);
        }
        i += 1;
    }
    name
}

} // verus!
