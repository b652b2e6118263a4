//! Name seeds: whatever stands right before a speech verb (吕树说道) or right
//! after a word whose object is a person (和许不令), two to four CJK
//! characters long, minus the shapes no name has.
use vstd::prelude::*;
use crate::cast::words::{
    after_ok, after_ok_spec, allowed_numeric_name, allowed_numeric_name_spec, cjk, false_friend,
    false_friend_spec, has_never_char, has_never_char_exec, is_cjk, is_listed, is_object_cue,
    is_speech, listed, not_a_name, not_a_name_exec, object_cue, speech,
};
use crate::text::{slice_vec, sort_u128};
use std::collections::HashMap;

verus! {

broadcast use vstd::std_specs::hash::group_hash_axioms;

/// Weights of a name's characters in its key: a name of two to four
/// characters, each below 2^21, packs into one integer whose order is the
/// order of the characters.
pub const K0: u128 = 0x8000_0000_0000_0000;
pub const K1: u128 = 0x400_0000_0000;
pub const K2: u128 = 0x20_0000;

/// The key of a name of two to four characters.
pub open spec fn key_of(w: Seq<char>) -> int {
    (w[0] as int) * 0x8000_0000_0000_0000 + (w[1] as int) * 0x400_0000_0000 + (if w.len() > 2 {
        (w[2] as int) * 0x20_0000
    } else {
        0
    }) + (if w.len() > 3 {
        w[3] as int
    } else {
        0
    })
}

/// Two to four CJK characters: the only shape a seed has.
pub open spec fn name_shape(w: Seq<char>) -> bool {
    2 <= w.len() <= 4 && forall|m: int| 0 <= m < w.len() ==> cjk(#[trigger] w[m])
}

/// Every character's code is below 2^21.
pub proof fn lemma_char_small(c: char)
    ensures
        0 <= (c as int) <= 0x10FFFF,
        (c as u32) <= 0x10FFFF,
{
    vstd::utf8::char_is_scalar(c);
}

pub proof fn lemma_key_bounds(w: Seq<char>)
    requires
        2 <= w.len() <= 4,
    ensures
        (w[0] as int) * 0x8000_0000_0000_0000 <= key_of(w) < (w[0] as int + 1) * 0x8000_0000_0000_0000,
        0 <= key_of(w) < 0x1_0000_0000_0000_0000_0000_0000,
{
    lemma_char_small(w[0]);
    lemma_char_small(w[1]);
    if w.len() > 2 {
        lemma_char_small(w[2]);
    }
    if w.len() > 3 {
        lemma_char_small(w[3]);
    }
}

/// Different names have different keys.
pub proof fn lemma_key_injective(a: Seq<char>, b: Seq<char>)
    requires
        name_shape(a),
        name_shape(b),
        key_of(a) == key_of(b),
    ensures
        a == b,
{
    assert(cjk(a[0]) && cjk(a[1]) && cjk(b[0]) && cjk(b[1]));
    if a.len() > 2 {
        assert(cjk(a[2]));
    }
    if a.len() > 3 {
        assert(cjk(a[3]));
    }
    if b.len() > 2 {
        assert(cjk(b[2]));
    }
    if b.len() > 3 {
        assert(cjk(b[3]));
    }
    lemma_char_small(a[0]);
    lemma_char_small(a[1]);
    lemma_char_small(b[0]);
    lemma_char_small(b[1]);
    if a.len() > 2 {
        lemma_char_small(a[2]);
    }
    if a.len() > 3 {
        lemma_char_small(a[3]);
    }
    if b.len() > 2 {
        lemma_char_small(b[2]);
    }
    if b.len() > 3 {
        lemma_char_small(b[3]);
    }
    let a0 = a[0] as int;
    let a1 = a[1] as int;
    let a2 = if a.len() > 2 { a[2] as int } else { 0 };
    let a3 = if a.len() > 3 { a[3] as int } else { 0 };
    let b0 = b[0] as int;
    let b1 = b[1] as int;
    let b2 = if b.len() > 2 { b[2] as int } else { 0 };
    let b3 = if b.len() > 3 { b[3] as int } else { 0 };
    assert(0 <= a0 < 0x20_0000 && 0 <= a1 < 0x20_0000 && 0 <= a2 < 0x20_0000 && 0 <= a3 < 0x20_0000);
    assert(0 <= b0 < 0x20_0000 && 0 <= b1 < 0x20_0000 && 0 <= b2 < 0x20_0000 && 0 <= b3 < 0x20_0000);
    assert(a0 * 0x8000_0000_0000_0000 + a1 * 0x400_0000_0000 + a2 * 0x20_0000 + a3 == b0
        * 0x8000_0000_0000_0000 + b1 * 0x400_0000_0000 + b2 * 0x20_0000 + b3);
    assert(a0 == b0);
    assert(a1 == b1);
    assert(a2 == b2);
    assert(a3 == b3);
    assert(a.len() == b.len()) by {
        if a.len() > 2 {
            assert(a2 > 0);
        }
        if b.len() > 2 {
            assert(b2 > 0);
        }
        if a.len() > 3 {
            assert(a3 > 0);
        }
        if b.len() > 3 {
            assert(b3 > 0);
        }
    }
    assert(a =~= b);
}

pub fn key_exec(w: &[char]) -> (k: u128)
    requires
        2 <= w.len() <= 4,
    ensures
        k == key_of(w@),
{
    proof {
        lemma_key_bounds(w@);
        lemma_char_small(w@[0]);
        lemma_char_small(w@[1]);
        if w.len() > 2 {
            lemma_char_small(w@[2]);
        }
        if w.len() > 3 {
            lemma_char_small(w@[3]);
        }
    }
    let c0 = w[0] as u32;
    let c1 = w[1] as u32;
    let mut k: u128 = (c0 as u128) * K0 + (c1 as u128) * K1;
    if w.len() > 2 {
        let c2 = w[2] as u32;
        k = k + (c2 as u128) * K2;
    }
    if w.len() > 3 {
        let c3 = w[3] as u32;
        k = k + (c3 as u128);
    }
    k
}

/// `i` is a speech verb ending its cluster, with punctuation or the end of
/// the line after it.
pub open spec fn speech_anchor(l: Seq<char>, i: int) -> bool {
    &&& 0 <= i < l.len()
    &&& speech(l[i])
    &&& !(i + 1 < l.len() && speech(l[i + 1]))
    &&& after_ok_spec(if i + 1 < l.len() { Some(l[i + 1]) } else { None })
}

/// `j` opens the run of speech verbs that ends at `i`.
pub open spec fn cluster_start(l: Seq<char>, i: int, j: int) -> bool {
    &&& 0 <= j <= i < l.len()
    &&& forall|m: int| j <= m <= i ==> speech(#[trigger] l[m])
    &&& (j == 0 || !speech(l[j - 1]))
}

/// Characters `a..b` are CJK and none is a speech verb.
pub open spec fn name_run(l: Seq<char>, a: int, b: int) -> bool {
    0 <= a <= b <= l.len() && forall|m: int| a <= m < b ==> cjk(#[trigger] l[m]) && !speech(l[m])
}

/// The verb cluster ending at anchor `i` opens at `j` and is real speech,
/// not the tail of a compound like 知道.
pub open spec fn attributes(l: Seq<char>, i: int, j: int) -> bool {
    speech_anchor(l, i) && cluster_start(l, i, j) && !(j > 0 && false_friend_spec(l[j - 1], l[j]))
}

/// `w` stands right before the speech cluster anchored at `i`.
pub open spec fn speech_seed_at(l: Seq<char>, i: int, w: Seq<char>) -> bool {
    exists|j: int|
        #![trigger cluster_start(l, i, j)]
        attributes(l, i, j) && 2 <= w.len() <= 4 && j >= w.len() && name_run(l, j - w.len(), j)
            && l.subrange(j - w.len(), j) == w
}

/// `w` stands right after the object cue at `i`.
pub open spec fn cue_seed_at(l: Seq<char>, i: int, w: Seq<char>) -> bool {
    &&& 0 <= i < l.len()
    &&& object_cue(l[i])
    &&& 2 <= w.len() <= 3
    &&& i + 1 + w.len() <= l.len()
    &&& forall|m: int| i + 1 <= m < i + 1 + w.len() ==> cjk(#[trigger] l[m])
    &&& l.subrange(i + 1, i + 1 + w.len()) == w
}

/// `w` is seeded somewhere in line `l`.
pub open spec fn seeded_in(l: Seq<char>, w: Seq<char>) -> bool {
    exists|i: int| speech_seed_at(l, i, w) || cue_seed_at(l, i, w)
}

/// `w` is seeded somewhere in the paragraphs.
pub open spec fn seeded(ls: Seq<Seq<char>>, w: Seq<char>) -> bool {
    exists|p: int| 0 <= p < ls.len() && seeded_in(#[trigger] ls[p], w)
}

/// The seed survives the noise filter: no character a name never holds
/// (unless it opens with a numeral surname), and not a word that is never
/// a name.
pub open spec fn seed_ok(w: Seq<char>) -> bool {
    (!has_never_char(w) || allowed_numeric_name_spec(w)) && !listed(w, not_a_name())
}

/// The name the speech cluster anchored at `i` has when it is the whole
/// run before the verb, with punctuation or the line start on its left.
pub open spec fn clean_at(l: Seq<char>, i: int, w: Seq<char>) -> bool {
    exists|j: int|
        #![trigger cluster_start(l, i, j)]
        attributes(l, i, j) && 2 <= w.len() <= 4 && j >= w.len() && name_run(l, j - w.len(), j)
            && l.subrange(j - w.len(), j) == w && (j == w.len() || !cjk(l[j - w.len() - 1]))
}

pub open spec fn sat1(x: int) -> int {
    if x < 0xffff_ffff {
        x + 1
    } else {
        x
    }
}

/// Clean anchors of `w` among the first `n` positions of `l`, added to `a`
/// (saturating at `u32::MAX`).
pub open spec fn anchors_line(a: int, l: Seq<char>, w: Seq<char>, n: int) -> int
    decreases n,
{
    if n <= 0 {
        a
    } else {
        let s = anchors_line(a, l, w, n - 1);
        if clean_at(l, n - 1, w) {
            sat1(s)
        } else {
            s
        }
    }
}

/// Clean anchors of `w` in the first `p` paragraphs.
pub open spec fn anchors_upto(ls: Seq<Seq<char>>, w: Seq<char>, p: int) -> int
    decreases p,
{
    if p <= 0 {
        0
    } else {
        anchors_line(anchors_upto(ls, w, p - 1), ls[p - 1], w, ls[p - 1].len() as int)
    }
}

/// Walk back over the speech verbs that end at `i`.
fn cluster_open(l: &Vec<char>, i: usize) -> (j: usize)
    requires
        i < l@.len(),
        speech(l@[i as int]),
    ensures
        cluster_start(l@, i as int, j as int),
{
    let mut j = i;
    while j > 0 && is_speech(l[j - 1])
        invariant
            j <= i < l@.len(),
            forall|m: int| j <= m <= i ==> speech(#[trigger] l@[m]),
        decreases j,
    {
        j -= 1;
    }
    j
}

proof fn lemma_cluster_unique(l: Seq<char>, i: int, j1: int, j2: int)
    requires
        cluster_start(l, i, j1),
        cluster_start(l, i, j2),
    ensures
        j1 == j2,
{
    if j1 < j2 {
        assert(speech(l[j2 - 1]));
    }
    if j2 < j1 {
        assert(speech(l[j1 - 1]));
    }
}

/// Walk back over at most six CJK non-verb characters before `j`.
fn run_open(l: &Vec<char>, j: usize) -> (k: usize)
    requires
        j <= l@.len(),
    ensures
        k <= j,
        j - k <= 6,
        name_run(l@, k as int, j as int),
        k == 0 || j - k == 6 || !cjk(l@[k - 1]) || speech(l@[k - 1]),
{
    let mut k = j;
    while k > 0 && j - k < 6 && is_cjk(l[k - 1]) && !is_speech(l[k - 1])
        invariant
            k <= j <= l@.len(),
            j - k <= 6,
            name_run(l@, k as int, j as int),
        decreases k,
    {
        k -= 1;
    }
    k
}

/// Everything seeded so far: the keys (with repeats), the name under each
/// key, the clean-anchor counts under each key.
pub struct Harvest {
    pub keys: Vec<u128>,
    pub names: HashMap<u128, Vec<char>>,
    pub anchored: HashMap<u128, u32>,
}

/// The harvest is sound: every key is a seed's key and names its seed.
pub open spec fn sound(h: Harvest, ls: Seq<Seq<char>>) -> bool {
    &&& forall|t: int| 0 <= t < h.keys@.len() ==> h.names@.contains_key(#[trigger] h.keys@[t])
    &&& forall|k: u128| #[trigger] h.names@.contains_key(k) ==> h.keys@.contains(k)
    &&& forall|k: u128|
        #![trigger h.names@[k]]
        h.names@.contains_key(k) ==> {
            let w = h.names@[k]@;
            &&& key_of(w) == k
            &&& name_shape(w)
            &&& seed_ok(w)
            &&& seeded(ls, w)
        }
}

/// The anchor counts are right for every name shape after the first `p`
/// paragraphs and the first `i` positions of paragraph `p`.
pub open spec fn anchors_right(h: Harvest, ls: Seq<Seq<char>>, p: int, i: int) -> bool {
    forall|w: Seq<char>|
        #![trigger key_of(w)]
        name_shape(w) ==> {
            let c = if p < ls.len() {
                anchors_line(anchors_upto(ls, w, p), ls[p], w, i)
            } else {
                anchors_upto(ls, w, p)
            };
            &&& h.anchored@.contains_key(key_of(w) as u128) ==> h.anchored@[key_of(w) as u128] == c
            &&& !h.anchored@.contains_key(key_of(w) as u128) ==> c == 0
        }
}

/// The seed filter, computed.
fn seed_ok_exec(w: &[char], bad: &Vec<&'static str>) -> (r: bool)
    requires
        bad@ == not_a_name(),
    ensures
        r == seed_ok(w@),
{
    (!has_never_char_exec(w) || allowed_numeric_name(w)) && !is_listed(w, bad)
}

/// Record seed `w` when it survives the filter.
fn add_seed(h: &mut Harvest, w: Vec<char>, bad: &Vec<&'static str>, Ghost(ls): Ghost<Seq<Seq<char>>>)
    requires
        sound(*old(h), ls),
        name_shape(w@),
        seeded(ls, w@),
        bad@ == not_a_name(),
    ensures
        sound(*final(h), ls),
        final(h).anchored@ == old(h).anchored@,
        seed_ok(w@) ==> final(h).names@.contains_key(key_of(w@) as u128),
        forall|k: u128| old(h).names@.contains_key(k) ==> #[trigger] final(h).names@.contains_key(k),
{
    if seed_ok_exec(w.as_slice(), bad) {
        let k = key_exec(w.as_slice());
        let ghost wv = w@;
        h.keys.push(k);
        h.names.insert(k, w);
        assert(h.names@[k]@ == wv);
        assert forall|t: int| 0 <= t < h.keys@.len() implies h.names@.contains_key(#[trigger] h.keys@[t]) by {
            if t < h.keys@.len() - 1 {
                assert(old(h).keys@[t] == h.keys@[t]);
            }
        }
        assert forall|k2: u128| #[trigger] h.names@.contains_key(k2) implies h.keys@.contains(k2) by {
            if k2 == k {
                assert(h.keys@[h.keys@.len() - 1] == k);
            } else {
                assert(old(h).keys@.contains(k2));
                let t = choose|t: int| 0 <= t < old(h).keys@.len() && old(h).keys@[t] == k2;
                assert(h.keys@[t] == k2);
            }
        }
    }
}

/// The seeds found before a speech verb of line `l` (paragraph `p`), and
/// the clean anchors counted there.
#[verifier::rlimit(40)]
fn speech_pass(h: &mut Harvest, l: &Vec<char>, bad: &Vec<&'static str>, Ghost(ls): Ghost<Seq<Seq<char>>>, Ghost(p): Ghost<int>)
    requires
        0 <= p < ls.len(),
        ls[p] == l@,
        sound(*old(h), ls),
        anchors_right(*old(h), ls, p, 0),
        bad@ == not_a_name(),
    ensures
        sound(*final(h), ls),
        anchors_right(*final(h), ls, p, l@.len() as int),
        forall|k: u128| old(h).names@.contains_key(k) ==> #[trigger] final(h).names@.contains_key(k),
        forall|i: int, w: Seq<char>|
            #![trigger speech_seed_at(l@, i, w)]
            speech_seed_at(l@, i, w) && seed_ok(w) ==> final(h).names@.contains_key(key_of(w) as u128),
{
    let ghost d0 = h.names@;
    let n = l.len();
    let mut i: usize = 0;
    while i < n
        invariant
            n == l@.len(),
            0 <= p < ls.len(),
            ls[p] == l@,
            bad@ == not_a_name(),
            i <= n,
            sound(*h, ls),
            anchors_right(*h, ls, p, i as int),
            forall|k: u128| d0.contains_key(k) ==> #[trigger] h.names@.contains_key(k),
            forall|i2: int, w: Seq<char>|
                #![trigger speech_seed_at(l@, i2, w)]
                0 <= i2 < i && speech_seed_at(l@, i2, w) && seed_ok(w) ==> h.names@.contains_key(
                    key_of(w) as u128,
                ),
        decreases n - i,
    {
        let ghost li = l@;
        let ghost ii = i as int;
        let is_anchor = is_speech(l[i]) && !(i + 1 < n && is_speech(l[i + 1])) && after_ok(
            if i + 1 < n { Some(l[i + 1]) } else { None },
        );
        if !is_anchor {
            assert(!speech_anchor(li, ii));
            assert forall|w: Seq<char>| !speech_seed_at(li, ii, w) && !clean_at(li, ii, w) by {}
            assert(anchors_right(*h, ls, p, i + 1));
            i += 1;
            continue;
        }
        assert(speech_anchor(li, ii));
        let j = cluster_open(l, i);
        assert forall|j2: int| #[trigger] cluster_start(li, ii, j2) implies j2 == j by {
            lemma_cluster_unique(li, ii, j as int, j2);
        }
        if j > 0 && false_friend(l[j - 1], l[j]) {
            assert forall|w: Seq<char>| !speech_seed_at(li, ii, w) && !clean_at(li, ii, w) by {}
            assert(anchors_right(*h, ls, p, i + 1));
            i += 1;
            continue;
        }
        assert(attributes(li, ii, j as int));
        let k = run_open(l, j);
        let top = if j - k < 4 { j - k } else { 4 };
        let ghost h_before = *h;
        let mut len: usize = 2;
        while len <= top
            invariant
                n == l@.len(),
                li == l@,
                0 <= p < ls.len(),
                ls[p] == l@,
                bad@ == not_a_name(),
                i < n,
                ii == i,
                attributes(li, ii, j as int),
                k <= j,
                top <= j - k,
                top <= 4,
                name_run(li, k as int, j as int),
                2 <= len <= top + 1 || (len == 2 && top < 2),
                sound(*h, ls),
                h.anchored@ == h_before.anchored@,
                forall|k2: u128| h_before.names@.contains_key(k2) ==> #[trigger] h.names@.contains_key(k2),
                forall|m: int| 2 <= m < len && m <= top && seed_ok(li.subrange(j - m, j as int)) ==> #[trigger] h.names@.contains_key(
                    key_of(li.subrange(j - m, j as int)) as u128,
                ),
            decreases top + 1 - len,
        {
            let w = slice_vec(l.as_slice(), j - len, j);
            assert(speech_seed_at(li, ii, w@)) by {
                assert(cluster_start(li, ii, j as int));
            }
            assert(seeded_in(ls[p], w@));
            assert(seeded(ls, w@));
            assert(name_shape(w@)) by {
                assert forall|m: int| 0 <= m < w@.len() implies cjk(#[trigger] w@[m]) by {
                    assert(w@[m] == li[j - len + m]);
                }
            }
            add_seed(h, w, bad, Ghost(ls));
            len += 1;
        }
        assert forall|w: Seq<char>| speech_seed_at(li, ii, w) && seed_ok(w) implies h.names@.contains_key(
            key_of(w) as u128,
        ) by {
            let j2 = choose|j2: int|
                #![trigger cluster_start(li, ii, j2)]
                attributes(li, ii, j2) && 2 <= w.len() <= 4 && j2 >= w.len() && name_run(li, j2 - w.len(), j2)
                    && li.subrange(j2 - w.len(), j2) == w;
            assert(j2 == j);
            if w.len() > j - k {
                assert(cjk(li[k - 1]) && !speech(li[k - 1]));
            }
            assert(w.len() <= top);
            let m = w.len() as int;
            assert(li.subrange(j - m, j as int) == w);
        }
        // the clean anchor, when the whole run is the name
        let clean = 2 <= j - k && j - k <= 4 && (k == 0 || !is_cjk(l[k - 1]));
        if clean {
            let w0 = slice_vec(l.as_slice(), k, j);
            assert(name_shape(w0@)) by {
                assert forall|m: int| 0 <= m < w0@.len() implies cjk(#[trigger] w0@[m]) by {
                    assert(w0@[m] == li[k + m]);
                }
            }
            let key = key_exec(w0.as_slice());
            let cur: u32 = match h.anchored.get(&key) {
                Some(x) => *x,
                None => 0,
            };
            let next: u32 = if cur < 0xffff_ffff { cur + 1 } else { cur };
            let ghost before = *h;
            h.anchored.insert(key, next);
            assert(clean_at(li, ii, w0@)) by {
                assert(cluster_start(li, ii, j as int));
                assert(li.subrange(j - w0@.len(), j as int) == w0@);
            }
            assert forall|w: Seq<char>| #[trigger] clean_at(li, ii, w) implies w == w0@ by {
                let j2 = choose|j2: int|
                    #![trigger cluster_start(li, ii, j2)]
                    attributes(li, ii, j2) && 2 <= w.len() <= 4 && j2 >= w.len() && name_run(li, j2 - w.len(), j2)
                        && li.subrange(j2 - w.len(), j2) == w && (j2 == w.len() || !cjk(li[j2 - w.len() - 1]));
                assert(j2 == j);
                if w.len() > j - k {
                    assert(cjk(li[k - 1]) && !speech(li[k - 1]));
                }
                if w.len() < j - k {
                    assert(cjk(li[j - w.len() - 1]));
                }
                assert(w =~= w0@);
            }
            assert forall|w: Seq<char>| #![trigger key_of(w)] name_shape(w) && key_of(w) == key_of(w0@) implies w == w0@ by {
                lemma_key_injective(w, w0@);
            }
            assert(anchors_right(*h, ls, p, i + 1));
        } else {
            assert forall|w: Seq<char>| !clean_at(li, ii, w) by {
                if clean_at(li, ii, w) {
                    let j2 = choose|j2: int|
                        #![trigger cluster_start(li, ii, j2)]
                        attributes(li, ii, j2) && 2 <= w.len() <= 4 && j2 >= w.len() && name_run(li, j2 - w.len(), j2)
                            && li.subrange(j2 - w.len(), j2) == w && (j2 == w.len() || !cjk(li[j2 - w.len() - 1]));
                    assert(j2 == j);
                    if w.len() > j - k {
                        assert(cjk(li[k - 1]) && !speech(li[k - 1]));
                    }
                    if w.len() < j - k {
                        assert(cjk(li[j - w.len() - 1]));
                    }
                }
            }
            assert(anchors_right(*h, ls, p, i + 1));
        }
        i += 1;
    }
}

/// The seeds found right after an object cue of line `l` (paragraph `p`).
fn cue_pass(h: &mut Harvest, l: &Vec<char>, bad: &Vec<&'static str>, Ghost(ls): Ghost<Seq<Seq<char>>>, Ghost(p): Ghost<int>)
    requires
        0 <= p < ls.len(),
        ls[p] == l@,
        sound(*old(h), ls),
        bad@ == not_a_name(),
    ensures
        sound(*final(h), ls),
        final(h).anchored@ == old(h).anchored@,
        forall|k: u128| old(h).names@.contains_key(k) ==> #[trigger] final(h).names@.contains_key(k),
        forall|i: int, w: Seq<char>|
            #![trigger cue_seed_at(l@, i, w)]
            cue_seed_at(l@, i, w) && seed_ok(w) ==> final(h).names@.contains_key(key_of(w) as u128),
{
    let ghost d0 = h.names@;
    let ghost a0 = h.anchored@;
    let n = l.len();
    let mut i: usize = 0;
    while i < n
        invariant
            n == l@.len(),
            0 <= p < ls.len(),
            ls[p] == l@,
            bad@ == not_a_name(),
            i <= n,
            sound(*h, ls),
            h.anchored@ == a0,
            forall|k: u128| d0.contains_key(k) ==> #[trigger] h.names@.contains_key(k),
            forall|i2: int, w: Seq<char>|
                #![trigger cue_seed_at(l@, i2, w)]
                0 <= i2 < i && cue_seed_at(l@, i2, w) && seed_ok(w) ==> h.names@.contains_key(
                    key_of(w) as u128,
                ),
        decreases n - i,
    {
        let ghost li = l@;
        let ghost ii = i as int;
        if !is_object_cue(l[i]) {
            assert forall|w: Seq<char>| !cue_seed_at(li, ii, w) by {}
            i += 1;
            continue;
        }
        let mut e = i + 1;
        while e < n && e - i <= 3 && is_cjk(l[e])
            invariant
                n == l@.len(),
                i < e <= n,
                e - i <= 4,
                forall|m: int| i + 1 <= m < e ==> cjk(#[trigger] l@[m]),
            decreases n - e,
        {
            e += 1;
        }
        let top = if e - i - 1 < 3 { e - i - 1 } else { 3 };
        let ghost h_before = *h;
        let mut len: usize = 2;
        while len <= top
            invariant
                n == l@.len(),
                li == l@,
                0 <= p < ls.len(),
                ls[p] == l@,
                bad@ == not_a_name(),
                i < n,
                ii == i,
                object_cue(li[ii]),
                i < e <= n,
                top <= e - i - 1,
                top <= 3,
                forall|m: int| i + 1 <= m < e ==> cjk(#[trigger] li[m]),
                2 <= len <= top + 1 || (len == 2 && top < 2),
                sound(*h, ls),
                h.anchored@ == a0,
                forall|k2: u128| h_before.names@.contains_key(k2) ==> #[trigger] h.names@.contains_key(k2),
                forall|m: int| 2 <= m < len && m <= top && seed_ok(li.subrange(i + 1, i + 1 + m)) ==> #[trigger] h.names@.contains_key(
                    key_of(li.subrange(i + 1, i + 1 + m)) as u128,
                ),
            decreases top + 1 - len,
        {
            let w = slice_vec(l.as_slice(), i + 1, i + 1 + len);
            assert(cue_seed_at(li, ii, w@));
            assert(seeded_in(ls[p], w@));
            assert(seeded(ls, w@));
            assert(name_shape(w@)) by {
                assert forall|m: int| 0 <= m < w@.len() implies cjk(#[trigger] w@[m]) by {
                    assert(w@[m] == li[i + 1 + m]);
                }
            }
            add_seed(h, w, bad, Ghost(ls));
            len += 1;
        }
        assert forall|w: Seq<char>| cue_seed_at(li, ii, w) && seed_ok(w) implies h.names@.contains_key(
            key_of(w) as u128,
        ) by {
            if w.len() > e - i - 1 {
                assert(cjk(li[e as int]));
            }
            let m = w.len() as int;
            assert(li.subrange(i + 1, i + 1 + m) == w);
        }
        i += 1;
    }
}

/// Every seed of the first `p` paragraphs that survives the filter has
/// been recorded.
pub open spec fn complete_upto(h: Harvest, ls: Seq<Seq<char>>, p: int) -> bool {
    forall|q: int, w: Seq<char>|
        #![trigger seeded_in(ls[q], w)]
        0 <= q < p && seeded_in(ls[q], w) && seed_ok(w) ==> h.names@.contains_key(key_of(w) as u128)
}

pub open spec fn line_views(ps: Seq<(usize, Vec<char>)>) -> Seq<Seq<char>> {
    ps.map_values(|p: (usize, Vec<char>)| p.1@)
}

/// Seed every paragraph.
pub fn harvest(ps: &Vec<(usize, Vec<char>)>) -> (h: Harvest)
    ensures
        sound(h, line_views(ps@)),
        complete_upto(h, line_views(ps@), ps@.len() as int),
        anchors_right(h, line_views(ps@), ps@.len() as int, 0),
{
    let ghost ls = line_views(ps@);
    let bad = not_a_name_exec();
    let mut h = Harvest { keys: Vec::new(), names: HashMap::new(), anchored: HashMap::new() };
    assert(anchors_right(h, ls, 0, 0)) by {
        assert forall|w: Seq<char>| #![trigger key_of(w)] name_shape(w) implies (if 0 < ls.len() {
            anchors_line(anchors_upto(ls, w, 0), ls[0], w, 0)
        } else {
            anchors_upto(ls, w, 0)
        }) == 0 by {}
    }
    let mut p: usize = 0;
    while p < ps.len()
        invariant
            ls == line_views(ps@),
            bad@ == not_a_name(),
            p <= ps@.len(),
            sound(h, ls),
            complete_upto(h, ls, p as int),
            anchors_right(h, ls, p as int, 0),
        decreases ps.len() - p,
    {
        let l = &ps[p].1;
        assert(ls[p as int] == l@);
        let ghost d0 = h.names@;
        speech_pass(&mut h, l, &bad, Ghost(ls), Ghost(p as int));
        cue_pass(&mut h, l, &bad, Ghost(ls), Ghost(p as int));
        assert(complete_upto(h, ls, p + 1)) by {
            assert forall|q: int, w: Seq<char>|
                #![trigger seeded_in(ls[q], w)]
                0 <= q < p + 1 && seeded_in(ls[q], w) && seed_ok(w) implies h.names@.contains_key(key_of(w) as u128) by {
                if q < p {
                    assert(d0.contains_key(key_of(w) as u128));
                } else {
                    let i = choose|i: int| speech_seed_at(ls[q], i, w) || cue_seed_at(ls[q], i, w);
                    if speech_seed_at(l@, i, w) {
                    } else {
                        assert(cue_seed_at(l@, i, w));
                    }
                }
            }
        }
        assert(anchors_right(h, ls, p + 1, 0)) by {
            assert forall|w: Seq<char>| #![trigger key_of(w)] name_shape(w) implies anchors_line(
                anchors_upto(ls, w, p as int),
                ls[p as int],
                w,
                ls[p as int].len() as int,
            ) == anchors_upto(ls, w, p + 1) by {}
            if p + 1 < ls.len() {
                assert forall|w: Seq<char>| #![trigger key_of(w)] name_shape(w) implies anchors_line(
                    anchors_upto(ls, w, p + 1),
                    ls[p + 1],
                    w,
                    0,
                ) == anchors_upto(ls, w, p + 1) by {}
            }
        }
        p += 1;
    }
    h
}

proof fn lemma_seed_shape(ls: Seq<Seq<char>>, w: Seq<char>)
    requires
        seeded(ls, w),
    ensures
        name_shape(w),
{
    let p = choose|p: int| 0 <= p < ls.len() && seeded_in(#[trigger] ls[p], w);
    let l = ls[p];
    let i = choose|i: int| speech_seed_at(l, i, w) || cue_seed_at(l, i, w);
    if speech_seed_at(l, i, w) {
        let j = choose|j: int|
            #![trigger cluster_start(l, i, j)]
            attributes(l, i, j) && 2 <= w.len() <= 4 && j >= w.len() && name_run(l, j - w.len(), j)
                && l.subrange(j - w.len(), j) == w;
        assert forall|m: int| 0 <= m < w.len() implies cjk(#[trigger] w[m]) by {
            assert(w[m] == l[j - w.len() + m]);
        }
    } else {
        assert forall|m: int| 0 <= m < w.len() implies cjk(#[trigger] w[m]) by {
            assert(w[m] == l[i + 1 + m]);
        }
    }
}

/// The seeded names, each once, ascending by key, with their clean-anchor
/// counts.
pub fn distinct_names(h: &Harvest, Ghost(ls): Ghost<Seq<Seq<char>>>) -> (r: (Vec<Vec<char>>, Vec<u128>, Vec<u32>))
    requires
        sound(*h, ls),
        complete_upto(*h, ls, ls.len() as int),
        anchors_right(*h, ls, ls.len() as int, 0),
    ensures
        r.0@.len() == r.1@.len() == r.2@.len(),
        forall|t: int, u: int| 0 <= t < u < r.1@.len() ==> r.1@[t] < r.1@[u],
        forall|t: int|
            0 <= t < r.0@.len() ==> {
                &&& r.1@[t] == key_of(#[trigger] r.0@[t]@)
                &&& name_shape(r.0@[t]@)
                &&& seed_ok(r.0@[t]@)
                &&& seeded(ls, r.0@[t]@)
                &&& r.2@[t] == anchors_upto(ls, r.0@[t]@, ls.len() as int)
            },
        forall|w: Seq<char>| seeded(ls, w) && seed_ok(w) ==> exists|t: int| 0 <= t < r.0@.len() && #[trigger] r.0@[t]@ == w,
{
    broadcast use vstd::seq_lib::group_to_multiset_ensures;
    let mut wide: Vec<u128> = Vec::new();
    let mut q: usize = 0;
    while q < h.keys.len()
        invariant
            q <= h.keys@.len(),
            wide@ == h.keys@.take(q as int),
        decreases h.keys.len() - q,
    {
        wide.push(h.keys[q]);
        assert(wide@ =~= h.keys@.take(q + 1));
        q += 1;
    }
    assert(h.keys@.take(h.keys@.len() as int) =~= h.keys@);
    let ghost before = wide@;
    sort_u128(&mut wide);
    let ghost sorted = wide@;
    let ghost sm = sorted.map_values(|x: u128| x as int);
    let ghost bm = before.map_values(|x: u128| x as int);
    assert forall|k: u128| #[trigger] before.contains(k) implies sorted.contains(k) by {
        let t = choose|t: int| 0 <= t < before.len() && before[t] == k;
        assert(bm[t] == k as int);
        assert(bm.contains(k as int));
        assert(sm.to_multiset().count(k as int) > 0);
        assert(sm.contains(k as int));
        let u = choose|u: int| 0 <= u < sm.len() && #[trigger] sm[u] == k as int;
        assert(sorted[u] == k);
    }
    assert forall|u: int| 0 <= u < sorted.len() implies h.names@.contains_key(#[trigger] sorted[u]) by {
        assert(sm[u] == sorted[u] as int);
        assert(sm.contains(sorted[u] as int));
        assert(bm.to_multiset().count(sorted[u] as int) > 0);
        assert(bm.contains(sorted[u] as int));
        let t = choose|t: int| 0 <= t < bm.len() && #[trigger] bm[t] == sorted[u] as int;
        assert(before[t] == sorted[u]);
    }
    let mut uniq: Vec<u128> = Vec::new();
    let mut i: usize = 0;
    while i < wide.len()
        invariant
            sorted == wide@,
            forall|a: int, b: int| 0 <= a <= b < sorted.len() ==> sorted[a] <= sorted[b],
            i <= sorted.len(),
            forall|a: int, b: int| 0 <= a < b < uniq@.len() ==> uniq@[a] < uniq@[b],
            forall|a: int| 0 <= a < i ==> uniq@.contains(#[trigger] sorted[a]),
            forall|u: int| 0 <= u < uniq@.len() ==> exists|a: int| 0 <= a < i && sorted[a] == #[trigger] uniq@[u],
            i > 0 ==> uniq@.len() > 0 && uniq@.last() == sorted[i - 1],
            i == 0 ==> uniq@.len() == 0,
        decreases wide.len() - i,
    {
        let ghost pre = uniq@;
        if uniq.len() == 0 || uniq[uniq.len() - 1] != wide[i] {
            uniq.push(wide[i]);
            assert forall|a: int| 0 <= a < i + 1 implies uniq@.contains(#[trigger] sorted[a]) by {
                if a < i {
                    assert(pre.contains(sorted[a]));
                    let b = choose|b: int| 0 <= b < pre.len() && pre[b] == sorted[a];
                    assert(uniq@[b] == sorted[a]);
                } else {
                    assert(uniq@[uniq@.len() - 1] == sorted[a]);
                }
            }
            assert forall|u: int| 0 <= u < uniq@.len() implies exists|a: int| 0 <= a < i + 1 && sorted[a] == #[trigger] uniq@[u] by {
                if u < pre.len() {
                    assert(pre[u] == uniq@[u]);
                } else {
                    assert(sorted[i as int] == uniq@[u]);
                }
            }
        } else {
            assert(uniq@.contains(sorted[i as int])) by {
                assert(uniq@[uniq@.len() - 1] == sorted[i as int]);
            }
        }
        i += 1;
    }
    assert forall|u: int| 0 <= u < uniq@.len() implies h.names@.contains_key(#[trigger] uniq@[u]) by {
        let a = choose|a: int| 0 <= a < i && sorted[a] == #[trigger] uniq@[u];
        assert(h.names@.contains_key(sorted[a]));
    }
    let mut names: Vec<Vec<char>> = Vec::new();
    let mut anch: Vec<u32> = Vec::new();
    let mut t: usize = 0;
    while t < uniq.len()
        invariant
            sound(*h, ls),
            anchors_right(*h, ls, ls.len() as int, 0),
            forall|u: int| 0 <= u < uniq@.len() ==> h.names@.contains_key(#[trigger] uniq@[u]),
            t <= uniq@.len(),
            names@.len() == t,
            anch@.len() == t,
            forall|u: int|
                0 <= u < t ==> {
                    &&& uniq@[u] == key_of(#[trigger] names@[u]@)
                    &&& names@[u]@ == h.names@[uniq@[u]]@
                    &&& anch@[u] == anchors_upto(ls, names@[u]@, ls.len() as int)
                },
        decreases uniq.len() - t,
    {
        let k = uniq[t];
        assert(h.names@.contains_key(k));
        let w: Vec<char> = match h.names.get(&k) {
            Some(v) => slice_vec(v.as_slice(), 0, v.len()),
            None => Vec::new(),
        };
        assert(w@ =~= h.names@[k]@);
        let a: u32 = match h.anchored.get(&k) {
            Some(x) => *x,
            None => 0,
        };
        proof {
            let wv = w@;
            assert(key_of(wv) == k);
            assert(name_shape(wv));
        }
        names.push(w);
        anch.push(a);
        t += 1;
    }
    proof {
        assert forall|w: Seq<char>| seeded(ls, w) && seed_ok(w) implies exists|t: int| 0 <= t < names@.len() && #[trigger] names@[t]@ == w by {
            lemma_seed_shape(ls, w);
            let p = choose|p: int| 0 <= p < ls.len() && seeded_in(#[trigger] ls[p], w);
            let k = key_of(w) as u128;
            assert(h.names@.contains_key(k));
            assert(h.keys@.contains(k));
            assert(before.contains(k));
            assert(sorted.contains(k));
            let a = choose|a: int| 0 <= a < sorted.len() && sorted[a] == k;
            assert(uniq@.contains(sorted[a]));
            let u = choose|u: int| 0 <= u < uniq@.len() && uniq@[u] == k;
            assert(key_of(names@[u]@) == key_of(w));
            lemma_key_injective(names@[u]@, w);
        }
    }
    (names, uniq, anch)
}

} // verus!
