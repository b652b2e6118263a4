//! Character-level text primitives shared by every analysis module.
//!
//! All reasoning is done over `Seq<char>`, the view of a `&str` or `String`.
//! Byte offsets (the coordinates the reader anchors progress in) are defined
//! from the standard UTF-8 width of each character.
use vstd::prelude::*;

verus! {

// ------------------------------------------------------------------ specs

/// `w` occurs in `s` starting at character index `i`.
pub open spec fn sub_at(s: Seq<char>, w: Seq<char>, i: int) -> bool {
    0 <= i && i + w.len() <= s.len() && s.subrange(i, i + w.len()) == w
}

/// `s` contains `w` somewhere (the empty word is contained everywhere).
pub open spec fn occurs(s: Seq<char>, w: Seq<char>) -> bool {
    exists|i: int| sub_at(s, w, i)
}

pub open spec fn prefix(s: Seq<char>, w: Seq<char>) -> bool {
    sub_at(s, w, 0)
}

pub open spec fn suffix(s: Seq<char>, w: Seq<char>) -> bool {
    sub_at(s, w, s.len() - w.len())
}

/// First index at or after `i` where `w` occurs, or -1.
pub open spec fn first_at(s: Seq<char>, w: Seq<char>, i: int) -> int
    decreases s.len() + 1 - i,
{
    if i < 0 || i + w.len() > s.len() {
        -1
    } else if sub_at(s, w, i) {
        i
    } else {
        first_at(s, w, i + 1)
    }
}

/// Number of non-overlapping occurrences of a non-empty `w` in `s` at or
/// after `i`, scanning left to right (what `str::matches(..).count()` counts).
pub open spec fn count_from(s: Seq<char>, w: Seq<char>, i: int) -> nat
    decreases s.len() - i,
{
    if i < 0 || w.len() == 0 || i + w.len() > s.len() {
        0
    } else if sub_at(s, w, i) {
        1 + count_from(s, w, i + w.len())
    } else {
        count_from(s, w, i + 1)
    }
}

/// Some word of the list occurs in `s`.
pub open spec fn occurs_any(s: Seq<char>, words: Seq<&str>) -> bool {
    exists|k: int| 0 <= k < words.len() && occurs(s, #[trigger] words[k]@)
}

/// Unicode `White_Space`, the set `char::is_whitespace` tests.
pub open spec fn ws(c: char) -> bool {
    let u = c as u32;
    (0x09 <= u && u <= 0x0D) || u == 0x20 || u == 0x85 || u == 0xA0 || u == 0x1680
        || (0x2000 <= u && u <= 0x200A) || u == 0x2028 || u == 0x2029 || u == 0x202F
        || u == 0x205F || u == 0x3000
}

pub open spec fn trim_start(s: Seq<char>) -> Seq<char>
    decreases s.len(),
{
    if s.len() > 0 && ws(s[0]) {
        trim_start(s.drop_first())
    } else {
        s
    }
}

pub open spec fn trim_end(s: Seq<char>) -> Seq<char>
    decreases s.len(),
{
    if s.len() > 0 && ws(s.last()) {
        trim_end(s.drop_last())
    } else {
        s
    }
}

/// What `str::trim` leaves.
pub open spec fn trim(s: Seq<char>) -> Seq<char> {
    trim_end(trim_start(s))
}

/// ASCII decimal digit.
pub open spec fn digit(c: char) -> bool {
    '0' <= c && c <= '9'
}

pub open spec fn alnum(c: char) -> bool {
    ('0' <= c && c <= '9') || ('a' <= c && c <= 'z') || ('A' <= c && c <= 'Z')
}

/// Bytes `c` takes in UTF-8.
pub open spec fn width(c: char) -> nat {
    let u = c as u32;
    if u < 0x80 {
        1
    } else if u < 0x800 {
        2
    } else if u < 0x10000 {
        3
    } else {
        4
    }
}

/// Bytes `s` takes in UTF-8; `blen(s.take(i))` is the byte offset of
/// character `i`.
pub open spec fn blen(s: Seq<char>) -> nat
    decreases s.len(),
{
    if s.len() == 0 {
        0
    } else {
        blen(s.drop_last()) + width(s.last())
    }
}

/// The pieces of `s` between occurrences of `sep` (what `str::split(sep)`
/// yields): never empty, one more piece than there are separators.
pub open spec fn split(s: Seq<char>, sep: char) -> Seq<Seq<char>>
    decreases s.len(),
{
    if s.len() == 0 {
        seq![Seq::<char>::empty()]
    } else {
        let p = split(s.drop_last(), sep);
        if s.last() == sep {
            p.push(Seq::<char>::empty())
        } else {
            p.update(p.len() - 1, p.last().push(s.last()))
        }
    }
}

// ---------------------------------------------------------------- lemmas

pub proof fn lemma_blen_take(s: Seq<char>, i: int)
    requires
        0 <= i < s.len(),
    ensures
        blen(s.take(i + 1)) == blen(s.take(i)) + width(s[i]),
{
    assert(s.take(i + 1).drop_last() =~= s.take(i));
}

pub proof fn lemma_blen_mono(s: Seq<char>, i: int, j: int)
    requires
        0 <= i <= j <= s.len(),
    ensures
        blen(s.take(i)) <= blen(s.take(j)),
        blen(s.take(i)) + (j - i) <= blen(s.take(j)),
    decreases j - i,
{
    if i < j {
        lemma_blen_mono(s, i, j - 1);
        lemma_blen_take(s, j - 1);
    }
}

/// The bytes before `b` are those before `a` and those between.
pub proof fn lemma_blen_split(s: Seq<char>, a: int, b: int)
    requires
        0 <= a <= b <= s.len(),
    ensures
        blen(s.take(b)) == blen(s.take(a)) + blen(s.subrange(a, b)),
    decreases b - a,
{
    if b == a {
        assert(s.subrange(a, b).len() == 0);
    } else {
        lemma_blen_split(s, a, b - 1);
        lemma_blen_take(s, b - 1);
        assert(s.subrange(a, b).drop_last() =~= s.subrange(a, b - 1));
        assert(s.subrange(a, b).last() == s[b - 1]);
    }
}

pub proof fn lemma_blen_full(s: Seq<char>)
    ensures
        s.take(s.len() as int) == s,
{
    assert(s.take(s.len() as int) =~= s);
}

proof fn lemma_cw_encode(c: char)
    ensures
        vstd::utf8::encode_scalar(c as u32).len() == width(c),
{
    vstd::utf8::char_is_scalar(c);
}

proof fn lemma_blen_cons(s: Seq<char>)
    requires
        s.len() > 0,
    ensures
        blen(s) == width(s[0]) + blen(s.drop_first()),
    decreases s.len(),
{
    if s.len() == 1 {
        assert(s.drop_last().len() == 0);
        assert(s.drop_first().len() == 0);
        assert(blen(s.drop_first()) == 0);
        assert(blen(s.drop_last()) == 0);
    } else {
        lemma_blen_cons(s.drop_last());
        assert(s.drop_last().drop_first() =~= s.drop_first().drop_last());
        assert(s.drop_first().last() == s.last());
        assert(blen(s.drop_first()) == blen(s.drop_first().drop_last()) + width(
            s.drop_first().last(),
        ));
    }
}

/// The byte length of the UTF-8 encoding is `blen`.
pub proof fn lemma_blen_encode(s: Seq<char>)
    ensures
        vstd::utf8::encode_utf8(s).len() == blen(s),
    decreases s.len(),
{
    if s.len() > 0 {
        lemma_blen_encode(s.drop_first());
        lemma_cw_encode(s[0]);
        lemma_blen_cons(s);
    }
}

pub proof fn lemma_split_nonempty(s: Seq<char>, sep: char)
    ensures
        split(s, sep).len() >= 1,
    decreases s.len(),
{
    if s.len() > 0 {
        lemma_split_nonempty(s.drop_last(), sep);
    }
}

proof fn lemma_trim_start_shape(s: Seq<char>)
    ensures
        trim_start(s).len() == 0 || !ws(trim_start(s)[0]),
        exists|k: int| 0 <= k <= s.len() && trim_start(s) == s.skip(k),
    decreases s.len(),
{
    if s.len() > 0 && ws(s[0]) {
        lemma_trim_start_shape(s.drop_first());
        let k = choose|k: int| 0 <= k <= s.drop_first().len() && trim_start(s.drop_first()) == s.drop_first().skip(k);
        assert(s.drop_first().skip(k) =~= s.skip(k + 1));
    } else {
        assert(s.skip(0) =~= s);
    }
}

proof fn lemma_trim_end_shape(s: Seq<char>)
    ensures
        trim_end(s).len() == 0 || !ws(trim_end(s).last()),
        trim_end(s).len() <= s.len(),
        trim_end(s) == s.take(trim_end(s).len() as int),
    decreases s.len(),
{
    if s.len() > 0 && ws(s.last()) {
        lemma_trim_end_shape(s.drop_last());
        assert(s.drop_last().take(trim_end(s).len() as int) =~= s.take(trim_end(s).len() as int));
    } else {
        assert(s.take(s.len() as int) =~= s);
    }
}

/// Trimming twice trims nothing more.
pub proof fn lemma_trim_trim(s: Seq<char>)
    ensures
        trim(trim(s)) == trim(s),
        trim(s).len() == 0 || (!ws(trim(s)[0]) && !ws(trim(s).last())),
{
    let y = trim_start(s);
    lemma_trim_start_shape(s);
    let z = trim_end(y);
    lemma_trim_end_shape(y);
    if z.len() > 0 {
        assert(z[0] == y[0]);
    }
    assert(trim_start(z) == z);
    assert(trim_end(z) == z);
}

// ---------------------------------------------------------------- exec

/// The characters of a string, in order.
pub fn to_chars(s: &str) -> (v: Vec<char>)
    ensures
        v@ == s@,
{
    let mut v: Vec<char> = Vec::new();
    for c in it: s.chars()
        invariant
            v@ == it.seq().take(it.index() as int),
            it.seq() == s@,
    {
        v.push(c);
    }
    proof {
        lemma_blen_full(s@);
    }
    v
}

/// A string holding exactly these characters.
#[verifier::external_body]
pub fn from_chars(v: &[char]) -> (s: String)
    ensures
        s@ == v@,
{
    v.iter().collect()
}

/// The characters `v[start..end]` as a string.
pub fn string_of(v: &[char], start: usize, end: usize) -> (s: String)
    requires
        start <= end <= v.len(),
    ensures
        s@ == v@.subrange(start as int, end as int),
{
    let mut out: Vec<char> = Vec::new();
    let mut i = start;
    while i < end
        invariant
            start <= i <= end <= v.len(),
            out@ == v@.subrange(start as int, i as int),
        decreases end - i,
    {
        out.push(v[i]);
        i += 1;
        assert(out@ =~= v@.subrange(start as int, i as int));
    }
    from_chars(out.as_slice())
}

pub fn is_ws(c: char) -> (r: bool)
    ensures
        r == ws(c),
{
    let u = c as u32;
    (0x09 <= u && u <= 0x0D) || u == 0x20 || u == 0x85 || u == 0xA0 || u == 0x1680 || (0x2000
        <= u && u <= 0x200A) || u == 0x2028 || u == 0x2029 || u == 0x202F || u == 0x205F || u
        == 0x3000
}

pub fn is_digit(c: char) -> (r: bool)
    ensures
        r == digit(c),
{
    '0' <= c && c <= '9'
}

pub fn is_ascii_alnum(c: char) -> (r: bool)
    ensures
        r == alnum(c),
{
    ('0' <= c && c <= '9') || ('a' <= c && c <= 'z') || ('A' <= c && c <= 'Z')
}

pub fn cw(c: char) -> (n: usize)
    ensures
        n == width(c),
{
    let u = c as u32;
    if u < 0x80 {
        1
    } else if u < 0x800 {
        2
    } else if u < 0x10000 {
        3
    } else {
        4
    }
}

/// Does `w` occur in `s` at `i`?
pub fn matches_at(s: &[char], w: &[char], i: usize) -> (r: bool)
    ensures
        r == sub_at(s@, w@, i as int),
{
    if i > s.len() || w.len() > s.len() - i {
        return false;
    }
    let mut k: usize = 0;
    while k < w.len()
        invariant
            i + w.len() <= s.len(),
            k <= w.len(),
            forall|j: int| 0 <= j < k ==> s@[i + j] == w@[j],
        decreases w.len() - k,
    {
        if s[i + k] != w[k] {
            assert(s@.subrange(i as int, i + w.len())[k as int] != w@[k as int]);
            return false;
        }
        k += 1;
    }
    assert(s@.subrange(i as int, i + w.len()) =~= w@);
    true
}

/// First occurrence of `w` at or after `from`.
pub fn find_from(s: &[char], w: &[char], from: usize) -> (r: Option<usize>)
    ensures
        match r {
            Some(i) => first_at(s@, w@, from as int) == i as int,
            None => first_at(s@, w@, from as int) == -1,
        },
{
    if from > s.len() || w.len() > s.len() - from {
        return None;
    }
    let last = s.len() - w.len();
    let mut i = from;
    while i <= last
        invariant
            from <= i,
            last == s.len() - w.len(),
            from <= last + 1,
            first_at(s@, w@, from as int) == first_at(s@, w@, i as int),
        decreases last + 1 - i,
    {
        if matches_at(s, w, i) {
            return Some(i);
        }
        if i == last {
            assert(first_at(s@, w@, i + 1) == -1);
            return None;
        }
        i += 1;
    }
    None
}

pub proof fn lemma_first_at(s: Seq<char>, w: Seq<char>, i: int)
    requires
        0 <= i,
    ensures
        first_at(s, w, i) >= 0 ==> (i <= first_at(s, w, i) && sub_at(s, w, first_at(s, w, i))),
        first_at(s, w, i) >= 0 ==> forall|j: int| i <= j < first_at(s, w, i) ==> !sub_at(s, w, j),
        first_at(s, w, i) < 0 ==> first_at(s, w, i) == -1 && forall|j: int| i <= j ==> !sub_at(s, w, j),
    decreases s.len() + 1 - i,
{
    if i + w.len() > s.len() {
    } else if sub_at(s, w, i) {
    } else {
        lemma_first_at(s, w, i + 1);
        assert forall|j: int| i <= j < first_at(s, w, i) implies !sub_at(s, w, j) by {
            if j > i {
            }
        }
    }
}

/// `w` occurs somewhere in `s`.
pub fn contains(s: &[char], w: &[char]) -> (r: bool)
    ensures
        r == occurs(s@, w@),
{
    let f = find_from(s, w, 0);
    proof {
        lemma_first_at(s@, w@, 0);
    }
    match f {
        Some(i) => true,
        None => false,
    }
}

/// `w` occurs somewhere in `s` (string form).
pub fn str_contains(s: &str, w: &str) -> (r: bool)
    ensures
        r == occurs(s@, w@),
{
    let sv = to_chars(s);
    let wv = to_chars(w);
    contains(sv.as_slice(), wv.as_slice())
}

/// Some word of `words` occurs in `s`.
pub fn contains_any(s: &[char], words: &[&str]) -> (r: bool)
    ensures
        r == occurs_any(s@, words@),
{
    let mut k: usize = 0;
    while k < words.len()
        invariant
            k <= words.len(),
            forall|j: int| 0 <= j < k ==> !occurs(s@, #[trigger] words@[j]@),
        decreases words.len() - k,
    {
        let w = to_chars(words[k]);
        if contains(s, w.as_slice()) {
            return true;
        }
        k += 1;
    }
    false
}

pub fn starts_with(s: &[char], w: &[char]) -> (r: bool)
    ensures
        r == prefix(s@, w@),
{
    matches_at(s, w, 0)
}

pub fn ends_with(s: &[char], w: &[char]) -> (r: bool)
    ensures
        r == suffix(s@, w@),
{
    if w.len() > s.len() {
        return false;
    }
    matches_at(s, w, s.len() - w.len())
}

/// Non-overlapping occurrences of a non-empty `w`.
pub fn count_matches(s: &[char], w: &[char]) -> (n: usize)
    requires
        w.len() > 0,
    ensures
        n == count_from(s@, w@, 0),
{
    let mut i: usize = 0;
    let mut n: usize = 0;
    while i < s.len() && w.len() <= s.len() - i
        invariant
            w.len() > 0,
            i <= s.len(),
            n <= i,
            n + count_from(s@, w@, i as int) == count_from(s@, w@, 0),
        decreases s.len() - i,
    {
        if matches_at(s, w, i) {
            n += 1;
            i += w.len();
        } else {
            i += 1;
        }
    }
    n
}

/// Character index ranges of `str::trim`.
pub fn trim_range(s: &[char], start: usize, end: usize) -> (r: (usize, usize))
    requires
        start <= end <= s.len(),
    ensures
        start <= r.0 <= r.1 <= end,
        s@.subrange(r.0 as int, r.1 as int) == trim(s@.subrange(start as int, end as int)),
        s@.subrange(r.0 as int, end as int) == trim_start(s@.subrange(start as int, end as int)),
{
    let mut a = start;
    while a < end && is_ws(s[a])
        invariant
            start <= a <= end <= s.len(),
            trim_start(s@.subrange(start as int, end as int)) == trim_start(
                s@.subrange(a as int, end as int),
            ),
        decreases end - a,
    {
        assert(s@.subrange(a as int, end as int).drop_first() =~= s@.subrange(
            a + 1,
            end as int,
        ));
        a += 1;
    }
    assert(trim_start(s@.subrange(a as int, end as int)) == s@.subrange(a as int, end as int));
    let mut b = end;
    while b > a && is_ws(s[b - 1])
        invariant
            start <= a <= b <= end <= s.len(),
            trim_end(s@.subrange(a as int, end as int)) == trim_end(
                s@.subrange(a as int, b as int),
            ),
        decreases b - a,
    {
        assert(s@.subrange(a as int, b as int).drop_last() =~= s@.subrange(
            a as int,
            b - 1,
        ));
        b -= 1;
    }
    (a, b)
}

/// Where `s[start..end].trim_end()` stops.
pub fn trim_end_at(s: &[char], start: usize, end: usize) -> (b: usize)
    requires
        start <= end <= s.len(),
    ensures
        start <= b <= end,
        s@.subrange(start as int, b as int) == trim_end(s@.subrange(start as int, end as int)),
{
    let mut b = end;
    while b > start && is_ws(s[b - 1])
        invariant
            start <= b <= end <= s.len(),
            trim_end(s@.subrange(start as int, end as int)) == trim_end(
                s@.subrange(start as int, b as int),
            ),
        decreases b - start,
    {
        assert(s@.subrange(start as int, b as int).drop_last() =~= s@.subrange(
            start as int,
            b - 1,
        ));
        b -= 1;
    }
    b
}

/// Where `s[start..end].trim_start()` begins.
pub fn trim_start_at(s: &[char], start: usize, end: usize) -> (a: usize)
    requires
        start <= end <= s.len(),
    ensures
        start <= a <= end,
        s@.subrange(a as int, end as int) == trim_start(s@.subrange(start as int, end as int)),
{
    let mut a = start;
    while a < end && is_ws(s[a])
        invariant
            start <= a <= end <= s.len(),
            trim_start(s@.subrange(start as int, end as int)) == trim_start(
                s@.subrange(a as int, end as int),
            ),
        decreases end - a,
    {
        assert(s@.subrange(a as int, end as int).drop_first() =~= s@.subrange(
            a + 1,
            end as int,
        ));
        a += 1;
    }
    a
}

/// `str::trim` on a whole string, as characters.
pub fn trim_chars(s: &[char]) -> (r: Vec<char>)
    ensures
        r@ == trim(s@),
{
    let (a, b) = trim_range(s, 0, s.len());
    assert(s@.subrange(0, s@.len() as int) =~= s@);
    let mut out: Vec<char> = Vec::new();
    let mut i = a;
    while i < b
        invariant
            a <= i <= b <= s.len(),
            out@ == s@.subrange(a as int, i as int),
        decreases b - i,
    {
        out.push(s[i]);
        i += 1;
        assert(out@ =~= s@.subrange(a as int, i as int));
    }
    out
}

/// A copy of `v[start..end]`.
pub fn slice_vec(v: &[char], start: usize, end: usize) -> (r: Vec<char>)
    requires
        start <= end <= v.len(),
    ensures
        r@ == v@.subrange(start as int, end as int),
{
    let mut out: Vec<char> = Vec::new();
    let mut i = start;
    while i < end
        invariant
            start <= i <= end <= v.len(),
            out@ == v@.subrange(start as int, i as int),
        decreases end - i,
    {
        out.push(v[i]);
        i += 1;
        assert(out@ =~= v@.subrange(start as int, i as int));
    }
    out
}

/// Does `c` occur in `s`?
pub fn has_char(s: &[char], c: char) -> (r: bool)
    ensures
        r == s@.contains(c),
{
    let mut i: usize = 0;
    while i < s.len()
        invariant
            i <= s.len(),
            forall|j: int| 0 <= j < i ==> s@[j] != c,
        decreases s.len() - i,
    {
        if s[i] == c {
            return true;
        }
        i += 1;
    }
    false
}

/// Does `c` occur in the string `set`?
pub fn in_set(set: &str, c: char) -> (r: bool)
    ensures
        r == set@.contains(c),
{
    let v = to_chars(set);
    has_char(v.as_slice(), c)
}

/// The pieces named by character ranges of `v`.
pub open spec fn pieces(v: Seq<char>, r: Seq<(usize, usize)>) -> Seq<Seq<char>> {
    r.map_values(|p: (usize, usize)| v.subrange(p.0 as int, p.1 as int))
}

/// `r` tiles `v` into runs separated by single `sep` characters, none of
/// which holds `sep`.
pub open spec fn tiles(v: Seq<char>, r: Seq<(usize, usize)>, sep: char) -> bool {
    &&& r.len() >= 1
    &&& r[0].0 == 0
    &&& r.last().1 == v.len()
    &&& forall|k: int| 0 <= k < r.len() ==> (#[trigger] r[k]).0 <= r[k].1 <= v.len()
    &&& forall|k: int| 0 <= k < r.len() - 1 ==> #[trigger] r[k + 1].0 == r[k].1 + 1
    &&& forall|k: int| 0 <= k < r.len() - 1 ==> v[(#[trigger] r[k]).1 as int] == sep
    &&& forall|k: int, j: int| #![trigger r[k], v[j]] 0 <= k < r.len() && r[k].0 <= j < r[k].1 ==> v[j] != sep
}

/// The character ranges of `v.split(sep)`.
#[verifier::spinoff_prover]
#[verifier::rlimit(40)]
pub fn split_ranges(v: &[char], sep: char) -> (r: Vec<(usize, usize)>)
    ensures
        pieces(v@, r@) == split(v@, sep),
        tiles(v@, r@, sep),
{
    let mut r: Vec<(usize, usize)> = Vec::new();
    let mut cur: usize = 0;
    let mut i: usize = 0;
    assert(v@.take(0) =~= Seq::<char>::empty());
    assert(pieces(v@, r@).push(v@.subrange(0, 0)) =~= seq![Seq::<char>::empty()]);
    while i < v.len()
        invariant
            cur <= i <= v.len(),
            split(v@.take(i as int), sep) == pieces(v@, r@).push(v@.subrange(cur as int, i as int)),
            r@.len() == 0 ==> cur == 0,
            r@.len() > 0 ==> r@[0].0 == 0 && cur == r@.last().1 + 1,
            forall|k: int| 0 <= k < r@.len() ==> (#[trigger] r@[k]).0 <= r@[k].1 < i,
            forall|k: int| 0 <= k < r@.len() - 1 ==> #[trigger] r@[k + 1].0 == r@[k].1 + 1,
            forall|k: int| 0 <= k < r@.len() ==> v@[(#[trigger] r@[k]).1 as int] == sep,
            forall|k: int, j: int| #![trigger r@[k], v@[j]] 0 <= k < r@.len() && r@[k].0 <= j < r@[k].1 ==> v@[j] != sep,
            forall|j: int| cur <= j < i ==> v@[j] != sep,
        decreases v.len() - i,
    {
        assert(v@.take(i + 1).drop_last() =~= v@.take(i as int));
        assert(v@.take(i + 1).last() == v@[i as int]);
        let ghost old_pieces = pieces(v@, r@);
        if v[i] == sep {
            r.push((cur, i));
            assert(pieces(v@, r@) =~= old_pieces.push(v@.subrange(cur as int, i as int)));
            cur = i + 1;
            assert(v@.subrange(cur as int, cur as int) =~= Seq::<char>::empty());
        } else {
            assert(v@.subrange(cur as int, i + 1) =~= v@.subrange(cur as int, i as int).push(v@[i as int]));
        }
        i += 1;
    }
    assert(v@.take(v@.len() as int) =~= v@);
    let ghost before = pieces(v@, r@);
    r.push((cur, v.len()));
    assert(pieces(v@, r@) =~= before.push(v@.subrange(cur as int, v@.len() as int)));
    r
}

/// The decimal digit for `d < 10`.
pub open spec fn digit_char(d: nat) -> char {
    if d == 0 { '0' } else if d == 1 { '1' } else if d == 2 { '2' } else if d == 3 { '3' }
    else if d == 4 { '4' } else if d == 5 { '5' } else if d == 6 { '6' } else if d == 7 { '7' }
    else if d == 8 { '8' } else { '9' }
}

fn digit_of(d: u64) -> (c: char)
    requires
        d < 10,
    ensures
        c == digit_char(d as nat),
{
    if d == 0 { '0' } else if d == 1 { '1' } else if d == 2 { '2' } else if d == 3 { '3' }
    else if d == 4 { '4' } else if d == 5 { '5' } else if d == 6 { '6' } else if d == 7 { '7' }
    else if d == 8 { '8' } else { '9' }
}

/// Decimal digits of `n`, most significant first.
pub open spec fn dec(n: nat) -> Seq<char>
    decreases n,
{
    if n < 10 {
        seq![digit_char(n)]
    } else {
        dec(n / 10).push(digit_char(n % 10))
    }
}

/// Decimal spelling of `n`.
pub fn decimal(n: u64) -> (r: Vec<char>)
    ensures
        r@ == dec(n as nat),
    decreases n,
{
    let c = digit_of(n % 10);
    if n < 10 {
        let mut v: Vec<char> = Vec::new();
        v.push(c);
        v
    } else {
        let mut v = decimal(n / 10);
        v.push(c);
        v
    }
}

/// Byte offsets of every character boundary: `r[i] == blen(s.take(i))`.
pub fn byte_offsets(s: &[char]) -> (r: Vec<usize>)
    requires
        blen(s@) <= usize::MAX,
    ensures
        r@.len() == s@.len() + 1,
        forall|i: int| 0 <= i <= s@.len() ==> r@[i] == blen(#[trigger] s@.take(i)),
{
    let mut r: Vec<usize> = Vec::new();
    r.push(0);
    assert(s@.take(0).len() == 0);
    let mut acc: usize = 0;
    let mut i: usize = 0;
    while i < s.len()
        invariant
            i <= s.len(),
            blen(s@) <= usize::MAX,
            r@.len() == i + 1,
            acc == blen(s@.take(i as int)),
            forall|j: int| 0 <= j <= i ==> r@[j] == blen(#[trigger] s@.take(j)),
        decreases s.len() - i,
    {
        proof {
            lemma_blen_take(s@, i as int);
            lemma_blen_mono(s@, i + 1, s@.len() as int);
            lemma_blen_full(s@);
        }
        acc = acc + cw(s[i]);
        i += 1;
        r.push(acc);
    }
    r
}

/// The byte length of a string is the UTF-8 length of its characters.
pub fn str_blen(s: &str) -> (n: usize)
    ensures
        n == blen(s@),
{
    proof {
        lemma_blen_encode(s@);
    }
    s.as_bytes().len()
}

/// `a` sorts before `b`: the first differing character decides, and a
/// proper prefix comes first (the order of `str`'s `Ord`, whose byte order
/// on UTF-8 is the order of the characters).
pub open spec fn lex_lt(a: Seq<char>, b: Seq<char>) -> bool
    decreases a.len(),
{
    if a.len() == 0 {
        b.len() > 0
    } else if b.len() == 0 {
        false
    } else if a[0] != b[0] {
        (a[0] as u32) < (b[0] as u32)
    } else {
        lex_lt(a.drop_first(), b.drop_first())
    }
}

pub proof fn lemma_lex_trans(a: Seq<char>, b: Seq<char>, c: Seq<char>)
    requires
        lex_lt(a, b),
        lex_lt(b, c),
    ensures
        lex_lt(a, c),
    decreases a.len(),
{
    if a.len() > 0 && b.len() > 0 && c.len() > 0 && a[0] == b[0] && b[0] == c[0] {
        lemma_lex_trans(a.drop_first(), b.drop_first(), c.drop_first());
    }
}

pub proof fn lemma_lex_irrefl(a: Seq<char>)
    ensures
        !lex_lt(a, a),
    decreases a.len(),
{
    if a.len() > 0 {
        lemma_lex_irrefl(a.drop_first());
    }
}

pub proof fn lemma_lex_asym(a: Seq<char>, b: Seq<char>)
    requires
        lex_lt(a, b),
    ensures
        !lex_lt(b, a),
    decreases a.len(),
{
    if a.len() > 0 && b.len() > 0 && a[0] == b[0] {
        lemma_lex_asym(a.drop_first(), b.drop_first());
    }
}

pub proof fn lemma_lex_total(a: Seq<char>, b: Seq<char>)
    requires
        a != b,
    ensures
        lex_lt(a, b) || lex_lt(b, a),
    decreases a.len(),
{
    if a.len() > 0 && b.len() > 0 && a[0] == b[0] {
        if a.drop_first() == b.drop_first() {
            assert(a =~= seq![a[0]] + a.drop_first());
            assert(b =~= seq![b[0]] + b.drop_first());
        }
        lemma_lex_total(a.drop_first(), b.drop_first());
    } else if a.len() == 0 && b.len() == 0 {
        assert(a =~= b);
    } else if a.len() > 0 && b.len() > 0 {
        vstd::utf8::char_is_scalar(a[0]);
        vstd::utf8::char_is_scalar(b[0]);
        vstd::utf8::char_u32_cast(a[0], a[0] as u32);
        vstd::utf8::char_u32_cast(b[0], b[0] as u32);
        assert((a[0] as u32) != (b[0] as u32));
    }
}

pub fn lex_less(a: &[char], b: &[char]) -> (r: bool)
    ensures
        r == lex_lt(a@, b@),
{
    let mut i: usize = 0;
    assert(a@.skip(0) =~= a@);
    assert(b@.skip(0) =~= b@);
    while i < a.len() && i < b.len() && a[i] == b[i]
        invariant
            i <= a@.len(),
            i <= b@.len(),
            lex_lt(a@, b@) == lex_lt(a@.skip(i as int), b@.skip(i as int)),
        decreases a.len() - i,
    {
        assert(a@.skip(i as int).drop_first() =~= a@.skip(i + 1));
        assert(b@.skip(i as int).drop_first() =~= b@.skip(i + 1));
        i += 1;
    }
    if i == a.len() {
        assert(a@.skip(i as int).len() == 0);
        i < b.len()
    } else if i == b.len() {
        assert(b@.skip(i as int).len() == 0);
        false
    } else {
        assert(a@.skip(i as int)[0] == a@[i as int]);
        assert(b@.skip(i as int)[0] == b@[i as int]);
        proof {
            vstd::utf8::char_is_scalar(a@[i as int]);
            vstd::utf8::char_is_scalar(b@[i as int]);
        }
        (a[i] as u32) < (b[i] as u32)
    }
}

/// Sort integers ascending, with `slice::sort_unstable`: the result holds
/// the same values, each as often as before, in ascending order.
#[verifier::external_body]
pub fn sort_u128(v: &mut Vec<u128>)
    ensures
        final(v)@.len() == old(v)@.len(),
        final(v)@.map_values(|x: u128| x as int).to_multiset() == old(v)@.map_values(
            |x: u128| x as int,
        ).to_multiset(),
        forall|i: int, j: int| 0 <= i <= j < final(v)@.len() ==> final(v)@[i] <= final(v)@[j],
{
    v.sort_unstable();
}

/// Append `v[from..to]` to `out`.
pub fn push_range(out: &mut Vec<char>, v: &[char], from: usize, to: usize)
    requires
        from <= to <= v@.len(),
    ensures
        final(out)@ == old(out)@ + v@.subrange(from as int, to as int),
{
    let ghost b0 = out@;
    let mut i = from;
    while i < to
        invariant
            from <= i <= to <= v@.len(),
            out@ == b0 + v@.subrange(from as int, i as int),
        decreases to - i,
    {
        out.push(v[i]);
        i += 1;
        assert(out@ =~= b0 + v@.subrange(from as int, i as int));
    }
}

/// Append all of `v` to `out`.
pub fn push_all(out: &mut Vec<char>, v: &[char])
    ensures
        final(out)@ == old(out)@ + v@,
{
    push_range(out, v, 0, v.len());
    assert(v@.subrange(0, v@.len() as int) =~= v@);
}

} // verus!
