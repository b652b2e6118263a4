//! The grammar of a selector rule in a book source: where its index and its
//! content spec end, read from the rule text alone.
use vstd::prelude::*;
use crate::text::{string_of, to_chars};

verus! {

/// A character of a numeric index list: a digit, `-`, `,` or a space.
pub open spec fn index_char(c: char) -> bool {
    ('0' <= c && c <= '9') || c == '-' || c == ',' || c == ' '
}

/// A non-empty run of index characters holding at least one digit.
pub open spec fn numeric(s: Seq<char>) -> bool {
    &&& s.len() > 0
    &&& forall|i: int| 0 <= i < s.len() ==> index_char(#[trigger] s[i])
    &&& exists|i: int| 0 <= i < s.len() && '0' <= #[trigger] s[i] && s[i] <= '9'
}

/// The first position of `c` in `s`, or -1.
pub open spec fn first_of(s: Seq<char>, c: char, k: int) -> int
    decreases s.len() - k,
{
    if k < 0 || k >= s.len() {
        -1
    } else if s[k] == c {
        k
    } else {
        first_of(s, c, k + 1)
    }
}

/// The last position of `c` among the first `k` characters, or -1.
pub open spec fn last_of(s: Seq<char>, c: char, k: int) -> int
    decreases k,
{
    if k <= 0 {
        -1
    } else if s[k - 1] == c {
        k - 1
    } else {
        last_of(s, c, k - 1)
    }
}

/// A non-empty run of digits and `-`.
pub open spec fn dotted_index(s: Seq<char>) -> bool {
    s.len() > 0 && forall|i: int| 0 <= i < s.len() ==> ('0' <= #[trigger] s[i] && s[i] <= '9') || s[i] == '-'
}

/// A selector segment and the index at its end: `a!0,1` and `a[0,2]` keep
/// their mark, `a.-1` loses the dot; an attribute selector (`a[href]`) or a
/// class (`.v-title`) is no index.
pub open spec fn split_index_spec(seg: Seq<char>) -> (Seq<char>, Seq<char>) {
    let bang = first_of(seg, '!', 0);
    let open = last_of(seg, '[', seg.len() as int);
    let dot = last_of(seg, '.', seg.len() as int);
    if bang >= 0 && numeric(seg.subrange(bang + 1, seg.len() as int)) {
        (seg.take(bang), seg.skip(bang))
    } else if open >= 0 && seg.len() > 0 && seg.last() == ']' && open + 1 <= seg.len() - 1 && numeric(
        seg.subrange(open + 1, seg.len() - 1),
    ) {
        (seg.take(open), seg.skip(open))
    } else if dot >= 0 && dotted_index(seg.skip(dot + 1)) {
        (seg.take(dot), seg.skip(dot + 1))
    } else {
        (seg, Seq::empty())
    }
}

fn first_exec(s: &Vec<char>, c: char) -> (r: i64)
    requires
        s@.len() < i64::MAX,
    ensures
        r as int == first_of(s@, c, 0),
{
    let mut k: usize = 0;
    while k < s.len()
        invariant
            k <= s@.len() < i64::MAX,
            first_of(s@, c, 0) == first_of(s@, c, k as int),
        decreases s.len() - k,
    {
        if s[k] == c {
            return k as i64;
        }
        k += 1;
    }
    -1
}

fn last_exec(s: &Vec<char>, c: char) -> (r: i64)
    requires
        s@.len() < i64::MAX,
    ensures
        r as int == last_of(s@, c, s@.len() as int),
        -1 <= r < s@.len(),
{
    let mut k: usize = s.len();
    while k > 0
        invariant
            k <= s@.len() < i64::MAX,
            last_of(s@, c, s@.len() as int) == last_of(s@, c, k as int),
        decreases k,
    {
        if s[k - 1] == c {
            return (k - 1) as i64;
        }
        k -= 1;
    }
    -1
}

proof fn lemma_first_range(s: Seq<char>, c: char, k: int)
    requires
        0 <= k,
    ensures
        -1 <= first_of(s, c, k) < s.len(),
        first_of(s, c, k) >= 0 ==> k <= first_of(s, c, k),
    decreases s.len() - k,
{
    if k < s.len() && s[k] != c {
        lemma_first_range(s, c, k + 1);
    }
}

fn is_numeric(s: &Vec<char>, a: usize, b: usize) -> (r: bool)
    requires
        a <= b <= s@.len(),
    ensures
        r == numeric(s@.subrange(a as int, b as int)),
{
    let ghost t = s@.subrange(a as int, b as int);
    let mut digit = false;
    let mut i = a;
    while i < b
        invariant
            a <= i <= b <= s@.len(),
            t == s@.subrange(a as int, b as int),
            forall|j: int| 0 <= j < i - a ==> index_char(#[trigger] t[j]),
            digit == exists|j: int| 0 <= j < i - a && '0' <= #[trigger] t[j] && t[j] <= '9',
        decreases b - i,
    {
        let c = s[i];
        assert(t[i - a] == c);
        if !(('0' <= c && c <= '9') || c == '-' || c == ',' || c == ' ') {
            return false;
        }
        if '0' <= c && c <= '9' {
            digit = true;
        }
        i += 1;
    }
    b > a && digit
}

fn is_dotted(s: &Vec<char>, a: usize) -> (r: bool)
    requires
        a <= s@.len(),
    ensures
        r == dotted_index(s@.skip(a as int)),
{
    let ghost t = s@.skip(a as int);
    let mut i = a;
    while i < s.len()
        invariant
            a <= i <= s@.len(),
            t == s@.skip(a as int),
            forall|j: int| 0 <= j < i - a ==> ('0' <= #[trigger] t[j] && t[j] <= '9') || t[j] == '-',
        decreases s.len() - i,
    {
        let c = s[i];
        assert(t[i - a] == c);
        if !(('0' <= c && c <= '9') || c == '-') {
            return false;
        }
        i += 1;
    }
    s.len() > a
}

/// Peel the index off the end of a selector segment, only when it is
/// unmistakably an index.
pub fn split_index(seg: &str) -> (r: (String, String))
    requires
        seg@.len() < i64::MAX,
    ensures
        (r.0@, r.1@) == split_index_spec(seg@),
{
    let s = to_chars(seg);
    let n = s.len();
    let bang = first_exec(&s, '!');
    let open = last_exec(&s, '[');
    let dot = last_exec(&s, '.');
    proof {
        lemma_first_range(s@, '!', 0);
    }
    if bang >= 0 && is_numeric(&s, bang as usize + 1, n) {
        let b = bang as usize;
        assert(s@.subrange(0, b as int) =~= s@.take(b as int));
        assert(s@.subrange(b as int, n as int) =~= s@.skip(b as int));
        return (string_of(s.as_slice(), 0, b), string_of(s.as_slice(), b, n));
    }
    if open >= 0 && n > 0 && s[n - 1] == ']' && (open as usize) + 1 <= n - 1 && is_numeric(&s, open as usize + 1, n - 1) {
        let o = open as usize;
        assert(s@.subrange(0, o as int) =~= s@.take(o as int));
        assert(s@.subrange(o as int, n as int) =~= s@.skip(o as int));
        return (string_of(s.as_slice(), 0, o), string_of(s.as_slice(), o, n));
    }
    if dot >= 0 && is_dotted(&s, dot as usize + 1) {
        let d = dot as usize;
        assert(s@.subrange(0, d as int) =~= s@.take(d as int));
        assert(s@.subrange(d + 1, n as int) =~= s@.skip(d + 1));
        return (string_of(s.as_slice(), 0, d), string_of(s.as_slice(), d + 1, n));
    }
    assert(s@.subrange(0, n as int) =~= s@);
    (string_of(s.as_slice(), 0, n), String::new())
}

/// The content specs a selector rule may end in.
pub open spec fn content_words() -> Seq<&'static str> {
    seq!["text", "textNodes", "ownText", "html", "all", "href", "src", "content", "value"]
}

pub open spec fn is_content(w: Seq<char>) -> bool {
    exists|k: int| 0 <= k < content_words().len() && (#[trigger] content_words()[k])@ == w
}

pub open spec fn has_char(s: Seq<char>, c: char) -> bool {
    exists|i: int| 0 <= i < s.len() && #[trigger] s[i] == c
}

/// The rule without a leading `@css:`.
pub open spec fn css_of(rule: Seq<char>) -> Seq<char> {
    if crate::text::prefix(rule, "@css:"@) {
        rule.skip(5)
    } else {
        rule
    }
}

/// A selector rule and the content spec at its end: `.item h3@text` gives
/// (`.item h3`, `text`); a rule that is only a content spec selects nothing;
/// otherwise the rule reads the text.
pub open spec fn split_content_spec(rule: Seq<char>) -> (Seq<char>, Seq<char>) {
    let css = css_of(rule);
    let at = last_of(css, '@', css.len() as int);
    let last = css.skip(at + 1);
    if at >= 0 && (is_content(last) || (!has_char(last, '.') && has_char(last, '-'))) {
        (
            if crate::text::prefix(rule, "@css:"@) {
                rule.take(rule.len() - last.len() - 1)
            } else {
                css.take(at)
            },
            last,
        )
    } else if is_content(css) {
        (Seq::empty(), css)
    } else {
        (rule, "text"@)
    }
}

fn has_char_from(s: &Vec<char>, a: usize, c: char) -> (r: bool)
    requires
        a <= s@.len(),
    ensures
        r == has_char(s@.skip(a as int), c),
{
    let ghost t = s@.skip(a as int);
    let mut i = a;
    while i < s.len()
        invariant
            a <= i <= s@.len(),
            t == s@.skip(a as int),
            forall|j: int| 0 <= j < i - a ==> #[trigger] t[j] != c,
        decreases s.len() - i,
    {
        assert(t[i - a] == s@[i as int]);
        if s[i] == c {
            return true;
        }
        i += 1;
    }
    false
}

fn content_word(w: &Vec<char>) -> (r: bool)
    ensures
        r == is_content(w@),
{
    let words: Vec<&'static str> = vec!["text", "textNodes", "ownText", "html", "all", "href", "src", "content", "value"];
    assert(words@ == content_words());
    let mut k: usize = 0;
    while k < words.len()
        invariant
            words@ == content_words(),
            k <= words@.len(),
            forall|j: int| 0 <= j < k ==> (#[trigger] words@[j])@ != w@,
        decreases words@.len() - k,
    {
        let x = to_chars(words[k]);
        if crate::romance::people::same(&x, w) {
            return true;
        }
        k += 1;
    }
    false
}

/// Peel the content spec off the end of a selector rule.
pub fn split_content(rule: &str) -> (r: (String, String))
    requires
        rule@.len() < i64::MAX,
    ensures
        (r.0@, r.1@) == split_content_spec(rule@),
{
    let v = to_chars(rule);
    let pre = to_chars("@css:");
    let css_prefixed = crate::text::starts_with(v.as_slice(), pre.as_slice());
    let css = if css_prefixed {
        proof {
            reveal_strlit("@css:");
        }
        crate::text::slice_vec(v.as_slice(), 5, v.len())
    } else {
        crate::cast::graph::copy_vec(&v)
    };
    proof {
        reveal_strlit("@css:");
        if css_prefixed {
            assert(v@.subrange(5, v@.len() as int) =~= v@.skip(5));
        }
    }
    assert(css@ == css_of(v@));
    let n = css.len();
    let at = last_exec(&css, '@');
    if at >= 0 {
        let a = at as usize;
        let last = crate::text::slice_vec(css.as_slice(), a + 1, n);
        assert(last@ =~= css@.skip(a + 1));
        let ok = content_word(&last) || (!has_char_from(&css, a + 1, '.') && has_char_from(&css, a + 1, '-'));
        if ok {
            let head = if css_prefixed {
                string_of(v.as_slice(), 0, v.len() - last.len() - 1)
            } else {
                string_of(css.as_slice(), 0, a)
            };
            assert(v@.subrange(0, v@.len() - last@.len() - 1) =~= v@.take(v@.len() - last@.len() - 1));
            assert(css@.subrange(0, a as int) =~= css@.take(a as int));
            return (head, crate::text::from_chars(last.as_slice()));
        }
    }
    if content_word(&css) {
        return (String::new(), crate::text::from_chars(css.as_slice()));
    }
    (crate::text::from_chars(v.as_slice()), "text".to_owned())
}

/// Where the run of ASCII digits starting at `k` ends.
pub open spec fn digits_end(r: Seq<char>, k: int) -> int
    decreases r.len() - k,
{
    if k < 0 || k >= r.len() || !crate::text::digit(r[k]) {
        k
    } else {
        digits_end(r, k + 1)
    }
}

/// The rule from `i` on with each `$n` replaced by capture `n` (nothing when
/// there is no such capture) and every other character kept.
pub open spec fn capture_spec(caps: Seq<Seq<char>>, r: Seq<char>, i: int) -> Seq<char>
    decreases r.len() - i,
{
    if i < 0 || i >= r.len() {
        Seq::empty()
    } else if r[i] == '$' && i + 1 < r.len() && crate::text::digit(r[i + 1]) {
        let k = digits_end(r, i + 1);
        let v = crate::chapters::dec_value(r.subrange(i + 1, k));
        if i < k <= r.len() {
            (if v < caps.len() { caps[v as int] } else { Seq::empty() }) + capture_spec(caps, r, k)
        } else {
            Seq::empty()
        }
    } else {
        seq![r[i]] + capture_spec(caps, r, i + 1)
    }
}

proof fn lemma_digits_end(r: Seq<char>, k: int)
    requires
        0 <= k <= r.len(),
    ensures
        k <= digits_end(r, k) <= r.len(),
        forall|j: int| k <= j < digits_end(r, k) ==> crate::text::digit(#[trigger] r[j]),
    decreases r.len() - k,
{
    if k < r.len() && crate::text::digit(r[k]) {
        lemma_digits_end(r, k + 1);
    }
}

pub open spec fn string_views(v: Seq<String>) -> Seq<Seq<char>> {
    v.map_values(|s: String| s@)
}

/// `$1`-style references into a regex row, with any surrounding literal text.
pub fn capture_ref(caps: &Vec<String>, rule: &str) -> (r: String)
    ensures
        r@ == capture_spec(string_views(caps@), rule@, 0),
{
    let v = to_chars(rule);
    let n = v.len();
    let ghost cv = string_views(caps@);
    let mut out: Vec<char> = Vec::new();
    let mut i: usize = 0;
    while i < n
        invariant
            n == v@.len(),
            i <= n,
            cv == string_views(caps@),
            capture_spec(cv, v@, 0) == out@ + capture_spec(cv, v@, i as int),
        decreases n - i,
    {
        if v[i] == '$' && i + 1 < n && '0' <= v[i + 1] && v[i + 1] <= '9' {
            let mut k = i + 1;
            let mut val: usize = 0;
            let mut big = false;
            proof {
                lemma_digits_end(v@, i + 1);
            }
            while k < n && '0' <= v[k] && v[k] <= '9'
                invariant
                    n == v@.len(),
                    i + 1 <= k <= digits_end(v@, i + 1) <= n,
                    digits_end(v@, i + 1) == digits_end(v@, k as int),
                    forall|j: int| i + 1 <= j < digits_end(v@, i + 1) ==> crate::text::digit(#[trigger] v@[j]),
                    !big ==> val as nat == crate::chapters::dec_value(v@.subrange(i + 1, k as int)),
                    big ==> crate::chapters::dec_value(v@.subrange(i + 1, k as int)) > usize::MAX,
                decreases n - k,
            {
                let ghost sub = v@.subrange(i + 1, k as int);
                let ghost sub1 = v@.subrange(i + 1, k + 1);
                assert(sub1.drop_last() =~= sub);
                assert(sub1.last() == v@[k as int]);
                proof {
                    lemma_digits_end(v@, k + 1);
                }
                let d = (v[k] as u32 - '0' as u32) as usize;
                if !big {
                    match val.checked_mul(10) {
                        Some(m) => match m.checked_add(d) {
                            Some(x) => {
                                val = x;
                            },
                            None => {
                                big = true;
                            },
                        },
                        None => {
                            big = true;
                        },
                    }
                } else {
                    assert(crate::chapters::dec_value(sub1) >= crate::chapters::dec_value(sub) * 10);
                }
                k += 1;
            }
            proof {
                if k < digits_end(v@, i + 1) {
                    assert(crate::text::digit(v@[k as int]));
                }
            }
            assert(k == digits_end(v@, i + 1));
            let cl = caps.len();
            let ghost part = if !big && val < caps.len() { cv[val as int] } else { Seq::<char>::empty() };
            assert(part == (if crate::chapters::dec_value(v@.subrange(i + 1, k as int)) < cv.len() {
                cv[crate::chapters::dec_value(v@.subrange(i + 1, k as int)) as int]
            } else {
                Seq::<char>::empty()
            }));
            if !big && val < caps.len() {
                let c = to_chars(caps[val].as_str());
                crate::text::push_all(&mut out, c.as_slice());
            }
            assert(capture_spec(cv, v@, i as int) == part + capture_spec(cv, v@, k as int));
            assert(out@ + capture_spec(cv, v@, k as int) =~= capture_spec(cv, v@, 0));
            i = k;
        } else {
            let ghost pre = out@;
            out.push(v[i]);
            assert(capture_spec(cv, v@, i as int) == seq![v@[i as int]] + capture_spec(cv, v@, i + 1));
            assert(pre + capture_spec(cv, v@, i as int) =~= out@ + capture_spec(cv, v@, i + 1));
            i += 1;
        }
    }
    crate::text::from_chars(out.as_slice())
}

/// `str::parse::<i64>`: an optional sign, then ASCII digits, in range.
pub open spec fn parse_i64(s: Seq<char>) -> Option<int> {
    if s.len() == 0 {
        None
    } else {
        let neg = s[0] == '-';
        let body = if s[0] == '-' || s[0] == '+' { s.skip(1) } else { s };
        let v = crate::chapters::dec_value(body);
        let x = if neg { -v } else { v as int };
        if body.len() > 0 && crate::chapters::all_digits(body) && i64::MIN <= x <= i64::MAX {
            Some(x)
        } else {
            None
        }
    }
}

fn parse_i64_exec(s: &Vec<char>, a: usize, b: usize) -> (r: Option<i64>)
    requires
        a <= b <= s@.len(),
    ensures
        match parse_i64(s@.subrange(a as int, b as int)) {
            Some(x) => r == Some(x as i64),
            None => r is None,
        },
{
    let ghost t = s@.subrange(a as int, b as int);
    if a == b {
        return None;
    }
    let neg = s[a] == '-';
    let start = if s[a] == '-' || s[a] == '+' { a + 1 } else { a };
    let ghost body = s@.subrange(start as int, b as int);
    assert(t[0] == s@[a as int]);
    assert(body =~= (if t[0] == '-' || t[0] == '+' { t.skip(1) } else { t }));
    if start == b {
        assert(body.len() == 0);
        return None;
    }
    let mut acc: i128 = 0;
    let mut big = false;
    let mut k = start;
    assert(body.take(0) =~= Seq::<char>::empty());
    while k < b
        invariant
            start <= k <= b <= s@.len(),
            body == s@.subrange(start as int, b as int),
            t == s@.subrange(a as int, b as int),
            t.len() > 0,
            body == (if t[0] == '-' || t[0] == '+' { t.skip(1) } else { t }),
            crate::chapters::all_digits(body.take(k - start)),
            !big ==> acc as int == crate::chapters::dec_value(body.take(k - start)) && acc <= 0x8000_0000_0000_0000,
            big ==> crate::chapters::dec_value(body.take(k - start)) > 0x8000_0000_0000_0000,
        decreases b - k,
    {
        let c = s[k];
        if !('0' <= c && c <= '9') {
            assert(body[k - start] == c);
            assert(!crate::chapters::all_digits(body));
            return None;
        }
        let ghost pre = body.take(k - start);
        let ghost nxt = body.take(k - start + 1);
        assert(nxt.drop_last() =~= pre);
        assert(nxt.last() == c);
        let d = (c as u32 - '0' as u32) as i128;
        if !big {
            acc = acc * 10 + d;
            if acc > 0x8000_0000_0000_0000 {
                big = true;
            }
        } else {
            assert(crate::chapters::dec_value(nxt) >= crate::chapters::dec_value(pre) * 10);
        }
        assert(crate::chapters::all_digits(nxt)) by {
            assert forall|j: int| 0 <= j < nxt.len() implies crate::text::digit(#[trigger] nxt[j]) by {
                if j < pre.len() {
                    assert(nxt[j] == pre[j]);
                }
            }
        }
        k += 1;
    }
    assert(body.take(b - start) =~= body);
    assert(body.len() > 0 && crate::chapters::all_digits(body));
    if big {
        assert(parse_i64(t) is None);
        return None;
    }
    assert(acc as int == crate::chapters::dec_value(body));
    let x: i128 = if neg { -acc } else { acc };
    if x < -0x8000_0000_0000_0000 || x > 0x7fff_ffff_ffff_ffff {
        assert(parse_i64(t) is None);
        return None;
    }
    assert(parse_i64(t) == Some(x as int));
    Some(x as i64)
}

/// The position `i` counts from: from the end when negative; none when
/// outside `0..n`.
pub open spec fn pick(n: int, i: int) -> Option<int> {
    let j = if i < 0 { n + i } else { i };
    if 0 <= j < n {
        Some(j)
    } else {
        None
    }
}

/// The positions the first `k` comma-separated tokens name, in order;
/// tokens that are no number or name no position are skipped.
pub open spec fn list_picks(n: int, toks: Seq<Seq<char>>, k: int) -> Seq<int>
    decreases k,
{
    if k <= 0 {
        Seq::empty()
    } else {
        let prev = list_picks(n, toks, k - 1);
        match parse_i64(crate::text::trim(toks[k - 1])) {
            Some(i) => match pick(n, i) {
                Some(j) => prev.push(j),
                None => prev,
            },
            None => prev,
        }
    }
}

/// The positions among the first `k` that `drop` does not name.
pub open spec fn kept_positions(drop: Seq<int>, k: int) -> Seq<int>
    decreases k,
{
    if k <= 0 {
        Seq::empty()
    } else if drop.contains(k - 1) {
        kept_positions(drop, k - 1)
    } else {
        kept_positions(drop, k - 1).push(k - 1)
    }
}

/// Which of `n` selected elements an index keeps: `[1,-1]` those positions
/// in that order, `!0` all but those, `2` or `-1` that one (or none); none
/// at all (`None`) means all of them, as for an empty or unreadable index.
pub open spec fn index_choice(n: int, index: Seq<char>) -> Option<Seq<int>> {
    if index.len() == 0 {
        None
    } else if index.len() >= 2 && index[0] == '[' && index.last() == ']' {
        let toks = crate::text::split(index.subrange(1, index.len() - 1), ',');
        Some(list_picks(n, toks, toks.len() as int))
    } else if index[0] == '!' {
        let toks = crate::text::split(index.skip(1), ',');
        Some(kept_positions(list_picks(n, toks, toks.len() as int), n))
    } else {
        match parse_i64(index) {
            Some(i) => Some(
                match pick(n, i) {
                    Some(j) => seq![j],
                    None => Seq::empty(),
                },
            ),
            None => None,
        }
    }
}

pub open spec fn usize_ints(v: Seq<usize>) -> Seq<int> {
    v.map_values(|x: usize| x as int)
}

fn pick_exec(n: usize, i: i64) -> (r: Option<usize>)
    ensures
        match pick(n as int, i as int) {
            Some(j) => r == Some(j as usize),
            None => r is None,
        },
{
    let j: i128 = if i < 0 { n as i128 + i as i128 } else { i as i128 };
    if 0 <= j && j < n as i128 {
        Some(j as usize)
    } else {
        None
    }
}

fn picks_of(n: usize, s: &Vec<char>, a: usize, b: usize) -> (r: Vec<usize>)
    requires
        a <= b <= s@.len(),
    ensures
        usize_ints(r@) == list_picks(
            n as int,
            crate::text::split(s@.subrange(a as int, b as int), ','),
            crate::text::split(s@.subrange(a as int, b as int), ',').len() as int,
        ),
{
    let part = crate::text::slice_vec(s.as_slice(), a, b);
    let rs = crate::text::split_ranges(part.as_slice(), ',');
    let ghost toks = crate::text::split(part@, ',');
    let mut out: Vec<usize> = Vec::new();
    let mut k: usize = 0;
    while k < rs.len()
        invariant
            crate::text::pieces(part@, rs@) == toks,
            crate::text::tiles(part@, rs@, ','),
            toks.len() == rs@.len(),
            k <= rs@.len(),
            usize_ints(out@) == list_picks(n as int, toks, k as int),
        decreases rs@.len() - k,
    {
        let (x, y) = rs[k];
        assert(toks[k as int] == part@.subrange(x as int, y as int));
        let (p, q) = crate::text::trim_range(part.as_slice(), x, y);
        let ghost pre = out@;
        match parse_i64_exec(&part, p, q) {
            Some(i) => match pick_exec(n, i) {
                Some(j) => {
                    out.push(j);
                    assert(usize_ints(out@) =~= usize_ints(pre).push(j as int));
                },
                None => {},
            },
            None => {},
        }
        k += 1;
    }
    out
}

/// Which of `n` selected elements a selector's index keeps (see
/// [`index_choice`]).
pub fn index_picks(n: usize, index: &str) -> (r: Option<Vec<usize>>)
    ensures
        match index_choice(n as int, index@) {
            Some(v) => r is Some && usize_ints(r->0@) == v,
            None => r is None,
        },
{
    let s = to_chars(index);
    let len = s.len();
    if len == 0 {
        return None;
    }
    if len >= 2 && s[0] == '[' && s[len - 1] == ']' {
        return Some(picks_of(n, &s, 1, len - 1));
    }
    if s[0] == '!' {
        let drop = picks_of(n, &s, 1, len);
        assert(s@.subrange(1, len as int) =~= s@.skip(1));
        let ghost dv = usize_ints(drop@);
        let mut out: Vec<usize> = Vec::new();
        let mut j: usize = 0;
        while j < n
            invariant
                j <= n,
                dv == usize_ints(drop@),
                usize_ints(out@) == kept_positions(dv, j as int),
            decreases n - j,
        {
            let mut hit = false;
            let mut t: usize = 0;
            while t < drop.len()
                invariant
                    t <= drop@.len(),
                    dv == usize_ints(drop@),
                    hit == exists|q: int| 0 <= q < t && dv[q] == j,
                decreases drop@.len() - t,
            {
                assert(dv[t as int] == drop@[t as int] as int);
                if drop[t] == j {
                    hit = true;
                }
                t += 1;
            }
            assert(hit == dv.contains(j as int));
            let ghost pre = out@;
            if !hit {
                out.push(j);
                assert(usize_ints(out@) =~= usize_ints(pre).push(j as int));
            }
            j += 1;
        }
        return Some(out);
    }
    assert(s@.subrange(0, len as int) =~= s@);
    match parse_i64_exec(&s, 0, len) {
        Some(i) => match pick_exec(n, i) {
            Some(j) => {
                let mut v: Vec<usize> = Vec::new();
                v.push(j);
                assert(usize_ints(v@) =~= seq![j as int]);
                Some(v)
            },
            None => {
                let v: Vec<usize> = Vec::new();
                assert(usize_ints(v@) =~= Seq::<int>::empty());
                Some(v)
            },
        },
        None => None,
    }
}

} // verus!
