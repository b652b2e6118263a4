//! The URL side of the rule engine: building request addresses from a rule
//! sheet and resolving links against the page they were found on.
//!
//! Where a rule cannot be honoured the engine says so ([`Unsupported`])
//! instead of quietly returning nothing: a source that silently yields empty
//! chapters is worse than one that refuses to load.
use vstd::prelude::*;
use crate::text::{
    first_at, find_from, from_chars, lemma_first_at, prefix, push_all, push_range, slice_vec,
    starts_with, sub_at, to_chars, trim, trim_end, trim_range, trim_start, ws,
};

verus! {

/// Why a rule could not be honoured.
#[derive(Debug, Clone)]
pub struct Unsupported(pub String);

/// A URL and the manner of asking for it.
#[derive(Debug, Clone, Default)]
pub struct UrlSpec {
    pub url: String,
    pub method: String,
    pub body: Option<String>,
    pub charset: Option<String>,
    pub headers: Vec<(String, String)>,
}

// ------------------------------------------------------------ sanitize

pub open spec fn hex_digit(b: u8) -> bool {
    (0x30 <= b <= 0x39) || (0x41 <= b <= 0x46) || (0x61 <= b <= 0x66)
}

/// The bytes `%"<>\^`{|}`, which may not stand bare in a URI.
pub open spec fn reserved(b: u8) -> bool {
    b == 0x25 || b == 0x22 || b == 0x3C || b == 0x3E || b == 0x5C || b == 0x5E || b == 0x60
        || b == 0x7B || b == 0x7C || b == 0x7D
}

/// Upper-case hexadecimal digit for `d < 16`.
pub open spec fn hex_char(d: int) -> char {
    if d < 10 {
        (0x30 + d) as char
    } else {
        (0x41 + d - 10) as char
    }
}

/// `%XX`, upper case.
pub open spec fn pct(b: u8) -> Seq<char> {
    seq!['%', hex_char((b / 16) as int), hex_char((b % 16) as int)]
}

/// `sanitize_url` from byte `i` on.
pub open spec fn sanitized(b: Seq<u8>, i: int) -> Seq<char>
    decreases b.len() - i,
{
    if i < 0 || i >= b.len() {
        Seq::empty()
    } else if b[i] == 0x25 && i + 2 < b.len() && hex_digit(b[i + 1]) && hex_digit(b[i + 2]) {
        seq!['%', b[i + 1] as char, b[i + 2] as char] + sanitized(b, i + 3)
    } else if 0x21 <= b[i] <= 0x7E && !reserved(b[i]) {
        seq![b[i] as char] + sanitized(b, i + 1)
    } else {
        pct(b[i]) + sanitized(b, i + 1)
    }
}

/// Characters as the bytes they are when each is ASCII.
pub open spec fn char_bytes(c: Seq<char>) -> Seq<u8> {
    c.map_values(|x: char| (x as u32) as u8)
}

proof fn lemma_sanitized_shift(p: Seq<u8>, q: Seq<u8>, j: int)
    requires
        0 <= j,
    ensures
        sanitized(p + q, p.len() + j) == sanitized(q, j),
    decreases q.len() - j,
{
    let b = p + q;
    let i = p.len() + j;
    if j < q.len() {
        assert(b[i] == q[j]);
        if q[j] == 0x25 && j + 2 < q.len() {
            assert(b[i + 1] == q[j + 1] && b[i + 2] == q[j + 2]);
            lemma_sanitized_shift(p, q, j + 3);
        }
        lemma_sanitized_shift(p, q, j + 1);
    }
}

/// What `sanitize_url` writes is ASCII, and written out again it is left
/// as it is.
proof fn lemma_sanitized_fixed(b: Seq<u8>, i: int)
    requires
        0 <= i,
    ensures
        forall|k: int| 0 <= k < sanitized(b, i).len() ==> (#[trigger] sanitized(b, i)[k] as u32) < 128,
        sanitized(char_bytes(sanitized(b, i)), 0) == sanitized(b, i),
    decreases b.len() - i,
{
    let c = sanitized(b, i);
    if i >= b.len() {
        assert(char_bytes(c) =~= Seq::<u8>::empty());
    } else {
        let (tok, next): (Seq<char>, int) = if b[i] == 0x25 && i + 2 < b.len() && hex_digit(b[i + 1]) && hex_digit(b[i + 2]) {
            (seq!['%', b[i + 1] as char, b[i + 2] as char], i + 3)
        } else if 0x21 <= b[i] <= 0x7E && !reserved(b[i]) {
            (seq![b[i] as char], i + 1)
        } else {
            (pct(b[i]), i + 1)
        };
        let rest = sanitized(b, next);
        lemma_sanitized_fixed(b, next);
        assert(c == tok + rest);
        assert(char_bytes(c) =~= char_bytes(tok) + char_bytes(rest));
        assert forall|k: int| 0 <= k < c.len() implies (#[trigger] c[k] as u32) < 128 by {
            if k >= tok.len() {
                assert(c[k] == rest[k - tok.len()]);
            } else {
                let d = b[i];
                assert(d / 16 < 16 && d % 16 < 16);
            }
        }
        let tb = char_bytes(tok);
        lemma_sanitized_shift(tb, char_bytes(rest), 0);
        if tok.len() == 3 {
            let d = b[i];
            assert(d / 16 < 16 && d % 16 < 16);
            assert(tb[0] == 0x25);
            assert(hex_digit(tb[1]) && hex_digit(tb[2]));
            assert(sanitized(char_bytes(c), 0) =~= seq!['%', tb[1] as char, tb[2] as char] + sanitized(char_bytes(c), 3));
            assert(seq!['%', tb[1] as char, tb[2] as char] =~= tok);
        } else {
            assert(tb[0] == b[i]);
            assert(!reserved(tb[0]));
            assert(sanitized(char_bytes(c), 0) =~= seq![tb[0] as char] + sanitized(char_bytes(c), 1));
        }
    }
}

proof fn lemma_ascii_encode(r: Seq<char>)
    requires
        forall|k: int| 0 <= k < r.len() ==> (#[trigger] r[k] as u32) < 128,
    ensures
        vstd::utf8::encode_utf8(r) == char_bytes(r),
    decreases r.len(),
{
    if r.len() > 0 {
        let x = r[0] as u32;
        assert(x < 128);
        assert((x & 0x7F) == x) by (bit_vector)
            requires
                x < 128,
        ;
        assert(vstd::utf8::leading_byte_width_1(x) == (x as u8));
        assert((x as u8) as int == x);
        assert(vstd::utf8::encode_scalar(x) =~= seq![x as u8]);
        lemma_ascii_encode(r.drop_first());
        assert(char_bytes(r) =~= seq![x as u8] + char_bytes(r.drop_first()));
    } else {
        assert(char_bytes(r) =~= Seq::<u8>::empty());
    }
}

/// Sanitising a link twice changes nothing: the result is ASCII, every `%`
/// in it already begins a `%XX`, and nothing else in it is ever encoded.
pub proof fn sanitize_is_idempotent(u: Seq<char>)
    ensures
        ({
            let r = sanitized(vstd::utf8::encode_utf8(u), 0);
            sanitized(vstd::utf8::encode_utf8(r), 0) == r
        }),
{
    let r = sanitized(vstd::utf8::encode_utf8(u), 0);
    lemma_sanitized_fixed(vstd::utf8::encode_utf8(u), 0);
    lemma_ascii_encode(r);
}

pub(crate) fn hex_of(d: u8) -> (c: char)
    requires
        d < 16,
    ensures
        c == hex_char(d as int),
{
    if d < 10 {
        assert((0x30 + d) as char == hex_char(d as int));
        (0x30 + d) as char
    } else {
        (0x41 + d - 10) as char
    }
}

fn is_hex(b: u8) -> (r: bool)
    ensures
        r == hex_digit(b),
{
    (0x30 <= b && b <= 0x39) || (0x41 <= b && b <= 0x46) || (0x61 <= b && b <= 0x66)
}

/// Encode the bytes that cannot appear in a URI and leave the punctuation
/// that means something (`/?&=#`) where it is. Chinese and spaces written
/// straight into a path are encoded; an existing `%XX` is left alone rather
/// than encoded twice.
pub fn sanitize_url(u: &str) -> (r: String)
    ensures
        r@ == sanitized(vstd::utf8::encode_utf8(u@), 0),
{
    let b = u.as_bytes();
    let ghost bs = b@;
    let mut out: Vec<char> = Vec::new();
    let mut i: usize = 0;
    while i < b.len()
        invariant
            bs == b@,
            i <= b@.len(),
            out@ + sanitized(bs, i as int) == sanitized(bs, 0),
        decreases b.len() - i,
    {
        let c = b[i];
        let ghost before = out@;
        if c == 0x25 && 2 < b.len() - i && is_hex(b[i + 1]) && is_hex(b[i + 2]) {
            out.push('%');
            out.push(b[i + 1] as char);
            out.push(b[i + 2] as char);
            assert(out@ =~= before + seq!['%', bs[i + 1] as char, bs[i + 2] as char]);
            assert(sanitized(bs, i as int) == seq!['%', bs[i + 1] as char, bs[i + 2] as char]
                + sanitized(bs, i + 3));
            assert(out@ + sanitized(bs, i + 3) =~= before + sanitized(bs, i as int));
            i += 3;
        } else {
            if 0x21 <= c && c <= 0x7E && !(c == 0x25 || c == 0x22 || c == 0x3C || c == 0x3E
                || c == 0x5C || c == 0x5E || c == 0x60 || c == 0x7B || c == 0x7C || c == 0x7D) {
                out.push(c as char);
                assert(out@ =~= before + seq![c as char]);
            } else {
                out.push('%');
                out.push(hex_of(c / 16));
                out.push(hex_of(c % 16));
                assert(out@ =~= before + pct(c));
            }
            assert(out@ + sanitized(bs, i + 1) =~= before + sanitized(bs, i as int));
            i += 1;
        }
    }
    assert(out@ =~= sanitized(bs, 0));
    from_chars(out.as_slice())
}

impl UrlSpec {
    /// A plain GET of this address.
    pub fn plain(url: &str) -> (r: UrlSpec)
        ensures
            r.url@ == sanitized(vstd::utf8::encode_utf8(url@), 0),
            r.method@ == "GET"@,
            r.body is None,
            r.charset is None,
            r.headers@.len() == 0,
    {
        UrlSpec {
            url: sanitize_url(url),
            method: "GET".to_owned(),
            body: None,
            charset: None,
            headers: Vec::new(),
        }
    }
}

// ------------------------------------------------------------ links

/// The last index in `lo..n` where `c` stands, or -1.
pub open spec fn last_from(s: Seq<char>, c: char, lo: int, n: int) -> int
    decreases n - lo,
{
    if n <= lo {
        -1
    } else if s[n - 1] == c {
        n - 1
    } else {
        last_from(s, c, lo, n - 1)
    }
}

/// Where the scheme of `base` ends (just past `://`), or 0 without one.
pub open spec fn scheme_end(base: Seq<char>) -> int {
    let f = first_at(base, "://"@, 0);
    if f >= 0 {
        f + 3
    } else {
        0
    }
}

/// Where the host of `base` ends: the first `/` after the scheme, or the end.
pub open spec fn origin_end(base: Seq<char>) -> int {
    let s = first_at(base, seq!['/'], scheme_end(base));
    if s >= 0 {
        s
    } else {
        base.len() as int
    }
}

/// A link resolved against the page it was found on: empty means the page
/// itself, an absolute URL stands, `//host` borrows the page's scheme, `/path`
/// its origin, and anything else its directory.
pub open spec fn absolute_spec(base: Seq<char>, rel: Seq<char>) -> Seq<char> {
    if rel.len() == 0 {
        base
    } else if prefix(rel, "http://"@) || prefix(rel, "https://"@) {
        rel
    } else if prefix(rel, "//"@) {
        let se = scheme_end(base);
        let scheme = if se == 0 {
            "https"@
        } else {
            base.take(se - 3)
        };
        scheme + "://"@ + rel.skip(2)
    } else {
        let oe = origin_end(base);
        if prefix(rel, "/"@) {
            base.take(oe) + rel
        } else {
            let l = last_from(base, '/', oe, base.len() as int);
            let dir = if l >= 0 {
                base.take(l)
            } else {
                base.take(oe)
            };
            dir + "/"@ + rel
        }
    }
}

proof fn lemma_last_from(s: Seq<char>, c: char, lo: int, n: int)
    requires
        0 <= lo <= n <= s.len(),
    ensures
        -1 <= last_from(s, c, lo, n) < n,
        last_from(s, c, lo, n) >= 0 ==> lo <= last_from(s, c, lo, n),
    decreases n - lo,
{
    if n > lo && s[n - 1] != c {
        lemma_last_from(s, c, lo, n - 1);
    }
}

/// Resolve a link against the page it was found on. The four cases are the
/// four cases that occur.
pub fn absolute(base: &str, rel: &str) -> (r: String)
    ensures
        r@ == absolute_spec(base@, rel@),
{
    let b = to_chars(base);
    let r = to_chars(rel);
    if r.len() == 0 {
        return from_chars(b.as_slice());
    }
    if starts_with(r.as_slice(), to_chars("http://").as_slice()) || starts_with(
        r.as_slice(),
        to_chars("https://").as_slice(),
    ) {
        return from_chars(r.as_slice());
    }
    let sep = to_chars("://");
    let bl = b.len();
    proof {
        reveal_strlit("://");
        reveal_strlit("//");
        lemma_first_at(b@, sep@, 0);
        assert(sep@.len() == 3);
    }
    let se: usize = match find_from(b.as_slice(), sep.as_slice(), 0) {
        Some(i) => i + 3,
        None => 0,
    };
    assert(se == scheme_end(b@));
    let mut out: Vec<char> = Vec::new();
    if starts_with(r.as_slice(), to_chars("//").as_slice()) {
        if se == 0 {
            push_all(&mut out, to_chars("https").as_slice());
        } else {
            push_range(&mut out, b.as_slice(), 0, se - 3);
        }
        push_all(&mut out, sep.as_slice());
        push_range(&mut out, r.as_slice(), 2, r.len());
        proof {
            assert(r@.subrange(2, r@.len() as int) =~= r@.skip(2));
            assert(b@.subrange(0, se - 3) =~= b@.take(se - 3));
        }
        return from_chars(out.as_slice());
    }
    let slash = to_chars("/");
    assert(slash@ =~= seq!['/']) by {
        reveal_strlit("/");
    }
    proof {
        lemma_first_at(b@, slash@, se as int);
    }
    let oe: usize = match find_from(b.as_slice(), slash.as_slice(), se) {
        Some(i) => i,
        None => b.len(),
    };
    assert(oe == origin_end(b@));
    if starts_with(r.as_slice(), slash.as_slice()) {
        push_range(&mut out, b.as_slice(), 0, oe);
        push_all(&mut out, r.as_slice());
        assert(b@.subrange(0, oe as int) =~= b@.take(oe as int));
        return from_chars(out.as_slice());
    }
    let mut n = b.len();
    while n > oe && b[n - 1] != '/'
        invariant
            oe <= n <= b@.len(),
            last_from(b@, '/', oe as int, b@.len() as int) == last_from(b@, '/', oe as int, n as int),
        decreases n,
    {
        n -= 1;
    }
    proof {
        lemma_last_from(b@, '/', oe as int, b@.len() as int);
    }
    if n > oe {
        push_range(&mut out, b.as_slice(), 0, n - 1);
        assert(b@.subrange(0, n - 1) =~= b@.take(n - 1));
    } else {
        push_range(&mut out, b.as_slice(), 0, oe);
        assert(b@.subrange(0, oe as int) =~= b@.take(oe as int));
    }
    push_all(&mut out, slash.as_slice());
    push_all(&mut out, r.as_slice());
    from_chars(out.as_slice())
}

// ------------------------------------------------------------ same page

/// What `str::to_lowercase` makes of these characters.
pub uninterp spec fn lowercase(s: Seq<char>) -> Seq<char>;

/// An ASCII character.
pub open spec fn ascii(c: char) -> bool {
    (c as u32) < 128
}

/// `d` is the ASCII lower case of `c`: an upper-case letter moves down by
/// 32, every other ASCII character stays.
pub open spec fn ascii_lower(c: char, d: char) -> bool {
    if 65 <= (c as u32) <= 90 {
        (d as u32) == (c as u32) + 32
    } else {
        d == c
    }
}

/// `str::to_lowercase`: the Unicode lower-case mapping of every character,
/// which depends on the characters alone. The mapping is named
/// ([`lowercase`]) rather than spelled out; for an all-ASCII string the
/// documentation gives it: upper-case ASCII letters become lower case and
/// every other character stays, one for one.
#[verifier::external_body]
pub(crate) fn to_lower(s: &str) -> (r: String)
    ensures
        r@ == lowercase(s@),
        (forall|i: int| 0 <= i < s@.len() ==> ascii(#[trigger] s@[i])) ==> r@.len() == s@.len() && forall|i: int|
            0 <= i < s@.len() ==> ascii_lower(#[trigger] s@[i], r@[i]),
{
    s.to_lowercase()
}

/// The link up to its first `#`.
pub open spec fn before_hash(u: Seq<char>) -> Seq<char> {
    let f = first_at(u, seq!['#'], 0);
    if f >= 0 {
        u.take(f)
    } else {
        u
    }
}

/// A link without its fragment, one trailing slash and surrounding blanks,
/// before lower-casing.
pub open spec fn page_key_spec(u: Seq<char>) -> Seq<char> {
    let a = before_hash(u);
    let b = if a.len() > 0 && a.last() == '/' {
        a.drop_last()
    } else {
        a
    };
    trim(b)
}

/// The form of a link two links are compared in.
pub fn page_key(u: &str) -> (r: String)
    ensures
        r@ == lowercase(page_key_spec(u@)),
        all_ascii(page_key_spec(u@)) ==> r@.len() == page_key_spec(u@).len() && forall|i: int|
            0 <= i < page_key_spec(u@).len() ==> ascii_lower(#[trigger] page_key_spec(u@)[i], r@[i]),
{
    let v = to_chars(u);
    let hash = to_chars("#");
    assert(hash@ =~= seq!['#']) by {
        reveal_strlit("#");
    }
    proof {
        lemma_first_at(v@, hash@, 0);
    }
    let mut e = match find_from(v.as_slice(), hash.as_slice(), 0) {
        Some(i) => i,
        None => v.len(),
    };
    assert(v@.subrange(0, e as int) =~= before_hash(v@));
    if e > 0 && v[e - 1] == '/' {
        e = e - 1;
        assert(v@.subrange(0, e as int) =~= before_hash(v@).drop_last());
    }
    let (x, y) = trim_range(v.as_slice(), 0, e);
    let k = crate::text::string_of(v.as_slice(), x, y);
    to_lower(k.as_str())
}

/// An ASCII letter.
pub open spec fn letter(c: char) -> bool {
    (65 <= (c as u32) <= 90) || (97 <= (c as u32) <= 122)
}

/// The same characters but for the case of ASCII letters.
pub open spec fn same_but_case(a: Seq<char>, b: Seq<char>) -> bool {
    &&& a.len() == b.len()
    &&& forall|i: int|
        0 <= i < a.len() ==> #[trigger] a[i] == b[i] || (letter(a[i]) && letter(b[i]) && ((a[i] as u32) == (b[i] as u32) + 32 || (b[i] as u32) == (a[i] as u32) + 32))
}

proof fn lemma_first_hash(a: Seq<char>, b: Seq<char>, k: int)
    requires
        same_but_case(a, b),
        0 <= k,
    ensures
        first_at(a, seq!['#'], k) == first_at(b, seq!['#'], k),
    decreases a.len() + 1 - k,
{
    if k + 1 <= a.len() {
        assert(sub_at(a, seq!['#'], k) == sub_at(b, seq!['#'], k)) by {
            if sub_at(a, seq!['#'], k) {
                assert(a.subrange(k, k + 1)[0] == a[k]);
                assert(b.subrange(k, k + 1) =~= seq!['#']);
            }
            if sub_at(b, seq!['#'], k) {
                assert(b.subrange(k, k + 1)[0] == b[k]);
                assert(a.subrange(k, k + 1) =~= seq!['#']);
            }
        }
        lemma_first_hash(a, b, k + 1);
    }
}

proof fn lemma_trim_start_case(a: Seq<char>, b: Seq<char>)
    requires
        same_but_case(a, b),
    ensures
        same_but_case(trim_start(a), trim_start(b)),
    decreases a.len(),
{
    if a.len() > 0 && ws(a[0]) {
        assert(a[0] == b[0]);
        lemma_trim_start_case(a.drop_first(), b.drop_first());
    } else if a.len() > 0 {
        assert(!ws(b[0]));
    }
}

proof fn lemma_trim_end_case(a: Seq<char>, b: Seq<char>)
    requires
        same_but_case(a, b),
    ensures
        same_but_case(trim_end(a), trim_end(b)),
    decreases a.len(),
{
    if a.len() > 0 && ws(a.last()) {
        assert(a[a.len() - 1] == b[b.len() - 1]);
        lemma_trim_end_case(a.drop_last(), b.drop_last());
    } else if a.len() > 0 {
        assert(!ws(b[b.len() - 1]));
    }
}

proof fn lemma_char_u32(x: char, y: char)
    requires
        (x as u32) == (y as u32),
    ensures
        x == y,
{
    vstd::utf8::char_u32_cast(x, x as u32);
    vstd::utf8::char_u32_cast(y, y as u32);
}

/// Every character is ASCII.
pub open spec fn all_ascii(s: Seq<char>) -> bool {
    forall|i: int| 0 <= i < s.len() ==> ascii(#[trigger] s[i])
}

proof fn lemma_same_self(a: Seq<char>)
    ensures
        same_but_case(a, a),
{
}

proof fn lemma_trim_ascii(s: Seq<char>)
    requires
        all_ascii(s),
    ensures
        all_ascii(trim_start(s)),
        all_ascii(trim_end(s)),
    decreases s.len(),
{
    if s.len() > 0 {
        lemma_trim_ascii(s.drop_first());
        lemma_trim_ascii(s.drop_last());
    }
}

proof fn lemma_key_case(a: Seq<char>, b: Seq<char>)
    requires
        same_but_case(a, b),
        all_ascii(a),
    ensures
        same_but_case(page_key_spec(a), page_key_spec(b)),
        all_ascii(page_key_spec(a)),
{
    lemma_first_hash(a, b, 0);
    lemma_first_at(a, seq!['#'], 0);
    let ha = before_hash(a);
    let hb = before_hash(b);
    assert(ha.len() <= a.len());
    assert forall|i: int| 0 <= i < ha.len() implies #[trigger] ha[i] == a[i] && hb[i] == b[i] by {}
    assert(same_but_case(ha, hb)) by {
        assert forall|i: int| 0 <= i < ha.len() implies #[trigger] ha[i] == hb[i] || (letter(ha[i]) && letter(hb[i]) && ((ha[i] as u32) == (hb[i] as u32) + 32 || (hb[i] as u32) == (ha[i] as u32) + 32)) by {
            assert(ha[i] == a[i] && hb[i] == b[i]);
        }
    }
    let ca = if ha.len() > 0 && ha.last() == '/' { ha.drop_last() } else { ha };
    let cb = if hb.len() > 0 && hb.last() == '/' { hb.drop_last() } else { hb };
    if ha.len() > 0 {
        assert(ha[ha.len() - 1] == '/' <==> hb[hb.len() - 1] == '/');
    }
    assert forall|i: int| 0 <= i < ca.len() implies #[trigger] ca[i] == ha[i] && cb[i] == hb[i] by {}
    assert(same_but_case(ca, cb)) by {
        assert forall|i: int| 0 <= i < ca.len() implies #[trigger] ca[i] == cb[i] || (letter(ca[i]) && letter(cb[i]) && ((ca[i] as u32) == (cb[i] as u32) + 32 || (cb[i] as u32) == (ca[i] as u32) + 32)) by {
            assert(ca[i] == ha[i] && cb[i] == hb[i] && ha[i] == a[i] && hb[i] == b[i]);
        }
    }
    assert(all_ascii(ca)) by {
        assert forall|i: int| 0 <= i < ca.len() implies ascii(#[trigger] ca[i]) by {
            assert(ca[i] == a[i]);
        }
    }
    lemma_trim_start_case(ca, cb);
    lemma_trim_end_case(trim_start(ca), trim_start(cb));
    lemma_trim_ascii(ca);
    lemma_trim_ascii(trim_start(ca));
}

/// Are these two links the same page? Recognises the moment a chapter's
/// "next page" button has quietly become its "next chapter" button. Loose on
/// purpose: `/book/1/2.html` and `/book/1/2.html#top`, or two links that
/// differ by a trailing slash or by case, are the same page.
pub fn same_page(a: &str, b: &str) -> (r: bool)
    ensures
        r == (a@.len() > 0 && lowercase(page_key_spec(a@)) == lowercase(page_key_spec(b@))),
        a@.len() > 0 && all_ascii(a@) && same_but_case(a@, b@) ==> r,
        r && all_ascii(a@) && all_ascii(b@) ==> same_but_case(page_key_spec(a@), page_key_spec(b@)),
{
    if a.is_empty() {
        return false;
    }
    let ka = page_key(a);
    let kb = page_key(b);
    proof {
        if all_ascii(a@) && same_but_case(a@, b@) {
            lemma_key_case(a@, b@);
            let pa = page_key_spec(a@);
            let pb = page_key_spec(b@);
            assert(all_ascii(pb)) by {
                assert forall|i: int| 0 <= i < pb.len() implies ascii(#[trigger] pb[i]) by {
                    assert(ascii(pa[i]));
                }
            }
            assert forall|i: int| 0 <= i < ka@.len() implies ka@[i] == kb@[i] by {
                assert(ascii_lower(pa[i], ka@[i]));
                assert(ascii_lower(pb[i], kb@[i]));
                assert((ka@[i] as u32) == (kb@[i] as u32));
                lemma_char_u32(ka@[i], kb@[i]);
            }
            assert(ka@ =~= kb@);
        }
    }
    let r = ka == kb;
    proof {
        if r && all_ascii(a@) && all_ascii(b@) {
            lemma_same_self(a@);
            lemma_same_self(b@);
            lemma_key_case(a@, a@);
            lemma_key_case(b@, b@);
            let pa = page_key_spec(a@);
            let pb = page_key_spec(b@);
            assert(ka@ == kb@);
            assert forall|i: int| 0 <= i < pa.len() implies #[trigger] pa[i] == pb[i] || (letter(pa[i]) && letter(pb[i]) && ((pa[i] as u32) == (pb[i] as u32) + 32 || (pb[i] as u32) == (pa[i] as u32) + 32)) by {
                assert(pa.len() == pb.len());
                assert(ascii_lower(pa[i], ka@[i]));
                assert(ascii_lower(pb[i], kb@[i]));
                assert(ka@[i] == kb@[i]);
                let x = pa[i] as u32;
                let y = pb[i] as u32;
                let z = ka@[i] as u32;
                if 65 <= x <= 90 && 65 <= y <= 90 {
                    assert(x + 32 == z && y + 32 == z);
                    lemma_char_u32(pa[i], pb[i]);
                } else if 65 <= x <= 90 {
                    assert(x + 32 == z && y == z);
                    assert(65 <= x <= 90);
                    assert(97 <= y <= 122);
                } else if 65 <= y <= 90 {
                    assert(y + 32 == z && x == z);
                    assert(65 <= y <= 90);
                    assert(97 <= x <= 122);
                } else {
                    assert(pa[i] == ka@[i] && pb[i] == kb@[i]);
                }
            }
        }
    }
    r
}

} // verus!
