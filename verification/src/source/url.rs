//! A search address as a sheet writes it: the URL, `{{key}}` and
//! `{{page}}` slots, and a `,{…}` tail of request options (method, body,
//! charset, headers) in the hand-written, sometimes single-quoted JSON that
//! legado sheets use.
use vstd::prelude::*;
use crate::source::rule::{absolute, absolute_spec, hex_char, hex_of, sanitize_url, sanitized, UrlSpec};
use crate::assistant::{eq_ascii_nocase, eq_nocase};
use crate::romance::people::same;
use crate::text::{
    decimal, dec, find_from, first_at, from_chars, lemma_first_at, occurs, push_all, slice_vec, str_contains,
    sub_at, to_chars, trim, trim_range,
};

verus! {

// ------------------------------------------------------------ quotes

/// The text with `'…'` read as string quotes: each single quote outside a
/// double-quoted string becomes `"`, a double quote inside a single-quoted
/// string is escaped, and anything after a backslash is kept as it is.
pub open spec fn requote_from(s: Seq<char>, i: int, dq: bool, sq: bool, esc: bool) -> Seq<char>
    decreases s.len() - i,
{
    if i < 0 || i >= s.len() {
        Seq::empty()
    } else {
        let c = s[i];
        if esc {
            seq![c] + requote_from(s, i + 1, dq, sq, false)
        } else if c == '\\' {
            seq![c] + requote_from(s, i + 1, dq, sq, true)
        } else if c == '"' && sq {
            seq!['\\', '"'] + requote_from(s, i + 1, dq, sq, false)
        } else if c == '"' {
            seq![c] + requote_from(s, i + 1, !dq, sq, false)
        } else if c == '\'' && !dq {
            seq!['"'] + requote_from(s, i + 1, dq, !sq, false)
        } else {
            seq![c] + requote_from(s, i + 1, dq, sq, false)
        }
    }
}

pub open spec fn requoted(s: Seq<char>) -> Seq<char> {
    requote_from(s, 0, false, false, false)
}

/// Swap `'…'` for `"…"`, leaving what is inside double quotes alone.
pub fn requote(s: &str) -> (r: String)
    ensures
        r@ == requoted(s@),
{
    let v = to_chars(s);
    let mut out: Vec<char> = Vec::new();
    let mut dq = false;
    let mut sq = false;
    let mut esc = false;
    let mut i: usize = 0;
    while i < v.len()
        invariant
            i <= v@.len(),
            out@ + requote_from(v@, i as int, dq, sq, esc) == requoted(v@),
        decreases v@.len() - i,
    {
        let c = v[i];
        let ghost before = out@;
        let ghost st = (dq, sq, esc);
        if esc {
            out.push(c);
            esc = false;
        } else if c == '\\' {
            out.push(c);
            esc = true;
        } else if c == '"' && sq {
            out.push('\\');
            out.push('"');
        } else if c == '"' {
            dq = !dq;
            out.push(c);
        } else if c == '\'' && !dq {
            sq = !sq;
            out.push('"');
        } else {
            out.push(c);
        }
        assert(out@ + requote_from(v@, i + 1, dq, sq, esc) =~= before + requote_from(v@, i as int, st.0, st.1, st.2));
        i += 1;
    }
    assert(out@ + Seq::<char>::empty() =~= out@);
    from_chars(out.as_slice())
}

// ------------------------------------------------------------ JSON options

/// What serde_json says is wrong with the text as JSON (its error, as
/// displayed); none when it parses.
pub uninterp spec fn json_problem(text: Seq<char>) -> Option<Seq<char>>;

/// The string at `key` of the JSON text's top-level object, if there is one.
pub uninterp spec fn json_str_at(text: Seq<char>, key: Seq<char>) -> Option<Seq<char>>;

/// The value at `key`: a string as itself, anything else as JSON text.
pub uninterp spec fn json_text_at(text: Seq<char>, key: Seq<char>) -> Option<Seq<char>>;

/// The boolean at `key`, if there is one.
pub uninterp spec fn json_bool_at(text: Seq<char>, key: Seq<char>) -> Option<bool>;

/// The members of the object at `key`, in serde_json's order, each with its
/// value if that is a string.
pub uninterp spec fn json_pairs_at(text: Seq<char>, key: Seq<char>) -> Seq<(Seq<char>, Option<Seq<char>>)>;

/// `serde_json::from_str::<Value>`: none when the text is JSON, else the
/// parser's error message.
#[verifier::external_body]
fn json_check(text: &str) -> (r: Option<String>)
    ensures
        match r {
            None => json_problem(text@) is None,
            Some(e) => json_problem(text@) == Some(e@),
        },
{
    serde_json::from_str::<serde_json::Value>(text).err().map(|e| e.to_string())
}

/// `from_str::<Value>`, then `Value::get(key)` and `Value::as_str`.
#[verifier::external_body]
fn json_str(text: &str, key: &str) -> (r: Option<String>)
    ensures
        match r {
            None => json_str_at(text@, key@) is None,
            Some(v) => json_str_at(text@, key@) == Some(v@),
        },
{
    let v: serde_json::Value = serde_json::from_str(text).ok()?;
    v.get(key).and_then(|x| x.as_str()).map(|x| x.to_string())
}

/// `from_str::<Value>`, then `Value::get(key)`: a string as itself, any
/// other value by its `Display` (JSON text).
#[verifier::external_body]
fn json_text(text: &str, key: &str) -> (r: Option<String>)
    ensures
        match r {
            None => json_text_at(text@, key@) is None,
            Some(v) => json_text_at(text@, key@) == Some(v@),
        },
{
    let v: serde_json::Value = serde_json::from_str(text).ok()?;
    v.get(key).map(|x| match x {
        serde_json::Value::String(s) => s.clone(),
        other => other.to_string(),
    })
}

/// `from_str::<Value>`, then `Value::get(key)` and `Value::as_bool`.
#[verifier::external_body]
fn json_bool(text: &str, key: &str) -> (r: Option<bool>)
    ensures
        r == json_bool_at(text@, key@),
{
    let v: serde_json::Value = serde_json::from_str(text).ok()?;
    v.get(key).and_then(|x| x.as_bool())
}

pub open spec fn pair_views(v: Seq<(String, Option<String>)>) -> Seq<(Seq<char>, Option<Seq<char>>)> {
    v.map_values(|p: (String, Option<String>)| (p.0@, match p.1 {
        Some(x) => Some(x@),
        None => None,
    }))
}

/// `from_str::<Value>`, then the members of the object at `key` (none when
/// it is not an object), each value by `Value::as_str`.
#[verifier::external_body]
fn json_pairs(text: &str, key: &str) -> (r: Vec<(String, Option<String>)>)
    ensures
        pair_views(r@) == json_pairs_at(text@, key@),
{
    match serde_json::from_str::<serde_json::Value>(text) {
        Ok(serde_json::Value::Object(m)) => match m.get(key) {
            Some(serde_json::Value::Object(h)) => h.iter().map(|(k, x)| (k.clone(), x.as_str().map(|s| s.to_string()))).collect(),
            _ => Vec::new(),
        },
        _ => Vec::new(),
    }
}

/// The text the options are read from: itself when it is JSON, else, when
/// it holds a single quote, the requoted text if that is JSON; otherwise
/// the parser's complaint.
pub open spec fn relaxed(s: Seq<char>) -> Result<Seq<char>, Seq<char>> {
    match json_problem(s) {
        None => Ok(s),
        Some(e) => if !s.contains('\'') {
            Err(e)
        } else {
            match json_problem(requoted(s)) {
                None => Ok(requoted(s)),
                Some(e2) => Err(e2),
            }
        },
    }
}

fn has_quote(v: &Vec<char>) -> (r: bool)
    ensures
        r == v@.contains('\''),
{
    let mut i: usize = 0;
    while i < v.len()
        invariant
            i <= v@.len(),
            forall|j: int| 0 <= j < i ==> v@[j] != '\'',
        decreases v@.len() - i,
    {
        if v[i] == '\'' {
            return true;
        }
        i += 1;
    }
    false
}

/// Read hand-written JSON: strict first, then with single quotes taken as
/// string quotes.
pub fn parse_relaxed(s: &str) -> (r: Result<String, String>)
    ensures
        match relaxed(s@) {
            Ok(t) => r matches Ok(x) && x@ == t,
            Err(e) => r matches Err(x) && x@ == e,
        },
{
    match json_check(s) {
        None => Ok(s.to_owned()),
        Some(e) => {
            if !has_quote(&to_chars(s)) {
                return Err(e);
            }
            let q = requote(s);
            match json_check(q.as_str()) {
                None => Ok(q),
                Some(e2) => Err(e2),
            }
        },
    }
}

/// The first `,{` at or after `k` whose `{…}` tail reads as options.
pub open spec fn options_at(s: Seq<char>, k: int) -> int
    decreases s.len() - k,
{
    let i = first_at(s, seq![',', '{'], k);
    if i < 0 || k < 0 {
        -1
    } else if relaxed(s.subrange(i + 1, s.len() as int)) is Ok {
        i
    } else {
        proof {
            lemma_first_at(s, seq![',', '{'], k);
        }
        options_at(s, i + 1)
    }
}

/// The address and, when the spec has one, its options tail.
pub open spec fn split_spec(s: Seq<char>) -> (Seq<char>, Option<Seq<char>>) {
    let i = options_at(s, 0);
    if i < 0 {
        (s, None)
    } else {
        (s.subrange(0, i), Some(s.subrange(i + 1, s.len() as int)))
    }
}

/// Split off the `,{…}` options tail: at the first `,{` that leaves valid
/// options behind, since a query string may hold commas and braces of its own.
pub fn split_options(spec: &str) -> (r: (String, Option<String>))
    ensures
        r.0@ == split_spec(spec@).0,
        match split_spec(spec@).1 {
            None => r.1 is None,
            Some(o) => r.1 matches Some(x) && x@ == o,
        },
{
    let v = to_chars(spec);
    let mark = to_chars(",{");
    let n = v.len();
    let mut k: usize = 0;
    proof {
        reveal_strlit(",{");
    }
    assert(mark@ =~= seq![',', '{']);
    while k <= n
        invariant
            n == v@.len(),
            v@ == spec@,
            mark@ == seq![',', '{'],
            options_at(v@, 0) == options_at(v@, k as int),
        decreases n + 1 - k,
    {
        match find_from(v.as_slice(), mark.as_slice(), k) {
            None => {
                assert(options_at(v@, k as int) == -1);
                return (from_chars(v.as_slice()), None);
            },
            Some(i) => {
                proof {
                    lemma_first_at(v@, mark@, k as int);
                }
                let tail = from_chars(slice_vec(v.as_slice(), i + 1, n).as_slice());
                match parse_relaxed(tail.as_str()) {
                    Ok(_) => {
                        assert(options_at(v@, k as int) == i);
                        return (from_chars(slice_vec(v.as_slice(), 0, i).as_slice()), Some(tail));
                    },
                    Err(_) => {},
                }
                k = i + 1;
            },
        }
    }
    (from_chars(v.as_slice()), None)
}


// ------------------------------------------------------------ the keyword

/// The text's bytes in the encoding a label denotes (`Encoding::for_label`,
/// then `Encoding::encode`); none when the label denotes no encoding.
pub uninterp spec fn label_bytes(label: Seq<char>, text: Seq<char>) -> Option<Seq<u8>>;

/// `Encoding::for_label(label)`, then `encode(text)`.
#[verifier::external_body]
fn encode_in(label: &str, text: &str) -> (r: Option<Vec<u8>>)
    ensures
        match r {
            None => label_bytes(label@, text@) is None,
            Some(b) => label_bytes(label@, text@) == Some(b@),
        },
{
    encoding_rs::Encoding::for_label(label.as_bytes()).map(|e| e.encode(text).0.into_owned())
}

/// Bytes a query may hold as they are.
pub open spec fn unreserved(b: u8) -> bool {
    (0x41 <= b <= 0x5A) || (0x61 <= b <= 0x7A) || (0x30 <= b <= 0x39) || b == 0x2D || b == 0x5F || b == 0x2E
        || b == 0x7E
}

/// Form encoding: unreserved bytes as they are, a space as `+`, the rest as
/// `%XX`.
pub open spec fn form_encoded(bs: Seq<u8>) -> Seq<char>
    decreases bs.len(),
{
    if bs.len() == 0 {
        Seq::empty()
    } else {
        let b = bs.last();
        form_encoded(bs.drop_last()) + if unreserved(b) {
            seq![b as char]
        } else if b == 0x20 {
            seq!['+']
        } else {
            crate::source::rule::pct(b)
        }
    }
}

/// The keyword's bytes as the site reads them: in the sheet's charset when
/// it names one other than UTF-8, else UTF-8.
pub open spec fn site_bytes(key: Seq<char>, charset: Option<Seq<char>>) -> Seq<u8> {
    match charset {
        Some(c) => {
            let t = trim(c);
            if !eq_ascii_nocase(t, "utf-8"@) && !eq_ascii_nocase(t, "utf8"@) && label_bytes(t, key) is Some {
                label_bytes(t, key)->0
            } else {
                vstd::utf8::encode_utf8(key)
            }
        },
        None => vstd::utf8::encode_utf8(key),
    }
}

fn form_encode(bs: &[u8]) -> (r: Vec<char>)
    ensures
        r@ == form_encoded(bs@),
{
    let mut out: Vec<char> = Vec::new();
    let mut i: usize = 0;
    assert(bs@.take(0) =~= Seq::<u8>::empty());
    while i < bs.len()
        invariant
            i <= bs@.len(),
            out@ == form_encoded(bs@.take(i as int)),
        decreases bs.len() - i,
    {
        let b = bs[i];
        let ghost t = bs@.take(i + 1);
        assert(t.drop_last() =~= bs@.take(i as int));
        assert(t.last() == b);
        if (0x41 <= b && b <= 0x5A) || (0x61 <= b && b <= 0x7A) || (0x30 <= b && b <= 0x39) || b == 0x2D || b == 0x5F
            || b == 0x2E || b == 0x7E {
            out.push(b as char);
        } else if b == 0x20 {
            out.push('+');
        } else {
            let ghost pre = out@;
            out.push('%');
            out.push(hex_of(b / 16));
            out.push(hex_of(b % 16));
            assert(out@ =~= pre + crate::source::rule::pct(b));
        }
        i += 1;
    }
    assert(bs@.take(bs@.len() as int) =~= bs@);
    out
}

/// Percent-encode the keyword in the encoding the site reads: many Chinese
/// novel sites are still GBK and do not answer to UTF-8.
pub fn urlencode(s: &str, charset: Option<&str>) -> (r: String)
    ensures
        r@ == form_encoded(site_bytes(s@, match charset {
            Some(c) => Some(c@),
            None => None,
        })),
{
    proof {
        reveal_strlit("utf-8");
        reveal_strlit("utf8");
    }
    let own: Option<Vec<u8>> = match charset {
        None => None,
        Some(c) => {
            let cv = to_chars(c);
            let (a, b) = trim_range(cv.as_slice(), 0, cv.len());
            assert(cv@.subrange(0, cv@.len() as int) =~= cv@);
            let t = slice_vec(cv.as_slice(), a, b);
            if eq_nocase(t.as_slice(), to_chars("utf-8").as_slice()) || eq_nocase(t.as_slice(), to_chars("utf8").as_slice()) {
                None
            } else {
                encode_in(from_chars(t.as_slice()).as_str(), s)
            }
        },
    };
    let out = match own {
        Some(b) => form_encode(b.as_slice()),
        None => form_encode(s.as_bytes()),
    };
    from_chars(out.as_slice())
}

// ------------------------------------------------------------ page arithmetic

pub open spec fn is_dig(c: char) -> bool {
    '0' <= c <= '9'
}

/// One past the run of digits starting at `at`.
pub open spec fn digits_end(c: Seq<char>, at: int) -> int
    decreases c.len() - at,
{
    if at < 0 || at >= c.len() || !is_dig(c[at]) {
        at
    } else {
        digits_end(c, at + 1)
    }
}

/// The decimal value of `c[from..to]`.
pub open spec fn digits_value(c: Seq<char>, from: int, to: int) -> int
    decreases to - from,
{
    if to <= from {
        0
    } else {
        digits_value(c, from, to - 1) * 10 + (c[to - 1] as int - '0' as int)
    }
}

pub open spec fn in_i64(v: int) -> bool {
    i64::MIN <= v <= i64::MAX
}

/// Division rounding toward zero, as integer `/` does.
pub open spec fn tdiv(a: int, b: int) -> int {
    if (a >= 0) == (b > 0) {
        (if a >= 0 { a } else { -a }) / (if b > 0 { b } else { -b })
    } else {
        -((if a >= 0 { a } else { -a }) / (if b > 0 { b } else { -b }))
    }
}

/// How tightly an operator binds; 0 for anything else.
pub open spec fn bp_of(op: char) -> int {
    if op == '+' || op == '-' {
        1
    } else if op == '*' || op == '/' {
        2
    } else {
        0
    }
}

/// `a op b`, when it is defined and fits in 64 bits.
pub open spec fn binop(op: char, a: int, b: int) -> Option<int> {
    let v = if op == '+' {
        a + b
    } else if op == '-' {
        a - b
    } else if op == '*' {
        a * b
    } else {
        tdiv(a, b)
    };
    if op == '/' && b == 0 {
        None
    } else if in_i64(v) {
        Some(v)
    } else {
        None
    }
}

/// A number, a bracketed expression, or a negated operand at `at`: its value
/// and where it ends.
pub open spec fn atom(c: Seq<char>, at: int) -> Option<(int, int)>
    decreases c.len() - at, 0int,
{
    if at < 0 || at >= c.len() {
        None
    } else if c[at] == '(' {
        match expr(c, at + 1, 0) {
            Some((v, a2)) => if 0 <= a2 < c.len() && c[a2] == ')' {
                Some((v, a2 + 1))
            } else {
                None
            },
            None => None,
        }
    } else if c[at] == '-' {
        match expr(c, at + 1, 3) {
            Some((v, a2)) => if in_i64(-v) {
                Some((-v, a2))
            } else {
                None
            },
            None => None,
        }
    } else if is_dig(c[at]) {
        let e = digits_end(c, at);
        let v = digits_value(c, at, e);
        if v <= i64::MAX {
            Some((v, e))
        } else {
            None
        }
    } else {
        None
    }
}

/// An expression at `at` whose operators bind at least `mb`: precedence
/// climbing, `+ -` loosest, then `* /`, then brackets.
pub open spec fn expr(c: Seq<char>, at: int, mb: int) -> Option<(int, int)>
    decreases c.len() - at, 1int,
{
    match atom(c, at) {
        None => None,
        Some((lhs, a1)) => if at < a1 <= c.len() {
            climb(c, lhs, a1, mb)
        } else {
            None
        },
    }
}

/// Fold the operators at `at` that bind at least `mb` onto `lhs`.
pub open spec fn climb(c: Seq<char>, lhs: int, at: int, mb: int) -> Option<(int, int)>
    decreases c.len() - at, 2int,
{
    if at < 0 || at >= c.len() {
        Some((lhs, at))
    } else {
        let op = c[at];
        let bp = bp_of(op);
        if bp == 0 || bp < mb {
            Some((lhs, at))
        } else {
            match expr(c, at + 1, bp + 1) {
                None => None,
                Some((r, a2)) => if at < a2 <= c.len() {
                    match binop(op, lhs, r) {
                        None => None,
                        Some(v) => climb(c, v, a2, mb),
                    }
                } else {
                    None
                },
            }
        }
    }
}

proof fn lemma_digits_grow(c: Seq<char>, from: int, j: int, e: int)
    requires
        from <= j <= e,
        forall|k: int| from <= k < e ==> is_dig(#[trigger] c[k]),
    ensures
        digits_value(c, from, j) <= digits_value(c, from, e),
        digits_value(c, from, j) >= 0,
    decreases e - j,
{
    if j < e {
        lemma_digits_grow(c, from, j + 1, e);
        lemma_digits_nonneg(c, from, j);
    } else {
        lemma_digits_nonneg(c, from, j);
    }
}

proof fn lemma_digits_nonneg(c: Seq<char>, from: int, to: int)
    requires
        forall|k: int| from <= k < to ==> is_dig(#[trigger] c[k]),
    ensures
        digits_value(c, from, to) >= 0,
    decreases to - from,
{
    if to > from {
        lemma_digits_nonneg(c, from, to - 1);
    }
}

proof fn lemma_digits_end(c: Seq<char>, at: int)
    requires
        0 <= at <= c.len(),
    ensures
        at <= digits_end(c, at) <= c.len(),
        forall|k: int| at <= k < digits_end(c, at) ==> is_dig(#[trigger] c[k]),
        digits_end(c, at) < c.len() ==> !is_dig(c[digits_end(c, at)]),
    decreases c.len() - at,
{
    if at < c.len() && is_dig(c[at]) {
        lemma_digits_end(c, at + 1);
    }
}

/// The number at `at`: its value (none past `i64::MAX`) and where it ends.
fn number(c: &Vec<char>, at: usize) -> (r: Option<(i64, usize)>)
    requires
        at < c@.len(),
        is_dig(c@[at as int]),
    ensures
        ({
            let e = digits_end(c@, at as int);
            let v = digits_value(c@, at as int, e);
            if v <= i64::MAX {
                r matches Some(x) && x.0 == v && x.1 == e
            } else {
                r is None
            }
        }),
{
    proof {
        lemma_digits_end(c@, at as int);
    }
    let ghost e = digits_end(c@, at as int);
    let mut v: i64 = 0;
    let mut j: usize = at;
    while j < c.len() && '0' <= c[j] && c[j] <= '9'
        invariant
            at <= j <= e,
            e == digits_end(c@, at as int),
            e <= c@.len(),
            forall|k: int| at <= k < e ==> is_dig(#[trigger] c@[k]),
            e < c@.len() ==> !is_dig(c@[e]),
            v == digits_value(c@, at as int, j as int),
            v >= 0,
        decreases c@.len() - j,
    {
        let d = (c[j] as u32 - '0' as u32) as i64;
        assert(digits_value(c@, at as int, j + 1) == v * 10 + d);
        if v > (i64::MAX - d) / 10 {
            proof {
                lemma_digits_grow(c@, at as int, j + 1, e);
                assert(v * 10 + d > i64::MAX) by (nonlinear_arith)
                    requires
                        v > (i64::MAX - d) / 10,
                        0 <= d <= 9,
                ;
            }
            return None;
        }
        assert(0 <= v * 10 + d <= i64::MAX) by (nonlinear_arith)
            requires
                v <= (i64::MAX - d) / 10,
                0 <= d <= 9,
                v >= 0,
        ;
        v = v * 10 + d;
        j += 1;
    }
    Some((v, j))
}

/// `a op b` in 64 bits, none when undefined or out of range.
fn apply(op: char, a: i64, b: i64) -> (r: Option<i64>)
    requires
        op == '+' || op == '-' || op == '*' || op == '/',
    ensures
        match binop(op, a as int, b as int) {
            None => r is None,
            Some(v) => r == Some(v as i64),
        },
{
    if op == '+' {
        a.checked_add(b)
    } else if op == '-' {
        a.checked_sub(b)
    } else if op == '*' {
        a.checked_mul(b)
    } else {
        if b == 0 {
            return None;
        }
        let ma: u128 = if a >= 0 { a as u128 } else { (-(a as i128)) as u128 };
        let mb: u128 = if b > 0 { b as u128 } else { (-(b as i128)) as u128 };
        let q: u128 = ma / mb;
        let v: i128 = if (a >= 0) == (b > 0) { q as i128 } else { -(q as i128) };
        assert(v == tdiv(a as int, b as int));
        assert(q <= ma) by (nonlinear_arith)
            requires
                q == ma / mb,
                mb >= 1,
        ;
        if v > i64::MAX as i128 || v < i64::MIN as i128 {
            None
        } else {
            Some(v as i64)
        }
    }
}

pub open spec fn same_parse(r: Option<(i64, usize)>, s: Option<(int, int)>) -> bool {
    match s {
        None => r is None,
        Some(x) => r matches Some(y) && y.0 == x.0 && y.1 == x.1,
    }
}

fn atom_exec(c: &Vec<char>, at: usize) -> (r: Option<(i64, usize)>)
    ensures
        same_parse(r, atom(c@, at as int)),
    decreases c@.len() - at, 0int,
{
    if at >= c.len() {
        return None;
    }
    if c[at] == '(' {
        match expr_exec(c, at + 1, 0) {
            Some((v, a2)) => if a2 < c.len() && c[a2] == ')' {
                Some((v, a2 + 1))
            } else {
                None
            },
            None => None,
        }
    } else if c[at] == '-' {
        match expr_exec(c, at + 1, 3) {
            Some((v, a2)) => if v == i64::MIN {
                None
            } else {
                Some((-v, a2))
            },
            None => None,
        }
    } else if '0' <= c[at] && c[at] <= '9' {
        number(c, at)
    } else {
        None
    }
}

fn expr_exec(c: &Vec<char>, at: usize, mb: u8) -> (r: Option<(i64, usize)>)
    requires
        mb <= 3,
    ensures
        same_parse(r, expr(c@, at as int, mb as int)),
    decreases c@.len() - at, 1int,
{
    match atom_exec(c, at) {
        None => None,
        Some((lhs, a1)) => if at < a1 && a1 <= c.len() {
            climb_exec(c, lhs, a1, mb)
        } else {
            None
        },
    }
}

fn climb_exec(c: &Vec<char>, lhs: i64, at: usize, mb: u8) -> (r: Option<(i64, usize)>)
    requires
        mb <= 3,
        at <= c@.len(),
    ensures
        same_parse(r, climb(c@, lhs as int, at as int, mb as int)),
    decreases c@.len() - at, 2int,
{
    if at >= c.len() {
        return Some((lhs, at));
    }
    let op = c[at];
    let bp: u8 = if op == '+' || op == '-' {
        1
    } else if op == '*' || op == '/' {
        2
    } else {
        0
    };
    if bp == 0 || bp < mb {
        return Some((lhs, at));
    }
    match expr_exec(c, at + 1, bp + 1) {
        None => None,
        Some((r, a2)) => if at < a2 && a2 <= c.len() {
            match apply(op, lhs, r) {
                None => None,
                Some(v) => climb_exec(c, v, a2, mb),
            }
        } else {
            None
        },
    }
}

/// `s` from `i` on with every `w` (non-empty) replaced by `r`, left to
/// right, as `str::replace` does.
pub open spec fn replaced(s: Seq<char>, w: Seq<char>, r: Seq<char>, i: int) -> Seq<char>
    decreases s.len() - i,
{
    if i < 0 || i >= s.len() {
        Seq::empty()
    } else if w.len() > 0 && sub_at(s, w, i) {
        r + replaced(s, w, r, i + w.len())
    } else {
        seq![s[i]] + replaced(s, w, r, i + 1)
    }
}

/// What page arithmetic may be made of.
pub open spec fn arith_char(c: char) -> bool {
    is_dig(c) || c == '+' || c == '-' || c == '*' || c == '/' || c == '(' || c == ')' || c == ' '
}

pub open spec fn unspaced(t: Seq<char>) -> Seq<char> {
    t.filter(|c: char| !crate::text::ws(c))
}

/// Integer arithmetic over `page` and nothing else: numbers, `page`,
/// `+ - * /` and brackets; anything else is a script and has no value.
pub open spec fn arith_spec(e: Seq<char>, page: nat) -> Option<int> {
    let src = replaced(e, seq!['p', 'a', 'g', 'e'], dec(page), 0);
    if src.len() == 0 || !(forall|i: int| 0 <= i < src.len() ==> arith_char(#[trigger] src[i])) {
        None
    } else {
        let t = unspaced(src);
        match expr(t, 0, 0) {
            Some((v, at)) => if at == t.len() {
                Some(v)
            } else {
                None
            },
            None => None,
        }
    }
}

/// The value of a page expression like `(page-1)*15`.
pub fn arithmetic(e: &str, page: u32) -> (r: Option<i64>)
    ensures
        match arith_spec(e@, page as nat) {
            None => r is None,
            Some(v) => r matches Some(x) && x == v,
        },
{
    proof {
        reveal_strlit("page");
    }
    let v = to_chars(e);
    let w = to_chars("page");
    assert(w@ =~= seq!['p', 'a', 'g', 'e']);
    let pd = decimal(page as u64);
    let mut src: Vec<char> = Vec::new();
    let mut i: usize = 0;
    while i < v.len()
        invariant
            i <= v@.len(),
            w@ == seq!['p', 'a', 'g', 'e'],
            v@ == e@,
            pd@ == dec(page as nat),
            src@ + replaced(v@, w@, pd@, i as int) == replaced(v@, w@, pd@, 0),
        decreases v@.len() - i,
    {
        let ghost pre = src@;
        if crate::text::matches_at(v.as_slice(), w.as_slice(), i) {
            push_all(&mut src, pd.as_slice());
            assert(src@ + replaced(v@, w@, pd@, i + 4) =~= pre + replaced(v@, w@, pd@, i as int));
            i += 4;
        } else {
            src.push(v[i]);
            assert(src@ + replaced(v@, w@, pd@, i + 1) =~= pre + replaced(v@, w@, pd@, i as int));
            i += 1;
        }
    }
    assert(src@ + Seq::<char>::empty() =~= src@);
    if src.len() == 0 {
        return None;
    }
    let mut t: Vec<char> = Vec::new();
    let mut k: usize = 0;
    assert(src@.take(0).filter(|c: char| !crate::text::ws(c)) =~= Seq::<char>::empty());
    while k < src.len()
        invariant
            k <= src@.len(),
            src@ == replaced(e@, seq!['p', 'a', 'g', 'e'], dec(page as nat), 0),
            forall|q: int| 0 <= q < k ==> arith_char(#[trigger] src@[q]),
            t@ == src@.take(k as int).filter(|c: char| !crate::text::ws(c)),
        decreases src@.len() - k,
    {
        let c = src[k];
        if !(('0' <= c && c <= '9') || c == '+' || c == '-' || c == '*' || c == '/' || c == '(' || c == ')' || c == ' ') {
            assert(!arith_char(src@[k as int]));
            return None;
        }
        proof {
            assert(src@.take(k + 1).drop_last() =~= src@.take(k as int));
            src@.take(k as int).lemma_filter_push(c, |c: char| !crate::text::ws(c));
            assert(src@.take(k as int).push(c) =~= src@.take(k + 1));
        }
        if !crate::text::is_ws(c) {
            t.push(c);
        }
        k += 1;
    }
    assert(src@.take(src@.len() as int) =~= src@);
    match expr_exec(&t, 0, 0) {
        Some((val, at)) => if at == t.len() {
            Some(val)
        } else {
            None
        },
        None => None,
    }
}

// ------------------------------------------------------------ slots

pub open spec fn opt_view(o: Option<&str>) -> Option<Seq<char>> {
    match o {
        Some(c) => Some(c@),
        None => None,
    }
}

/// What one `{{…}}` slot becomes: the encoded keyword, the page, the base
/// URL, or the value of page arithmetic; anything else is a script.
pub open spec fn slot_value(inner: Seq<char>, key: Seq<char>, page: nat, base: Seq<char>, charset: Option<Seq<char>>) -> Result<Seq<char>, Seq<char>> {
    if inner == "key"@ || inner == "searchKey"@ {
        Ok(form_encoded(site_bytes(key, charset)))
    } else if inner == "page"@ || inner == "searchPage"@ {
        Ok(dec(page))
    } else if inner == "baseUrl"@ {
        Ok(base)
    } else {
        match arith_spec(inner, page) {
            Some(n) => Ok(crate::portrait::int_text(n)),
            None => Err("这个书源用了脚本（{{"@ + inner + "}}），本机引擎跑不了"@),
        }
    }
}

/// `s` from `k` on with its slots filled; an unclosed `{{` is kept as text.
pub open spec fn interp(s: Seq<char>, k: int, key: Seq<char>, page: nat, base: Seq<char>, charset: Option<Seq<char>>) -> Result<Seq<char>, Seq<char>>
    decreases s.len() - k,
{
    if k < 0 || k > s.len() {
        Ok(Seq::empty())
    } else {
        let i = first_at(s, seq!['{', '{'], k);
        if i < 0 {
            Ok(s.subrange(k, s.len() as int))
        } else {
            let j = first_at(s, seq!['}', '}'], i + 2);
            if j < 0 {
                Ok(s.subrange(k, s.len() as int))
            } else {
                match slot_value(trim(s.subrange(i + 2, j)), key, page, base, charset) {
                    Err(e) => Err(e),
                    Ok(v) => {
                        proof {
                            lemma_first_at(s, seq!['{', '{'], k);
                            lemma_first_at(s, seq!['}', '}'], i + 2);
                        }
                        match interp(s, j + 2, key, page, base, charset) {
                            Ok(t) => Ok(s.subrange(k, i) + v + t),
                            Err(e) => Err(e),
                        }
                    },
                }
            }
        }
    }
}

pub open spec fn same_text(r: Result<String, String>, s: Result<Seq<char>, Seq<char>>) -> bool {
    match s {
        Ok(t) => r matches Ok(x) && x@ == t,
        Err(e) => r matches Err(x) && x@ == e,
    }
}

fn slot(inner: &Vec<char>, key: &str, page: u32, base: &str, charset: Option<&str>) -> (r: Result<Vec<char>, Vec<char>>)
    ensures
        match slot_value(inner@, key@, page as nat, base@, opt_view(charset)) {
            Ok(t) => r matches Ok(x) && x@ == t,
            Err(e) => r matches Err(x) && x@ == e,
        },
{
    if same(inner, &to_chars("key")) || same(inner, &to_chars("searchKey")) {
        Ok(to_chars(urlencode(key, charset).as_str()))
    } else if same(inner, &to_chars("page")) || same(inner, &to_chars("searchPage")) {
        Ok(decimal(page as u64))
    } else if same(inner, &to_chars("baseUrl")) {
        Ok(to_chars(base))
    } else {
        match arithmetic(from_chars(inner.as_slice()).as_str(), page) {
            Some(n) => Ok(crate::portrait::int_chars(n)),
            None => {
                let mut m = to_chars("这个书源用了脚本（{{");
                push_all(&mut m, inner.as_slice());
                push_all(&mut m, to_chars("}}），本机引擎跑不了").as_slice());
                Err(m)
            },
        }
    }
}

pub open spec fn prefixed(out: Seq<char>, r: Result<Seq<char>, Seq<char>>) -> Result<Seq<char>, Seq<char>> {
    match r {
        Ok(t) => Ok(out + t),
        Err(e) => Err(e),
    }
}

/// Fill the `{{key}}`, `{{page}}`, `{{baseUrl}}` and page-arithmetic slots;
/// any other slot is a script this engine cannot run.
#[verifier::rlimit(40)]
pub fn interpolate(s: &str, key: &str, page: u32, base: &str, charset: Option<&str>) -> (r: Result<String, String>)
    ensures
        same_text(r, interp(s@, 0, key@, page as nat, base@, opt_view(charset))),
{
    proof {
        reveal_strlit("{{");
        reveal_strlit("}}");
    }
    let v = to_chars(s);
    let open = to_chars("{{");
    let close = to_chars("}}");
    assert(open@ =~= seq!['{', '{']);
    assert(close@ =~= seq!['}', '}']);
    let n = v.len();
    let ghost cs = opt_view(charset);
    let ghost want = interp(v@, 0, key@, page as nat, base@, cs);
    let mut out: Vec<char> = Vec::new();
    let mut k: usize = 0;
    assert(prefixed(out@, interp(v@, 0, key@, page as nat, base@, cs)) =~= want) by {
        match want {
            Ok(t) => {
                assert(out@ + t =~= t);
            },
            Err(e) => {},
        }
    }
    loop
        invariant
            k <= n,
            n == v@.len(),
            v@ == s@,
            open@ == seq!['{', '{'],
            close@ == seq!['}', '}'],
            cs == opt_view(charset),
            want == interp(v@, 0, key@, page as nat, base@, cs),
            want == prefixed(out@, interp(v@, k as int, key@, page as nat, base@, cs)),
        decreases n - k,
    {
        let fi = find_from(v.as_slice(), open.as_slice(), k);
        if fi.is_none() {
            assert(interp(v@, k as int, key@, page as nat, base@, cs) == Ok::<Seq<char>, Seq<char>>(v@.subrange(k as int, n as int)));
            push_all(&mut out, slice_vec(v.as_slice(), k, n).as_slice());
            return Ok(from_chars(out.as_slice()));
        }
        let i = fi.unwrap();
        proof {
            lemma_first_at(v@, open@, k as int);
        }
        let fj = find_from(v.as_slice(), close.as_slice(), i + 2);
        if fj.is_none() {
            assert(interp(v@, k as int, key@, page as nat, base@, cs) == Ok::<Seq<char>, Seq<char>>(v@.subrange(k as int, n as int)));
            push_all(&mut out, slice_vec(v.as_slice(), k, n).as_slice());
            return Ok(from_chars(out.as_slice()));
        }
        let j = fj.unwrap();
        proof {
            lemma_first_at(v@, close@, i + 2);
        }
        let (a, b) = trim_range(v.as_slice(), i + 2, j);
        let inner = slice_vec(v.as_slice(), a, b);
        let sv = slot(&inner, key, page, base, charset);
        match sv {
            Err(e) => {
                assert(interp(v@, k as int, key@, page as nat, base@, cs) == Err::<Seq<char>, Seq<char>>(e@));
                return Err(from_chars(e.as_slice()));
            },
            Ok(val) => {
                let ghost pre = out@;
                push_all(&mut out, slice_vec(v.as_slice(), k, i).as_slice());
                push_all(&mut out, val.as_slice());
                proof {
                    let rest = interp(v@, j + 2, key@, page as nat, base@, cs);
                    assert(interp(v@, k as int, key@, page as nat, base@, cs) == match rest {
                        Ok(t) => Ok(v@.subrange(k as int, i as int) + val@ + t),
                        Err(e) => Err(e),
                    });
                    match rest {
                        Ok(t) => {
                            assert(out@ + t =~= pre + (v@.subrange(k as int, i as int) + val@ + t));
                        },
                        Err(e) => {},
                    }
                }
                k = j + 2;
            },
        }
    }
}

// ------------------------------------------------------------ the request

/// What `str::to_uppercase` makes of these characters.
pub uninterp spec fn uppercase(s: Seq<char>) -> Seq<char>;

/// `str::to_uppercase`: the Unicode upper-case mapping, a function of the
/// characters alone, named ([`uppercase`]) rather than spelled out; for an
/// all-ASCII string the documentation gives it: lower-case ASCII letters
/// move up by 32, every other character stays, one for one.
#[verifier::external_body]
fn to_upper(s: &str) -> (r: String)
    ensures
        r@ == uppercase(s@),
        (forall|i: int| 0 <= i < s@.len() ==> (#[trigger] s@[i] as u32) < 128) ==> r@.len() == s@.len() && forall|i: int|
            0 <= i < s@.len() ==> #[trigger] r@[i] == (if 'a' <= s@[i] && s@[i] <= 'z' { ((s@[i] as u32) - 32) as char } else { s@[i] }),
{
    s.to_uppercase()
}

pub open spec fn opt_string(o: Option<String>) -> Option<Seq<char>> {
    match o {
        Some(x) => Some(x@),
        None => None,
    }
}

pub open spec fn header_views(h: Seq<(String, String)>) -> Seq<(Seq<char>, Seq<char>)> {
    h.map_values(|p: (String, String)| (p.0@, p.1@))
}

/// The members whose value is a string.
pub open spec fn string_pairs(ps: Seq<(Seq<char>, Option<Seq<char>>)>) -> Seq<(Seq<char>, Seq<char>)>
    decreases ps.len(),
{
    if ps.len() == 0 {
        Seq::empty()
    } else {
        let r = string_pairs(ps.drop_last());
        match ps.last().1 {
            Some(v) => r.push((ps.last().0, v)),
            None => r,
        }
    }
}

/// A URL that a script computes.
pub open spec fn scripted(s: Seq<char>) -> bool {
    occurs(s, "<js>"@) || occurs(s, "@js:"@)
}

/// The charset the options name, read before the keyword is filled in: a
/// GBK site wants 剑 as %BD%A3.
pub open spec fn early_charset(opts: Option<Seq<char>>) -> Option<Seq<char>> {
    match opts {
        Some(o) => match relaxed(o) {
            Ok(t) => json_str_at(t, "charset"@),
            Err(_) => None,
        },
        None => None,
    }
}

/// What a sheet's search spec comes to for a keyword and page, resolved
/// against `base`.
pub open spec fn url_ok(spec: Seq<char>, base: Seq<char>, key: Seq<char>, page: nat, r: Result<UrlSpec, String>) -> bool {
    if scripted(spec) {
        r matches Err(e) && e@ == "这个书源的搜索地址是 JavaScript 拼出来的，本机引擎跑不了"@
    } else {
        let raw = split_spec(spec).0;
        let opts = split_spec(spec).1;
        let cs = early_charset(opts);
        match interp(raw, 0, key, page, base, cs) {
            Err(e) => r matches Err(x) && x@ == e,
            Ok(u) => {
                let url = sanitized(vstd::utf8::encode_utf8(absolute_spec(base, trim(u))), 0);
                match opts {
                    None => r matches Ok(x) && x.url@ == url && x.method@ == "GET"@ && x.body is None && x.charset is None
                        && x.headers@.len() == 0,
                    Some(o) => match interp(o, 0, key, page, base, cs) {
                        Err(e) => r matches Err(x) && x@ == e,
                        Ok(o2) => match relaxed(o2) {
                            Err(e) => r matches Err(x) && x@ == "书源的请求参数不是合法 JSON："@ + e,
                            Ok(t) => if json_bool_at(t, "webView"@) == Some(true) {
                                r matches Err(x) && x@ == "这个书源要用浏览器内核（webView）"@
                            } else {
                                r matches Ok(x) && x.url@ == url && x.method@ == (match json_str_at(t, "method"@) {
                                    Some(m) => uppercase(m),
                                    None => "GET"@,
                                }) && opt_string(x.body) == json_text_at(t, "body"@) && opt_string(x.charset) == json_str_at(
                                    t,
                                    "charset"@,
                                ) && header_views(x.headers@) == string_pairs(json_pairs_at(t, "headers"@))
                            },
                        },
                    },
                }
            },
        }
    }
}

fn string_headers(ps: Vec<(String, Option<String>)>) -> (r: Vec<(String, String)>)
    ensures
        header_views(r@) == string_pairs(pair_views(ps@)),
{
    let ghost pv = pair_views(ps@);
    let mut ps = ps;
    let n = ps.len();
    let mut out: Vec<(String, String)> = Vec::new();
    let mut i: usize = 0;
    assert(pv.take(0) =~= Seq::<(Seq<char>, Option<Seq<char>>)>::empty());
    while i < n
        invariant
            n == ps@.len(),
            i <= n,
            pv.len() == n,
            forall|k: int| i <= k < n ==> #[trigger] pair_views(ps@)[k] == pv[k],
            header_views(out@) == string_pairs(pv.take(i as int)),
        decreases n - i,
    {
        let mut p: (String, Option<String>) = (String::new(), None);
        assert(pair_views(ps@)[i as int] == pv[i as int]);
        let ghost before = ps@;
        ps.set_and_swap(i, &mut p);
        let ghost t = pv.take(i + 1);
        assert(t.drop_last() =~= pv.take(i as int));
        assert(t.last() == pv[i as int]);
        assert(pv[i as int].0 == p.0@);
        let ghost pre = out@;
        match p.1 {
            Some(v) => {
                assert(pv[i as int].1 == Some(v@));
                let ghost item = (p.0@, v@);
                out.push((p.0, v));
                assert(header_views(out@) =~= header_views(pre).push(item));
            },
            None => {
                assert(pv[i as int].1 is None);
            },
        }
        proof {
            assert forall|k: int| i + 1 <= k < n implies #[trigger] pair_views(ps@)[k] == pv[k] by {
                assert(ps@[k] == before[k]);
                assert(pair_views(before)[k] == pv[k]);
            }
        }
        i += 1;
    }
    assert(pv.take(n as int) =~= pv);
    out
}

impl UrlSpec {
    /// The request a sheet's search spec makes for a keyword and page: the
    /// slots filled, the address resolved against `base` and encoded, and
    /// the options tail read for method, body, charset and headers.
    pub fn parse(spec: &str, base: &str, key: &str, page: u32) -> (r: Result<UrlSpec, String>)
        ensures
            url_ok(spec@, base@, key@, page as nat, r),
    {
        if str_contains(spec, "<js>") || str_contains(spec, "@js:") {
            return Err("这个书源的搜索地址是 JavaScript 拼出来的，本机引擎跑不了".to_owned());
        }
        let (raw_url, opts) = split_options(spec);
        let charset: Option<String> = match &opts {
            Some(o) => match parse_relaxed(o.as_str()) {
                Ok(t) => json_str(t.as_str(), "charset"),
                Err(_) => None,
            },
            None => None,
        };
        let cs: Option<&str> = match &charset {
            Some(c) => Some(c.as_str()),
            None => None,
        };
        let url = match interpolate(raw_url.as_str(), key, page, base, cs) {
            Err(e) => {
                return Err(e);
            },
            Ok(u) => u,
        };
        let uv = to_chars(url.as_str());
        let (a, b) = trim_range(uv.as_slice(), 0, uv.len());
        assert(uv@.subrange(0, uv@.len() as int) =~= uv@);
        let trimmed = from_chars(slice_vec(uv.as_slice(), a, b).as_slice());
        let addr = sanitize_url(absolute(base, trimmed.as_str()).as_str());
        let o = match opts {
            None => {
                return Ok(UrlSpec { url: addr, method: "GET".to_owned(), body: None, charset: None, headers: Vec::new() });
            },
            Some(o) => o,
        };
        let o2 = match interpolate(o.as_str(), key, page, base, cs) {
            Err(e) => {
                return Err(e);
            },
            Ok(x) => x,
        };
        let t = match parse_relaxed(o2.as_str()) {
            Err(e) => {
                let mut m = to_chars("书源的请求参数不是合法 JSON：");
                push_all(&mut m, to_chars(e.as_str()).as_slice());
                return Err(from_chars(m.as_slice()));
            },
            Ok(t) => t,
        };
        if json_bool(t.as_str(), "webView") == Some(true) {
            return Err("这个书源要用浏览器内核（webView）".to_owned());
        }
        let method = match json_str(t.as_str(), "method") {
            Some(m) => to_upper(m.as_str()),
            None => "GET".to_owned(),
        };
        let body = json_text(t.as_str(), "body");
        let own_charset = json_str(t.as_str(), "charset");
        let headers = string_headers(json_pairs(t.as_str(), "headers"));
        Ok(UrlSpec { url: addr, method, body, charset: own_charset, headers })
    }
}

} // verus!
