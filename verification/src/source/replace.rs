//! A sheet's `replaceRegex`: the site's own list of what it glues to its
//! chapters and no reader wants (「一秒记住笔趣阁」, 「(第 2/3 页)」).
//!
//! The syntax is legado's: `##pattern##replacement`, the replacement
//! optional, the pattern a regex whose alternatives are separated by `|`.
//! Script parts (`{{…}}`, `<js>`) cannot run here; they are cut out, and
//! whatever plain regex remains is still applied.
use vstd::prelude::*;
use crate::text::{
    find_from, first_at, from_chars, lemma_first_at, occurs, prefix, push_all, push_range, slice_vec, split, split_ranges,
    pieces, str_contains, starts_with, to_chars, trim, trim_range,
};

verus! {

// ------------------------------------------------------------ braces

/// Where the `{{…}}` span opening at `open` ends (one past its last brace),
/// scanning from `j` at brace depth `depth`; none when it never closes.
pub open spec fn close_from(s: Seq<char>, j: int, depth: nat) -> Option<int>
    decreases s.len() - j,
{
    if j < 0 || j >= s.len() {
        None
    } else if s[j] == '{' {
        close_from(s, j + 1, depth + 1)
    } else if s[j] == '}' {
        let d: nat = if depth > 0 {
            (depth - 1) as nat
        } else {
            0
        };
        if d == 0 {
            Some(j + 1)
        } else {
            close_from(s, j + 1, d)
        }
    } else {
        close_from(s, j + 1, depth)
    }
}

pub proof fn lemma_close_after(s: Seq<char>, j: int, depth: nat)
    requires
        0 <= j,
    ensures
        close_from(s, j, depth) matches Some(e) ==> j < e <= s.len(),
    decreases s.len() - j,
{
    if 0 <= j < s.len() {
        lemma_close_after(s, j + 1, depth + 1);
        if depth > 1 {
            lemma_close_after(s, j + 1, (depth - 1) as nat);
        }
        lemma_close_after(s, j + 1, depth);
    }
}

/// `s` from `k` on, with every `{{…}}` span removed (brace-counted, so a
/// script full of braces goes out whole); an unclosed span drops the rest.
pub open spec fn unbraced(s: Seq<char>, k: int) -> Seq<char>
    decreases s.len() - k,
{
    if k < 0 || k > s.len() {
        Seq::empty()
    } else {
        let i = first_at(s, "{{"@, k);
        if i < 0 {
            s.subrange(k, s.len() as int)
        } else {
            match close_from(s, i, 0) {
                None => s.subrange(k, i),
                Some(e) => {
                    proof {
                        lemma_first_at(s, "{{"@, k);
                        lemma_close_after(s, i, 0);
                    }
                    s.subrange(k, i) + unbraced(s, e)
                },
            }
        }
    }
}

fn close_exec(s: &Vec<char>, open: usize) -> (r: Option<usize>)
    requires
        open <= s@.len(),
    ensures
        r matches Some(e) ==> e as int == close_from(s@, open as int, 0)->0 && close_from(s@, open as int, 0) is Some,
        r is None ==> close_from(s@, open as int, 0) is None,
{
    let mut depth: usize = 0;
    let mut j: usize = open;
    while j < s.len()
        invariant
            open <= j <= s@.len(),
            depth <= j - open,
            close_from(s@, open as int, 0) == close_from(s@, j as int, depth as nat),
        decreases s@.len() - j,
    {
        if s[j] == '{' {
            depth += 1;
        } else if s[j] == '}' {
            depth = if depth > 0 { depth - 1 } else { 0 };
            if depth == 0 {
                return Some(j + 1);
            }
        }
        j += 1;
    }
    None
}

/// `s` with every `{{…}}` span removed.
pub fn strip_braces(s: &Vec<char>) -> (r: Vec<char>)
    ensures
        r@ == unbraced(s@, 0),
{
    let open = to_chars("{{");
    let mut out: Vec<char> = Vec::new();
    let mut k: usize = 0;
    loop
        invariant
            k <= s@.len(),
            open@ == "{{"@,
            out@ + unbraced(s@, k as int) == unbraced(s@, 0),
        decreases s@.len() - k,
    {
        match find_from(s.as_slice(), open.as_slice(), k) {
            None => {
                let rest = slice_vec(s.as_slice(), k, s.len());
                push_all(&mut out, rest.as_slice());
                return out;
            },
            Some(i) => {
                proof {
                    lemma_first_at(s@, "{{"@, k as int);
                }
                let head = slice_vec(s.as_slice(), k, i);
                match close_exec(s, i) {
                    None => {
                        push_all(&mut out, head.as_slice());
                        return out;
                    },
                    Some(e) => {
                        proof {
                            lemma_close_after(s@, i as int, 0);
                            assert((out@ + head@) + unbraced(s@, e as int) =~= out@ + unbraced(s@, k as int));
                        }
                        push_all(&mut out, head.as_slice());
                        k = e;
                    },
                }
            },
        }
    }
}

// ------------------------------------------------------------ lines

/// `ps` joined with `sep` between neighbours.
pub open spec fn joined_by(ps: Seq<Seq<char>>, sep: Seq<char>) -> Seq<char>
    decreases ps.len(),
{
    if ps.len() == 0 {
        Seq::empty()
    } else if ps.len() == 1 {
        ps[0]
    } else {
        joined_by(ps.drop_last(), sep) + sep + ps.last()
    }
}

pub open spec fn filled(p: Seq<char>) -> bool {
    p.len() > 0
}

/// The trimmed non-empty pieces of `s` between `sep`s.
pub open spec fn kept_pieces(s: Seq<char>, sep: char) -> Seq<Seq<char>> {
    split(s, sep).map_values(|p: Seq<char>| trim(p)).filter(|p: Seq<char>| filled(p))
}

/// The text's lines, trimmed, blank ones dropped, joined by newlines.
pub open spec fn tidy_spec(s: Seq<char>) -> Seq<char> {
    joined_by(kept_pieces(s, '\n'), "\n"@)
}

/// The alternatives of a pattern, trimmed, empty ones dropped, joined by `|`.
pub open spec fn alternatives(p: Seq<char>) -> Seq<char> {
    joined_by(kept_pieces(p, '|'), "|"@)
}

/// The trimmed, non-empty pieces of `v` between `sep`s, joined by `glue`.
fn rejoin(v: &Vec<char>, sep: char, glue: &str) -> (r: Vec<char>)
    ensures
        r@ == joined_by(kept_pieces(v@, sep), glue@),
{
    let rs = split_ranges(v.as_slice(), sep);
    let ghost ps = pieces(v@, rs@);
    let mut out: Vec<char> = Vec::new();
    let mut kept: usize = 0;
    let ghost mut ks: Seq<Seq<char>> = Seq::empty();
    let mut j: usize = 0;
    assert(ps.take(0) =~= Seq::<Seq<char>>::empty());
    while j < rs.len()
        invariant
            ps == pieces(v@, rs@),
            ps == split(v@, sep),
            j <= rs@.len(),
            forall|k: int| 0 <= k < rs@.len() ==> (#[trigger] rs@[k]).0 <= rs@[k].1 <= v@.len(),
            ks == ps.take(j as int).map_values(|p: Seq<char>| trim(p)).filter(|p: Seq<char>| filled(p)),
            kept == ks.len(),
            out@ == joined_by(ks, glue@),
        decreases rs@.len() - j,
    {
        let (a, b) = trim_range(v.as_slice(), rs[j].0, rs[j].1);
        proof {
            let t = ps.take(j + 1);
            assert(t.drop_last() =~= ps.take(j as int));
            assert(ps[j as int] == v@.subrange(rs@[j as int].0 as int, rs@[j as int].1 as int));
            assert(t.map_values(|p: Seq<char>| trim(p)) =~= ps.take(j as int).map_values(|p: Seq<char>| trim(p)).push(
                trim(ps[j as int]),
            ));
            ps.take(j as int).map_values(|p: Seq<char>| trim(p)).lemma_filter_push(trim(ps[j as int]), |p: Seq<char>| filled(p));
        }
        if a < b {
            let ghost pre = ks;
            if kept > 0 {
                push_all(&mut out, to_chars(glue).as_slice());
            }
            push_range(&mut out, v.as_slice(), a, b);
            proof {
                ks = ks.push(v@.subrange(a as int, b as int));
                assert(ks.drop_last() =~= pre);
                if pre.len() == 0 {
                    assert(out@ =~= v@.subrange(a as int, b as int));
                }
            }
            kept += 1;
        }
        j += 1;
    }
    assert(ps.take(rs@.len() as int) =~= ps);
    out
}

/// The text's lines, trimmed, blank ones dropped.
pub fn tidy_lines(text: &str) -> (r: String)
    ensures
        r@ == tidy_spec(text@),
{
    let v = to_chars(text);
    from_chars(rejoin(&v, '\n', "\n").as_slice())
}

// ------------------------------------------------------------ the sheet

/// A replacement spec that is a script, not a regex.
pub open spec fn script_spec(t: Seq<char>) -> bool {
    occurs(t, "<js>"@) || prefix(t, "@js:"@)
}

/// The spec without its leading `##`.
pub open spec fn unmarked(t: Seq<char>) -> Seq<char> {
    if prefix(t, "##"@) {
        t.subrange(2, t.len() as int)
    } else {
        t
    }
}

/// The pattern half of `pattern##replacement`.
pub open spec fn pattern_half(t: Seq<char>) -> Seq<char> {
    let i = first_at(t, "##"@, 0);
    if i < 0 {
        t
    } else {
        t.subrange(0, i)
    }
}

/// The replacement half (empty when there is none).
pub open spec fn replacement_half(t: Seq<char>) -> Seq<char> {
    let i = first_at(t, "##"@, 0);
    if i < 0 {
        Seq::empty()
    } else {
        t.subrange(i + 2, t.len() as int)
    }
}

/// The regex and replacement a sheet's spec asks for: none when there is
/// no spec, when it is a script, or when no plain alternative is left.
pub open spec fn replace_plan(spec: Option<Seq<char>>) -> Option<(Seq<char>, Seq<char>)> {
    match spec {
        None => None,
        Some(raw) => {
            let t = trim(raw);
            if t.len() == 0 || script_spec(t) {
                None
            } else {
                let u = unmarked(t);
                let p = alternatives(unbraced(pattern_half(u), 0));
                if p.len() == 0 {
                    None
                } else {
                    Some((p, replacement_half(u)))
                }
            }
        }
    }
}

/// The regex a sheet's replacement spec comes to, with its replacement.
pub fn plan_replace(spec: Option<&str>) -> (r: Option<(String, String)>)
    ensures
        match replace_plan(
            match spec {
                Some(s) => Some(s@),
                None => None,
            },
        ) {
            None => r is None,
            Some(pl) => r matches Some(x) && x.0@ == pl.0 && x.1@ == pl.1,
        },
{
    let raw = match spec {
        None => {
            return None;
        },
        Some(s) => s,
    };
    let v = to_chars(raw);
    let (a, b) = trim_range(v.as_slice(), 0, v.len());
    assert(v@.subrange(0, v@.len() as int) =~= v@);
    let t = slice_vec(v.as_slice(), a, b);
    let ts = from_chars(t.as_slice());
    if t.len() == 0 || str_contains(ts.as_str(), "<js>") || starts_with(t.as_slice(), to_chars("@js:").as_slice()) {
        return None;
    }
    let mark = to_chars("##");
    proof {
        reveal_strlit("##");
    }
    let u = if starts_with(t.as_slice(), mark.as_slice()) {
        slice_vec(t.as_slice(), 2, t.len())
    } else {
        t
    };
    let (pat, rep) = match find_from(u.as_slice(), mark.as_slice(), 0) {
        None => (crate::cast::graph::copy_vec(&u), Vec::new()),
        Some(i) => {
            proof {
                lemma_first_at(u@, "##"@, 0);
            }
            (slice_vec(u.as_slice(), 0, i), slice_vec(u.as_slice(), i + 2, u.len()))
        },
    };
    let p = rejoin(&strip_braces(&pat), '|', "|");
    if p.len() == 0 {
        return None;
    }
    Some((from_chars(p.as_slice()), from_chars(rep.as_slice())))
}

/// Whether the regex crate accepts `pattern`.
pub uninterp spec fn regex_compiles(pattern: Seq<char>) -> bool;

/// What the regex crate's `replace_all` makes of `text` with `pattern` and
/// the replacement template `rep` (where `$1` and `${name}` name groups).
pub uninterp spec fn regex_replaced(pattern: Seq<char>, text: Seq<char>, rep: Seq<char>) -> Seq<char>;

/// `Regex::new(pattern)`, then `Regex::replace_all(text, rep)`: none when
/// the pattern does not compile, else every non-overlapping match replaced.
#[verifier::external_body]
fn replace_all(pattern: &str, text: &str, rep: &str) -> (r: Option<String>)
    ensures
        r is Some <==> regex_compiles(pattern@),
        r matches Some(o) ==> o@ == regex_replaced(pattern@, text@, rep@),
{
    match regex::Regex::new(pattern) {
        Ok(re) => Some(re.replace_all(text, rep).into_owned()),
        Err(_) => None,
    }
}

/// The chapter text after the sheet's replacement: unchanged when there is
/// nothing to apply or the pattern does not compile, else the replaced
/// text with its lines trimmed and blank ones dropped.
pub fn apply_replace(text: &str, spec: Option<&str>) -> (r: String)
    ensures
        match replace_plan(
            match spec {
                Some(s) => Some(s@),
                None => None,
            },
        ) {
            None => r@ == text@,
            Some(pl) => if regex_compiles(pl.0) {
                r@ == tidy_spec(regex_replaced(pl.0, text@, pl.1))
            } else {
                r@ == text@
            },
        },
{
    match plan_replace(spec) {
        None => text.to_owned(),
        Some((p, rep)) => match replace_all(p.as_str(), text, rep.as_str()) {
            None => text.to_owned(),
            Some(o) => tidy_lines(o.as_str()),
        },
    }
}

} // verus!
