//! Reading a thinking model's reply: the answer after its `</think>` block,
//! the vocabulary word it settled on, and the verdict three such replies add
//! up to.
use vstd::prelude::*;
use crate::text::{from_chars, lex_less, lex_lt, matches_at, push_all, slice_vec, sub_at, to_chars};

verus! {

/// The last index at or below `i` where `w` occurs, or -1.
pub open spec fn last_at(s: Seq<char>, w: Seq<char>, i: int) -> int
    decreases i + 1,
{
    if i < 0 {
        -1
    } else if sub_at(s, w, i) {
        i
    } else {
        last_at(s, w, i - 1)
    }
}

/// The last occurrence of `w` in `s`, or -1.
pub open spec fn last_of(s: Seq<char>, w: Seq<char>) -> int {
    last_at(s, w, s.len() - w.len())
}

pub open spec fn think_end() -> Seq<char> {
    seq!['<', '/', 't', 'h', 'i', 'n', 'k', '>']
}

/// What follows the reply's last `</think>`; all of it when there is none.
pub open spec fn after_tag(raw: Seq<char>) -> Seq<char> {
    let i = last_of(raw, think_end());
    if i < 0 {
        raw
    } else {
        raw.subrange(i + 8, raw.len() as int)
    }
}

fn last_occurrence(s: &Vec<char>, w: &Vec<char>) -> (r: Option<usize>)
    ensures
        match r {
            None => last_of(s@, w@) < 0,
            Some(i) => last_of(s@, w@) == i,
        },
{
    if w.len() > s.len() {
        assert(last_of(s@, w@) == -1) by {
            assert(s@.len() - w@.len() < 0);
        }
        return None;
    }
    let mut i: usize = s.len() - w.len();
    loop
        invariant
            i <= s@.len() - w@.len(),
            w@.len() <= s@.len(),
            last_of(s@, w@) == last_at(s@, w@, i as int),
        decreases i,
    {
        if matches_at(s.as_slice(), w.as_slice(), i) {
            return Some(i);
        }
        if i == 0 {
            assert(last_at(s@, w@, -1) == -1);
            return None;
        }
        i -= 1;
    }
}

fn tail_of(raw: &str) -> (r: Vec<char>)
    ensures
        r@ == after_tag(raw@),
{
    let v = to_chars(raw);
    let tag = to_chars("</think>");
    proof {
        reveal_strlit("</think>");
    }
    assert(tag@ =~= think_end());
    match last_occurrence(&v, &tag) {
        None => v,
        Some(i) => {
            proof {
                assert(sub_at(v@, think_end(), i as int)) by {
                    lemma_last_at(v@, think_end(), v@.len() - 8);
                }
                assert(i + 8 <= v@.len());
            }
            let n = v.len();
            assert(i + 8 <= n);
            let from: usize = i + 8;
            slice_vec(v.as_slice(), from, n)
        },
    }
}

proof fn lemma_last_at(s: Seq<char>, w: Seq<char>, i: int)
    ensures
        last_at(s, w, i) >= 0 ==> sub_at(s, w, last_at(s, w, i)) && last_at(s, w, i) <= i,
    decreases i + 1,
{
    if i >= 0 && !sub_at(s, w, i) {
        lemma_last_at(s, w, i - 1);
    }
}

// ------------------------------------------------------------ the word picked

/// `(p, a)` sorts after `(q, b)`: later, or at the same place and the
/// greater word.
pub open spec fn later(p: int, a: Seq<char>, q: int, b: Seq<char>) -> bool {
    p > q || (p == q && lex_lt(b, a))
}

/// Of the first `k` vocabulary words, the one whose last occurrence in `t`
/// comes latest (on a tie, the greater word), with that position.
pub open spec fn pick_upto(t: Seq<char>, vocab: Seq<&'static str>, k: int) -> Option<(int, &'static str)>
    decreases k,
{
    if k <= 0 {
        None
    } else {
        let cur = pick_upto(t, vocab, k - 1);
        let w = vocab[k - 1];
        let p = last_of(t, w@);
        if p < 0 {
            cur
        } else {
            match cur {
                None => Some((p, w)),
                Some(c) => if later(p, w@, c.0, c.1@) || (p == c.0 && w@ == c.1@) {
                    Some((p, w))
                } else {
                    cur
                },
            }
        }
    }
}

/// The vocabulary word a reply settled on: the one it wrote last after its
/// thinking.
pub open spec fn tail_pick_spec(raw: Seq<char>, vocab: Seq<&'static str>) -> Option<&'static str> {
    match pick_upto(after_tag(raw), vocab, vocab.len() as int) {
        None => None,
        Some(x) => Some(x.1),
    }
}

/// The vocabulary word written last after the reply's thinking, if any.
pub fn tail_pick(raw: &str, vocab: &Vec<&'static str>) -> (r: Option<&'static str>)
    ensures
        r == tail_pick_spec(raw@, vocab@),
{
    let t = tail_of(raw);
    let mut best: Option<(usize, &'static str)> = None;
    let mut k: usize = 0;
    while k < vocab.len()
        invariant
            k <= vocab@.len(),
            t@ == after_tag(raw@),
            match pick_upto(t@, vocab@, k as int) {
                None => best is None,
                Some(c) => best matches Some(b) && b.0 == c.0 && b.1 == c.1,
            },
        decreases vocab@.len() - k,
    {
        let w = vocab[k];
        let wv = to_chars(w);
        match last_occurrence(&t, &wv) {
            None => {},
            Some(p) => {
                let take = match best {
                    None => true,
                    Some((q, b)) => {
                        let bv = to_chars(b);
                        p > q || (p == q && (lex_less(bv.as_slice(), wv.as_slice()) || crate::romance::people::same(&bv, &wv)))
                    },
                };
                if take {
                    best = Some((p, w));
                }
            },
        }
        k += 1;
    }
    match best {
        None => None,
        Some((_, w)) => Some(w),
    }
}

/// How a thinking model's three votes on whether a word names a person add
/// up: none usable is no verdict; else a person unless the word votes win
/// (a tie keeps the candidate: deleting someone real is worse than one
/// stray word on the canvas).
pub open spec fn vote_spec(replies: Seq<String>, k: int) -> (int, int)
    decreases k,
{
    if k <= 0 {
        (0, 0)
    } else {
        let c = vote_spec(replies, k - 1);
        match tail_pick_spec(replies[k - 1]@, seq!["人物", "词语"]) {
            Some(w) => if w@ == "人物"@ {
                (c.0 + 1, c.1)
            } else if w@ == "词语"@ {
                (c.0, c.1 + 1)
            } else {
                c
            },
            None => c,
        }
    }
}

/// The verdict the replies to "is this a person?" add up to.
pub fn person_verdict(replies: &Vec<String>) -> (r: Result<bool, String>)
    ensures
        ({
            let c = vote_spec(replies@, replies@.len() as int);
            if c.0 == 0 && c.1 == 0 {
                r matches Err(e) && e@ == "模型没有给出可用判断"@
            } else {
                r == Ok::<bool, String>(c.0 >= c.1)
            }
        }),
{
    let vocab: Vec<&'static str> = vec!["人物", "词语"];
    let mut person: u64 = 0;
    let mut word: u64 = 0;
    let mut k: usize = 0;
    while k < replies.len()
        invariant
            k <= replies@.len(),
            vocab@ == seq!["人物", "词语"],
            person <= k,
            word <= k,
            (person as int, word as int) == vote_spec(replies@, k as int),
        decreases replies@.len() - k,
    {
        match tail_pick(replies[k].as_str(), &vocab) {
            Some(w) => {
                if crate::romance::ledger::str_same(w, "人物") {
                    person += 1;
                } else if crate::romance::ledger::str_same(w, "词语") {
                    word += 1;
                }
            },
            None => {},
        }
        k += 1;
    }
    if person == 0 && word == 0 {
        return Err("模型没有给出可用判断".to_owned());
    }
    Ok(person >= word)
}

// ------------------------------------------------------------ the answer

/// The pieces of `s` between runs of white space.
pub open spec fn ws_pieces(s: Seq<char>) -> Seq<Seq<char>>
    decreases s.len(),
{
    if s.len() == 0 {
        seq![Seq::<char>::empty()]
    } else {
        let p = ws_pieces(s.drop_last());
        if crate::text::ws(s.last()) {
            p.push(Seq::<char>::empty())
        } else {
            p.update(p.len() - 1, p.last().push(s.last()))
        }
    }
}

/// `split_whitespace` joined by single spaces.
pub open spec fn one_line(s: Seq<char>) -> Seq<char> {
    crate::source::replace::joined_by(ws_pieces(s).filter(|p: Seq<char>| p.len() > 0), seq![' '])
}

/// Punctuation a displayed answer does not start or end with.
pub open spec fn edge_punct(c: char) -> bool {
    c == '。' || c == '.' || c == '！' || c == '!' || c == '；' || c == ';' || c == '：' || c == ':' || c == '"' || c == '“'
        || c == '”'
}

pub open spec fn strip_front(s: Seq<char>) -> Seq<char>
    decreases s.len(),
{
    if s.len() > 0 && edge_punct(s[0]) {
        strip_front(s.drop_first())
    } else {
        s
    }
}

pub open spec fn strip_back(s: Seq<char>) -> Seq<char>
    decreases s.len(),
{
    if s.len() > 0 && edge_punct(s.last()) {
        strip_back(s.drop_last())
    } else {
        s
    }
}

/// The answer after the thinking, on one line, without edge punctuation,
/// clipped to `max` characters with `…` when it was longer.
pub open spec fn after_think_spec(raw: Seq<char>, max: int) -> Seq<char> {
    let s = strip_back(strip_front(crate::text::trim(one_line(after_tag(raw)))));
    if s.len() <= max {
        s
    } else {
        s.take(max).push('…')
    }
}

fn is_edge_punct(c: char) -> (r: bool)
    ensures
        r == edge_punct(c),
{
    c == '。' || c == '.' || c == '！' || c == '!' || c == '；' || c == ';' || c == '：' || c == ':' || c == '"' || c == '“'
        || c == '”'
}

fn words_joined(v: &Vec<char>) -> (r: Vec<char>)
    ensures
        r@ == one_line(v@),
{
    let n = v.len();
    let mut out: Vec<char> = Vec::new();
    let mut cur: Vec<char> = Vec::new();
    let ghost mut done: Seq<Seq<char>> = Seq::empty();
    let mut kept: usize = 0;
    let mut i: usize = 0;
    assert(v@.take(0) =~= Seq::<char>::empty());
    assert(ws_pieces(Seq::<char>::empty()) =~= done.push(cur@));
    while i < n
        invariant
            n == v@.len(),
            i <= n,
            ws_pieces(v@.take(i as int)) == done.push(cur@),
            out@ == crate::source::replace::joined_by(done.filter(|p: Seq<char>| p.len() > 0), seq![' ']),
            kept == done.filter(|p: Seq<char>| p.len() > 0).len(),
            kept <= i,
        decreases n - i,
    {
        let ghost t = v@.take(i + 1);
        assert(t.drop_last() =~= v@.take(i as int));
        assert(t.last() == v@[i as int]);
        if crate::text::is_ws(v[i]) {
            proof {
                done.lemma_filter_push(cur@, |p: Seq<char>| p.len() > 0);
            }
            if cur.len() > 0 {
                let ghost pre = done.filter(|p: Seq<char>| p.len() > 0);
                if kept > 0 {
                    out.push(' ');
                }
                push_all(&mut out, cur.as_slice());
                proof {
                    let nf = pre.push(cur@);
                    assert(nf.drop_last() =~= pre);
                    if pre.len() == 0 {
                        assert(out@ =~= cur@);
                    } else {
                        assert(out@ =~= crate::source::replace::joined_by(pre, seq![' ']) + seq![' '] + cur@);
                    }
                }
                kept += 1;
            }
            proof {
                done = done.push(cur@);
                assert(ws_pieces(t) =~= done.push(Seq::<char>::empty()));
            }
            cur = Vec::new();
        } else {
            let ghost before = cur@;
            cur.push(v[i]);
            proof {
                let p = ws_pieces(v@.take(i as int));
                assert(p.last() == before);
                assert(ws_pieces(t) =~= done.push(cur@));
            }
        }
        i += 1;
    }
    assert(v@.take(n as int) =~= v@);
    proof {
        done.lemma_filter_push(cur@, |p: Seq<char>| p.len() > 0);
    }
    if cur.len() > 0 {
        let ghost pre = done.filter(|p: Seq<char>| p.len() > 0);
        if kept > 0 {
            out.push(' ');
        }
        push_all(&mut out, cur.as_slice());
        proof {
            let nf = pre.push(cur@);
            assert(nf.drop_last() =~= pre);
            if pre.len() == 0 {
                assert(out@ =~= cur@);
            } else {
                assert(out@ =~= crate::source::replace::joined_by(pre, seq![' ']) + seq![' '] + cur@);
            }
        }
    }
    out
}

/// The answer after a thinking model's `</think>` block, cleaned up for
/// display: whitespace collapsed, trimmed, edge punctuation dropped, and
/// clipped to `max_chars` characters.
pub fn after_think(raw: &str, max_chars: usize) -> (r: String)
    ensures
        r@ == after_think_spec(raw@, max_chars as int),
{
    let t = tail_of(raw);
    let line = words_joined(&t);
    let (a, b) = crate::text::trim_range(line.as_slice(), 0, line.len());
    assert(line@.subrange(0, line@.len() as int) =~= line@);
    let mut lo = a;
    let mut hi = b;
    while lo < hi && is_edge_punct(line[lo])
        invariant
            a <= lo <= hi <= b,
            b <= line@.len(),
            strip_front(line@.subrange(a as int, b as int)) == strip_front(line@.subrange(lo as int, b as int)),
        decreases hi - lo,
    {
        assert(line@.subrange(lo as int, b as int).drop_first() =~= line@.subrange(lo + 1, b as int));
        lo += 1;
    }
    assert(lo == b || !edge_punct(line@[lo as int]) ==> strip_front(line@.subrange(lo as int, b as int)) == line@.subrange(lo as int, b as int));
    while hi > lo && is_edge_punct(line[hi - 1])
        invariant
            lo <= hi <= b,
            b <= line@.len(),
            strip_back(line@.subrange(lo as int, b as int)) == strip_back(line@.subrange(lo as int, hi as int)),
        decreases hi - lo,
    {
        assert(line@.subrange(lo as int, hi as int).drop_last() =~= line@.subrange(lo as int, hi - 1));
        hi -= 1;
    }
    assert(hi == lo || !edge_punct(line@[hi - 1]) ==> strip_back(line@.subrange(lo as int, hi as int)) == line@.subrange(lo as int, hi as int));
    let s = slice_vec(line.as_slice(), lo, hi);
    if s.len() <= max_chars {
        from_chars(s.as_slice())
    } else {
        let mut out = slice_vec(s.as_slice(), 0, max_chars);
        out.push('…');
        assert(s@.subrange(0, max_chars as int) =~= s@.take(max_chars as int));
        from_chars(out.as_slice())
    }
}

} // verus!
