//! Guessing a book's title and author from a file that was never meant to say.
//!
//! Downloaded Chinese TXT files are named things like
//! `元尊(精校版全本)TXT下载_爱下电子书.txt`. Nothing here needs a model: the
//! noise is a small, closed set of site names and format words, and the signal
//! is what survives removing them.
use vstd::prelude::*;
use crate::text::{
    first_at, from_chars, occurs, split, split_ranges, pieces, sub_at, tiles, to_chars, trim,
    trim_range, ws, is_ws, find_from, contains, slice_vec, lemma_first_at, lemma_split_nonempty,
};
use crate::{indented, indented_chars};

verus! {

// ------------------------------------------------------------ brackets

/// First index at or after `i` holding `c`, or -1.
pub open spec fn char_at_from(s: Seq<char>, c: char, i: int) -> int
    decreases s.len() - i,
{
    if i < 0 || i >= s.len() {
        -1
    } else if s[i] == c {
        i
    } else {
        char_at_from(s, c, i + 1)
    }
}

pub proof fn lemma_char_at_from(s: Seq<char>, c: char, i: int)
    requires
        0 <= i,
    ensures
        char_at_from(s, c, i) == -1 || (i <= char_at_from(s, c, i) < s.len() && s[char_at_from(
            s,
            c,
            i,
        )] == c),
        char_at_from(s, c, i) == -1 ==> forall|j: int| i <= j < s.len() ==> s[j] != c,
        char_at_from(s, c, i) >= 0 ==> forall|j: int| i <= j < char_at_from(s, c, i) ==> s[j] != c,
    decreases s.len() - i,
{
    if i < s.len() && s[i] != c {
        lemma_char_at_from(s, c, i + 1);
    }
}

/// Remove `open … close` spans (the first `open` before the first `close`),
/// repeatedly, until the first `open` no longer precedes the first `close`.
pub open spec fn strip_pair(s: Seq<char>, open: char, close: char) -> Seq<char>
    decreases s.len(),
{
    let a = char_at_from(s, open, 0);
    let z = char_at_from(s, close, 0);
    if a >= 0 && z >= 0 && a < z {
        proof {
            lemma_char_at_from(s, close, 0);
        }
        strip_pair(s.take(a) + s.skip(z + 1), open, close)
    } else {
        s
    }
}

/// Anything inside brackets in a downloaded file name is site decoration.
/// (Book-title marks 《》 are kept: they hold the title itself.)
pub open spec fn strip_brackets(s: Seq<char>) -> Seq<char> {
    strip_pair(
        strip_pair(strip_pair(strip_pair(s, '(', ')'), '（', '）'), '[', ']'),
        '【',
        '】',
    )
}

fn first_char(s: &[char], c: char) -> (r: Option<usize>)
    ensures
        match r {
            Some(i) => char_at_from(s@, c, 0) == i as int,
            None => char_at_from(s@, c, 0) == -1,
        },
{
    let mut i: usize = 0;
    while i < s.len()
        invariant
            i <= s.len(),
            char_at_from(s@, c, 0) == char_at_from(s@, c, i as int),
        decreases s.len() - i,
    {
        if s[i] == c {
            return Some(i);
        }
        i += 1;
    }
    None
}

fn strip_pair_exec(s: Vec<char>, open: char, close: char) -> (r: Vec<char>)
    ensures
        r@ == strip_pair(s@, open, close),
{
    let mut cur = s;
    loop
        invariant
            strip_pair(cur@, open, close) == strip_pair(s@, open, close),
        decreases cur@.len(),
    {
        let a = first_char(cur.as_slice(), open);
        let z = first_char(cur.as_slice(), close);
        match (a, z) {
            (Some(a), Some(z)) => {
                if a < z {
                    proof {
                        lemma_char_at_from(cur@, close, 0);
                    }
                    let mut next: Vec<char> = Vec::new();
                    let mut i: usize = 0;
                    while i < a
                        invariant
                            i <= a < z < cur@.len(),
                            next@ == cur@.take(i as int),
                        decreases a - i,
                    {
                        next.push(cur[i]);
                        i += 1;
                        assert(next@ =~= cur@.take(i as int));
                    }
                    let len = cur.len();
                    assert(z < len);
                    let mut j: usize = z + 1;
                    while j < cur.len()
                        invariant
                            a < z < cur@.len(),
                            z + 1 <= j <= cur@.len(),
                            next@ == cur@.take(a as int) + cur@.subrange(z + 1, j as int),
                        decreases cur.len() - j,
                    {
                        next.push(cur[j]);
                        j += 1;
                        assert(next@ =~= cur@.take(a as int) + cur@.subrange(z + 1, j as int));
                    }
                    assert(cur@.subrange(z + 1, cur@.len() as int) =~= cur@.skip(z + 1));
                    cur = next;
                } else {
                    return cur;
                }
            },
            _ => {
                return cur;
            },
        }
    }
}

// ------------------------------------------------------------ noise words

/// Site-boilerplate words. Removing the brackets first is what makes the list
/// short enough to be honest.
pub open spec fn noise() -> Seq<&'static str> {
    seq![
        "精校版", "精校", "校对版", "全本", "全集", "完本", "完结", "下载", "免费", "TXT", "txt",
        "Txt", "电子书", "小说网", "手打", "整理", "分享", "最新章节", "无弹窗", "在线阅读",
        "未删减", "修订版", "典藏版",
    ]
}

fn noise_exec() -> (v: Vec<&'static str>)
    ensures
        v@ == noise(),
{
    vec![
        "精校版", "精校", "校对版", "全本", "全集", "完本", "完结", "下载", "免费", "TXT", "txt",
        "Txt", "电子书", "小说网", "手打", "整理", "分享", "最新章节", "无弹窗", "在线阅读",
        "未删减", "修订版", "典藏版",
    ]
}

/// `str::replace(w, "")` from character `i` on: non-overlapping occurrences,
/// left to right.
pub open spec fn remove_from(s: Seq<char>, w: Seq<char>, i: int) -> Seq<char>
    decreases s.len() - i,
{
    if i < 0 || i >= s.len() {
        Seq::empty()
    } else if w.len() > 0 && sub_at(s, w, i) {
        remove_from(s, w, i + w.len())
    } else {
        seq![s[i]] + remove_from(s, w, i + 1)
    }
}

/// The first `k` noise words removed, in list order.
pub open spec fn remove_noise(s: Seq<char>, k: int) -> Seq<char>
    decreases k,
{
    if k <= 0 {
        s
    } else {
        remove_from(remove_noise(s, k - 1), noise()[k - 1]@, 0)
    }
}

fn remove_all(s: &[char], w: &[char]) -> (r: Vec<char>)
    ensures
        r@ == remove_from(s@, w@, 0),
{
    let mut out: Vec<char> = Vec::new();
    let mut i: usize = 0;
    while i < s.len()
        invariant
            i <= s.len() + w.len(),
            out@ + remove_from(s@, w@, i as int) == remove_from(s@, w@, 0),
        decreases s.len() - i,
    {
        if w.len() > 0 && matches_at_exec(s, w, i) {
            i += w.len();
        } else {
            let ghost before = remove_from(s@, w@, i as int);
            out.push(s[i]);
            assert(before == seq![s@[i as int]] + remove_from(s@, w@, i + 1));
            assert(out@ + remove_from(s@, w@, i + 1) =~= (out@.drop_last() + before));
            i += 1;
        }
    }
    assert(remove_from(s@, w@, i as int) =~= Seq::<char>::empty());
    assert(out@ =~= out@ + Seq::<char>::empty());
    out
}

fn matches_at_exec(s: &[char], w: &[char], i: usize) -> (r: bool)
    requires
        i < s.len(),
    ensures
        r == sub_at(s@, w@, i as int),
{
    crate::text::matches_at(s, w, i)
}

// ------------------------------------------------------------ edge junk

/// What `trim_matches` strips from the ends of a cleaned name.
pub open spec fn edge_junk(c: char) -> bool {
    ws(c) || c == '_' || c == '-' || c == '·' || c == '—' || c == '、' || c == ',' || c == '，'
        || c == '.'
}

fn is_edge_junk(c: char) -> (r: bool)
    ensures
        r == edge_junk(c),
{
    is_ws(c) || c == '_' || c == '-' || c == '·' || c == '—' || c == '、' || c == ',' || c == '，'
        || c == '.'
}

pub open spec fn junk_start(s: Seq<char>) -> Seq<char>
    decreases s.len(),
{
    if s.len() > 0 && edge_junk(s[0]) {
        junk_start(s.drop_first())
    } else {
        s
    }
}

pub open spec fn junk_end(s: Seq<char>) -> Seq<char>
    decreases s.len(),
{
    if s.len() > 0 && edge_junk(s.last()) {
        junk_end(s.drop_last())
    } else {
        s
    }
}

/// A file name with its brackets, noise words and edge punctuation removed.
pub open spec fn strip_noise_spec(s: Seq<char>) -> Seq<char> {
    junk_end(junk_start(remove_noise(strip_brackets(s), noise().len() as int)))
}

fn trim_junk(s: &[char]) -> (r: Vec<char>)
    ensures
        r@ == junk_end(junk_start(s@)),
{
    let mut a: usize = 0;
    assert(s@.subrange(0, s@.len() as int) =~= s@);
    while a < s.len() && is_edge_junk(s[a])
        invariant
            a <= s.len(),
            junk_start(s@) == junk_start(s@.subrange(a as int, s@.len() as int)),
        decreases s.len() - a,
    {
        assert(s@.subrange(a as int, s@.len() as int).drop_first() =~= s@.subrange(
            a + 1,
            s@.len() as int,
        ));
        a += 1;
    }
    assert(s@.subrange(0, s@.len() as int) =~= s@);
    let mut b: usize = s.len();
    while b > a && is_edge_junk(s[b - 1])
        invariant
            a <= b <= s.len(),
            junk_start(s@) == s@.subrange(a as int, s@.len() as int),
            junk_end(s@.subrange(a as int, s@.len() as int)) == junk_end(
                s@.subrange(a as int, b as int),
            ),
        decreases b - a,
    {
        assert(s@.subrange(a as int, b as int).drop_last() =~= s@.subrange(a as int, b - 1));
        b -= 1;
    }
    slice_vec(s, a, b)
}

/// Brackets first, then the noise words, then the punctuation left hanging at
/// either end.
pub fn strip_noise(s: &[char]) -> (r: Vec<char>)
    ensures
        r@ == strip_noise_spec(s@),
{
    let mut cur = slice_vec(s, 0, s.len());
    assert(cur@ =~= s@);
    cur = strip_pair_exec(cur, '(', ')');
    cur = strip_pair_exec(cur, '（', '）');
    cur = strip_pair_exec(cur, '[', ']');
    cur = strip_pair_exec(cur, '【', '】');
    let ghost stripped = cur@;
    let words = noise_exec();
    let mut k: usize = 0;
    while k < words.len()
        invariant
            words@ == noise(),
            k <= words.len(),
            cur@ == remove_noise(stripped, k as int),
        decreases words.len() - k,
    {
        let w = to_chars(words[k]);
        cur = remove_all(cur.as_slice(), w.as_slice());
        k += 1;
    }
    trim_junk(cur.as_slice())
}

// ------------------------------------------------------------ file names

/// Last index `< n` satisfying the separator test, or -1.
pub open spec fn last_slash(s: Seq<char>, n: int) -> int
    decreases n,
{
    if n <= 0 {
        -1
    } else if s[n - 1] == '/' || s[n - 1] == '\\' {
        n - 1
    } else {
        last_slash(s, n - 1)
    }
}

pub open spec fn last_dot(s: Seq<char>, n: int) -> int
    decreases n,
{
    if n <= 0 {
        -1
    } else if s[n - 1] == '.' {
        n - 1
    } else {
        last_dot(s, n - 1)
    }
}

pub open spec fn first_cut(s: Seq<char>, i: int) -> int
    decreases s.len() - i,
{
    if i < 0 || i >= s.len() {
        s.len() as int
    } else if s[i] == '_' || s[i] == '-' {
        i
    } else {
        first_cut(s, i + 1)
    }
}

proof fn lemma_last_slash(s: Seq<char>, n: int)
    requires
        0 <= n <= s.len(),
    ensures
        -1 <= last_slash(s, n) < n,
    decreases n,
{
    if n > 0 {
        lemma_last_slash(s, n - 1);
    }
}

proof fn lemma_last_dot(s: Seq<char>, n: int)
    requires
        0 <= n <= s.len(),
    ensures
        -1 <= last_dot(s, n) < n,
    decreases n,
{
    if n > 0 {
        lemma_last_dot(s, n - 1);
    }
}

proof fn lemma_first_cut(s: Seq<char>, i: int)
    requires
        0 <= i <= s.len(),
    ensures
        i <= first_cut(s, i) <= s.len(),
    decreases s.len() - i,
{
    if i < s.len() {
        lemma_first_cut(s, i + 1);
    }
}

/// The file name without directory and extension. A name with no extension
/// keeps the whole path, as `rsplit_once` finds nothing to cut.
pub open spec fn stem(p: Seq<char>) -> Seq<char> {
    let c = p.skip(last_slash(p, p.len() as int) + 1);
    let d = last_dot(c, c.len() as int);
    if d >= 0 {
        c.take(d)
    } else {
        p
    }
}

/// `作者：xxx` and `by xxx` sometimes ride along in the file name, after the
/// first `_` or `-`.
pub open spec fn from_filename_spec(p: Seq<char>) -> Seq<char> {
    let st = stem(p);
    let cut = st.take(first_cut(st, 0));
    let cleaned = strip_noise_spec(cut);
    if cleaned.len() == 0 {
        strip_noise_spec(st)
    } else {
        cleaned
    }
}

fn stem_exec(p: &[char]) -> (r: Vec<char>)
    ensures
        r@ == stem(p@),
{
    let mut n = p.len();
    while n > 0 && !(p[n - 1] == '/' || p[n - 1] == '\\')
        invariant
            n <= p.len(),
            last_slash(p@, p@.len() as int) == last_slash(p@, n as int),
        decreases n,
    {
        n -= 1;
    }
    // p[n..] is the last component
    let c = slice_vec(p, n, p.len());
    assert(c@ =~= p@.skip(last_slash(p@, p@.len() as int) + 1));
    let mut m = c.len();
    while m > 0 && c[m - 1] != '.'
        invariant
            m <= c.len(),
            last_dot(c@, c@.len() as int) == last_dot(c@, m as int),
        decreases m,
    {
        m -= 1;
    }
    if m > 0 {
        slice_vec(c.as_slice(), 0, m - 1)
    } else {
        let r = slice_vec(p, 0, p.len());
        assert(r@ =~= p@);
        r
    }
}

/// A book's title guessed from its file name.
pub fn from_filename(path: &str) -> (r: String)
    ensures
        r@ == from_filename_spec(path@),
{
    let p = to_chars(path);
    let st = stem_exec(p.as_slice());
    let mut i: usize = 0;
    while i < st.len() && !(st[i] == '_' || st[i] == '-')
        invariant
            i <= st.len(),
            first_cut(st@, 0) == first_cut(st@, i as int),
        decreases st.len() - i,
    {
        i += 1;
    }
    let cut = slice_vec(st.as_slice(), 0, i);
    let cleaned = strip_noise(cut.as_slice());
    if cleaned.len() == 0 {
        let again = strip_noise(st.as_slice());
        from_chars(again.as_slice())
    } else {
        from_chars(cleaned.as_slice())
    }
}

// ------------------------------------------------------------ author line

pub open spec fn label_sep(c: char) -> bool {
    c == ':' || c == '：' || c == ' ' || c == '\u{3000}'
}

pub open spec fn name_stop(c: char) -> bool {
    c == '』' || c == '」' || c == '】' || c == '）' || c == ')' || c == '/' || c == '\\' || c == '|'
        || c == ',' || c == '，' || c == '、' || c == ' ' || c == '\u{3000}'
}

pub open spec fn skip_seps(s: Seq<char>) -> Seq<char>
    decreases s.len(),
{
    if s.len() > 0 && label_sep(s[0]) {
        skip_seps(s.drop_first())
    } else {
        s
    }
}

pub open spec fn until_stop(s: Seq<char>) -> Seq<char>
    decreases s.len(),
{
    if s.len() == 0 || name_stop(s[0]) {
        Seq::empty()
    } else {
        seq![s[0]] + until_stop(s.drop_first())
    }
}

/// The label word.
pub open spec fn author_word() -> Seq<char> {
    seq!['作', '者']
}

/// `作者` followed by a separator labels the name that follows; a bare mention
/// ("正文没有作者字样") labels nothing.
pub open spec fn author_from_spec(line: Seq<char>) -> Option<Seq<char>> {
    let i = first_at(line, author_word(), 0);
    if i < 0 {
        None
    } else {
        let rest = line.skip(i + 2);
        if !(rest.len() > 0 && label_sep(rest[0])) {
            None
        } else {
            let name = trim(until_stop(skip_seps(rest)));
            if name.len() > 0 && name.len() <= 20 {
                Some(name)
            } else {
                None
            }
        }
    }
}

fn author_from_chars(line: &[char]) -> (r: Option<Vec<char>>)
    ensures
        match r {
            Some(v) => author_from_spec(line@) == Some(v@),
            None => author_from_spec(line@) is None,
        },
{
    let word = vec!['作', '者'];
    assert(word@ =~= author_word());
    let f = find_from(line, word.as_slice(), 0);
    proof {
        lemma_first_at(line@, author_word(), 0);
    }
    let i = match f {
        Some(i) => i,
        None => return None,
    };
    assert(sub_at(line@, author_word(), i as int));
    let len = line.len();
    assert(i + 2 <= len);
    let start = i + 2;
    if start >= line.len() {
        assert(line@.skip(i + 2).len() == 0);
        return None;
    }
    let c0 = line[start];
    if !(c0 == ':' || c0 == '：' || c0 == ' ' || c0 == '\u{3000}') {
        return None;
    }
    let ghost rest = line@.skip(i + 2);
    let mut a = start;
    while a < line.len() && (line[a] == ':' || line[a] == '：' || line[a] == ' ' || line[a]
        == '\u{3000}')
        invariant
            start <= a <= line.len(),
            rest == line@.skip(start as int),
            skip_seps(rest) == skip_seps(line@.skip(a as int)),
        decreases line.len() - a,
    {
        assert(line@.skip(a as int).drop_first() =~= line@.skip(a + 1));
        a += 1;
    }
    let mut b = a;
    let ghost tail = line@.skip(a as int);
    assert(skip_seps(tail) == tail);
    while b < line.len() && !(line[b] == '』' || line[b] == '」' || line[b] == '】' || line[b]
        == '）' || line[b] == ')' || line[b] == '/' || line[b] == '\\' || line[b] == '|' || line[b]
        == ',' || line[b] == '，' || line[b] == '、' || line[b] == ' ' || line[b] == '\u{3000}')
        invariant
            a <= b <= line.len(),
            tail == line@.skip(a as int),
            until_stop(tail) == line@.subrange(a as int, b as int) + until_stop(
                line@.skip(b as int),
            ),
        decreases line.len() - b,
    {
        assert(line@.skip(b as int).drop_first() =~= line@.skip(b + 1));
        assert(line@.subrange(a as int, b + 1) =~= line@.subrange(a as int, b as int) + seq![
            line@[b as int],
        ]);
        b += 1;
    }
    assert(until_stop(line@.skip(b as int)) =~= Seq::<char>::empty());
    assert(until_stop(tail) =~= line@.subrange(a as int, b as int));
    let (x, y) = trim_range(line, a, b);
    if y > x && y - x <= 20 {
        Some(slice_vec(line, x, y))
    } else {
        None
    }
}

/// `作者：季越人` / `作者:天蚕土豆` / `『元尊/作者:天蚕土豆』`
pub fn author_from(line: &str) -> (r: Option<String>)
    ensures
        match r {
            Some(s) => author_from_spec(line@) == Some(s@),
            None => author_from_spec(line@) is None,
        },
{
    let v = to_chars(line);
    match author_from_chars(v.as_slice()) {
        Some(n) => Some(from_chars(n.as_slice())),
        None => None,
    }
}

// ------------------------------------------------------------ extract

pub struct Meta {
    pub title: String,
    pub author: Option<String>,
}

/// The first flush line among lines `k..n` that labels an author: indented
/// body text is not front matter.
pub open spec fn first_author(ls: Seq<Seq<char>>, k: int, n: int) -> Option<Seq<char>>
    decreases n - k,
{
    if k < 0 || k >= n || k >= ls.len() {
        None
    } else if !indented(ls[k]) && author_from_spec(trim(ls[k])) is Some {
        author_from_spec(trim(ls[k]))
    } else {
        first_author(ls, k + 1, n)
    }
}

/// A flush line of the front matter that the file name contains, at least two
/// characters long: the title as the file itself states it.
pub open spec fn title_line(l: Seq<char>, from_file: Seq<char>) -> bool {
    !indented(l) && trim(l).len() >= 2 && occurs(from_file, trim(l))
}

pub open spec fn first_title(ls: Seq<Seq<char>>, from_file: Seq<char>, k: int, n: int) -> Option<
    Seq<char>,
>
    decreases n - k,
{
    if k < 0 || k >= n || k >= ls.len() {
        None
    } else if title_line(ls[k], from_file) {
        Some(trim(ls[k]))
    } else {
        first_title(ls, from_file, k + 1, n)
    }
}

/// Title and author from the first forty lines and the file name.
pub open spec fn extract_spec(path: Seq<char>, text: Seq<char>) -> (Seq<char>, Option<Seq<char>>) {
    let ls = split(text, '\n');
    let ff = from_filename_spec(path);
    let title = match first_title(ls, ff, 0, 40) {
        Some(t) => t,
        None => ff,
    };
    (title, first_author(ls, 0, 40))
}

/// The first flush lines of a book are its front matter, where the title and
/// author usually are. Body text is indented, so it is excluded for free.
///
/// A title stated in the file is preferred over one inferred from the file
/// name, but only when the file name agrees — otherwise the reader renamed the
/// file on purpose and that is respected.
pub fn extract(path: &str, text: &str) -> (m: Meta)
    ensures
        m.title@ == extract_spec(path@, text@).0,
        match extract_spec(path@, text@).1 {
            Some(a) => m.author is Some && m.author.unwrap()@ == a,
            None => m.author is None,
        },
{
    let v = to_chars(text);
    let rs = split_ranges(v.as_slice(), '\n');
    let ghost ls = split(v@, '\n');
    let ff_s = from_filename(path);
    let ff = to_chars(ff_s.as_str());
    let n: usize = if rs.len() < 40 {
        rs.len()
    } else {
        40
    };
    let mut author: Option<Vec<char>> = None;
    let mut k: usize = 0;
    while k < n && author.is_none()
        invariant
            n <= rs@.len(),
            n <= 40,
            n == 40 || n == ls.len(),
            ls.len() == rs@.len(),
            pieces(v@, rs@) == ls,
            tiles(v@, rs@, '\n'),
            k <= n,
            author is None ==> first_author(ls, 0, 40) == first_author(ls, k as int, 40),
            author matches Some(a) ==> first_author(ls, 0, 40) == Some(a@),
        decreases n - k, if author is None { 1int } else { 0int },
    {
        let (s, e) = rs[k];
        assert(ls[k as int] == v@.subrange(s as int, e as int));
        let raw = slice_vec(v.as_slice(), s, e);
        let (x, y) = trim_range(v.as_slice(), s, e);
        let line = slice_vec(v.as_slice(), x, y);
        let found = if indented_chars(raw.as_slice()) {
            None
        } else {
            author_from_chars(line.as_slice())
        };
        match found {
            Some(a) => {
                author = Some(a);
            },
            None => {
                k += 1;
            },
        }
    }
    let mut title: Option<Vec<char>> = None;
    let mut j: usize = 0;
    while j < n && title.is_none()
        invariant
            n <= rs@.len(),
            n <= 40,
            n == 40 || n == ls.len(),
            ls.len() == rs@.len(),
            pieces(v@, rs@) == ls,
            tiles(v@, rs@, '\n'),
            ff@ == from_filename_spec(path@),
            j <= n,
            title is None ==> first_title(ls, ff@, 0, 40) == first_title(ls, ff@, j as int, 40),
            title matches Some(t) ==> first_title(ls, ff@, 0, 40) == Some(t@),
        decreases n - j, if title is None { 1int } else { 0int },
    {
        let (s, e) = rs[j];
        assert(ls[j as int] == v@.subrange(s as int, e as int));
        let raw = slice_vec(v.as_slice(), s, e);
        let (x, y) = trim_range(v.as_slice(), s, e);
        let mut hit = false;
        if !indented_chars(raw.as_slice()) && y - x >= 2 {
            let t = slice_vec(v.as_slice(), x, y);
            if contains(ff.as_slice(), t.as_slice()) {
                title = Some(t);
                hit = true;
            }
        }
        if !hit {
            j += 1;
        }
    }
    let title_s = match title {
        Some(t) => from_chars(t.as_slice()),
        None => ff_s,
    };
    Meta {
        title: title_s,
        author: match author {
            Some(a) => Some(from_chars(a.as_slice())),
            None => None,
        },
    }
}

/// The FNV-1a hash of a byte string.
pub open spec fn fnv(bytes: Seq<u8>) -> u32
    decreases bytes.len(),
{
    if bytes.len() == 0 {
        2166136261u32
    } else {
        (((fnv(bytes.drop_last()) ^ (bytes.last() as u32)) as int * 16777619) % 0x1_0000_0000) as u32
    }
}

/// A stable colour for a text-only cover. Same book, same colour, forever.
/// Hue from the title; the muted saturation and lightness are fixed, because a
/// bookshelf of randomly saturated covers looks like a warning screen.
pub fn cover_hue(title: &str) -> (r: u16)
    ensures
        r as int == fnv(vstd::utf8::encode_utf8(title@)) % 360,
{
    let b = title.as_bytes();
    let mut h: u32 = 2166136261;
    let mut i: usize = 0;
    assert(b@.take(0) =~= Seq::<u8>::empty());
    while i < b.len()
        invariant
            i <= b.len(),
            b@ == vstd::utf8::encode_utf8(title@),
            h == fnv(b@.take(i as int)),
        decreases b.len() - i,
    {
        assert(b@.take(i + 1).drop_last() =~= b@.take(i as int));
        let x = h ^ (b[i] as u32);
        h = x.wrapping_mul(16777619);
        i += 1;
    }
    assert(b@.take(b@.len() as int) =~= b@);
    (h % 360) as u16
}

} // verus!
