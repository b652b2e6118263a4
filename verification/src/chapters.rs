//! Chapter-title detection: classify the lines that could be titles, elect the
//! numbering templates the whole book uses, and keep the titles that agree.
use vstd::prelude::*;
use crate::fingerprint::{Fingerprint, ParagraphStyle};
use crate::text::{
    decimal, dec, digit, from_chars, is_digit, pieces, prefix, slice_vec, split, split_ranges,
    starts_with, tiles, to_chars, trim, trim_range,
};
use crate::{indented, indented_chars};

verus! {

#[derive(Debug, Clone, Copy, PartialEq, Eq, Structural)]
pub enum Template {
    /// 第N章 / 第N节 / 第N卷 …
    Ordinal,
    /// A bare number on its own line.
    BareNumber,
    /// N.标题 / N、标题
    NumberDot,
    /// 楔子 / 序章 / 番外 / 大结局 …
    Named,
}

/// `第三卷` and `第三章` look alike and mean different things. Merging them puts
/// volume headers in the chapter list and, worse, feeds volume numbers into the
/// chapter numbering check, where a book's third volume looks like a wild jump
/// backwards from its 900th chapter.
#[derive(Debug, Clone, Copy, PartialEq, Eq, Structural)]
pub enum Level {
    Volume,
    Chapter,
}

#[derive(Debug)]
pub struct Candidate {
    pub line_idx: usize,
    pub text: String,
    pub template: Template,
    pub level: Level,
    pub number: Option<u64>,
}

/// A candidate as plain values.
pub type CandV = (usize, Seq<char>, Template, Level, Option<u64>);

impl View for Candidate {
    type V = CandV;

    open spec fn view(&self) -> CandV {
        (self.line_idx, self.text@, self.template, self.level, self.number)
    }
}

impl Candidate {
    pub fn copy(&self) -> (r: Candidate)
        ensures
            r@ == self@,
    {
        Candidate {
            line_idx: self.line_idx,
            text: self.text.clone(),
            template: self.template,
            level: self.level,
            number: self.number,
        }
    }
}

// ------------------------------------------------------------ numerals

/// Value of a Chinese digit character.
pub open spec fn digit_value(c: char) -> Option<nat> {
    if c == '〇' || c == '零' {
        Some(0)
    } else if c == '一' {
        Some(1)
    } else if c == '二' || c == '两' {
        Some(2)
    } else if c == '三' {
        Some(3)
    } else if c == '四' {
        Some(4)
    } else if c == '五' {
        Some(5)
    } else if c == '六' {
        Some(6)
    } else if c == '七' {
        Some(7)
    } else if c == '八' {
        Some(8)
    } else if c == '九' {
        Some(9)
    } else if c == '十' {
        Some(10)
    } else {
        None
    }
}

fn cn_digit(c: char) -> (r: Option<u64>)
    ensures
        match digit_value(c) {
            Some(d) => r == Some(d as u64),
            None => r is None,
        },
{
    if c == '〇' || c == '零' {
        Some(0)
    } else if c == '一' {
        Some(1)
    } else if c == '二' || c == '两' {
        Some(2)
    } else if c == '三' {
        Some(3)
    } else if c == '四' {
        Some(4)
    } else if c == '五' {
        Some(5)
    } else if c == '六' {
        Some(6)
    } else if c == '七' {
        Some(7)
    } else if c == '八' {
        Some(8)
    } else if c == '九' {
        Some(9)
    } else if c == '十' {
        Some(10)
    } else {
        None
    }
}

pub open spec fn at_least_one(x: nat) -> nat {
    if x == 0 {
        1
    } else {
        x
    }
}

/// (total, section, current) after reading `s`, or None on a character that
/// is no numeral: 万 closes a section into the total, 千/百/十 scale the
/// current digit (one when there is none) into the section, a digit replaces
/// the current digit.
pub open spec fn cn_state(s: Seq<char>) -> Option<(nat, nat, nat)>
    decreases s.len(),
{
    if s.len() == 0 {
        Some((0, 0, 0))
    } else {
        match cn_state(s.drop_last()) {
            None => None,
            Some((t, sec, cur)) => {
                let c = s.last();
                if c == '万' {
                    Some((t + (sec + cur) * 10000, 0, 0))
                } else if c == '千' {
                    Some((t, sec + at_least_one(cur) * 1000, 0))
                } else if c == '百' {
                    Some((t, sec + at_least_one(cur) * 100, 0))
                } else if c == '十' {
                    Some((t, sec + at_least_one(cur) * 10, 0))
                } else {
                    match digit_value(c) {
                        Some(d) => Some((t, sec, d)),
                        None => None,
                    }
                }
            },
        }
    }
}

/// 一百零九 → 109, 三千二百 → 3200, 一万零五 → 10005.
pub open spec fn cn_numeral_spec(s: Seq<char>) -> Option<nat> {
    if s.len() == 0 {
        None
    } else {
        match cn_state(s) {
            Some((t, sec, cur)) => Some(t + sec + cur),
            None => None,
        }
    }
}

proof fn lemma_cn_bounds(s: Seq<char>)
    ensures
        cn_state(s) matches Some((t, sec, cur)) ==> cur <= 9 && sec <= 9000 * s.len()
            && t <= 100_000_000 * s.len() * s.len(),
    decreases s.len(),
{
    if s.len() > 0 {
        lemma_cn_bounds(s.drop_last());
        let n = s.len() as int;
        if let Some((t, sec, cur)) = cn_state(s.drop_last()) {
            assert(sec <= 9000 * (n - 1));
            assert(t <= 100_000_000 * (n - 1) * (n - 1));
            assert(t + (sec + cur) * 10000 <= 100_000_000 * n * n) by (nonlinear_arith)
                requires
                    cur <= 9,
                    sec <= 9000 * (n - 1),
                    t <= 100_000_000 * (n - 1) * (n - 1),
                    n >= 1,
            ;
            assert(100_000_000 * (n - 1) * (n - 1) <= 100_000_000 * n * n) by (nonlinear_arith)
                requires
                    n >= 1,
            ;
        }
    }
}

/// Every running total of reading `s` fits a `u64`: the reading never
/// overflows.
pub open spec fn cn_fits(s: Seq<char>) -> bool {
    forall|k: int|
        0 <= k <= s.len() ==> match #[trigger] cn_state(s.take(k)) {
            Some((t, sec, cur)) => t + sec + cur <= u64::MAX,
            None => true,
        }
}

/// A numeral of at most 100 000 characters never overflows.
proof fn lemma_cn_fits_short(s: Seq<char>)
    requires
        s.len() <= 100_000,
    ensures
        cn_fits(s),
{
    assert forall|k: int| 0 <= k <= s.len() implies match #[trigger] cn_state(s.take(k)) {
        Some((t, sec, cur)) => t + sec + cur <= u64::MAX,
        None => true,
    } by {
        lemma_cn_bounds(s.take(k));
        assert(100_000_000 * k * k <= 100_000_000 * 100_000 * 100_000) by (nonlinear_arith)
            requires
                0 <= k <= 100_000,
        ;
        assert(9000 * k <= 9000 * 100_000) by (nonlinear_arith)
            requires
                0 <= k <= 100_000,
        ;
    }
}

/// Chinese numerals, read the way chapter titles write them.
pub fn cn_numeral(s: &str) -> (r: Option<u64>)
    requires
        cn_fits(s@),
    ensures
        match cn_numeral_spec(s@) {
            Some(v) => r == Some(v as u64) && v <= u64::MAX,
            None => r is None,
        },
{
    let v = to_chars(s);
    cn_numeral_chars(v.as_slice())
}

fn cn_numeral_chars(s: &[char]) -> (r: Option<u64>)
    requires
        cn_fits(s@),
    ensures
        match cn_numeral_spec(s@) {
            Some(v) => r == Some(v as u64) && v <= u64::MAX,
            None => r is None,
        },
{
    let mut total: u64 = 0;
    let mut section: u64 = 0;
    let mut current: u64 = 0;
    let mut i: usize = 0;
    assert(s@.take(0) =~= Seq::<char>::empty());
    while i < s.len()
        invariant
            i <= s@.len(),
            cn_fits(s@),
            cn_state(s@.take(i as int)) == Some((total as nat, section as nat, current as nat)),
        decreases s.len() - i,
    {
        proof {
            assert(s@.take(i + 1).drop_last() =~= s@.take(i as int));
            assert(s@.take(i + 1).last() == s@[i as int]);
            let _ = cn_state(s@.take(i + 1));
        }
        let c = s[i];
        let one = if current == 0 {
            1
        } else {
            current
        };
        if c == '万' {
            total = total + (section + current) * 10000;
            section = 0;
            current = 0;
        } else if c == '千' {
            section = section + one * 1000;
            current = 0;
        } else if c == '百' {
            section = section + one * 100;
            current = 0;
        } else if c == '十' {
            section = section + one * 10;
            current = 0;
        } else {
            match cn_digit(c) {
                Some(d) => {
                    current = d;
                },
                None => {
                    assert(cn_state(s@.take(i + 1)) is None);
                    proof {
                        lemma_cn_none_extends(s@, i as int + 1);
                    }
                    return None;
                },
            }
        }
        i += 1;
    }
    assert(s@.take(s@.len() as int) =~= s@);
    if s.len() == 0 {
        None
    } else {
        proof {
            let _ = cn_state(s@.take(s@.len() as int));
        }
        Some(total + section + current)
    }
}

proof fn lemma_cn_none_extends(s: Seq<char>, k: int)
    requires
        0 <= k <= s.len(),
        cn_state(s.take(k)) is None,
    ensures
        cn_state(s) is None,
    decreases s.len() - k,
{
    if k < s.len() {
        assert(s.take(k + 1).drop_last() =~= s.take(k));
        lemma_cn_none_extends(s, k + 1);
    } else {
        assert(s.take(k) =~= s);
    }
}

/// Decimal value of a run of ASCII digits.
pub open spec fn dec_value(s: Seq<char>) -> nat
    decreases s.len(),
{
    if s.len() == 0 {
        0
    } else {
        dec_value(s.drop_last()) * 10 + ((s.last() as u32) - ('0' as u32)) as nat
    }
}

pub open spec fn all_digits(s: Seq<char>) -> bool {
    forall|i: int| 0 <= i < s.len() ==> digit(#[trigger] s[i])
}

/// `str::parse::<u64>` on a run of ASCII digits: the value, when it fits.
pub open spec fn parse_digits(s: Seq<char>) -> Option<nat> {
    if s.len() > 0 && all_digits(s) && dec_value(s) <= u64::MAX {
        Some(dec_value(s))
    } else {
        None
    }
}

/// A number written in ASCII digits or in Chinese numerals.
pub open spec fn parse_number_spec(s: Seq<char>) -> Option<nat> {
    if s.len() == 0 {
        None
    } else if all_digits(s) {
        parse_digits(s)
    } else {
        cn_numeral_spec(s)
    }
}

pub(crate) proof fn lemma_dec_value_mono(s: Seq<char>, k: int)
    requires
        0 <= k <= s.len(),
        all_digits(s),
    ensures
        dec_value(s.take(k)) <= dec_value(s),
    decreases s.len() - k,
{
    if k < s.len() {
        lemma_dec_value_mono(s, k + 1);
        assert(s.take(k + 1).drop_last() =~= s.take(k));
        assert(digit(s[k]));
    } else {
        assert(s.take(k) =~= s);
    }
}

fn parse_digits_chars(s: &[char]) -> (r: Option<u64>)
    requires
        all_digits(s@),
        s@.len() > 0,
    ensures
        match parse_digits(s@) {
            Some(v) => r == Some(v as u64),
            None => r is None,
        },
{
    let mut acc: u64 = 0;
    let mut i: usize = 0;
    assert(s@.take(0) =~= Seq::<char>::empty());
    while i < s.len()
        invariant
            i <= s@.len(),
            all_digits(s@),
            acc as nat == dec_value(s@.take(i as int)),
        decreases s.len() - i,
    {
        assert(s@.take(i + 1).drop_last() =~= s@.take(i as int));
        assert(digit(s@[i as int]));
        let d = (s[i] as u32) - ('0' as u32);
        match acc.checked_mul(10) {
            Some(m) => match m.checked_add(d as u64) {
                Some(a) => {
                    acc = a;
                },
                None => {
                    proof {
                        lemma_dec_value_mono(s@, i + 1);
                    }
                    return None;
                },
            },
            None => {
                proof {
                    lemma_dec_value_mono(s@, i + 1);
                }
                return None;
            },
        }
        i += 1;
    }
    assert(s@.take(s@.len() as int) =~= s@);
    Some(acc)
}

/// A number written in ASCII digits or in Chinese numerals.
pub fn parse_number(s: &[char]) -> (r: Option<u64>)
    requires
        s@.len() <= 100_000,
    ensures
        match parse_number_spec(s@) {
            Some(v) => r == Some(v as u64) && v <= u64::MAX,
            None => r is None,
        },
{
    if s.len() == 0 {
        return None;
    }
    let mut i: usize = 0;
    while i < s.len()
        invariant
            i <= s@.len() <= 100_000,
            forall|j: int| 0 <= j < i ==> digit(#[trigger] s@[j]),
        decreases s.len() - i,
    {
        if !is_digit(s[i]) {
            proof {
                lemma_cn_fits_short(s@);
            }
            return cn_numeral_chars(s);
        }
        i += 1;
    }
    parse_digits_chars(s)
}

pub open spec fn numeral_char(c: char) -> bool {
    digit(c) || c == '〇' || c == '零' || c == '一' || c == '二' || c == '两' || c == '三'
        || c == '四' || c == '五' || c == '六' || c == '七' || c == '八' || c == '九' || c == '十'
        || c == '百' || c == '千' || c == '万'
}

pub fn is_numeral_char(c: char) -> (r: bool)
    ensures
        r == numeral_char(c),
{
    is_digit(c) || c == '〇' || c == '零' || c == '一' || c == '二' || c == '两' || c == '三'
        || c == '四' || c == '五' || c == '六' || c == '七' || c == '八' || c == '九' || c == '十'
        || c == '百' || c == '千' || c == '万'
}

pub open spec fn chapter_unit(c: char) -> bool {
    c == '章' || c == '节' || c == '節' || c == '回'
}

pub open spec fn volume_unit(c: char) -> bool {
    c == '卷' || c == '部' || c == '篇' || c == '集'
}

pub open spec fn dot_sep(c: char) -> bool {
    c == '.' || c == '、' || c == '．' || c == ' ' || c == '\u{3000}'
}

/// Titles with no number at all.
pub open spec fn named() -> Seq<&'static str> {
    seq!["楔子", "序章", "序言", "引子", "尾声", "后记", "番外", "大结局", "终章"]
}

fn named_exec() -> (v: Vec<&'static str>)
    ensures
        v@ == named(),
{
    vec!["楔子", "序章", "序言", "引子", "尾声", "后记", "番外", "大结局", "终章"]
}

/// Index of the first non-numeral character at or after `i`, or `s.len()`.
pub open spec fn numeral_end(s: Seq<char>, i: int) -> int
    decreases s.len() - i,
{
    if i < 0 || i >= s.len() {
        s.len() as int
    } else if !numeral_char(s[i]) {
        i
    } else {
        numeral_end(s, i + 1)
    }
}

/// Count of leading ASCII digits from `i`.
pub open spec fn digit_run(s: Seq<char>, i: int) -> int
    decreases s.len() - i,
{
    if i < 0 || i >= s.len() || !digit(s[i]) {
        0
    } else {
        1 + digit_run(s, i + 1)
    }
}

proof fn lemma_numeral_end(s: Seq<char>, i: int)
    requires
        0 <= i <= s.len(),
    ensures
        i <= numeral_end(s, i) <= s.len(),
        forall|j: int| i <= j < numeral_end(s, i) ==> numeral_char(s[j]),
    decreases s.len() - i,
{
    if i < s.len() && numeral_char(s[i]) {
        lemma_numeral_end(s, i + 1);
    }
}

proof fn lemma_digit_run(s: Seq<char>, i: int)
    requires
        0 <= i <= s.len(),
    ensures
        0 <= digit_run(s, i) <= s.len() - i,
        forall|j: int| i <= j < i + digit_run(s, i) ==> digit(s[j]),
        i + digit_run(s, i) < s.len() ==> !digit(s[i + digit_run(s, i)]),
    decreases s.len() - i,
{
    if i < s.len() && digit(s[i]) {
        lemma_digit_run(s, i + 1);
    }
}

/// What a (trimmed) line is, if it is a title: 第<number><unit>, a bare
/// number, `N.标题`, or one of the [`named`] words. Scanning for a unit
/// anywhere in the line once matched "第二天早上，…赶着回家…" through the 回 of
/// 回家, so the unit must sit right after the numerals.
pub open spec fn classify_spec(line: Seq<char>) -> Option<(Template, Level, Option<u64>)> {
    let s = trim(line);
    if s.len() == 0 || s.len() > 40 {
        None
    } else {
        let e = numeral_end(s, 1);
        if s[0] == '第' && e > 1 && e < s.len() && (chapter_unit(s[e]) || volume_unit(s[e])) {
            let level = if volume_unit(s[e]) {
                Level::Volume
            } else {
                Level::Chapter
            };
            Some((Template::Ordinal, level, opt_u64(parse_number_spec(s.subrange(1, e)))))
        } else if all_digits(s) {
            Some((Template::BareNumber, Level::Chapter, opt_u64(parse_number_spec(s))))
        } else {
            let d = digit_run(s, 0);
            if 1 <= d <= 4 && d + 1 < s.len() && dot_sep(s[d]) {
                Some((Template::NumberDot, Level::Chapter, opt_u64(parse_digits(s.take(d)))))
            } else if exists|k: int| 0 <= k < named().len() && prefix(s, #[trigger] named()[k]@) {
                Some((Template::Named, Level::Chapter, None))
            } else {
                None
            }
        }
    }
}

pub open spec fn opt_u64(v: Option<nat>) -> Option<u64> {
    match v {
        Some(x) => Some(x as u64),
        None => None,
    }
}

#[verifier::loop_isolation(false)]
fn classify_chars(s: &[char]) -> (r: Option<(Template, Level, Option<u64>)>)
    requires
        s@ == trim(s@),
    ensures
        r == classify_spec(s@),
{
    if s.len() == 0 || s.len() > 40 {
        return None;
    }
    if s[0] == '第' {
        let mut e: usize = 1;
        while e < s.len() && is_numeral_char(s[e])
            invariant
                1 <= e <= s@.len(),
                numeral_end(s@, 1) == numeral_end(s@, e as int),
            decreases s.len() - e,
        {
            e += 1;
        }
        if e > 1 && e < s.len() {
            let unit = s[e];
            let cu = unit == '章' || unit == '节' || unit == '節' || unit == '回';
            let vu = unit == '卷' || unit == '部' || unit == '篇' || unit == '集';
            if cu || vu {
                let level = if vu {
                    Level::Volume
                } else {
                    Level::Chapter
                };
                let num = slice_vec(s, 1, e);
                let n = parse_number(num.as_slice());
                return Some((Template::Ordinal, level, n));
            }
        }
    }
    let mut all = true;
    let mut i: usize = 0;
    while i < s.len()
        invariant
            i <= s@.len(),
            all == (forall|j: int| 0 <= j < i ==> digit(#[trigger] s@[j])),
        decreases s.len() - i,
    {
        if !is_digit(s[i]) {
            all = false;
        }
        i += 1;
    }
    if all {
        let n = parse_number(s);
        return Some((Template::BareNumber, Level::Chapter, n));
    }
    let mut d: usize = 0;
    while d < s.len() && is_digit(s[d])
        invariant
            d <= s@.len(),
            digit_run(s@, 0) == d + digit_run(s@, d as int),
        decreases s.len() - d,
    {
        d += 1;
    }
    proof {
        lemma_digit_run(s@, 0);
    }
    if 1 <= d && d <= 4 && d + 1 < s.len() && (s[d] == '.' || s[d] == '、' || s[d] == '．' || s[d]
        == ' ' || s[d] == '\u{3000}') {
        let num = slice_vec(s, 0, d);
        assert(num@ == s@.take(d as int));
        assert(all_digits(num@));
        let n = parse_digits_chars(num.as_slice());
        return Some((Template::NumberDot, Level::Chapter, n));
    }
    let ns = named_exec();
    let mut k: usize = 0;
    while k < ns.len()
        invariant
            ns@ == named(),
            k <= ns@.len(),
            forall|j: int| 0 <= j < k ==> !prefix(s@, #[trigger] named()[j]@),
        decreases ns.len() - k,
    {
        let w = to_chars(ns[k]);
        if starts_with(s, w.as_slice()) {
            assert(prefix(s@, named()[k as int]@));
            return Some((Template::Named, Level::Chapter, None));
        }
        k += 1;
    }
    None
}

/// What a line is, if it is a title.
pub fn classify(line: &str) -> (r: Option<(Template, Level, Option<u64>)>)
    ensures
        r == classify_spec(line@),
{
    let v = to_chars(line);
    let (a, b) = trim_range(v.as_slice(), 0, v.len());
    assert(v@.subrange(0, v@.len() as int) =~= v@);
    let t = slice_vec(v.as_slice(), a, b);
    proof {
        crate::text::lemma_trim_trim(v@);
    }
    classify_chars(t.as_slice())
}

} // verus!

verus! {

// ------------------------------------------------------------ candidates

/// Lines that are not body text. In an indent-styled book this is exact: body
/// paragraphs are indented, everything else (titles, ads, author notes) is
/// flush. Otherwise only short lines can be titles.
pub open spec fn structural(l: Seq<char>, style: ParagraphStyle) -> bool {
    trim(l).len() > 0 && match style {
        ParagraphStyle::Indent => !indented(l),
        _ => trim(l).len() <= 40,
    }
}

/// The candidates among the first `n` lines, in line order.
pub open spec fn cands_upto(ls: Seq<Seq<char>>, style: ParagraphStyle, n: int) -> Seq<CandV>
    decreases n,
{
    if n <= 0 {
        Seq::empty()
    } else {
        let prev = cands_upto(ls, style, n - 1);
        let l = ls[n - 1];
        if structural(l, style) {
            match classify_spec(l) {
                Some((t, lv, num)) => prev.push(((n - 1) as usize, trim(l), t, lv, num)),
                None => prev,
            }
        } else {
            prev
        }
    }
}

pub open spec fn views(v: Seq<Candidate>) -> Seq<CandV> {
    v.map_values(|c: Candidate| c@)
}

/// Every line that could be a title, classified.
pub fn candidates(text: &str, fp: &Fingerprint) -> (r: Vec<Candidate>)
    ensures
        views(r@) == cands_upto(split(text@, '\n'), fp.style, split(text@, '\n').len() as int),
{
    let v = to_chars(text);
    let rs = split_ranges(v.as_slice(), '\n');
    let ghost ls = split(v@, '\n');
    let mut out: Vec<Candidate> = Vec::new();
    let mut k: usize = 0;
    while k < rs.len()
        invariant
            pieces(v@, rs@) == ls,
            tiles(v@, rs@, '\n'),
            ls.len() == rs@.len(),
            k <= rs.len(),
            views(out@) == cands_upto(ls, fp.style, k as int),
        decreases rs.len() - k,
    {
        let (s, e) = rs[k];
        assert(ls[k as int] == v@.subrange(s as int, e as int));
        let (x, y) = trim_range(v.as_slice(), s, e);
        let ghost prev = out@;
        if y > x {
            let raw = slice_vec(v.as_slice(), s, e);
            let ok = match fp.style {
                ParagraphStyle::Indent => !indented_chars(raw.as_slice()),
                _ => y - x <= 40,
            };
            if ok {
                let t = slice_vec(v.as_slice(), x, y);
                proof {
                    crate::text::lemma_trim_trim(raw@);
                }
                match classify_chars(t.as_slice()) {
                    Some((template, level, number)) => {
                        out.push(
                            Candidate {
                                line_idx: k,
                                text: from_chars(t.as_slice()),
                                template,
                                level,
                                number,
                            },
                        );
                        assert(views(out@) =~= views(prev).push(out@.last()@));
                    },
                    None => {},
                }
            }
        }
        k += 1;
    }
    out
}

// ------------------------------------------------------------ filters

/// The members of `s` that satisfy `p`, in order.
pub open spec fn keep(s: Seq<CandV>, p: spec_fn(CandV) -> bool) -> Seq<CandV>
    decreases s.len(),
{
    if s.len() == 0 {
        s
    } else if p(s.last()) {
        keep(s.drop_last(), p).push(s.last())
    } else {
        keep(s.drop_last(), p)
    }
}

pub open spec fn is_chapter_of(t: Template) -> spec_fn(CandV) -> bool {
    |c: CandV| c.2 == t && c.3 == Level::Chapter
}

/// Numbers of the numbered candidates, in order.
pub open spec fn numbers(s: Seq<CandV>) -> Seq<u64>
    decreases s.len(),
{
    if s.len() == 0 {
        Seq::empty()
    } else {
        match s.last().4 {
            Some(n) => numbers(s.drop_last()).push(n),
            None => numbers(s.drop_last()),
        }
    }
}

/// Smallest line index of `s`, or `usize::MAX` when empty.
pub open spec fn min_line(s: Seq<CandV>) -> usize
    decreases s.len(),
{
    if s.len() == 0 {
        usize::MAX
    } else {
        let m = min_line(s.drop_last());
        if s.last().0 < m {
            s.last().0
        } else {
            m
        }
    }
}

// ------------------------------------------------------------ increasing runs

/// The longest strictly increasing run of `a` that ends at `i`, by the usual
/// recurrence: one more than the best run ending on a smaller value before it.
pub open spec fn lis_end(a: Seq<u64>, i: int) -> nat
    decreases i, 1nat,
{
    if i < 0 || i >= a.len() {
        0
    } else {
        1 + best_before(a, i, i)
    }
}

/// The best [`lis_end`] among `j' < j` with `a[j'] < a[i]`.
pub open spec fn best_before(a: Seq<u64>, i: int, j: int) -> nat
    decreases j, 0nat,
{
    if j <= 0 || j > a.len() {
        0
    } else {
        let rest = best_before(a, i, j - 1);
        if a[j - 1] < a[i] && lis_end(a, j - 1) > rest {
            lis_end(a, j - 1)
        } else {
            rest
        }
    }
}

/// Length of the longest strictly increasing subsequence of `a[..n]`.
pub open spec fn lis_upto(a: Seq<u64>, n: int) -> nat
    decreases n,
{
    if n <= 0 {
        0
    } else {
        let m = lis_upto(a, n - 1);
        if lis_end(a, n - 1) > m {
            lis_end(a, n - 1)
        } else {
            m
        }
    }
}

proof fn lemma_best_before_bound(a: Seq<u64>, i: int, j: int)
    requires
        0 <= j <= a.len(),
    ensures
        best_before(a, i, j) <= j,
    decreases j, 0nat,
{
    if j > 0 {
        lemma_best_before_bound(a, i, j - 1);
        lemma_lis_end_bound(a, j - 1);
    }
}

proof fn lemma_lis_end_bound(a: Seq<u64>, i: int)
    requires
        0 <= i < a.len(),
    ensures
        1 <= lis_end(a, i) <= i + 1,
    decreases i, 1nat,
{
    lemma_best_before_bound(a, i, i);
}

/// `lis_end` of every prefix position, computed by the quadratic recurrence.
fn lis_table(a: &[u64]) -> (len: Vec<usize>)
    ensures
        len@.len() == a@.len(),
        forall|i: int| 0 <= i < a@.len() ==> len@[i] == lis_end(a@, i),
{
    let mut len: Vec<usize> = Vec::new();
    let mut i: usize = 0;
    while i < a.len()
        invariant
            i <= a@.len(),
            len@.len() == i,
            forall|k: int| 0 <= k < i ==> len@[k] == lis_end(a@, k),
        decreases a.len() - i,
    {
        let mut best: usize = 0;
        let mut j: usize = 0;
        while j < i
            invariant
                j <= i < a@.len(),
                len@.len() == i,
                forall|k: int| 0 <= k < i ==> len@[k] == lis_end(a@, k),
                best == best_before(a@, i as int, j as int),
                best <= j,
            decreases i - j,
        {
            proof {
                lemma_lis_end_bound(a@, j as int);
            }
            if a[j] < a[i] && len[j] > best {
                best = len[j];
            }
            j += 1;
        }
        len.push(best + 1);
        i += 1;
    }
    len
}

/// Length of the longest strictly increasing subsequence.
pub fn lis_len(nums: &[u64]) -> (r: usize)
    ensures
        r == lis_upto(nums@, nums@.len() as int),
{
    let len = lis_table(nums);
    let mut m: usize = 0;
    let mut i: usize = 0;
    while i < len.len()
        invariant
            i <= len@.len() == nums@.len(),
            forall|k: int| 0 <= k < nums@.len() ==> len@[k] == lis_end(nums@, k),
            m == lis_upto(nums@, i as int),
        decreases len.len() - i,
    {
        if len[i] > m {
            m = len[i];
        }
        i += 1;
    }
    m
}

// ------------------------------------------------------------ election

/// A sequence template holds when it climbs and blankets the region it claims.
pub open spec fn sequence_elected(cands: Seq<CandV>, t: Template, total_lines: nat, ordinal_in: bool) -> bool {
    let set = keep(cands, is_chapter_of(t));
    let ord = keep(cands, is_chapter_of(Template::Ordinal));
    let nums = numbers(set);
    set.len() > 0 && {
        let f = set[0].0 as int;
        let l = set.last().0 as int;
        let first_ord = min_line(ord) as int;
        let region = if ordinal_in && l < first_ord { first_ord } else { total_lines as int };
        let region1 = if region == 0 { 1 } else { region };
        &&& nums.len() >= 10
        &&& nums[0] <= 3
        &&& 10 * lis_upto(nums, nums.len() as int) > 9 * nums.len()
        &&& 2 * (l - f) > region1
    }
}

/// The numbering templates the book uses — plural, because real books mix
/// them. 第N章 names itself: five are proof. A number without a unit only
/// earns admission as a sequence.
pub open spec fn elect_spec(cands: Seq<CandV>, total_lines: nat) -> Seq<Template> {
    let ordinal_in = keep(cands, is_chapter_of(Template::Ordinal)).len() >= 5;
    let a = if ordinal_in { seq![Template::Ordinal] } else { Seq::empty() };
    let b = if sequence_elected(cands, Template::NumberDot, total_lines, ordinal_in) {
        a.push(Template::NumberDot)
    } else {
        a
    };
    if sequence_elected(cands, Template::BareNumber, total_lines, ordinal_in) {
        b.push(Template::BareNumber)
    } else {
        b
    }
}

/// Chapter-level candidates of template `t`, as plain values.
fn of_template(cands: &[Candidate], t: Template) -> (r: Vec<(usize, Option<u64>)>)
    ensures
        r@.len() == keep(views(cands@), is_chapter_of(t)).len(),
        forall|k: int| 0 <= k < r@.len() ==> (#[trigger] r@[k]).0 == keep(views(cands@), is_chapter_of(t))[k].0
            && r@[k].1 == keep(views(cands@), is_chapter_of(t))[k].4,
{
    let mut r: Vec<(usize, Option<u64>)> = Vec::new();
    let mut i: usize = 0;
    let ghost p = is_chapter_of(t);
    while i < cands.len()
        invariant
            i <= cands@.len(),
            p == is_chapter_of(t),
            r@.len() == keep(views(cands@).take(i as int), p).len(),
            forall|k: int| 0 <= k < r@.len() ==> (#[trigger] r@[k]).0 == keep(views(cands@).take(i as int), p)[k].0
                && r@[k].1 == keep(views(cands@).take(i as int), p)[k].4,
        decreases cands.len() - i,
    {
        assert(views(cands@).take(i + 1).drop_last() =~= views(cands@).take(i as int));
        assert(views(cands@).take(i + 1).last() == cands@[i as int]@);
        if cands[i].template == t && cands[i].level == Level::Chapter {
            r.push((cands[i].line_idx, cands[i].number));
        }
        i += 1;
    }
    assert(views(cands@).take(cands@.len() as int) =~= views(cands@));
    r
}

fn numbers_of(set: &Vec<(usize, Option<u64>)>, ghost_set: Ghost<Seq<CandV>>) -> (r: Vec<u64>)
    requires
        set@.len() == ghost_set@.len(),
        forall|k: int| 0 <= k < set@.len() ==> (#[trigger] set@[k]).1 == ghost_set@[k].4,
    ensures
        r@ == numbers(ghost_set@),
{
    let mut r: Vec<u64> = Vec::new();
    let mut i: usize = 0;
    while i < set.len()
        invariant
            i <= set@.len() == ghost_set@.len(),
            forall|k: int| 0 <= k < set@.len() ==> (#[trigger] set@[k]).1 == ghost_set@[k].4,
            r@ == numbers(ghost_set@.take(i as int)),
        decreases set.len() - i,
    {
        assert(ghost_set@.take(i + 1).drop_last() =~= ghost_set@.take(i as int));
        match set[i].1 {
            Some(n) => r.push(n),
            None => {},
        }
        i += 1;
    }
    assert(ghost_set@.take(set@.len() as int) =~= ghost_set@);
    r
}

fn elected(cands: &[Candidate], t: Template, total_lines: usize, ordinal_in: bool, first_ord: usize) -> (r: bool)
    requires
        first_ord == min_line(keep(views(cands@), is_chapter_of(Template::Ordinal))),
    ensures
        r == sequence_elected(views(cands@), t, total_lines as nat, ordinal_in),
{
    let set = of_template(cands, t);
    let ghost gs = keep(views(cands@), is_chapter_of(t));
    let nums = numbers_of(&set, Ghost(gs));
    if set.len() == 0 {
        return false;
    }
    let f = set[0].0;
    let l = set[set.len() - 1].0;
    let region = if ordinal_in && l < first_ord {
        first_ord
    } else {
        total_lines
    };
    let region1 = if region == 0 {
        1
    } else {
        region
    };
    if nums.len() < 10 || nums[0] > 3 {
        return false;
    }
    let lis = lis_len(nums.as_slice());
    if 10 * (lis as u128) <= 9 * (nums.len() as u128) {
        return false;
    }
    if l < f {
        return false;
    }
    2 * ((l - f) as u128) > region1 as u128
}

fn min_line_exec(set: &Vec<(usize, Option<u64>)>, ghost_set: Ghost<Seq<CandV>>) -> (r: usize)
    requires
        set@.len() == ghost_set@.len(),
        forall|k: int| 0 <= k < set@.len() ==> (#[trigger] set@[k]).0 == ghost_set@[k].0,
    ensures
        r == min_line(ghost_set@),
{
    let mut m: usize = usize::MAX;
    let mut i: usize = 0;
    while i < set.len()
        invariant
            i <= set@.len() == ghost_set@.len(),
            forall|k: int| 0 <= k < set@.len() ==> (#[trigger] set@[k]).0 == ghost_set@[k].0,
            m == min_line(ghost_set@.take(i as int)),
        decreases set.len() - i,
    {
        assert(ghost_set@.take(i + 1).drop_last() =~= ghost_set@.take(i as int));
        if set[i].0 < m {
            m = set[i].0;
        }
        i += 1;
    }
    assert(ghost_set@.take(set@.len() as int) =~= ghost_set@);
    m
}

/// Pick the numbering templates the book uses.
pub fn elect(cands: &[Candidate], total_lines: usize) -> (r: Vec<Template>)
    ensures
        r@ == elect_spec(views(cands@), total_lines as nat),
{
    let ord = of_template(cands, Template::Ordinal);
    let ghost gord = keep(views(cands@), is_chapter_of(Template::Ordinal));
    let first_ord = min_line_exec(&ord, Ghost(gord));
    let ordinal_in = ord.len() >= 5;
    let mut admitted: Vec<Template> = Vec::new();
    if ordinal_in {
        admitted.push(Template::Ordinal);
    }
    if elected(cands, Template::NumberDot, total_lines, ordinal_in, first_ord) {
        admitted.push(Template::NumberDot);
    }
    if elected(cands, Template::BareNumber, total_lines, ordinal_in, first_ord) {
        admitted.push(Template::BareNumber);
    }
    admitted
}

} // verus!

verus! {

// ------------------------------------------------------------ validation

pub struct Validation {
    pub chapters: Vec<Candidate>,
    /// Volume headers, in order. They divide the table of contents; they are not
    /// entries in it.
    pub volumes: Vec<Candidate>,
    pub rejected: Vec<Candidate>,
    /// Numbering that does not climb. Real books contain these — authors
    /// misnumber chapters — so they are reported, never silently dropped.
    pub anomalies: Vec<String>,
    /// The numbering templates this book was found to use.
    pub templates: Vec<Template>,
}

/// The first `j' >= j` before `i` through which the best run reaches `i`, or -1.
pub open spec fn first_pred(a: Seq<u64>, i: int, j: int) -> int
    decreases i - j,
{
    if j < 0 || j >= i {
        -1
    } else if a[j] < a[i] && lis_end(a, j) + 1 == lis_end(a, i) {
        j
    } else {
        first_pred(a, i, j + 1)
    }
}

/// The last position holding the longest run among the first `n` (n >= 1).
pub open spec fn last_argmax(a: Seq<u64>, n: int) -> int
    decreases n,
{
    if n <= 1 {
        0
    } else {
        let m = last_argmax(a, n - 1);
        if lis_end(a, n - 1) >= lis_end(a, m) {
            n - 1
        } else {
            m
        }
    }
}

proof fn lemma_first_pred(a: Seq<u64>, i: int, j: int)
    requires
        0 <= j,
    ensures
        first_pred(a, i, j) == -1 || (j <= first_pred(a, i, j) < i),
    decreases i - j,
{
    if j < i {
        lemma_first_pred(a, i, j + 1);
    }
}

/// The positions of the best run ending at `i`, walked back through
/// [`first_pred`].
pub open spec fn chain(a: Seq<u64>, i: int) -> Seq<int>
    decreases i,
{
    if i < 0 {
        Seq::empty()
    } else {
        let p = first_pred(a, i, 0);
        if 0 <= p < i {
            chain(a, p).push(i)
        } else {
            seq![i]
        }
    }
}

/// Line indices of the longest strictly increasing run of chapter numbers.
pub open spec fn run_lines(cs: Seq<CandV>) -> Seq<usize> {
    let numbered = keep(cs, |c: CandV| c.4 is Some);
    let a = numbers(cs);
    if numbered.len() == 0 {
        Seq::empty()
    } else {
        chain(a, last_argmax(a, a.len() as int)).map_values(|k: int| numbered[k].0)
    }
}

pub open spec fn anomaly_text(text: Seq<char>, p: u64) -> Seq<char> {
    text + seq![' ', '紧', '随', ' ', '第'] + dec(p as nat) + seq![
        '章',
        ' ',
        '之',
        '后',
        '，',
        '章',
        '号',
        '未',
        '递',
        '增',
    ]
}

/// Reports of a number that does not climb over its predecessor, and the last
/// number seen, after the first `n` candidates. Compared against the immediate
/// predecessor, not the running maximum: the drop happens exactly once.
pub open spec fn anomalies_upto(cs: Seq<CandV>, n: int) -> (Seq<Seq<char>>, Option<u64>)
    decreases n,
{
    if n <= 0 {
        (Seq::empty(), None)
    } else {
        let (msgs, prev) = anomalies_upto(cs, n - 1);
        let c = cs[n - 1];
        match c.4 {
            None => (msgs, prev),
            Some(num) => {
                let m = match prev {
                    Some(p) => if num <= p {
                        msgs.push(anomaly_text(c.1, p))
                    } else {
                        msgs
                    },
                    None => msgs,
                };
                (m, Some(num))
            },
        }
    }
}

pub open spec fn in_run(c: CandV, run: Seq<usize>) -> bool {
    c.4 is None || run.contains(c.0)
}

/// Everything [`validate`] returns, as plain values: chapters, volumes,
/// rejected, anomalies, templates.
pub open spec fn validate_spec(cands: Seq<CandV>, style: ParagraphStyle, total_lines: nat) -> (
    Seq<CandV>,
    Seq<CandV>,
    Seq<CandV>,
    Seq<Seq<char>>,
    Seq<Template>,
) {
    let templates = elect_spec(cands, total_lines);
    let volumes = keep(cands, |c: CandV| c.3 == Level::Volume);
    let rest = keep(cands, |c: CandV| c.3 != Level::Volume);
    let chap0 = keep(rest, |c: CandV| c.2 == Template::Named || templates.contains(c.2));
    let rej0 = keep(rest, |c: CandV| !(c.2 == Template::Named || templates.contains(c.2)));
    let anomalies = anomalies_upto(chap0, chap0.len() as int).0;
    if style != ParagraphStyle::Indent {
        let run = run_lines(chap0);
        (
            keep(chap0, |c: CandV| in_run(c, run)),
            volumes,
            rej0 + keep(chap0, |c: CandV| !in_run(c, run)),
            anomalies,
            templates,
        )
    } else {
        (chap0, volumes, rej0, anomalies, templates)
    }
}

/// Copy the candidates that satisfy `p` (decided by `flags`).
fn select(cands: &[Candidate], flags: &Vec<bool>, p: Ghost<spec_fn(CandV) -> bool>) -> (r: Vec<Candidate>)
    requires
        flags@.len() == cands@.len(),
        forall|k: int| 0 <= k < cands@.len() ==> flags@[k] == (p@)(#[trigger] cands@[k]@),
    ensures
        views(r@) == keep(views(cands@), p@),
{
    let mut r: Vec<Candidate> = Vec::new();
    let mut i: usize = 0;
    while i < cands.len()
        invariant
            i <= cands@.len() == flags@.len(),
            forall|k: int| 0 <= k < cands@.len() ==> flags@[k] == (p@)(#[trigger] cands@[k]@),
            views(r@) == keep(views(cands@).take(i as int), p@),
        decreases cands.len() - i,
    {
        assert(views(cands@).take(i + 1).drop_last() =~= views(cands@).take(i as int));
        assert(views(cands@).take(i + 1).last() == cands@[i as int]@);
        let ghost before = r@;
        if flags[i] {
            r.push(cands[i].copy());
            assert(views(r@) =~= views(before).push(cands@[i as int]@));
        }
        i += 1;
    }
    assert(views(cands@).take(cands@.len() as int) =~= views(cands@));
    r
}

fn contains_template(ts: &Vec<Template>, t: Template) -> (r: bool)
    ensures
        r == ts@.contains(t),
{
    let mut i: usize = 0;
    while i < ts.len()
        invariant
            i <= ts@.len(),
            forall|k: int| 0 <= k < i ==> ts@[k] != t,
        decreases ts.len() - i,
    {
        if ts[i] == t {
            return true;
        }
        i += 1;
    }
    false
}

fn anomaly_string(text: &String, p: u64) -> (r: String)
    ensures
        r@ == anomaly_text(text@, p),
{
    let mut v = to_chars(text.as_str());
    let a = vec![' ', '紧', '随', ' ', '第'];
    let d = decimal(p);
    let b = vec!['章', ' ', '之', '后', '，', '章', '号', '未', '递', '增'];
    let mut i: usize = 0;
    let ghost t0 = v@;
    while i < a.len()
        invariant
            i <= a@.len(),
            v@ == t0 + a@.take(i as int),
        decreases a.len() - i,
    {
        v.push(a[i]);
        i += 1;
        assert(v@ =~= t0 + a@.take(i as int));
    }
    assert(a@.take(a@.len() as int) =~= a@);
    let ghost t1 = v@;
    i = 0;
    while i < d.len()
        invariant
            i <= d@.len(),
            v@ == t1 + d@.take(i as int),
        decreases d.len() - i,
    {
        v.push(d[i]);
        i += 1;
        assert(v@ =~= t1 + d@.take(i as int));
    }
    assert(d@.take(d@.len() as int) =~= d@);
    let ghost t2 = v@;
    i = 0;
    while i < b.len()
        invariant
            i <= b@.len(),
            v@ == t2 + b@.take(i as int),
        decreases b.len() - i,
    {
        v.push(b[i]);
        i += 1;
        assert(v@ =~= t2 + b@.take(i as int));
    }
    assert(b@.take(b@.len() as int) =~= b@);
    assert(v@ =~= anomaly_text(text@, p));
    from_chars(v.as_slice())
}

/// Line indices of the longest strictly increasing run of chapter numbers.
fn increasing_run(cands: &[Candidate]) -> (r: Vec<usize>)
    ensures
        r@ == run_lines(views(cands@)),
{
    let flags_numbered: Vec<bool> = numbered_flags(cands);
    let numbered = select(cands, &flags_numbered, Ghost(|c: CandV| c.4 is Some));
    let mut a: Vec<u64> = Vec::new();
    let mut i: usize = 0;
    let ghost cs = views(cands@);
    let ghost nd = keep(cs, |c: CandV| c.4 is Some);
    while i < cands.len()
        invariant
            i <= cands@.len(),
            cs == views(cands@),
            a@ == numbers(cs.take(i as int)),
        decreases cands.len() - i,
    {
        assert(cs.take(i + 1).drop_last() =~= cs.take(i as int));
        assert(cs.take(i + 1).last() == cands@[i as int]@);
        match cands[i].number {
            Some(n) => a.push(n),
            None => {},
        }
        i += 1;
    }
    assert(cs.take(cands@.len() as int) =~= cs);
    proof {
        lemma_numbers_len(cs);
    }
    let n = a.len();
    if n == 0 {
        return Vec::new();
    }
    let len = lis_table(a.as_slice());
    // The predecessor each position's best run came through.
    let mut prev: Vec<usize> = Vec::new();
    let mut k: usize = 0;
    while k < n
        invariant
            k <= n == a@.len() == len@.len(),
            forall|q: int| 0 <= q < n ==> len@[q] == lis_end(a@, q),
            prev@.len() == k,
            forall|q: int| 0 <= q < k ==> (#[trigger] prev@[q] as int) == (if first_pred(a@, q, 0) >= 0 { first_pred(a@, q, 0) } else { usize::MAX as int }),
        decreases n - k,
    {
        let mut j: usize = 0;
        let mut found: usize = usize::MAX;
        while j < k && found == usize::MAX
            invariant
                j <= k < n == a@.len() == len@.len(),
                forall|q: int| 0 <= q < n ==> len@[q] == lis_end(a@, q),
                found == usize::MAX ==> first_pred(a@, k as int, 0) == first_pred(a@, k as int, j as int),
                found != usize::MAX ==> found as int == first_pred(a@, k as int, 0) && found < k,
            decreases k - j, if found == usize::MAX { 1int } else { 0int },
        {
            proof {
                lemma_lis_end_bound(a@, j as int);
                lemma_lis_end_bound(a@, k as int);
            }
            if a[j] < a[k] && len[j] + 1 == len[k] {
                found = j;
            } else {
                j += 1;
            }
        }
        prev.push(found);
        k += 1;
    }
    // The last position holding the longest run.
    let mut best: usize = 0;
    let mut q: usize = 1;
    while q < n
        invariant
            1 <= q <= n == a@.len() == len@.len(),
            forall|x: int| 0 <= x < n ==> len@[x] == lis_end(a@, x),
            best as int == last_argmax(a@, q as int),
            best < q,
        decreases n - q,
    {
        if len[q] >= len[best] {
            best = q;
        }
        q += 1;
    }
    // Walk the chain back, then read it forwards.
    let mut back: Vec<usize> = Vec::new();
    let mut cur: usize = best;
    let ghost target = chain(a@, best as int);
    let mut done = false;
    assert(back@.reverse() =~= Seq::<usize>::empty());
    assert(target =~= chain(a@, cur as int) + back@.reverse().map_values(|x: usize| x as int));
    while !done
        invariant
            cur < n == a@.len() == prev@.len(),
            forall|q: int| 0 <= q < n ==> (#[trigger] prev@[q] as int) == (if first_pred(a@, q, 0) >= 0 { first_pred(a@, q, 0) } else { usize::MAX as int }),
            forall|x: int| 0 <= x < back@.len() ==> (#[trigger] back@[x]) < n,
            !done ==> target == chain(a@, cur as int) + back@.reverse().map_values(|x: usize| x as int),
            done ==> target == back@.reverse().map_values(|x: usize| x as int),
        decreases if done { 0int } else { 1int }, cur,
    {
        let ghost before = back@;
        back.push(cur);
        proof {
            lemma_first_pred(a@, cur as int, 0);
        }
        assert(back@.reverse() =~= seq![cur].add(before.reverse()));
        if prev[cur] == usize::MAX {
            assert(chain(a@, cur as int) == seq![cur as int]);
            assert(target =~= back@.reverse().map_values(|x: usize| x as int));
            done = true;
        } else {
            let p = prev[cur];
            assert(chain(a@, cur as int) == chain(a@, p as int).push(cur as int));
            assert(chain(a@, p as int) + back@.reverse().map_values(|x: usize| x as int) =~= chain(a@, cur as int) + before.reverse().map_values(|x: usize| x as int));
            cur = p;
        }
    }
    let mut out: Vec<usize> = Vec::new();
    let mut t: usize = back.len();
    while t > 0
        invariant
            t <= back@.len(),
            forall|x: int| 0 <= x < back@.len() ==> (#[trigger] back@[x]) < n,
            numbered@.len() == n,
            out@ == back@.reverse().take(back@.len() - t).map_values(|x: usize| numbered@[x as int].line_idx),
        decreases t,
    {
        t -= 1;
        out.push(numbered[back[t]].line_idx);
        assert(out@ =~= back@.reverse().take(back@.len() - t).map_values(|x: usize| numbered@[x as int].line_idx));
    }
    proof {
        assert(back@.reverse().take(back@.len() as int) =~= back@.reverse());
        assert(nd.len() == n);
        assert forall|x: int| 0 <= x < n implies numbered@[x].line_idx == nd[x].0 by {
            assert(views(numbered@)[x] == nd[x]);
        }
        assert(out@ =~= run_lines(cs));
    }
    out
}

proof fn lemma_numbers_len(cs: Seq<CandV>)
    ensures
        numbers(cs).len() == keep(cs, |c: CandV| c.4 is Some).len(),
    decreases cs.len(),
{
    if cs.len() > 0 {
        lemma_numbers_len(cs.drop_last());
    }
}

fn numbered_flags(cands: &[Candidate]) -> (r: Vec<bool>)
    ensures
        r@.len() == cands@.len(),
        forall|k: int| 0 <= k < cands@.len() ==> r@[k] == (cands@[k].number is Some),
{
    let mut r: Vec<bool> = Vec::new();
    let mut i: usize = 0;
    while i < cands.len()
        invariant
            i <= cands@.len(),
            r@.len() == i,
            forall|k: int| 0 <= k < i ==> r@[k] == (cands@[k].number is Some),
        decreases cands.len() - i,
    {
        r.push(cands[i].number.is_some());
        i += 1;
    }
    r
}

} // verus!

verus! {

fn flags_by_level(cands: &[Candidate], volume: bool) -> (r: Vec<bool>)
    ensures
        r@.len() == cands@.len(),
        forall|k: int| 0 <= k < cands@.len() ==> r@[k] == ((cands@[k].level == Level::Volume) == volume),
{
    let mut r: Vec<bool> = Vec::new();
    let mut i: usize = 0;
    while i < cands.len()
        invariant
            i <= cands@.len(),
            r@.len() == i,
            forall|k: int| 0 <= k < i ==> r@[k] == ((cands@[k].level == Level::Volume) == volume),
        decreases cands.len() - i,
    {
        r.push((cands[i].level == Level::Volume) == volume);
        i += 1;
    }
    r
}

fn flags_elected(cands: &[Candidate], templates: &Vec<Template>, want: bool) -> (r: Vec<bool>)
    ensures
        r@.len() == cands@.len(),
        forall|k: int| 0 <= k < cands@.len() ==> r@[k] == ((cands@[k].template == Template::Named
            || templates@.contains(cands@[k].template)) == want),
{
    let mut r: Vec<bool> = Vec::new();
    let mut i: usize = 0;
    while i < cands.len()
        invariant
            i <= cands@.len(),
            r@.len() == i,
            forall|k: int| 0 <= k < i ==> r@[k] == ((cands@[k].template == Template::Named
                || templates@.contains(cands@[k].template)) == want),
        decreases cands.len() - i,
    {
        let e = cands[i].template == Template::Named || contains_template(templates, cands[i].template);
        r.push(e == want);
        i += 1;
    }
    r
}

fn contains_line(run: &Vec<usize>, x: usize) -> (r: bool)
    ensures
        r == run@.contains(x),
{
    let mut i: usize = 0;
    while i < run.len()
        invariant
            i <= run@.len(),
            forall|k: int| 0 <= k < i ==> run@[k] != x,
        decreases run.len() - i,
    {
        if run[i] == x {
            return true;
        }
        i += 1;
    }
    false
}

fn flags_in_run(cands: &[Candidate], run: &Vec<usize>, want: bool) -> (r: Vec<bool>)
    ensures
        r@.len() == cands@.len(),
        forall|k: int| 0 <= k < cands@.len() ==> r@[k] == (in_run(cands@[k]@, run@) == want),
{
    let mut r: Vec<bool> = Vec::new();
    let mut i: usize = 0;
    while i < cands.len()
        invariant
            i <= cands@.len(),
            r@.len() == i,
            forall|k: int| 0 <= k < i ==> r@[k] == (in_run(cands@[k]@, run@) == want),
        decreases cands.len() - i,
    {
        let e = cands[i].number.is_none() || contains_line(run, cands[i].line_idx);
        r.push(e == want);
        i += 1;
    }
    r
}

/// Candidates of the elected templates are chapters; everything else is not.
///
/// In an indent-styled book, sitting flush against the margin already proves a
/// line is not body text, so the elected template is enough and numbering is
/// only a sanity check. Without that signal precision must be earned instead:
/// a real chapter sequence climbs, so the longest strictly increasing run is
/// kept and candidates that break it are discarded.
pub fn validate(cands: &[Candidate], fp: &Fingerprint) -> (v: Validation)
    ensures
        ({
            let (c, vo, re, an, te) = validate_spec(views(cands@), fp.style, fp.total_lines as nat);
            &&& views(v.chapters@) == c
            &&& views(v.volumes@) == vo
            &&& views(v.rejected@) == re
            &&& v.anomalies@.map_values(|s: String| s@) == an
            &&& v.templates@ == te
        }),
{
    let templates = elect(cands, fp.total_lines);
    let ghost cs = views(cands@);
    let fv = flags_by_level(cands, true);
    let volumes = select(cands, &fv, Ghost(|c: CandV| c.3 == Level::Volume));
    let fr = flags_by_level(cands, false);
    let rest = select(cands, &fr, Ghost(|c: CandV| c.3 != Level::Volume));
    let ghost tm = templates@;
    let fe = flags_elected(rest.as_slice(), &templates, true);
    let chapters0 = select(rest.as_slice(), &fe, Ghost(|c: CandV| c.2 == Template::Named || tm.contains(c.2)));
    let fx = flags_elected(rest.as_slice(), &templates, false);
    let mut rejected = select(rest.as_slice(), &fx, Ghost(|c: CandV| !(c.2 == Template::Named || tm.contains(c.2))));
    let ghost ch0 = views(chapters0@);
    // Anomalies: a number that does not climb over its predecessor.
    let mut anomalies: Vec<String> = Vec::new();
    let mut prev: Option<u64> = None;
    let mut i: usize = 0;
    while i < chapters0.len()
        invariant
            i <= chapters0@.len(),
            ch0 == views(chapters0@),
            anomalies@.map_values(|s: String| s@) == anomalies_upto(ch0, i as int).0,
            prev == anomalies_upto(ch0, i as int).1,
        decreases chapters0.len() - i,
    {
        assert(ch0[i as int] == chapters0@[i as int]@);
        let ghost before = anomalies@;
        match chapters0[i].number {
            Some(n) => {
                match prev {
                    Some(p) => {
                        if n <= p {
                            let msg = anomaly_string(&chapters0[i].text, p);
                            anomalies.push(msg);
                            assert(anomalies@.map_values(|s: String| s@) =~= before.map_values(|s: String| s@).push(msg@));
                        }
                    },
                    None => {},
                }
                prev = Some(n);
            },
            None => {},
        }
        i += 1;
    }
    if fp.style != ParagraphStyle::Indent {
        let run = increasing_run(chapters0.as_slice());
        let ghost rl = run@;
        let fk = flags_in_run(chapters0.as_slice(), &run, true);
        let kept = select(chapters0.as_slice(), &fk, Ghost(|c: CandV| in_run(c, rl)));
        let fd = flags_in_run(chapters0.as_slice(), &run, false);
        let dropped = select(chapters0.as_slice(), &fd, Ghost(|c: CandV| !in_run(c, rl)));
        let ghost rej_before = views(rejected@);
        let d = dropped;
        let mut k: usize = 0;
        while k < d.len()
            invariant
                k <= d@.len(),
                views(rejected@) == rej_before + views(d@).take(k as int),
            decreases d.len() - k,
        {
            let ghost b = views(rejected@);
            rejected.push(d[k].copy());
            assert(views(d@).take(k + 1) =~= views(d@).take(k as int).push(d@[k as int]@));
            assert(views(rejected@) =~= b.push(d@[k as int]@));
            k += 1;
        }
        assert(views(d@).take(d@.len() as int) =~= views(d@));
        Validation { chapters: kept, volumes, rejected, anomalies, templates }
    } else {
        Validation { chapters: chapters0, volumes, rejected, anomalies, templates }
    }
}


proof fn lemma_numeral_end_at(s: Seq<char>, i: int, k: int)
    requires
        0 <= i <= k < s.len(),
        forall|j: int| i <= j < k ==> numeral_char(#[trigger] s[j]),
        !numeral_char(s[k]),
    ensures
        numeral_end(s, i) == k,
    decreases k - i,
{
    if i < k {
        lemma_numeral_end_at(s, i + 1, k);
    }
}

/// A trimmed line of at most forty characters that reads 第, numerals, then
/// 章, 节, 節 or 回 (as a 章回 novel writes 第一回) is a chapter title of the
/// ordinal kind, numbered by its numerals.
pub proof fn ordinal_chapter_titles(line: Seq<char>, k: int)
    requires
        trim(line).len() <= 40,
        1 < k < trim(line).len(),
        trim(line)[0] == '第',
        forall|j: int| 1 <= j < k ==> numeral_char(#[trigger] trim(line)[j]),
        trim(line)[k] == '章' || trim(line)[k] == '节' || trim(line)[k] == '節' || trim(line)[k] == '回',
    ensures
        classify_spec(line) == Some((Template::Ordinal, Level::Chapter, opt_u64(parse_number_spec(trim(line).subrange(1, k))))),
{
    lemma_numeral_end_at(trim(line), 1, k);
}

/// 第…卷, 第…部, 第…篇 and 第…集 likewise name volumes.
pub proof fn ordinal_volume_titles(line: Seq<char>, k: int)
    requires
        trim(line).len() <= 40,
        1 < k < trim(line).len(),
        trim(line)[0] == '第',
        forall|j: int| 1 <= j < k ==> numeral_char(#[trigger] trim(line)[j]),
        trim(line)[k] == '卷' || trim(line)[k] == '部' || trim(line)[k] == '篇' || trim(line)[k] == '集',
    ensures
        classify_spec(line) == Some((Template::Ordinal, Level::Volume, opt_u64(parse_number_spec(trim(line).subrange(1, k))))),
{
    lemma_numeral_end_at(trim(line), 1, k);
}
} // verus!
