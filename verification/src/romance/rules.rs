//! The sentence patterns that bind the lead and one candidate to a
//! relationship predicate, and the regular-expression calls that test them.
use vstd::prelude::*;
use crate::chunk::boundary;
use crate::text::{from_chars, to_chars, push_all};
use crate::romance::words::{
    comfort_actions, commit_actions, intimate_actions, love_actions, romantic_intimate_actions,
    romantic_roles, sexual_actions, tension_cues, comfort_actions_words, commit_actions_words,
    intimate_actions_words, love_actions_words, romantic_intimate_actions_words, romantic_roles_words,
    sexual_actions_words, tension_cues_words,
};

verus! {

/// A character with a meaning in a regular expression.
pub open spec fn meta(c: char) -> bool {
    c == '\\' || c == '.' || c == '+' || c == '*' || c == '?' || c == '(' || c == ')' || c == '|'
        || c == '[' || c == ']' || c == '{' || c == '}' || c == '^' || c == '$' || c == '#' || c == '&'
        || c == '-' || c == '~'
}

/// `t` with a backslash before every meta character: a literal pattern.
pub open spec fn escaped(t: Seq<char>) -> Seq<char>
    decreases t.len(),
{
    if t.len() == 0 {
        Seq::empty()
    } else if meta(t.last()) {
        escaped(t.drop_last()).push('\\').push(t.last())
    } else {
        escaped(t.drop_last()).push(t.last())
    }
}

/// `regex::escape`: the text with every meta character escaped.
#[verifier::external_body]
fn escape(t: &str) -> (r: String)
    ensures
        r@ == escaped(t@),
{
    regex::escape(t)
}

/// Where the pattern's first (leftmost) match in the text lies, as byte
/// offsets; none when it does not match or does not compile.
pub uninterp spec fn regex_first(pattern: Seq<char>, text: Seq<char>) -> Option<(usize, usize)>;

/// Every non-overlapping match of the pattern in the text, left to right,
/// as byte offsets; none when it does not compile.
pub uninterp spec fn regex_all(pattern: Seq<char>, text: Seq<char>) -> Seq<(usize, usize)>;

/// `Regex::new(pattern)` then `Regex::find(text)`. The crate documents that
/// a match starts no later than it ends and that both offsets fall on
/// character boundaries; which match is found is left to the crate.
#[verifier::external_body]
pub fn first_match(pattern: &str, text: &str) -> (r: Option<(usize, usize)>)
    ensures
        r == regex_first(pattern@, text@),
        r matches Some(m) ==> m.0 <= m.1 && boundary(text@, m.0 as int) && boundary(text@, m.1 as int),
{
    match regex::Regex::new(pattern) {
        Ok(re) => re.find(text).map(|m| (m.start(), m.end())),
        Err(_) => None,
    }
}

/// `Regex::new(pattern)` then `Regex::find_iter(text)`, each match as byte
/// offsets; the same documented guarantees hold of every one.
#[verifier::external_body]
pub fn all_matches(pattern: &str, text: &str) -> (r: Vec<(usize, usize)>)
    ensures
        r@ == regex_all(pattern@, text@),
        forall|i: int| 0 <= i < r@.len() ==> (#[trigger] r@[i]).0 <= r@[i].1 && boundary(text@, r@[i].0 as int)
            && boundary(text@, r@[i].1 as int),
{
    match regex::Regex::new(pattern) {
        Ok(re) => re.find_iter(text).map(|m| (m.start(), m.end())).collect(),
        Err(_) => Vec::new(),
    }
}

/// The first `k` words escaped and separated by `|`.
pub open spec fn alt_body(ws: Seq<Seq<char>>, k: int) -> Seq<char>
    decreases k,
{
    if k <= 0 {
        Seq::empty()
    } else if k == 1 {
        escaped(ws[0])
    } else {
        alt_body(ws, k - 1).push('|') + escaped(ws[k - 1])
    }
}

/// `(?:w1|w2|…)` over the escaped words.
pub open spec fn alt_spec(ws: Seq<Seq<char>>) -> Seq<char> {
    seq!['(', '?', ':'] + alt_body(ws, ws.len() as int) + seq![')']
}

pub open spec fn vec_views(ws: Seq<Vec<char>>) -> Seq<Seq<char>> {
    ws.map_values(|w: Vec<char>| w@)
}

pub open spec fn str_views(ws: Seq<&'static str>) -> Seq<Seq<char>> {
    ws.map_values(|w: &'static str| w@)
}

/// `(?:w1|w2|…)` over the escaped words.
pub fn alt(words: &Vec<Vec<char>>) -> (r: Vec<char>)
    ensures
        r@ == alt_spec(vec_views(words@)),
{
    let ghost ws = vec_views(words@);
    let mut out = to_chars("(?:");
    proof {
        reveal_strlit("(?:");
        assert(out@ =~= seq!['(', '?', ':'] + alt_body(ws, 0));
    }
    let mut i: usize = 0;
    while i < words.len()
        invariant
            ws == vec_views(words@),
            i <= words@.len(),
            out@ == seq!['(', '?', ':'] + alt_body(ws, i as int),
        decreases words@.len() - i,
    {
        let ghost pre = out@;
        if i > 0 {
            out.push('|');
        }
        let e = escape(from_chars(words[i].as_slice()).as_str());
        let ev = to_chars(e.as_str());
        push_all(&mut out, ev.as_slice());
        proof {
            assert(ws[i as int] == words@[i as int]@);
            if i == 0 {
                assert(out@ =~= seq!['(', '?', ':'] + alt_body(ws, 1));
            } else {
                assert(out@ =~= seq!['(', '?', ':'] + alt_body(ws, i + 1));
            }
        }
        i += 1;
    }
    out.push(')');
    assert(out@ =~= alt_spec(ws));
    out
}

pub fn alt_words(words: &Vec<&'static str>) -> (r: Vec<char>)
    ensures
        r@ == alt_spec(str_views(words@)),
{
    let mut v: Vec<Vec<char>> = Vec::new();
    let mut i: usize = 0;
    while i < words.len()
        invariant
            i <= words@.len(),
            vec_views(v@) =~= str_views(words@).take(i as int),
        decreases words@.len() - i,
    {
        let ghost pre = v@;
        v.push(to_chars(words[i]));
        assert(vec_views(v@) =~= vec_views(pre).push(words@[i as int]@));
        i += 1;
    }
    assert(str_views(words@).take(words@.len() as int) =~= str_views(words@));
    alt(&v)
}

/// What a sentence says of the pair.
#[derive(Debug, Clone, Copy, PartialEq, Eq, Structural)]
pub enum Kind {
    Explicit,
    Sexual,
    SexualCultivation,
    Mutual,
    Love,
    RomanticIntimate,
    Intimate,
    RomanticTension,
    EmotionalComfort,
}

pub open spec fn kind_zh_spec(k: Kind) -> &'static str {
    match k {
        Kind::Explicit => "明确关系",
        Kind::Sexual => "性关系",
        Kind::SexualCultivation => "性双修",
        Kind::Mutual => "双向感情",
        Kind::Love => "喜欢",
        Kind::RomanticIntimate => "浪漫亲密",
        Kind::Intimate => "亲密",
        Kind::RomanticTension => "暧昧信号",
        Kind::EmotionalComfort => "亲密依赖",
    }
}

impl Kind {
    pub fn zh(self) -> (r: &'static str)
        ensures
            r == kind_zh_spec(self),
    {
        match self {
            Kind::Explicit => "明确关系",
            Kind::Sexual => "性关系",
            Kind::SexualCultivation => "性双修",
            Kind::Mutual => "双向感情",
            Kind::Love => "喜欢",
            Kind::RomanticIntimate => "浪漫亲密",
            Kind::Intimate => "亲密",
            Kind::RomanticTension => "暧昧信号",
            Kind::EmotionalComfort => "亲密依赖",
        }
    }
}

/// One relationship pattern: its text, how strongly it binds, what it says,
/// and which way it points (A is the lead).
pub struct Rule {
    pub pattern: String,
    pub strength: u32,
    pub kind: Kind,
    pub direction: &'static str,
}

/// The first `k` parts, one after another.
pub open spec fn cat_spec(ps: Seq<&Vec<char>>, k: int) -> Seq<char>
    decreases k,
{
    if k <= 0 {
        Seq::empty()
    } else {
        cat_spec(ps, k - 1) + ps[k - 1]@
    }
}

fn cat(parts: Vec<&Vec<char>>) -> (r: Vec<char>)
    ensures
        r@ == cat_spec(parts@, parts@.len() as int),
{
    let mut out: Vec<char> = Vec::new();
    let mut i: usize = 0;
    while i < parts.len()
        invariant
            i <= parts@.len(),
            out@ == cat_spec(parts@, i as int),
        decreases parts@.len() - i,
    {
        push_all(&mut out, parts[i].as_slice());
        i += 1;
    }
    out
}

fn rule(parts: Vec<&Vec<char>>, strength: u32, kind: Kind, direction: &'static str) -> (r: Rule)
    ensures
        r.pattern@ == cat_spec(parts@, parts@.len() as int),
        r.strength == strength,
        r.kind == kind,
        r.direction == direction,
{
    Rule { pattern: from_chars(cat(parts).as_slice()), strength, kind, direction }
}

pub open spec fn role_piece() -> Seq<char> {
    alt_spec(str_views(romantic_roles_words()))
}
pub open spec fn commit_piece() -> Seq<char> {
    alt_spec(str_views(commit_actions_words()))
}
pub open spec fn love_piece() -> Seq<char> {
    alt_spec(str_views(love_actions_words()))
}
pub open spec fn intimate_piece() -> Seq<char> {
    alt_spec(str_views(intimate_actions_words()))
}
pub open spec fn romantic_intimate_piece() -> Seq<char> {
    alt_spec(str_views(romantic_intimate_actions_words()))
}
pub open spec fn sexual_piece() -> Seq<char> {
    alt_spec(str_views(sexual_actions_words()))
}
pub open spec fn tension_piece() -> Seq<char> {
    alt_spec(str_views(tension_cues_words()))
}
pub open spec fn comfort_piece() -> Seq<char> {
    alt_spec(str_views(comfort_actions_words()))
}
pub open spec fn c6_piece() -> Seq<char> {
    "[^，,。！？!?；;：“”\"（）()]{0,6}"@
}
pub open spec fn c8_piece() -> Seq<char> {
    "[^，,。！？!?；;：“”\"（）()]{0,8}"@
}
pub open spec fn c12_piece() -> Seq<char> {
    "[^，,。！？!?；;：“”\"（）()]{0,12}"@
}
pub open spec fn c16_piece() -> Seq<char> {
    "[^，,。！？!?；;：“”\"（）()]{0,16}"@
}
pub open spec fn soft10_piece() -> Seq<char> {
    "[^。！？!?；;]{0,10}"@
}
pub open spec fn soft20_piece() -> Seq<char> {
    "[^。！？!?；;]{0,20}"@
}
pub open spec fn soft30_piece() -> Seq<char> {
    "[^。！？!?；;]{0,30}"@
}
pub open spec fn adv_piece() -> Seq<char> {
    "(?:也|很|最|真的|一直|渐渐|渐渐地|早就|还是|特别|更|其实|已经|逐渐|似乎|可能|却|只|只是|就|都){0,3}"@
}
pub open spec fn love_tail_piece() -> Seq<char> {
    "(?:上|上了|着|的(?:人)?(?:是)?|的是|的就是)?(?:和|跟|与)?"@
}
pub open spec fn copula_piece() -> Seq<char> {
    "(?:是|乃是|便是|成为|成了|当了)?"@
}
pub open spec fn de_piece() -> Seq<char> {
    "的"@
}
pub open spec fn named_piece() -> Seq<char> {
    "(?:是|叫|名叫)?"@
}
pub open spec fn marry_a_piece() -> Seq<char> {
    "(?:迎娶|娶了|娶|纳了|纳为)"@
}
pub open spec fn marry_b_piece() -> Seq<char> {
    "(?:嫁给|嫁了|迎娶|娶了|娶)"@
}
pub open spec fn with_piece() -> Seq<char> {
    "(?:与|和|跟)"@
}
pub open spec fn with2_piece() -> Seq<char> {
    "(?:和|与|跟)"@
}
pub open spec fn mutual_piece() -> Seq<char> {
    "(?:两情相悦|互相喜欢|彼此喜欢|相爱)"@
}
pub open spec fn dual_piece() -> Seq<char> {
    "双修"@
}

/// The patterns for lead names `a` and candidate names `b`, as (pattern,
/// strength, kind, direction).
pub open spec fn rules_spec(a: Seq<char>, b: Seq<char>) -> Seq<(Seq<char>, u32, Kind, Seq<char>)> {
    seq![
        (b + copula_piece() + a + de_piece() + role_piece(), 10u32, Kind::Explicit, "B→A"@),
        (a + copula_piece() + b + de_piece() + role_piece(), 10u32, Kind::Explicit, "A→B"@),
        (a + de_piece() + role_piece() + named_piece() + b, 10u32, Kind::Explicit, "A→B"@),
        (b + de_piece() + role_piece() + named_piece() + a, 10u32, Kind::Explicit, "B→A"@),
        (a + c8_piece() + marry_a_piece() + c6_piece() + b, 10u32, Kind::Explicit, "A→B"@),
        (b + c8_piece() + marry_b_piece() + c6_piece() + a, 10u32, Kind::Explicit, "B→A"@),
        (a + with_piece() + b + c16_piece() + commit_piece(), 9u32, Kind::Explicit, "双向"@),
        (b + with_piece() + a + c16_piece() + commit_piece(), 9u32, Kind::Explicit, "双向"@),
        (commit_piece() + c12_piece() + a + with_piece() + b, 9u32, Kind::Explicit, "双向"@),
        (commit_piece() + c12_piece() + b + with_piece() + a, 9u32, Kind::Explicit, "双向"@),
        (a + adv_piece() + love_piece() + love_tail_piece() + b, 5u32, Kind::Love, "A→B"@),
        (b + adv_piece() + love_piece() + love_tail_piece() + a, 5u32, Kind::Love, "B→A"@),
        (a + with_piece() + b + c16_piece() + mutual_piece(), 7u32, Kind::Mutual, "双向"@),
        (b + with_piece() + a + c16_piece() + mutual_piece(), 7u32, Kind::Mutual, "双向"@),
        (a + c8_piece() + sexual_piece() + c8_piece() + b, 8u32, Kind::Sexual, "双向"@),
        (b + c8_piece() + sexual_piece() + c8_piece() + a, 8u32, Kind::Sexual, "双向"@),
        (a + c8_piece() + with2_piece() + b + c8_piece() + sexual_piece(), 8u32, Kind::Sexual, "双向"@),
        (b + c8_piece() + with2_piece() + a + c8_piece() + sexual_piece(), 8u32, Kind::Sexual, "双向"@),
        (a + c8_piece() + with2_piece() + b + c8_piece() + dual_piece(), 8u32, Kind::SexualCultivation, "双向"@),
        (b + c8_piece() + with2_piece() + a + c8_piece() + dual_piece(), 8u32, Kind::SexualCultivation, "双向"@),
        (a + c8_piece() + romantic_intimate_piece() + c8_piece() + b, 6u32, Kind::RomanticIntimate, "A→B"@),
        (b + c8_piece() + romantic_intimate_piece() + c8_piece() + a, 6u32, Kind::RomanticIntimate, "B→A"@),
        (a + with_piece() + b + c12_piece() + romantic_intimate_piece(), 6u32, Kind::RomanticIntimate, "双向"@),
        (b + with_piece() + a + c12_piece() + romantic_intimate_piece(), 6u32, Kind::RomanticIntimate, "双向"@),
        (a + c8_piece() + intimate_piece() + c8_piece() + b, 4u32, Kind::Intimate, "A→B"@),
        (b + c8_piece() + intimate_piece() + c8_piece() + a, 4u32, Kind::Intimate, "B→A"@),
        (a + with_piece() + b + c12_piece() + intimate_piece(), 4u32, Kind::Intimate, "双向"@),
        (b + with_piece() + a + c12_piece() + intimate_piece(), 4u32, Kind::Intimate, "双向"@),
        (a + soft20_piece() + tension_piece() + soft20_piece() + b, 3u32, Kind::RomanticTension, "双向"@),
        (b + soft20_piece() + tension_piece() + soft20_piece() + a, 3u32, Kind::RomanticTension, "双向"@),
        (a + soft20_piece() + b + soft10_piece() + tension_piece(), 3u32, Kind::RomanticTension, "双向"@),
        (b + soft20_piece() + a + soft10_piece() + tension_piece(), 3u32, Kind::RomanticTension, "双向"@),
        (a + soft30_piece() + comfort_piece() + soft10_piece() + b, 3u32, Kind::EmotionalComfort, "A→B"@),
        (b + soft30_piece() + comfort_piece() + soft10_piece() + a, 3u32, Kind::EmotionalComfort, "B→A"@),
    ]
}

pub open spec fn rule_views(rs: Seq<Rule>) -> Seq<(Seq<char>, u32, Kind, Seq<char>)> {
    rs.map_values(|r: Rule| (r.pattern@, r.strength, r.kind, r.direction@))
}

/// The patterns that bind lead `aa` (an alternation of the lead's names)
/// and candidate `bb` to a relationship predicate.
#[verifier::spinoff_prover]
#[verifier::rlimit(100)]
pub fn relation_rules(aa: &Vec<char>, bb: &Vec<char>) -> (r: Vec<Rule>)
    ensures
        rule_views(r@) == rules_spec(aa@, bb@),
{
    let ghost a = aa@;
    let ghost b = bb@;
    let role = alt_words(&romantic_roles());
    let commit = alt_words(&commit_actions());
    let love = alt_words(&love_actions());
    let intimate = alt_words(&intimate_actions());
    let romantic_intimate = alt_words(&romantic_intimate_actions());
    let sexual = alt_words(&sexual_actions());
    let tension = alt_words(&tension_cues());
    let comfort = alt_words(&comfort_actions());
    let c6 = to_chars("[^，,。！？!?；;：“”\"（）()]{0,6}");
    let c8 = to_chars("[^，,。！？!?；;：“”\"（）()]{0,8}");
    let c12 = to_chars("[^，,。！？!?；;：“”\"（）()]{0,12}");
    let c16 = to_chars("[^，,。！？!?；;：“”\"（）()]{0,16}");
    let soft10 = to_chars("[^。！？!?；;]{0,10}");
    let soft20 = to_chars("[^。！？!?；;]{0,20}");
    let soft30 = to_chars("[^。！？!?；;]{0,30}");
    let adv = to_chars("(?:也|很|最|真的|一直|渐渐|渐渐地|早就|还是|特别|更|其实|已经|逐渐|似乎|可能|却|只|只是|就|都){0,3}");
    let love_tail = to_chars("(?:上|上了|着|的(?:人)?(?:是)?|的是|的就是)?(?:和|跟|与)?");
    let copula = to_chars("(?:是|乃是|便是|成为|成了|当了)?");
    let de = to_chars("的");
    let named = to_chars("(?:是|叫|名叫)?");
    let marry_a = to_chars("(?:迎娶|娶了|娶|纳了|纳为)");
    let marry_b = to_chars("(?:嫁给|嫁了|迎娶|娶了|娶)");
    let with = to_chars("(?:与|和|跟)");
    let with2 = to_chars("(?:和|与|跟)");
    let mutual = to_chars("(?:两情相悦|互相喜欢|彼此喜欢|相爱)");
    let dual = to_chars("双修");
    let mut r: Vec<Rule> = Vec::new();
    let ghost mut want: Seq<(Seq<char>, u32, Kind, Seq<char>)> = Seq::empty();
    r.push(rule(vec![bb, &copula, aa, &de, &role], 10, Kind::Explicit, "B→A"));
    proof {
        let e = (b + copula_piece() + a + de_piece() + role_piece(), 10u32, Kind::Explicit, "B→A"@);
        assert(r@.last().pattern@ =~= e.0) by {
            reveal_with_fuel(cat_spec, 7);
        }
        want = want.push(e);
        assert(rule_views(r@) =~= want);
    }
    r.push(rule(vec![aa, &copula, bb, &de, &role], 10, Kind::Explicit, "A→B"));
    proof {
        let e = (a + copula_piece() + b + de_piece() + role_piece(), 10u32, Kind::Explicit, "A→B"@);
        assert(r@.last().pattern@ =~= e.0) by {
            reveal_with_fuel(cat_spec, 7);
        }
        want = want.push(e);
        assert(rule_views(r@) =~= want);
    }
    r.push(rule(vec![aa, &de, &role, &named, bb], 10, Kind::Explicit, "A→B"));
    proof {
        let e = (a + de_piece() + role_piece() + named_piece() + b, 10u32, Kind::Explicit, "A→B"@);
        assert(r@.last().pattern@ =~= e.0) by {
            reveal_with_fuel(cat_spec, 7);
        }
        want = want.push(e);
        assert(rule_views(r@) =~= want);
    }
    r.push(rule(vec![bb, &de, &role, &named, aa], 10, Kind::Explicit, "B→A"));
    proof {
        let e = (b + de_piece() + role_piece() + named_piece() + a, 10u32, Kind::Explicit, "B→A"@);
        assert(r@.last().pattern@ =~= e.0) by {
            reveal_with_fuel(cat_spec, 7);
        }
        want = want.push(e);
        assert(rule_views(r@) =~= want);
    }
    r.push(rule(vec![aa, &c8, &marry_a, &c6, bb], 10, Kind::Explicit, "A→B"));
    proof {
        let e = (a + c8_piece() + marry_a_piece() + c6_piece() + b, 10u32, Kind::Explicit, "A→B"@);
        assert(r@.last().pattern@ =~= e.0) by {
            reveal_with_fuel(cat_spec, 7);
        }
        want = want.push(e);
        assert(rule_views(r@) =~= want);
    }
    r.push(rule(vec![bb, &c8, &marry_b, &c6, aa], 10, Kind::Explicit, "B→A"));
    proof {
        let e = (b + c8_piece() + marry_b_piece() + c6_piece() + a, 10u32, Kind::Explicit, "B→A"@);
        assert(r@.last().pattern@ =~= e.0) by {
            reveal_with_fuel(cat_spec, 7);
        }
        want = want.push(e);
        assert(rule_views(r@) =~= want);
    }
    r.push(rule(vec![aa, &with, bb, &c16, &commit], 9, Kind::Explicit, "双向"));
    proof {
        let e = (a + with_piece() + b + c16_piece() + commit_piece(), 9u32, Kind::Explicit, "双向"@);
        assert(r@.last().pattern@ =~= e.0) by {
            reveal_with_fuel(cat_spec, 7);
        }
        want = want.push(e);
        assert(rule_views(r@) =~= want);
    }
    r.push(rule(vec![bb, &with, aa, &c16, &commit], 9, Kind::Explicit, "双向"));
    proof {
        let e = (b + with_piece() + a + c16_piece() + commit_piece(), 9u32, Kind::Explicit, "双向"@);
        assert(r@.last().pattern@ =~= e.0) by {
            reveal_with_fuel(cat_spec, 7);
        }
        want = want.push(e);
        assert(rule_views(r@) =~= want);
    }
    r.push(rule(vec![&commit, &c12, aa, &with, bb], 9, Kind::Explicit, "双向"));
    proof {
        let e = (commit_piece() + c12_piece() + a + with_piece() + b, 9u32, Kind::Explicit, "双向"@);
        assert(r@.last().pattern@ =~= e.0) by {
            reveal_with_fuel(cat_spec, 7);
        }
        want = want.push(e);
        assert(rule_views(r@) =~= want);
    }
    r.push(rule(vec![&commit, &c12, bb, &with, aa], 9, Kind::Explicit, "双向"));
    proof {
        let e = (commit_piece() + c12_piece() + b + with_piece() + a, 9u32, Kind::Explicit, "双向"@);
        assert(r@.last().pattern@ =~= e.0) by {
            reveal_with_fuel(cat_spec, 7);
        }
        want = want.push(e);
        assert(rule_views(r@) =~= want);
    }
    r.push(rule(vec![aa, &adv, &love, &love_tail, bb], 5, Kind::Love, "A→B"));
    proof {
        let e = (a + adv_piece() + love_piece() + love_tail_piece() + b, 5u32, Kind::Love, "A→B"@);
        assert(r@.last().pattern@ =~= e.0) by {
            reveal_with_fuel(cat_spec, 7);
        }
        want = want.push(e);
        assert(rule_views(r@) =~= want);
    }
    r.push(rule(vec![bb, &adv, &love, &love_tail, aa], 5, Kind::Love, "B→A"));
    proof {
        let e = (b + adv_piece() + love_piece() + love_tail_piece() + a, 5u32, Kind::Love, "B→A"@);
        assert(r@.last().pattern@ =~= e.0) by {
            reveal_with_fuel(cat_spec, 7);
        }
        want = want.push(e);
        assert(rule_views(r@) =~= want);
    }
    r.push(rule(vec![aa, &with, bb, &c16, &mutual], 7, Kind::Mutual, "双向"));
    proof {
        let e = (a + with_piece() + b + c16_piece() + mutual_piece(), 7u32, Kind::Mutual, "双向"@);
        assert(r@.last().pattern@ =~= e.0) by {
            reveal_with_fuel(cat_spec, 7);
        }
        want = want.push(e);
        assert(rule_views(r@) =~= want);
    }
    r.push(rule(vec![bb, &with, aa, &c16, &mutual], 7, Kind::Mutual, "双向"));
    proof {
        let e = (b + with_piece() + a + c16_piece() + mutual_piece(), 7u32, Kind::Mutual, "双向"@);
        assert(r@.last().pattern@ =~= e.0) by {
            reveal_with_fuel(cat_spec, 7);
        }
        want = want.push(e);
        assert(rule_views(r@) =~= want);
    }
    r.push(rule(vec![aa, &c8, &sexual, &c8, bb], 8, Kind::Sexual, "双向"));
    proof {
        let e = (a + c8_piece() + sexual_piece() + c8_piece() + b, 8u32, Kind::Sexual, "双向"@);
        assert(r@.last().pattern@ =~= e.0) by {
            reveal_with_fuel(cat_spec, 7);
        }
        want = want.push(e);
        assert(rule_views(r@) =~= want);
    }
    r.push(rule(vec![bb, &c8, &sexual, &c8, aa], 8, Kind::Sexual, "双向"));
    proof {
        let e = (b + c8_piece() + sexual_piece() + c8_piece() + a, 8u32, Kind::Sexual, "双向"@);
        assert(r@.last().pattern@ =~= e.0) by {
            reveal_with_fuel(cat_spec, 7);
        }
        want = want.push(e);
        assert(rule_views(r@) =~= want);
    }
    r.push(rule(vec![aa, &c8, &with2, bb, &c8, &sexual], 8, Kind::Sexual, "双向"));
    proof {
        let e = (a + c8_piece() + with2_piece() + b + c8_piece() + sexual_piece(), 8u32, Kind::Sexual, "双向"@);
        assert(r@.last().pattern@ =~= e.0) by {
            reveal_with_fuel(cat_spec, 7);
        }
        want = want.push(e);
        assert(rule_views(r@) =~= want);
    }
    r.push(rule(vec![bb, &c8, &with2, aa, &c8, &sexual], 8, Kind::Sexual, "双向"));
    proof {
        let e = (b + c8_piece() + with2_piece() + a + c8_piece() + sexual_piece(), 8u32, Kind::Sexual, "双向"@);
        assert(r@.last().pattern@ =~= e.0) by {
            reveal_with_fuel(cat_spec, 7);
        }
        want = want.push(e);
        assert(rule_views(r@) =~= want);
    }
    r.push(rule(vec![aa, &c8, &with2, bb, &c8, &dual], 8, Kind::SexualCultivation, "双向"));
    proof {
        let e = (a + c8_piece() + with2_piece() + b + c8_piece() + dual_piece(), 8u32, Kind::SexualCultivation, "双向"@);
        assert(r@.last().pattern@ =~= e.0) by {
            reveal_with_fuel(cat_spec, 7);
        }
        want = want.push(e);
        assert(rule_views(r@) =~= want);
    }
    r.push(rule(vec![bb, &c8, &with2, aa, &c8, &dual], 8, Kind::SexualCultivation, "双向"));
    proof {
        let e = (b + c8_piece() + with2_piece() + a + c8_piece() + dual_piece(), 8u32, Kind::SexualCultivation, "双向"@);
        assert(r@.last().pattern@ =~= e.0) by {
            reveal_with_fuel(cat_spec, 7);
        }
        want = want.push(e);
        assert(rule_views(r@) =~= want);
    }
    r.push(rule(vec![aa, &c8, &romantic_intimate, &c8, bb], 6, Kind::RomanticIntimate, "A→B"));
    proof {
        let e = (a + c8_piece() + romantic_intimate_piece() + c8_piece() + b, 6u32, Kind::RomanticIntimate, "A→B"@);
        assert(r@.last().pattern@ =~= e.0) by {
            reveal_with_fuel(cat_spec, 7);
        }
        want = want.push(e);
        assert(rule_views(r@) =~= want);
    }
    r.push(rule(vec![bb, &c8, &romantic_intimate, &c8, aa], 6, Kind::RomanticIntimate, "B→A"));
    proof {
        let e = (b + c8_piece() + romantic_intimate_piece() + c8_piece() + a, 6u32, Kind::RomanticIntimate, "B→A"@);
        assert(r@.last().pattern@ =~= e.0) by {
            reveal_with_fuel(cat_spec, 7);
        }
        want = want.push(e);
        assert(rule_views(r@) =~= want);
    }
    r.push(rule(vec![aa, &with, bb, &c12, &romantic_intimate], 6, Kind::RomanticIntimate, "双向"));
    proof {
        let e = (a + with_piece() + b + c12_piece() + romantic_intimate_piece(), 6u32, Kind::RomanticIntimate, "双向"@);
        assert(r@.last().pattern@ =~= e.0) by {
            reveal_with_fuel(cat_spec, 7);
        }
        want = want.push(e);
        assert(rule_views(r@) =~= want);
    }
    r.push(rule(vec![bb, &with, aa, &c12, &romantic_intimate], 6, Kind::RomanticIntimate, "双向"));
    proof {
        let e = (b + with_piece() + a + c12_piece() + romantic_intimate_piece(), 6u32, Kind::RomanticIntimate, "双向"@);
        assert(r@.last().pattern@ =~= e.0) by {
            reveal_with_fuel(cat_spec, 7);
        }
        want = want.push(e);
        assert(rule_views(r@) =~= want);
    }
    r.push(rule(vec![aa, &c8, &intimate, &c8, bb], 4, Kind::Intimate, "A→B"));
    proof {
        let e = (a + c8_piece() + intimate_piece() + c8_piece() + b, 4u32, Kind::Intimate, "A→B"@);
        assert(r@.last().pattern@ =~= e.0) by {
            reveal_with_fuel(cat_spec, 7);
        }
        want = want.push(e);
        assert(rule_views(r@) =~= want);
    }
    r.push(rule(vec![bb, &c8, &intimate, &c8, aa], 4, Kind::Intimate, "B→A"));
    proof {
        let e = (b + c8_piece() + intimate_piece() + c8_piece() + a, 4u32, Kind::Intimate, "B→A"@);
        assert(r@.last().pattern@ =~= e.0) by {
            reveal_with_fuel(cat_spec, 7);
        }
        want = want.push(e);
        assert(rule_views(r@) =~= want);
    }
    r.push(rule(vec![aa, &with, bb, &c12, &intimate], 4, Kind::Intimate, "双向"));
    proof {
        let e = (a + with_piece() + b + c12_piece() + intimate_piece(), 4u32, Kind::Intimate, "双向"@);
        assert(r@.last().pattern@ =~= e.0) by {
            reveal_with_fuel(cat_spec, 7);
        }
        want = want.push(e);
        assert(rule_views(r@) =~= want);
    }
    r.push(rule(vec![bb, &with, aa, &c12, &intimate], 4, Kind::Intimate, "双向"));
    proof {
        let e = (b + with_piece() + a + c12_piece() + intimate_piece(), 4u32, Kind::Intimate, "双向"@);
        assert(r@.last().pattern@ =~= e.0) by {
            reveal_with_fuel(cat_spec, 7);
        }
        want = want.push(e);
        assert(rule_views(r@) =~= want);
    }
    r.push(rule(vec![aa, &soft20, &tension, &soft20, bb], 3, Kind::RomanticTension, "双向"));
    proof {
        let e = (a + soft20_piece() + tension_piece() + soft20_piece() + b, 3u32, Kind::RomanticTension, "双向"@);
        assert(r@.last().pattern@ =~= e.0) by {
            reveal_with_fuel(cat_spec, 7);
        }
        want = want.push(e);
        assert(rule_views(r@) =~= want);
    }
    r.push(rule(vec![bb, &soft20, &tension, &soft20, aa], 3, Kind::RomanticTension, "双向"));
    proof {
        let e = (b + soft20_piece() + tension_piece() + soft20_piece() + a, 3u32, Kind::RomanticTension, "双向"@);
        assert(r@.last().pattern@ =~= e.0) by {
            reveal_with_fuel(cat_spec, 7);
        }
        want = want.push(e);
        assert(rule_views(r@) =~= want);
    }
    r.push(rule(vec![aa, &soft20, bb, &soft10, &tension], 3, Kind::RomanticTension, "双向"));
    proof {
        let e = (a + soft20_piece() + b + soft10_piece() + tension_piece(), 3u32, Kind::RomanticTension, "双向"@);
        assert(r@.last().pattern@ =~= e.0) by {
            reveal_with_fuel(cat_spec, 7);
        }
        want = want.push(e);
        assert(rule_views(r@) =~= want);
    }
    r.push(rule(vec![bb, &soft20, aa, &soft10, &tension], 3, Kind::RomanticTension, "双向"));
    proof {
        let e = (b + soft20_piece() + a + soft10_piece() + tension_piece(), 3u32, Kind::RomanticTension, "双向"@);
        assert(r@.last().pattern@ =~= e.0) by {
            reveal_with_fuel(cat_spec, 7);
        }
        want = want.push(e);
        assert(rule_views(r@) =~= want);
    }
    r.push(rule(vec![aa, &soft30, &comfort, &soft10, bb], 3, Kind::EmotionalComfort, "A→B"));
    proof {
        let e = (a + soft30_piece() + comfort_piece() + soft10_piece() + b, 3u32, Kind::EmotionalComfort, "A→B"@);
        assert(r@.last().pattern@ =~= e.0) by {
            reveal_with_fuel(cat_spec, 7);
        }
        want = want.push(e);
        assert(rule_views(r@) =~= want);
    }
    r.push(rule(vec![bb, &soft30, &comfort, &soft10, aa], 3, Kind::EmotionalComfort, "B→A"));
    proof {
        let e = (b + soft30_piece() + comfort_piece() + soft10_piece() + a, 3u32, Kind::EmotionalComfort, "B→A"@);
        assert(r@.last().pattern@ =~= e.0) by {
            reveal_with_fuel(cat_spec, 7);
        }
        want = want.push(e);
        assert(rule_views(r@) =~= want);
    }
    assert(want =~= rules_spec(aa@, bb@));
    r
}

} // verus!
