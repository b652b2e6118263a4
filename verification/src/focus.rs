//! Coarse narrative focus for the pre-reading report.
//!
//! Five words, never percentages: a romance scene can also advance a mission
//! and a power breakthrough, so the three dimensions are independent rather
//! than slices of a pie. Rules count explicit local events; both repetition
//! and chapter spread matter, which stops one glossary-heavy chapter from
//! making a whole book look upgrade-heavy.
use vstd::prelude::*;
use crate::book::{ChapV, Chapter};
use crate::chunk::{at_byte, boundary, chunk_body, chunk_views, chunks_spec, ChunkV};
use crate::text::{contains_any, occurs_any, to_chars};

verus! {

/// Bump when rules or level thresholds change so stored estimates are rebuilt.
pub const FOCUS_VERSION: i64 = 1;

#[derive(Debug, Clone, Copy, PartialEq, Eq, Structural)]
pub enum FocusLevel {
    VeryLittle,
    Little,
    Medium,
    Much,
    VeryMuch,
}

pub open spec fn zh_spec(l: FocusLevel) -> &'static str {
    match l {
        FocusLevel::VeryLittle => "很少",
        FocusLevel::Little => "较少",
        FocusLevel::Medium => "中等",
        FocusLevel::Much => "较多",
        FocusLevel::VeryMuch => "很多",
    }
}

impl FocusLevel {
    pub fn zh(self) -> (r: &'static str)
        ensures
            r == zh_spec(self),
    {
        match self {
            FocusLevel::VeryLittle => "很少",
            FocusLevel::Little => "较少",
            FocusLevel::Medium => "中等",
            FocusLevel::Much => "较多",
            FocusLevel::VeryMuch => "很多",
        }
    }
}

#[derive(Debug, Clone, Copy, PartialEq, Eq, Structural)]
pub struct NarrativeFocus {
    pub career: FocusLevel,
    pub romance: FocusLevel,
    pub growth: FocusLevel,
}

/// How often a kind of event happened, and in how many chapters.
#[derive(Debug, Clone, Copy, Default)]
pub struct SignalCount {
    pub events: usize,
    pub active_chapters: usize,
}

// ------------------------------------------------------------ word lists

pub open spec fn false_romance_words() -> Seq<&'static str> {
    seq!["喜欢吃", "爱吃", "爱喝", "夫妻肺片", "亲吻大地", "爱情小说", "爱情电影"]
}

pub open spec fn romance_direct_words() -> Seq<&'static str> {
    seq![
        "表白", "告白", "求婚", "成亲", "成婚", "婚礼", "退婚", "悔婚", "分手", "失恋", "亲吻", "接吻",
        "拥吻", "牵手", "十指相扣", "依偎", "吃醋", "心动", "暗恋", "倾心", "钟情",
    ]
}

pub open spec fn romance_relation_words() -> Seq<&'static str> {
    seq!["未婚妻", "未婚夫", "恋人", "情侣", "夫妻", "道侣", "心上人", "意中人", "感情"]
}

pub open spec fn romance_change_words() -> Seq<&'static str> {
    seq!["喜欢", "爱上", "嫁给", "娶她", "娶你", "暧昧", "争吵", "误会", "确认关系", "在一起"]
}

pub open spec fn growth_false_words() -> Seq<&'static str> {
    seq!["突破房门", "突破重围", "系统升级维护", "升级版", "高级酒店"]
}

pub open spec fn growth_direct_words() -> Seq<&'static str> {
    seq![
        "破境", "晋级", "进阶", "升阶", "修为提升", "修为大涨", "实力大增", "实力提升", "战力提升",
        "等级提升", "境界提升", "获得新技能", "觉醒能力", "觉醒异能", "炼化成功", "修炼有成",
    ]
}

pub open spec fn growth_power_words() -> Seq<&'static str> {
    seq![
        "修炼", "闭关", "境界", "修为", "功法", "灵力", "异能", "技能", "等级", "品阶", "战力",
        "经验值", "属性点", "天赋", "血脉", "剑意", "神通",
    ]
}

pub open spec fn growth_progress_words() -> Seq<&'static str> {
    seq![
        "突破", "提升", "增长", "精进", "变强", "掌握", "获得", "领悟", "觉醒", "炼化", "修成", "升级",
        "晋升",
    ]
}

pub open spec fn career_decisive_words() -> Seq<&'static str> {
    seq!["创业", "升职", "夺冠", "登基", "破案", "结案"]
}

pub open spec fn career_org_words() -> Seq<&'static str> {
    seq![
        "公司", "集团", "企业", "生意", "店铺", "商会", "项目", "合同", "订单", "投资", "组织", "势力",
        "宗门", "军队", "团队", "领地", "城池", "基地",
    ]
}

pub open spec fn career_org_action_words() -> Seq<&'static str> {
    seq![
        "经营", "管理", "创建", "创办", "组建", "建立", "发展", "扩张", "建设", "治理", "招募", "训练",
        "整顿", "率领", "签订", "谈成", "拿下", "推进",
    ]
}

pub open spec fn career_mission_words() -> Seq<&'static str> {
    seq![
        "任务", "计划", "战略", "行动", "调查", "案件", "真相", "凶手", "线索", "政务", "比赛", "作品",
        "电影", "专辑",
    ]
}

pub open spec fn career_mission_action_words() -> Seq<&'static str> {
    seq![
        "执行", "完成", "推进", "部署", "调查", "追查", "侦查", "负责", "拍摄", "执导", "出版", "发布",
        "赢得",
    ]
}

pub open spec fn career_false_words() -> Seq<&'static str> {
    seq!["公司楼下", "路过公司", "宗门遗址", "听说过这个组织"]
}

// ------------------------------------------------------------ events

/// Romance: a direct act, or a relationship word with a change in it; food
/// and book titles that merely contain 爱 or 夫妻 do not count.
pub open spec fn romance_spec(t: Seq<char>) -> bool {
    let direct = occurs_any(t, romance_direct_words());
    let relation = occurs_any(t, romance_relation_words());
    let change = occurs_any(t, romance_change_words());
    (direct || (relation && change)) && !(occurs_any(t, false_romance_words()) && !direct)
}

/// Growth: a direct breakthrough, or a power word with progress in it.
pub open spec fn growth_spec(t: Seq<char>) -> bool {
    let false_hit = occurs_any(t, growth_false_words());
    let direct = occurs_any(t, growth_direct_words());
    let power = occurs_any(t, growth_power_words());
    let progress = occurs_any(t, growth_progress_words());
    direct || (power && progress && !false_hit)
}

/// Career: a decisive event, or an organisation or mission being acted on.
pub open spec fn career_spec(t: Seq<char>) -> bool {
    if occurs_any(t, career_decisive_words()) {
        true
    } else {
        let organization = occurs_any(t, career_org_words());
        let organization_action = occurs_any(t, career_org_action_words());
        let mission = occurs_any(t, career_mission_words());
        let mission_action = occurs_any(t, career_mission_action_words());
        let false_hit = occurs_any(t, career_false_words());
        ((organization && organization_action) || (mission && mission_action)) && !false_hit
    }
}

fn any_of(t: &Vec<char>, words: Vec<&'static str>) -> (r: bool)
    ensures
        r == occurs_any(t@, words@),
{
    contains_any(t.as_slice(), words.as_slice())
}

fn romance_chars(t: &Vec<char>) -> (r: bool)
    ensures
        r == romance_spec(t@),
{
    let direct = any_of(
        t,
        vec![
            "表白", "告白", "求婚", "成亲", "成婚", "婚礼", "退婚", "悔婚", "分手", "失恋", "亲吻",
            "接吻", "拥吻", "牵手", "十指相扣", "依偎", "吃醋", "心动", "暗恋", "倾心", "钟情",
        ],
    );
    let relation = any_of(
        t,
        vec!["未婚妻", "未婚夫", "恋人", "情侣", "夫妻", "道侣", "心上人", "意中人", "感情"],
    );
    let change = any_of(
        t,
        vec!["喜欢", "爱上", "嫁给", "娶她", "娶你", "暧昧", "争吵", "误会", "确认关系", "在一起"],
    );
    let fake = any_of(t, vec!["喜欢吃", "爱吃", "爱喝", "夫妻肺片", "亲吻大地", "爱情小说", "爱情电影"]);
    (direct || (relation && change)) && !(fake && !direct)
}

fn growth_chars(t: &Vec<char>) -> (r: bool)
    ensures
        r == growth_spec(t@),
{
    let false_hit = any_of(t, vec!["突破房门", "突破重围", "系统升级维护", "升级版", "高级酒店"]);
    let direct = any_of(
        t,
        vec![
            "破境", "晋级", "进阶", "升阶", "修为提升", "修为大涨", "实力大增", "实力提升",
            "战力提升", "等级提升", "境界提升", "获得新技能", "觉醒能力", "觉醒异能", "炼化成功",
            "修炼有成",
        ],
    );
    let power = any_of(
        t,
        vec![
            "修炼", "闭关", "境界", "修为", "功法", "灵力", "异能", "技能", "等级", "品阶", "战力",
            "经验值", "属性点", "天赋", "血脉", "剑意", "神通",
        ],
    );
    let progress = any_of(
        t,
        vec![
            "突破", "提升", "增长", "精进", "变强", "掌握", "获得", "领悟", "觉醒", "炼化", "修成",
            "升级", "晋升",
        ],
    );
    direct || (power && progress && !false_hit)
}

fn career_chars(t: &Vec<char>) -> (r: bool)
    ensures
        r == career_spec(t@),
{
    if any_of(t, vec!["创业", "升职", "夺冠", "登基", "破案", "结案"]) {
        return true;
    }
    let organization = any_of(
        t,
        vec![
            "公司", "集团", "企业", "生意", "店铺", "商会", "项目", "合同", "订单", "投资", "组织",
            "势力", "宗门", "军队", "团队", "领地", "城池", "基地",
        ],
    );
    let organization_action = any_of(
        t,
        vec![
            "经营", "管理", "创建", "创办", "组建", "建立", "发展", "扩张", "建设", "治理", "招募",
            "训练", "整顿", "率领", "签订", "谈成", "拿下", "推进",
        ],
    );
    let mission = any_of(
        t,
        vec![
            "任务", "计划", "战略", "行动", "调查", "案件", "真相", "凶手", "线索", "政务", "比赛",
            "作品", "电影", "专辑",
        ],
    );
    let mission_action = any_of(
        t,
        vec![
            "执行", "完成", "推进", "部署", "调查", "追查", "侦查", "负责", "拍摄", "执导", "出版",
            "发布", "赢得",
        ],
    );
    let false_hit = any_of(t, vec!["公司楼下", "路过公司", "宗门遗址", "听说过这个组织"]);
    ((organization && organization_action) || (mission && mission_action)) && !false_hit
}

/// An explicit romance event in this passage.
pub fn romance_event(text: &str) -> (r: bool)
    ensures
        r == romance_spec(text@),
{
    romance_chars(&to_chars(text))
}

/// An explicit growth event in this passage.
pub fn growth_event(text: &str) -> (r: bool)
    ensures
        r == growth_spec(text@),
{
    growth_chars(&to_chars(text))
}

/// An explicit career event in this passage.
pub fn career_event(text: &str) -> (r: bool)
    ensures
        r == career_spec(text@),
{
    career_chars(&to_chars(text))
}

// ------------------------------------------------------------ levels

/// The level for `e` events in `a` active chapters out of `c`. The intensity
/// is the geometric mean of events per chapter and chapter spread,
/// `sqrt(e / c * a / c)`; repetition without spread is a glossary or one side
/// arc, and spread without repetition is a handful of incidental mentions.
/// Its thresholds 0.025, 0.07, 0.15 and 0.30 are compared squared, exactly.
pub open spec fn level_spec(e: int, a: int, c: int) -> FocusLevel {
    if c == 0 || e == 0 {
        FocusLevel::VeryLittle
    } else if 1600 * e * a < c * c {
        FocusLevel::VeryLittle
    } else if 10000 * e * a < 49 * c * c {
        FocusLevel::Little
    } else if 400 * e * a < 9 * c * c {
        FocusLevel::Medium
    } else if 100 * e * a < 9 * c * c {
        FocusLevel::Much
    } else {
        FocusLevel::VeryMuch
    }
}

/// Exactly whether `k * p < m * q`, without leaving 128 bits.
fn scaled_lt(p: u128, q: u128, k: u128, m: u128) -> (r: bool)
    requires
        1 <= m <= 49,
        m < k <= 0x10_0000_0000_0000_0000_0000_0000,
    ensures
        r == (k * p < m * q),
{
    let qq = q / k;
    let rr = q % k;
    proof {
        assert(q == k * qq + rr && 0 <= rr < k) by (nonlinear_arith)
            requires
                k > 0,
                qq == q / k,
                rr == q % k,
        ;
        assert(m * qq <= q) by (nonlinear_arith)
            requires
                m < k,
                q == k * qq + rr,
                rr >= 0,
                qq >= 0,
        ;
    }
    let mq = m * qq;
    if p < mq {
        assert(k * p < m * q) by (nonlinear_arith)
            requires
                p < mq,
                mq == m * qq,
                q == k * qq + rr,
                k > m,
                m > 0,
                rr >= 0,
        ;
        true
    } else {
        let d = p - mq;
        assert((k * p < m * q) == (k * d < m * rr)) by (nonlinear_arith)
            requires
                d == p - mq,
                mq == m * qq,
                q == k * qq + rr,
        ;
        if d >= m {
            assert(!(k * d < m * rr)) by (nonlinear_arith)
                requires
                    d >= m,
                    rr < k,
                    m >= 1,
                    rr >= 0,
            ;
            false
        } else {
            assert(k * d < 0x10_0000_0000_0000_0000_0000_0000 * 49) by (nonlinear_arith)
                requires
                    d < m <= 49,
                    k <= 0x10_0000_0000_0000_0000_0000_0000,
            ;
            assert(m * rr < 0x10_0000_0000_0000_0000_0000_0000 * 49) by (nonlinear_arith)
                requires
                    rr < k <= 0x10_0000_0000_0000_0000_0000_0000,
                    m <= 49,
            ;
            k * d < m * rr
        }
    }
}

/// [`level_spec`] for `e` events (below 2^128), `a` and `c` below 2^64.
fn level_of(e: u128, a: u128, c: u128) -> (l: FocusLevel)
    requires
        a <= 0xffff_ffff_ffff_ffff,
        c <= 0xffff_ffff_ffff_ffff,
    ensures
        l == level_spec(e as int, a as int, c as int),
{
    if c == 0 || e == 0 {
        return FocusLevel::VeryLittle;
    }
    if a == 0 {
        assert(c * c > 0) by (nonlinear_arith)
            requires
                c > 0,
        ;
        assert(1600 * e * a == 0) by (nonlinear_arith)
            requires
                a == 0,
        ;
        return FocusLevel::VeryLittle;
    }
    assert(c * c <= 0xffff_ffff_ffff_ffff * 0xffff_ffff_ffff_ffff) by (nonlinear_arith)
        requires
            c <= 0xffff_ffff_ffff_ffff,
    ;
    let q = c * c;
    assert(10000 * a <= 0x10_0000_0000_0000_0000_0000_0000);
    proof {
        assert(1600 * e * a == (1600 * a) * e) by (nonlinear_arith);
        assert(10000 * e * a == (10000 * a) * e) by (nonlinear_arith);
        assert(400 * e * a == (400 * a) * e) by (nonlinear_arith);
        assert(100 * e * a == (100 * a) * e) by (nonlinear_arith);
        assert(49 * c * c == 49 * q) by (nonlinear_arith)
            requires
                q == c * c,
        ;
        assert(9 * c * c == 9 * q) by (nonlinear_arith)
            requires
                q == c * c,
        ;
    }
    if scaled_lt(e, q, 1600 * a, 1) {
        FocusLevel::VeryLittle
    } else if scaled_lt(e, q, 10000 * a, 49) {
        FocusLevel::Little
    } else if scaled_lt(e, q, 400 * a, 9) {
        FocusLevel::Medium
    } else if scaled_lt(e, q, 100 * a, 9) {
        FocusLevel::Much
    } else {
        FocusLevel::VeryMuch
    }
}

/// The level a count earns over `chapters` chapters.
pub fn level_for(count: &SignalCount, chapters: usize) -> (l: FocusLevel)
    ensures
        l == level_spec(count.events as int, count.active_chapters as int, chapters as int),
{
    assert(usize::MAX <= 0xffff_ffff_ffff_ffff);
    level_of(count.events as u128, count.active_chapters as u128, chapters as u128)
}

// ------------------------------------------------------------ the book

/// The retrieval windows of a chapter's body, 500 characters each.
pub open spec fn body_chunks(t: Seq<char>, c: ChapV) -> Seq<ChunkV> {
    chunks_spec(t.subrange(at_byte(t, c.5), at_byte(t, c.4)), c.5, 500)
}

/// Event kinds: 0 career, 1 romance, 2 growth.
pub open spec fn kind_event(kind: int, t: Seq<char>) -> bool {
    if kind == 0 {
        career_spec(t)
    } else if kind == 1 {
        romance_spec(t)
    } else {
        growth_spec(t)
    }
}

/// Windows holding an event of this kind.
pub open spec fn hits_in(cs: Seq<ChunkV>, kind: int) -> nat
    decreases cs.len(),
{
    if cs.len() == 0 {
        0
    } else {
        hits_in(cs.drop_last(), kind) + if kind_event(kind, cs.last().2) {
            1nat
        } else {
            0nat
        }
    }
}

/// Events of this kind in the first `n` chapters.
pub open spec fn events_upto(t: Seq<char>, chs: Seq<ChapV>, kind: int, n: int) -> nat
    decreases n,
{
    if n <= 0 {
        0
    } else {
        events_upto(t, chs, kind, n - 1) + hits_in(body_chunks(t, chs[n - 1]), kind)
    }
}

/// Chapters among the first `n` with at least one event of this kind.
pub open spec fn active_upto(t: Seq<char>, chs: Seq<ChapV>, kind: int, n: int) -> nat
    decreases n,
{
    if n <= 0 {
        0
    } else {
        active_upto(t, chs, kind, n - 1) + if hits_in(body_chunks(t, chs[n - 1]), kind) > 0 {
            1nat
        } else {
            0nat
        }
    }
}

pub open spec fn level_of_kind(t: Seq<char>, chs: Seq<ChapV>, kind: int) -> FocusLevel {
    level_spec(
        events_upto(t, chs, kind, chs.len() as int) as int,
        active_upto(t, chs, kind, chs.len() as int) as int,
        chs.len() as int,
    )
}

pub open spec fn analyze_spec(t: Seq<char>, chs: Seq<ChapV>) -> NarrativeFocus {
    NarrativeFocus {
        career: level_of_kind(t, chs, 0),
        romance: level_of_kind(t, chs, 1),
        growth: level_of_kind(t, chs, 2),
    }
}

/// Every chapter's body is a well-formed byte range of the text.
pub open spec fn bodies_ok(t: Seq<char>, chs: Seq<ChapV>) -> bool {
    forall|i: int|
        0 <= i < chs.len() ==> {
            let c = #[trigger] chs[i];
            &&& c.5 <= c.4
            &&& boundary(t, c.5)
            &&& boundary(t, c.4)
        }
}

fn chapter_hits(text: &str, ch: &Chapter) -> (r: (usize, usize, usize))
    requires
        ch.body_start <= ch.span.end,
        boundary(text@, ch.body_start as int),
        boundary(text@, ch.span.end as int),
    ensures
        r.0 == hits_in(body_chunks(text@, ch@), 0),
        r.1 == hits_in(body_chunks(text@, ch@), 1),
        r.2 == hits_in(body_chunks(text@, ch@), 2),
{
    let chunks = chunk_body(text, ch.body_start, ch.span.end, 500);
    let ghost cv = chunk_views(chunks@);
    let mut c: usize = 0;
    let mut r: usize = 0;
    let mut g: usize = 0;
    let mut j: usize = 0;
    while j < chunks.len()
        invariant
            j <= chunks@.len(),
            cv == chunk_views(chunks@),
            c == hits_in(cv.take(j as int), 0),
            r == hits_in(cv.take(j as int), 1),
            g == hits_in(cv.take(j as int), 2),
            c <= j,
            r <= j,
            g <= j,
        decreases chunks.len() - j,
    {
        assert(cv.take(j + 1).drop_last() =~= cv.take(j as int));
        assert(cv.take(j + 1).last() == chunks@[j as int]@);
        let t = chunks[j].text.as_str();
        if career_event(t) {
            c += 1;
        }
        if romance_event(t) {
            r += 1;
        }
        if growth_event(t) {
            g += 1;
        }
        j += 1;
    }
    assert(cv.take(chunks@.len() as int) =~= cv);
    (c, r, g)
}

/// Estimate how much of the book is career, romance and growth: each
/// chapter body is cut into 500-character windows, a window holding an
/// explicit event counts once per kind, and the level weighs the events
/// against how many chapters they spread over.
pub fn analyze(text: &str, chapters: &[Chapter]) -> (f: NarrativeFocus)
    requires
        bodies_ok(text@, chapters@.map_values(|c: Chapter| c@)),
    ensures
        f == analyze_spec(text@, chapters@.map_values(|c: Chapter| c@)),
{
    let ghost chs = chapters@.map_values(|c: Chapter| c@);
    let n = chapters.len();
    let mut ce: u128 = 0;
    let mut re: u128 = 0;
    let mut ge: u128 = 0;
    let mut ca: usize = 0;
    let mut ra: usize = 0;
    let mut ga: usize = 0;
    let mut i: usize = 0;
    while i < n
        invariant
            n == chapters@.len(),
            chs == chapters@.map_values(|c: Chapter| c@),
            bodies_ok(text@, chs),
            i <= n,
            ce == events_upto(text@, chs, 0, i as int),
            re == events_upto(text@, chs, 1, i as int),
            ge == events_upto(text@, chs, 2, i as int),
            ca == active_upto(text@, chs, 0, i as int),
            ra == active_upto(text@, chs, 1, i as int),
            ga == active_upto(text@, chs, 2, i as int),
            ce <= i * 0xffff_ffff_ffff_ffff,
            re <= i * 0xffff_ffff_ffff_ffff,
            ge <= i * 0xffff_ffff_ffff_ffff,
            ca <= i,
            ra <= i,
            ga <= i,
        decreases n - i,
    {
        assert(chs[i as int] == chapters@[i as int]@);
        let (c, r, g) = chapter_hits(text, &chapters[i]);
        assert(usize::MAX <= 0xffff_ffff_ffff_ffff);
        proof {
            assert(ce + c <= (i + 1) * 0xffff_ffff_ffff_ffff) by (nonlinear_arith)
                requires
                    ce <= i * 0xffff_ffff_ffff_ffff,
                    c <= 0xffff_ffff_ffff_ffff,
            ;
            assert(re + r <= (i + 1) * 0xffff_ffff_ffff_ffff) by (nonlinear_arith)
                requires
                    re <= i * 0xffff_ffff_ffff_ffff,
                    r <= 0xffff_ffff_ffff_ffff,
            ;
            assert(ge + g <= (i + 1) * 0xffff_ffff_ffff_ffff) by (nonlinear_arith)
                requires
                    ge <= i * 0xffff_ffff_ffff_ffff,
                    g <= 0xffff_ffff_ffff_ffff,
            ;
            assert((i + 1) * 0xffff_ffff_ffff_ffff <= 0xffff_ffff_ffff_ffff * 0xffff_ffff_ffff_ffff)
                by (nonlinear_arith)
                requires
                    i + 1 <= 0xffff_ffff_ffff_ffff,
            ;
        }
        ce = ce + c as u128;
        re = re + r as u128;
        ge = ge + g as u128;
        if c > 0 {
            ca += 1;
        }
        if r > 0 {
            ra += 1;
        }
        if g > 0 {
            ga += 1;
        }
        i += 1;
    }
    assert(usize::MAX <= 0xffff_ffff_ffff_ffff);
    NarrativeFocus {
        career: level_of(ce, ca as u128, n as u128),
        romance: level_of(re, ra as u128, n as u128),
        growth: level_of(ge, ga as u128, n as u128),
    }
}


proof fn lemma_hits_all(cs: Seq<ChunkV>, kind: int)
    requires
        forall|j: int| 0 <= j < cs.len() ==> kind_event(kind, (#[trigger] cs[j]).2),
    ensures
        hits_in(cs, kind) == cs.len(),
    decreases cs.len(),
{
    if cs.len() > 0 {
        lemma_hits_all(cs.drop_last(), kind);
    }
}

proof fn lemma_hits_none(cs: Seq<ChunkV>, kind: int)
    requires
        forall|j: int| 0 <= j < cs.len() ==> !kind_event(kind, (#[trigger] cs[j]).2),
    ensures
        hits_in(cs, kind) == 0,
    decreases cs.len(),
{
    if cs.len() > 0 {
        lemma_hits_none(cs.drop_last(), kind);
    }
}

/// Every window of every chapter holds an event of this kind.
pub open spec fn everywhere(t: Seq<char>, chs: Seq<ChapV>, kind: int) -> bool {
    forall|i: int, j: int|
        0 <= i < chs.len() && 0 <= j < body_chunks(t, chs[i]).len() ==> kind_event(kind, (#[trigger] body_chunks(t, chs[i])[j]).2)
}

/// No window of any chapter holds an event of this kind.
pub open spec fn nowhere(t: Seq<char>, chs: Seq<ChapV>, kind: int) -> bool {
    forall|i: int, j: int|
        0 <= i < chs.len() && 0 <= j < body_chunks(t, chs[i]).len() ==> !kind_event(kind, (#[trigger] body_chunks(t, chs[i])[j]).2)
}

proof fn lemma_counts_everywhere(t: Seq<char>, chs: Seq<ChapV>, kind: int, n: int)
    requires
        0 <= n <= chs.len(),
        everywhere(t, chs, kind),
        forall|i: int| 0 <= i < chs.len() ==> #[trigger] body_chunks(t, chs[i]).len() > 0,
    ensures
        events_upto(t, chs, kind, n) >= n,
        active_upto(t, chs, kind, n) == n,
    decreases n,
{
    if n > 0 {
        lemma_counts_everywhere(t, chs, kind, n - 1);
        let cs = body_chunks(t, chs[n - 1]);
        assert forall|j: int| 0 <= j < cs.len() implies kind_event(kind, (#[trigger] cs[j]).2) by {
            assert(kind_event(kind, body_chunks(t, chs[n - 1])[j].2));
        }
        lemma_hits_all(cs, kind);
    }
}

proof fn lemma_counts_nowhere(t: Seq<char>, chs: Seq<ChapV>, kind: int, n: int)
    requires
        0 <= n <= chs.len(),
        nowhere(t, chs, kind),
    ensures
        events_upto(t, chs, kind, n) == 0,
    decreases n,
{
    if n > 0 {
        lemma_counts_nowhere(t, chs, kind, n - 1);
        let cs = body_chunks(t, chs[n - 1]);
        assert forall|j: int| 0 <= j < cs.len() implies !kind_event(kind, (#[trigger] cs[j]).2) by {
            assert(!kind_event(kind, body_chunks(t, chs[n - 1])[j].2));
        }
        lemma_hits_none(cs, kind);
    }
}

/// Each field of the estimate reads its own kind of event: a book in which
/// every window of every chapter shows growth (`growth_spec`) and none
/// shows a career event (`career_spec`) is very much about growth and very
/// little about career, and the other way round.
pub proof fn each_focus_reads_its_own_events(t: Seq<char>, chs: Seq<ChapV>)
    requires
        chs.len() > 0,
        forall|i: int| 0 <= i < chs.len() ==> #[trigger] body_chunks(t, chs[i]).len() > 0,
    ensures
        (forall|i: int, j: int|
            0 <= i < chs.len() && 0 <= j < body_chunks(t, chs[i]).len() ==> growth_spec((#[trigger] body_chunks(t, chs[i])[j]).2)
                && !career_spec(body_chunks(t, chs[i])[j].2)) ==> analyze_spec(t, chs).growth == FocusLevel::VeryMuch
            && analyze_spec(t, chs).career == FocusLevel::VeryLittle,
        (forall|i: int, j: int|
            0 <= i < chs.len() && 0 <= j < body_chunks(t, chs[i]).len() ==> career_spec((#[trigger] body_chunks(t, chs[i])[j]).2)
                && !growth_spec(body_chunks(t, chs[i])[j].2)) ==> analyze_spec(t, chs).career == FocusLevel::VeryMuch
            && analyze_spec(t, chs).growth == FocusLevel::VeryLittle,
        (forall|i: int, j: int|
            0 <= i < chs.len() && 0 <= j < body_chunks(t, chs[i]).len() ==> !romance_spec((#[trigger] body_chunks(t, chs[i])[j]).2))
            ==> analyze_spec(t, chs).romance == FocusLevel::VeryLittle,
{
    let n = chs.len() as int;
    if forall|i: int, j: int|
        0 <= i < chs.len() && 0 <= j < body_chunks(t, chs[i]).len() ==> growth_spec((#[trigger] body_chunks(t, chs[i])[j]).2)
            && !career_spec(body_chunks(t, chs[i])[j].2) {
        assert forall|i: int, j: int|
            0 <= i < chs.len() && 0 <= j < body_chunks(t, chs[i]).len() implies kind_event(2, (#[trigger] body_chunks(t, chs[i])[j]).2) by {
            assert(growth_spec(body_chunks(t, chs[i])[j].2));
        }
        assert forall|i: int, j: int|
            0 <= i < chs.len() && 0 <= j < body_chunks(t, chs[i]).len() implies !kind_event(0, (#[trigger] body_chunks(t, chs[i])[j]).2) by {
            assert(!career_spec(body_chunks(t, chs[i])[j].2));
        }
        lemma_counts_everywhere(t, chs, 2, n);
        lemma_counts_nowhere(t, chs, 0, n);
        lemma_level_full(events_upto(t, chs, 2, n) as int, n);
    }
    if forall|i: int, j: int|
        0 <= i < chs.len() && 0 <= j < body_chunks(t, chs[i]).len() ==> career_spec((#[trigger] body_chunks(t, chs[i])[j]).2)
            && !growth_spec(body_chunks(t, chs[i])[j].2) {
        assert forall|i: int, j: int|
            0 <= i < chs.len() && 0 <= j < body_chunks(t, chs[i]).len() implies kind_event(0, (#[trigger] body_chunks(t, chs[i])[j]).2) by {
            assert(career_spec(body_chunks(t, chs[i])[j].2));
        }
        assert forall|i: int, j: int|
            0 <= i < chs.len() && 0 <= j < body_chunks(t, chs[i]).len() implies !kind_event(2, (#[trigger] body_chunks(t, chs[i])[j]).2) by {
            assert(!growth_spec(body_chunks(t, chs[i])[j].2));
        }
        lemma_counts_everywhere(t, chs, 0, n);
        lemma_counts_nowhere(t, chs, 2, n);
        lemma_level_full(events_upto(t, chs, 0, n) as int, n);
    }
    if forall|i: int, j: int|
        0 <= i < chs.len() && 0 <= j < body_chunks(t, chs[i]).len() ==> !romance_spec((#[trigger] body_chunks(t, chs[i])[j]).2) {
        assert forall|i: int, j: int|
            0 <= i < chs.len() && 0 <= j < body_chunks(t, chs[i]).len() implies !kind_event(1, (#[trigger] body_chunks(t, chs[i])[j]).2) by {
            assert(!romance_spec(body_chunks(t, chs[i])[j].2));
        }
        lemma_counts_nowhere(t, chs, 1, n);
    }
}

/// With an event in every chapter, and at least one per chapter, the level
/// is the highest.
proof fn lemma_level_full(e: int, n: int)
    requires
        n > 0,
        e >= n,
    ensures
        level_spec(e, n, n) == FocusLevel::VeryMuch,
{
    assert(100 * e * n >= 9 * n * n && 400 * e * n >= 9 * n * n && 10000 * e * n >= 49 * n * n
        && 1600 * e * n >= n * n) by (nonlinear_arith)
        requires
            e >= n,
            n > 0,
    ;
}
} // verus!
