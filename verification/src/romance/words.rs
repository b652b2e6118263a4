//! The vocabulary the relationship ledger reads, and small text helpers.
use vstd::prelude::*;
use crate::text::{contains, contains_any, is_ws, occurs_any, to_chars, ws};

verus! {

pub open spec fn romantic_roles_words() -> Seq<&'static str> {
    seq!["妻子", "丈夫", "夫君", "娘子", "相公", "老婆", "老公", "媳妇", "未婚妻", "未婚夫", "女朋友", "男朋友", "女友", "男友", "恋人", "爱人", "道侣", "伴侣", "情郎", "心上人", "意中人"]
}

pub fn romantic_roles() -> (r: Vec<&'static str>)
    ensures
        r@ == romantic_roles_words(),
{
    vec!["妻子", "丈夫", "夫君", "娘子", "相公", "老婆", "老公", "媳妇", "未婚妻", "未婚夫", "女朋友", "男朋友", "女友", "男友", "恋人", "爱人", "道侣", "伴侣", "情郎", "心上人", "意中人"]
}

pub open spec fn commit_actions_words() -> Seq<&'static str> {
    seq!["成亲", "成婚", "结婚", "完婚", "大婚", "拜堂", "结为夫妻", "结为道侣", "确定关系", "正式交往", "在一起了"]
}

pub fn commit_actions() -> (r: Vec<&'static str>)
    ensures
        r@ == commit_actions_words(),
{
    vec!["成亲", "成婚", "结婚", "完婚", "大婚", "拜堂", "结为夫妻", "结为道侣", "确定关系", "正式交往", "在一起了"]
}

pub open spec fn love_actions_words() -> Seq<&'static str> {
    seq!["喜欢", "爱上", "爱慕", "倾心", "钟情", "心悦", "暗恋", "迷恋"]
}

pub fn love_actions() -> (r: Vec<&'static str>)
    ensures
        r@ == love_actions_words(),
{
    vec!["喜欢", "爱上", "爱慕", "倾心", "钟情", "心悦", "暗恋", "迷恋"]
}

pub open spec fn intimate_actions_words() -> Seq<&'static str> {
    seq!["搂住", "搂入怀", "抱在怀", "牵起", "牵住", "同床", "洞房", "云雨", "双修"]
}

pub fn intimate_actions() -> (r: Vec<&'static str>)
    ensures
        r@ == intimate_actions_words(),
{
    vec!["搂住", "搂入怀", "抱在怀", "牵起", "牵住", "同床", "洞房", "云雨", "双修"]
}

pub open spec fn romantic_intimate_actions_words() -> Seq<&'static str> {
    seq!["亲吻", "接吻", "吻住", "吻了", "拥吻", "十指相扣"]
}

pub fn romantic_intimate_actions() -> (r: Vec<&'static str>)
    ensures
        r@ == romantic_intimate_actions_words(),
{
    vec!["亲吻", "接吻", "吻住", "吻了", "拥吻", "十指相扣"]
}

pub open spec fn sexual_actions_words() -> Seq<&'static str> {
    seq!["入洞房", "洞房", "圆房", "同床共枕", "云雨", "肌肤之亲", "发生关系"]
}

pub fn sexual_actions() -> (r: Vec<&'static str>)
    ensures
        r@ == sexual_actions_words(),
{
    vec!["入洞房", "洞房", "圆房", "同床共枕", "云雨", "肌肤之亲", "发生关系"]
}

pub open spec fn tension_cues_words() -> Seq<&'static str> {
    seq!["脸红", "红了脸", "吃醋", "醋意", "约会", "不讨厌", "形影不离", "最喜欢的人", "那份爱"]
}

pub fn tension_cues() -> (r: Vec<&'static str>)
    ensures
        r@ == tension_cues_words(),
{
    vec!["脸红", "红了脸", "吃醋", "醋意", "约会", "不讨厌", "形影不离", "最喜欢的人", "那份爱"]
}

pub open spec fn comfort_actions_words() -> Seq<&'static str> {
    seq!["抱住", "搂住", "搂着", "搂紧", "依偎", "靠在", "靠着", "枕在"]
}

pub fn comfort_actions() -> (r: Vec<&'static str>)
    ensures
        r@ == comfort_actions_words(),
{
    vec!["抱住", "搂住", "搂着", "搂紧", "依偎", "靠在", "靠着", "枕在"]
}

pub open spec fn comfort_context_words() -> Seq<&'static str> {
    seq!["怀里", "胸膛", "胸口", "肩膀", "肩上", "枕头", "床上", "睡着", "入睡", "踏实", "安心", "哭泣", "眼泪", "脸红", "温柔", "约会", "发香", "腰肢"]
}

pub fn comfort_context() -> (r: Vec<&'static str>)
    ensures
        r@ == comfort_context_words(),
{
    vec!["怀里", "胸膛", "胸口", "肩膀", "肩上", "枕头", "床上", "睡着", "入睡", "踏实", "安心", "哭泣", "眼泪", "脸红", "温柔", "约会", "发香", "腰肢"]
}

/// Words that make a relationship sentence a dream, a pretence, a rumour,
/// a hypothesis or a denial.
pub open spec fn trap_cues_words() -> Seq<&'static str> {
    seq!["梦见", "做梦", "梦中", "假扮", "冒充", "假装", "演戏", "玩笑", "开玩笑", "误会", "谣言", "传闻", "如果", "假如", "差点", "险些", "并没有", "并不是", "并未", "从未", "不曾", "不可能", "不喜欢", "并不喜欢", "不爱", "没有喜欢", "拒绝"]
}

pub fn trap_cues() -> (r: Vec<&'static str>)
    ensures
        r@ == trap_cues_words(),
{
    vec!["梦见", "做梦", "梦中", "假扮", "冒充", "假装", "演戏", "玩笑", "开玩笑", "误会", "谣言", "传闻", "如果", "假如", "差点", "险些", "并没有", "并不是", "并未", "从未", "不曾", "不可能", "不喜欢", "并不喜欢", "不爱", "没有喜欢", "拒绝"]
}

/// Direct statements that the lead keeps several relationships at once.
pub open spec fn group_cues_words() -> Seq<&'static str> {
    seq!["平等的爱", "都已经在一起", "全都在一起", "都是他的女朋友", "都是她的女朋友", "都是他的妻子", "都是她的妻子", "同时交往", "共同嫁给", "一起嫁给", "后宫之主"]
}

pub fn group_cues() -> (r: Vec<&'static str>)
    ensures
        r@ == group_cues_words(),
{
    vec!["平等的爱", "都已经在一起", "全都在一起", "都是他的女朋友", "都是她的女朋友", "都是他的妻子", "都是她的妻子", "同时交往", "共同嫁给", "一起嫁给", "后宫之主"]
}

pub open spec fn non_romance_labels_words() -> Seq<&'static str> {
    seq!["师徒", "亲子", "兄弟姐妹", "同门", "朋友", "上下级", "敌对"]
}

pub fn non_romance_labels() -> (r: Vec<&'static str>)
    ensures
        r@ == non_romance_labels_words(),
{
    vec!["师徒", "亲子", "兄弟姐妹", "同门", "朋友", "上下级", "敌对"]
}

pub open spec fn speech_cues_words() -> Seq<&'static str> {
    seq!["张口就问", "笑着说", "轻声说", "低声说", "说道", "问道", "答道", "回道", "回答", "反问", "接道", "续道", "笑道", "轻声道", "低声道", "说", "问", "答", "喊", "叫"]
}

pub fn speech_cues() -> (r: Vec<&'static str>)
    ensures
        r@ == speech_cues_words(),
{
    vec!["张口就问", "笑着说", "轻声说", "低声说", "说道", "问道", "答道", "回道", "回答", "反问", "接道", "续道", "笑道", "轻声道", "低声道", "说", "问", "答", "喊", "叫"]
}

pub open spec fn hard_traps_words() -> Seq<&'static str> {
    seq!["梦见", "做梦", "梦中", "假扮", "冒充", "假装", "演戏", "玩笑", "开玩笑", "误会", "谣言", "传闻", "如果", "假如", "要是", "差点", "险些"]
}

pub fn hard_traps() -> (r: Vec<&'static str>)
    ensures
        r@ == hard_traps_words(),
{
    vec!["梦见", "做梦", "梦中", "假扮", "冒充", "假装", "演戏", "玩笑", "开玩笑", "误会", "谣言", "传闻", "如果", "假如", "要是", "差点", "险些"]
}

pub open spec fn proposal_cues_words() -> Seq<&'static str> {
    seq!["愿意", "要不要", "能不能", "可不可以", "想不想"]
}

pub fn proposal_cues() -> (r: Vec<&'static str>)
    ensures
        r@ == proposal_cues_words(),
{
    vec!["愿意", "要不要", "能不能", "可不可以", "想不想"]
}

pub open spec fn non_assertion_cues_words() -> Seq<&'static str> {
    seq!["是不是", "是否", "怎么会", "难道", "问她", "问他", "让你", "让我", "要让", "想让", "希望", "为了", "直接说", "应该说", "台词"]
}

pub fn non_assertion_cues() -> (r: Vec<&'static str>)
    ensures
        r@ == non_assertion_cues_words(),
{
    vec!["是不是", "是否", "怎么会", "难道", "问她", "问他", "让你", "让我", "要让", "想让", "希望", "为了", "直接说", "应该说", "台词"]
}

pub open spec fn negation_cues_words() -> Seq<&'static str> {
    seq!["并没有", "并未", "从未", "不曾", "不会", "不可能", "没有", "没", "不"]
}

pub fn negation_cues() -> (r: Vec<&'static str>)
    ensures
        r@ == negation_cues_words(),
{
    vec!["并没有", "并未", "从未", "不曾", "不会", "不可能", "没有", "没", "不"]
}

pub open spec fn dating_aspect_cues_words() -> Seq<&'static str> {
    seq!["为什么还要", "为什么还", "明明还在", "明明在", "已经", "正在", "一直", "还在", "仍然"]
}

pub fn dating_aspect_cues() -> (r: Vec<&'static str>)
    ensures
        r@ == dating_aspect_cues_words(),
{
    vec!["为什么还要", "为什么还", "明明还在", "明明在", "已经", "正在", "一直", "还在", "仍然"]
}

/// The text with every whitespace character removed.
pub open spec fn compact_spec(t: Seq<char>) -> Seq<char>
    decreases t.len(),
{
    if t.len() == 0 {
        Seq::empty()
    } else if ws(t.last()) {
        compact_spec(t.drop_last())
    } else {
        compact_spec(t.drop_last()).push(t.last())
    }
}

pub fn compact(t: &[char]) -> (r: Vec<char>)
    ensures
        r@ == compact_spec(t@),
{
    let mut out: Vec<char> = Vec::new();
    let mut i: usize = 0;
    while i < t.len()
        invariant
            i <= t@.len(),
            out@ == compact_spec(t@.take(i as int)),
        decreases t.len() - i,
    {
        assert(t@.take(i + 1).drop_last() =~= t@.take(i as int));
        if !is_ws(t[i]) {
            out.push(t[i]);
        }
        i += 1;
    }
    assert(t@.take(t@.len() as int) =~= t@);
    out
}

/// The first `limit` characters, with an ellipsis when something was cut.
pub open spec fn clip_spec(t: Seq<char>, limit: int) -> Seq<char> {
    if t.len() > limit {
        t.take(limit).push('…')
    } else {
        t
    }
}

pub fn clip(t: &[char], limit: usize) -> (r: Vec<char>)
    ensures
        r@ == clip_spec(t@, limit as int),
{
    let n = if t.len() > limit { limit } else { t.len() };
    let mut out: Vec<char> = Vec::new();
    let mut i: usize = 0;
    while i < n
        invariant
            n <= t@.len(),
            i <= n,
            out@ == t@.take(i as int),
        decreases n - i,
    {
        out.push(t[i]);
        i += 1;
        assert(out@ =~= t@.take(i as int));
    }
    if t.len() > limit {
        out.push('…');
    } else {
        assert(t@.take(n as int) =~= t@);
    }
    out
}

/// The first `count` characters of `t` from `from` on.
pub fn head(t: &[char], from: usize, count: usize) -> (r: Vec<char>)
    requires
        from <= t@.len(),
    ensures
        r@ == t@.subrange(from as int, if t@.len() - from > count { from + count } else { t@.len() as int }),
{
    let end = if t.len() - from > count { from + count } else { t.len() };
    crate::text::slice_vec(t, from, end)
}

/// The last `count` characters of `t[..upto]`.
pub fn tail(t: &[char], upto: usize, count: usize) -> (r: Vec<char>)
    requires
        upto <= t@.len(),
    ensures
        r@ == t@.subrange(if upto > count { upto - count } else { 0 }, upto as int),
{
    let start = if upto > count { upto - count } else { 0 };
    crate::text::slice_vec(t, start, upto)
}

pub fn has_any(t: &[char], words: &Vec<&'static str>) -> (r: bool)
    ensures
        r == occurs_any(t@, words@),
{
    contains_any(t, words.as_slice())
}

pub fn has_str(t: &[char], w: &str) -> (r: bool)
    ensures
        r == crate::text::occurs(t@, w@),
{
    let v = to_chars(w);
    contains(t, v.as_slice())
}

} // verus!
