//! The word lists the cast scan reads names and bonds with, and the
//! character classes its statistics are built on.
use vstd::prelude::*;
use crate::text::{has_char, in_set, occurs, occurs_any, prefix, starts_with, suffix, ends_with, to_chars};

verus! {

/// Common surnames: used only to decide whether a longer candidate is shaped
/// like a full name, never to find names.
pub const SURNAMES: &'static str = "李王张刘陈杨赵黄周吴徐孙胡朱高林何郭马罗梁宋郑谢韩唐冯于董萧程曹袁邓许傅沈曾彭吕苏卢蒋蔡贾丁魏薛叶阎余潘杜戴夏钟汪田任姜范方石姚谭廖邹熊金陆郝孔白崔康毛邱秦江史顾侯邵孟龙万段雷钱汤尹黎易常武乔贺赖龚文洪庄严牛温季莫翟安路姬秋楚燕冷宁凌霍虞柳祁纪管卫花柯房夜风云顾墨聂沐齐";

/// Characters that occur inside running prose constantly and inside names
/// essentially never.
pub const NEVER_IN_A_NAME: &'static str = "我你他她它您咱谁的了着过吧吗呢啊呀哦嘛么和与或及被把将向对从却便就才刚这那哪每某各都也又还再很更最只太是有在来去到会能要让没别一二两三四五六七八九十百千万几人声里中时候什怎为因所虽当随";

/// Verbs that attribute speech.
pub open spec fn speech(c: char) -> bool {
    c == '说' || c == '道' || c == '问' || c == '喊' || c == '叫' || c == '骂' || c == '答' || c == '叹'
        || c == '喝' || c == '吼' || c == '嚷'
}

pub fn is_speech(c: char) -> (r: bool)
    ensures
        r == speech(c),
{
    c == '说' || c == '道' || c == '问' || c == '喊' || c == '叫' || c == '骂' || c == '答' || c == '叹'
        || c == '喝' || c == '吼' || c == '嚷'
}

/// Words whose object is a person: 和X、对X、找X、陪X.
pub open spec fn object_cue(c: char) -> bool {
    c == '和' || c == '与' || c == '跟' || c == '对' || c == '给' || c == '被' || c == '让' || c == '向'
        || c == '替' || c == '找' || c == '问' || c == '同' || c == '陪'
}

pub fn is_object_cue(c: char) -> (r: bool)
    ensures
        r == object_cue(c),
{
    c == '和' || c == '与' || c == '跟' || c == '对' || c == '给' || c == '被' || c == '让' || c == '向'
        || c == '替' || c == '找' || c == '问' || c == '同' || c == '陪'
}

/// 知道、听说、请问、天道…: compounds where the verb character is not speech.
pub open spec fn false_friend_spec(pre: char, verb: char) -> bool {
    if verb == '道' {
        "知难街味力报频赛轨管大天正邪古王霸"@.contains(pre)
    } else if verb == '说' {
        "听据传小述诉胡瞎乱虽"@.contains(pre)
    } else if verb == '问' {
        "请询疑学访慰顾"@.contains(pre)
    } else if verb == '叫' {
        "惨尖嚎"@.contains(pre)
    } else {
        false
    }
}

pub fn false_friend(pre: char, verb: char) -> (r: bool)
    ensures
        r == false_friend_spec(pre, verb),
{
    if verb == '道' {
        in_set("知难街味力报频赛轨管大天正邪古王霸", pre)
    } else if verb == '说' {
        in_set("听据传小述诉胡瞎乱虽", pre)
    } else if verb == '问' {
        in_set("请询疑学访慰顾", pre)
    } else if verb == '叫' {
        in_set("惨尖嚎", pre)
    } else {
        false
    }
}

/// What may follow the verb for it to read as attribution: 吕树道： yes,
/// 吕树道破 no.
pub open spec fn after_ok_spec(c: Option<char>) -> bool {
    match c {
        None => true,
        Some(c) => "：:，。！？；…、\"“”「」『』‘’'—\n）)"@.contains(c),
    }
}

pub fn after_ok(c: Option<char>) -> (r: bool)
    ensures
        r == after_ok_spec(c),
{
    match c {
        None => true,
        Some(c) => in_set("：:，。！？；…、\"“”「」『』‘’'—\n）)", c),
    }
}

pub open spec fn cjk(c: char) -> bool {
    ('\u{4E00}' <= c <= '\u{9FFF}') || ('\u{3400}' <= c <= '\u{4DBF}')
}

pub fn is_cjk(c: char) -> (r: bool)
    ensures
        r == cjk(c),
{
    ('\u{4E00}' <= c && c <= '\u{9FFF}') || ('\u{3400}' <= c && c <= '\u{4DBF}')
}

/// `w` is one of `words`.
pub open spec fn listed(w: Seq<char>, words: Seq<&str>) -> bool {
    exists|k: int| 0 <= k < words.len() && #[trigger] words[k]@ == w
}

fn same_chars(a: &[char], b: &[char]) -> (r: bool)
    ensures
        r == (a@ == b@),
{
    if a.len() != b.len() {
        return false;
    }
    let mut i: usize = 0;
    while i < a.len()
        invariant
            a@.len() == b@.len(),
            i <= a@.len(),
            forall|k: int| 0 <= k < i ==> a@[k] == b@[k],
        decreases a.len() - i,
    {
        if a[i] != b[i] {
            assert(a@[i as int] != b@[i as int]);
            return false;
        }
        i += 1;
    }
    assert(a@ =~= b@);
    true
}

/// Whether `w` is one of `words`.
pub fn is_listed(w: &[char], words: &Vec<&'static str>) -> (r: bool)
    ensures
        r == listed(w@, words@),
{
    let mut k: usize = 0;
    while k < words.len()
        invariant
            k <= words@.len(),
            forall|j: int| 0 <= j < k ==> words@[j]@ != w@,
        decreases words.len() - k,
    {
        let x = to_chars(words[k]);
        if same_chars(x.as_slice(), w) {
            return true;
        }
        k += 1;
    }
    false
}

/// Some word of `words` opens `w`.
pub open spec fn opens_with_any(w: Seq<char>, words: Seq<&str>) -> bool {
    exists|k: int| 0 <= k < words.len() && prefix(w, #[trigger] words[k]@)
}

pub fn opens_with_any_exec(w: &[char], words: &Vec<&'static str>) -> (r: bool)
    ensures
        r == opens_with_any(w@, words@),
{
    let mut k: usize = 0;
    while k < words.len()
        invariant
            k <= words@.len(),
            forall|j: int| 0 <= j < k ==> !prefix(w@, #[trigger] words@[j]@),
        decreases words.len() - k,
    {
        if starts_with(w, to_chars(words[k]).as_slice()) {
            return true;
        }
        k += 1;
    }
    false
}

/// Some word of `words` closes `w`.
pub open spec fn closes_with_any(w: Seq<char>, words: Seq<&str>) -> bool {
    exists|k: int| 0 <= k < words.len() && suffix(w, #[trigger] words[k]@)
}

pub fn closes_with_any_exec(w: &[char], words: &Vec<&'static str>) -> (r: bool)
    ensures
        r == closes_with_any(w@, words@),
{
    let mut k: usize = 0;
    while k < words.len()
        invariant
            k <= words@.len(),
            forall|j: int| 0 <= j < k ==> !suffix(w@, #[trigger] words@[j]@),
        decreases words.len() - k,
    {
        if ends_with(w, to_chars(words[k]).as_slice()) {
            return true;
        }
        k += 1;
    }
    false
}

/// 苏如雪 is shaped like a full name; 请继续 is not.
pub open spec fn full_name_shaped_spec(name: Seq<char>) -> bool {
    if name.len() == 3 {
        SURNAMES@.contains(name[0])
    } else if name.len() == 4 {
        opens_with_any(name, compound_surnames())
    } else {
        false
    }
}

pub fn full_name_shaped(name: &[char]) -> (r: bool)
    ensures
        r == full_name_shaped_spec(name@),
{
    if name.len() == 3 {
        in_set(SURNAMES, name[0])
    } else if name.len() == 4 {
        opens_with_any_exec(name, &compound_surnames_exec())
    } else {
        false
    }
}

pub open spec fn family_roles() -> Seq<&'static str> {
    seq!["太太", "母亲", "父亲", "妈妈", "爸爸", "同学", "老师", "小姐", "先生"]
}

/// A translated Japanese name that starts with a numeral (九条美姬), of three
/// to six characters and not a role word.
pub open spec fn allowed_numeric_name_spec(name: Seq<char>) -> bool {
    3 <= name.len() <= 6 && !closes_with_any(name, family_roles()) && opens_with_any(
        name,
        numeric_prefixes(),
    )
}

pub fn allowed_numeric_name(name: &[char]) -> (r: bool)
    ensures
        r == allowed_numeric_name_spec(name@),
{
    let roles: Vec<&'static str> = vec!["太太", "母亲", "父亲", "妈妈", "爸爸", "同学", "老师", "小姐", "先生"];
    assert(roles@ =~= family_roles());
    3 <= name.len() && name.len() <= 6 && !closes_with_any_exec(name, &roles) && opens_with_any_exec(
        name,
        &numeric_prefixes_exec(),
    )
}

/// Some character of `s` is one a name never holds.
pub open spec fn has_never_char(s: Seq<char>) -> bool {
    exists|i: int| 0 <= i < s.len() && NEVER_IN_A_NAME@.contains(#[trigger] s[i])
}

pub fn has_never_char_exec(s: &[char]) -> (r: bool)
    ensures
        r == has_never_char(s@),
{
    let mut i: usize = 0;
    while i < s.len()
        invariant
            i <= s@.len(),
            forall|j: int| 0 <= j < i ==> !NEVER_IN_A_NAME@.contains(#[trigger] s@[j]),
        decreases s.len() - i,
    {
        if in_set(NEVER_IN_A_NAME, s[i]) {
            return true;
        }
        i += 1;
    }
    false
}

/// Two-character surnames.
pub open spec fn compound_surnames() -> Seq<&'static str> {
    seq!["慕容", "欧阳", "上官", "司马", "诸葛", "东方", "西门", "独孤", "南宫", "夏侯", "皇甫", "尉迟", "令狐", "长孙", "宇文", "轩辕", "百里", "呼延", "端木", "司徒", "司空", "公孙", "北堂", "东郭", "申屠"]
}

pub fn compound_surnames_exec() -> (v: Vec<&'static str>)
    ensures
        v@ == compound_surnames(),
{
    let v = vec!["慕容", "欧阳", "上官", "司马", "诸葛", "东方", "西门", "独孤", "南宫", "夏侯", "皇甫", "尉迟", "令狐", "长孙", "宇文", "轩辕", "百里", "呼延", "端木", "司徒", "司空", "公孙", "北堂", "东郭", "申屠"];
    assert(v@ =~= compound_surnames());
    v
}

/// Honorifics that attach to a surname to name a person indirectly (齐先生, 苏姑娘).
pub open spec fn titles() -> Seq<&'static str> {
    seq!["先生", "公子", "姑娘", "老爷", "少爷", "大人", "前辈", "夫人", "娘子", "道长", "真人", "大师", "掌柜", "师傅", "老板", "老祖", "宗主", "掌门"]
}

pub fn titles_exec() -> (v: Vec<&'static str>)
    ensures
        v@ == titles(),
{
    let v = vec!["先生", "公子", "姑娘", "老爷", "少爷", "大人", "前辈", "夫人", "娘子", "道长", "真人", "大师", "掌柜", "师傅", "老板", "老祖", "宗主", "掌门"];
    assert(v@ =~= titles());
    v
}

/// Translated Japanese surname forms that begin with a numeral.
pub open spec fn numeric_prefixes() -> Seq<&'static str> {
    seq!["一之濑", "一条", "一色", "二宫", "二阶堂", "三浦", "三上", "三宅", "四宫", "四月一日", "五十岚", "五月", "六道", "七海", "七濑", "八神", "八坂", "九条", "九十九", "十六夜"]
}

pub fn numeric_prefixes_exec() -> (v: Vec<&'static str>)
    ensures
        v@ == numeric_prefixes(),
{
    let v = vec!["一之濑", "一条", "一色", "二宫", "二阶堂", "三浦", "三上", "三宅", "四宫", "四月一日", "五十岚", "五月", "六道", "七海", "七濑", "八神", "八坂", "九条", "九十九", "十六夜"];
    assert(v@ =~= numeric_prefixes());
    v
}

/// Words that pass every statistical test and are still not people: generic person-nouns, narrative formulas, closed-class words, gesture verbs and role words.
pub open spec fn not_a_name() -> Seq<&'static str> {
    seq!["老者", "青年", "少年", "少女", "姑娘", "丫头", "小子", "家伙", "老头", "老太", "老头子", "老太太", "老爷子", "汉子", "女侠", "大侠", "对方", "自己", "大家", "孩子", "男人", "女人", "妇人", "老人", "男子", "女子", "小孩", "男孩", "女孩", "突然", "忽然", "果然", "居然", "竟然", "依然", "仍然", "显然", "既然", "自然", "当然", "猛然", "蓦然", "赫然", "悄然", "淡然", "漠然", "茫然", "愕然", "如果", "如今", "如此", "淡淡", "缓缓", "慢慢", "匆匆", "悄悄", "默默", "徐徐", "连连", "喃喃", "哈哈", "嘿嘿", "嘻嘻", "呵呵", "急忙", "连忙", "赶忙", "顿时", "随即", "然后", "然而", "不过", "旋即", "开口", "闻言", "点头", "摇头", "转头", "皱眉", "咬牙", "冷笑", "微笑", "大笑", "苦笑", "狂笑", "轻笑", "淡笑", "一笑", "点点头", "摇摇头", "笑眯眯", "此刻", "刚才", "今天", "明天", "昨天", "东西", "地方", "事情", "样子", "感觉", "目光", "眼神", "脸色", "表情", "语气", "身影", "身体", "脑海", "心头", "心底", "可以", "应该", "必须", "至少", "放心", "确认", "直接", "简单", "好好", "已经", "立刻", "立即", "马上", "赶紧", "终于", "总算", "几乎", "大概", "也许", "或许", "可能", "恐怕", "似乎", "好像", "仿佛", "明明", "分明", "反正", "干脆", "索性", "毕竟", "难怪", "究竟", "到底", "无法", "明白", "清楚", "需要", "觉得", "认为", "希望", "打算", "准备", "决定", "开始", "结束", "发现", "想起", "记得", "忘记", "高兴", "生气", "愤怒", "激动", "紧张", "害怕", "恐惧", "惊讶", "吃惊", "震惊", "无奈", "尴尬", "犹豫", "沉默", "安静", "冷静", "平静", "认真", "仔细", "小心", "注意", "拜托", "谢谢", "多谢", "抱歉", "奇怪", "正常", "特别", "非常", "相当", "稍微", "顺便", "成功", "失败", "努力", "加油", "坚持", "其实", "确实", "总之", "另外", "后来", "从此", "慌忙", "急切", "焦急", "无语", "疑惑", "好奇", "郑重", "严肃", "温柔", "得意", "满意", "失望", "绝望", "兴奋", "咆哮", "牙疼", "等等", "尽管", "无论", "除非", "即便", "假如", "起码", "甚至", "何况", "反而", "老实", "眨眼", "转眼", "轻轻", "依旧", "曾经", "双方", "左右", "可惜", "伸手", "比如", "回头", "后者", "前者", "先前", "以后", "以前", "后来者", "抬头", "低头", "转身", "起身", "上前", "开头", "半晌", "良久", "片刻", "这时", "那时", "一旁", "身后", "身前", "眼下", "自言自语", "不由自主", "师父", "师尊", "师傅", "师兄", "师姐", "师妹", "师弟", "弟子", "徒弟", "哥哥", "姐姐", "妹妹", "弟弟", "爸爸", "妈妈", "爷爷", "奶奶", "叔叔", "舅舅", "老爸", "老妈", "夫人", "公子", "小姐", "大人", "陛下", "殿下", "将军", "队长", "老板", "老师", "医生", "大夫", "护士", "警官", "前辈", "晚辈", "皇上", "皇帝", "太子", "公主", "属下", "卑职", "微臣", "老夫", "老子", "本座", "本王", "贫道", "本官", "本宫"]
}

pub fn not_a_name_exec() -> (v: Vec<&'static str>)
    ensures
        v@ == not_a_name(),
{
    let v = vec!["老者", "青年", "少年", "少女", "姑娘", "丫头", "小子", "家伙", "老头", "老太", "老头子", "老太太", "老爷子", "汉子", "女侠", "大侠", "对方", "自己", "大家", "孩子", "男人", "女人", "妇人", "老人", "男子", "女子", "小孩", "男孩", "女孩", "突然", "忽然", "果然", "居然", "竟然", "依然", "仍然", "显然", "既然", "自然", "当然", "猛然", "蓦然", "赫然", "悄然", "淡然", "漠然", "茫然", "愕然", "如果", "如今", "如此", "淡淡", "缓缓", "慢慢", "匆匆", "悄悄", "默默", "徐徐", "连连", "喃喃", "哈哈", "嘿嘿", "嘻嘻", "呵呵", "急忙", "连忙", "赶忙", "顿时", "随即", "然后", "然而", "不过", "旋即", "开口", "闻言", "点头", "摇头", "转头", "皱眉", "咬牙", "冷笑", "微笑", "大笑", "苦笑", "狂笑", "轻笑", "淡笑", "一笑", "点点头", "摇摇头", "笑眯眯", "此刻", "刚才", "今天", "明天", "昨天", "东西", "地方", "事情", "样子", "感觉", "目光", "眼神", "脸色", "表情", "语气", "身影", "身体", "脑海", "心头", "心底", "可以", "应该", "必须", "至少", "放心", "确认", "直接", "简单", "好好", "已经", "立刻", "立即", "马上", "赶紧", "终于", "总算", "几乎", "大概", "也许", "或许", "可能", "恐怕", "似乎", "好像", "仿佛", "明明", "分明", "反正", "干脆", "索性", "毕竟", "难怪", "究竟", "到底", "无法", "明白", "清楚", "需要", "觉得", "认为", "希望", "打算", "准备", "决定", "开始", "结束", "发现", "想起", "记得", "忘记", "高兴", "生气", "愤怒", "激动", "紧张", "害怕", "恐惧", "惊讶", "吃惊", "震惊", "无奈", "尴尬", "犹豫", "沉默", "安静", "冷静", "平静", "认真", "仔细", "小心", "注意", "拜托", "谢谢", "多谢", "抱歉", "奇怪", "正常", "特别", "非常", "相当", "稍微", "顺便", "成功", "失败", "努力", "加油", "坚持", "其实", "确实", "总之", "另外", "后来", "从此", "慌忙", "急切", "焦急", "无语", "疑惑", "好奇", "郑重", "严肃", "温柔", "得意", "满意", "失望", "绝望", "兴奋", "咆哮", "牙疼", "等等", "尽管", "无论", "除非", "即便", "假如", "起码", "甚至", "何况", "反而", "老实", "眨眼", "转眼", "轻轻", "依旧", "曾经", "双方", "左右", "可惜", "伸手", "比如", "回头", "后者", "前者", "先前", "以后", "以前", "后来者", "抬头", "低头", "转身", "起身", "上前", "开头", "半晌", "良久", "片刻", "这时", "那时", "一旁", "身后", "身前", "眼下", "自言自语", "不由自主", "师父", "师尊", "师傅", "师兄", "师姐", "师妹", "师弟", "弟子", "徒弟", "哥哥", "姐姐", "妹妹", "弟弟", "爸爸", "妈妈", "爷爷", "奶奶", "叔叔", "舅舅", "老爸", "老妈", "夫人", "公子", "小姐", "大人", "陛下", "殿下", "将军", "队长", "老板", "老师", "医生", "大夫", "护士", "警官", "前辈", "晚辈", "皇上", "皇帝", "太子", "公主", "属下", "卑职", "微臣", "老夫", "老子", "本座", "本王", "贫道", "本官", "本宫"];
    assert(v@ =~= not_a_name());
    v
}

/// Appellations worth carrying as relationship hints.
pub open spec fn appellations() -> Seq<&'static str> {
    seq!["师父", "师尊", "师傅", "恩师", "徒弟", "徒儿", "弟子", "爹", "父亲", "母亲", "爸", "儿子", "女儿", "闺女", "爷爷", "奶奶", "外公", "外婆", "叔叔", "舅舅", "姑姑", "哥哥", "大哥", "二哥", "兄长", "老哥", "弟弟", "老弟", "姐姐", "妹妹", "兄弟", "姐妹", "堂兄", "表哥", "表妹", "夫人", "娘子", "相公", "丈夫", "妻子", "媳妇", "老婆", "老公", "夫君", "未婚妻", "未婚夫", "男朋友", "女朋友", "男友", "女友", "恋人", "师兄", "师弟", "师姐", "师妹", "师叔", "师伯", "同门", "同窗", "同学", "同事", "战友", "队友", "搭档", "朋友", "好友", "知己", "陛下", "殿下", "王爷", "主公", "主人", "大人", "属下", "部下", "卑职", "微臣", "少爷", "小姐", "老爷", "公子", "前辈", "晚辈", "长老", "掌门", "宗主", "队长", "组长", "老板", "上司", "老大", "仇人", "仇家", "死敌", "对手", "敌人"]
}

pub fn appellations_exec() -> (v: Vec<&'static str>)
    ensures
        v@ == appellations(),
{
    let v = vec!["师父", "师尊", "师傅", "恩师", "徒弟", "徒儿", "弟子", "爹", "父亲", "母亲", "爸", "儿子", "女儿", "闺女", "爷爷", "奶奶", "外公", "外婆", "叔叔", "舅舅", "姑姑", "哥哥", "大哥", "二哥", "兄长", "老哥", "弟弟", "老弟", "姐姐", "妹妹", "兄弟", "姐妹", "堂兄", "表哥", "表妹", "夫人", "娘子", "相公", "丈夫", "妻子", "媳妇", "老婆", "老公", "夫君", "未婚妻", "未婚夫", "男朋友", "女朋友", "男友", "女友", "恋人", "师兄", "师弟", "师姐", "师妹", "师叔", "师伯", "同门", "同窗", "同学", "同事", "战友", "队友", "搭档", "朋友", "好友", "知己", "陛下", "殿下", "王爷", "主公", "主人", "大人", "属下", "部下", "卑职", "微臣", "少爷", "小姐", "老爷", "公子", "前辈", "晚辈", "长老", "掌门", "宗主", "队长", "组长", "老板", "上司", "老大", "仇人", "仇家", "死敌", "对手", "敌人"];
    assert(v@ =~= appellations());
    v
}

/// Words that mark a sentence as saying something about a bond; they only rank evidence, never label it.
pub open spec fn relation_cues() -> Seq<&'static str> {
    seq!["道侣", "媳妇", "夫妻", "夫君", "娘子", "相公", "恋人", "情郎", "心上人", "意中人", "未婚妻", "未婚夫", "成亲", "成婚", "完婚", "定情", "白头", "私奔", "倾心", "情意", "拥抱", "抱住", "搂住", "亲吻", "接吻", "牵手", "携手", "并肩", "脸红", "吃醋", "情郎", "师父", "师傅", "师尊", "恩师", "弟子", "徒弟", "徒儿", "亲传", "收徒", "拜师", "传授", "授业", "教导", "衣钵", "门下", "开山大弟子", "父亲", "母亲", "娘亲", "亲娘", "亲爹", "儿子", "女儿", "闺女", "骨肉", "血脉", "亲生", "认亲", "爷爷", "奶奶", "外公", "外婆", "兄长", "大哥", "姐姐", "哥哥", "弟弟", "妹妹", "结拜", "义兄", "义弟", "手足", "兄妹", "朋友", "好友", "知己", "挚友", "至交", "生死之交", "相依为命", "患难", "过命", "仇人", "死敌", "世仇", "血仇", "报仇", "杀父", "弑", "不共戴天", "你死我活", "宿敌", "仇敌", "深仇", "血海深仇", "背着", "背起", "抱起", "搀扶", "救下", "护住", "舍命", "磕头", "下跪"]
}

pub fn relation_cues_exec() -> (v: Vec<&'static str>)
    ensures
        v@ == relation_cues(),
{
    let v = vec!["道侣", "媳妇", "夫妻", "夫君", "娘子", "相公", "恋人", "情郎", "心上人", "意中人", "未婚妻", "未婚夫", "成亲", "成婚", "完婚", "定情", "白头", "私奔", "倾心", "情意", "拥抱", "抱住", "搂住", "亲吻", "接吻", "牵手", "携手", "并肩", "脸红", "吃醋", "情郎", "师父", "师傅", "师尊", "恩师", "弟子", "徒弟", "徒儿", "亲传", "收徒", "拜师", "传授", "授业", "教导", "衣钵", "门下", "开山大弟子", "父亲", "母亲", "娘亲", "亲娘", "亲爹", "儿子", "女儿", "闺女", "骨肉", "血脉", "亲生", "认亲", "爷爷", "奶奶", "外公", "外婆", "兄长", "大哥", "姐姐", "哥哥", "弟弟", "妹妹", "结拜", "义兄", "义弟", "手足", "兄妹", "朋友", "好友", "知己", "挚友", "至交", "生死之交", "相依为命", "患难", "过命", "仇人", "死敌", "世仇", "血仇", "报仇", "杀父", "弑", "不共戴天", "你死我活", "宿敌", "仇敌", "深仇", "血海深仇", "背着", "背起", "抱起", "搀扶", "救下", "护住", "舍命", "磕头", "下跪"];
    assert(v@ =~= relation_cues());
    v
}

/// Words that mark a sentence as saying who someone is; they only rank evidence.
pub open spec fn background_cues() -> Seq<&'static str> {
    seq!["出身", "身份", "来历", "本名", "名叫", "原名", "外号", "绰号", "人称", "自称", "祖上", "家世", "世家", "家族", "族人", "老家", "故乡", "遗孤", "孤儿", "血脉", "传人", "自幼", "从小", "当年", "早年", "昔日", "从前", "原本", "本是", "原是", "曾是", "曾经", "十年前", "年幼", "小时候", "生前", "长大", "掌门", "宗主", "家主", "族长", "长老", "首座", "堂主", "门主", "城主", "帮主", "少主", "少爷", "小姐", "公子", "将军", "元帅", "皇帝", "太子", "王爷", "国主", "总管", "老板", "队长", "社长", "会长", "班长", "教授", "医生", "警官", "弟子", "亲传", "记名", "散修", "散人", "天赋", "资质", "根骨", "天资", "修为", "境界", "突破", "剑术", "武功", "本事", "手段", "成名", "闻名", "名声", "名气", "威名", "性子", "性格", "脾气", "为人", "生性", "向来", "从不", "最恨", "最爱", "心愿", "志向", "立志", "发誓", "执念", "生得", "相貌", "容貌", "模样", "身形", "个子", "眉眼", "一袭", "身穿", "穿着", "打扮", "年纪", "岁上下", "少年", "少女", "青年", "老者", "妇人", "汉子", "书生", "死了", "战死", "身亡", "重伤", "废了", "拜师", "入门", "叛出", "逐出", "背叛", "失踪", "回来", "醒来", "重生", "穿越"]
}

pub fn background_cues_exec() -> (v: Vec<&'static str>)
    ensures
        v@ == background_cues(),
{
    let v = vec!["出身", "身份", "来历", "本名", "名叫", "原名", "外号", "绰号", "人称", "自称", "祖上", "家世", "世家", "家族", "族人", "老家", "故乡", "遗孤", "孤儿", "血脉", "传人", "自幼", "从小", "当年", "早年", "昔日", "从前", "原本", "本是", "原是", "曾是", "曾经", "十年前", "年幼", "小时候", "生前", "长大", "掌门", "宗主", "家主", "族长", "长老", "首座", "堂主", "门主", "城主", "帮主", "少主", "少爷", "小姐", "公子", "将军", "元帅", "皇帝", "太子", "王爷", "国主", "总管", "老板", "队长", "社长", "会长", "班长", "教授", "医生", "警官", "弟子", "亲传", "记名", "散修", "散人", "天赋", "资质", "根骨", "天资", "修为", "境界", "突破", "剑术", "武功", "本事", "手段", "成名", "闻名", "名声", "名气", "威名", "性子", "性格", "脾气", "为人", "生性", "向来", "从不", "最恨", "最爱", "心愿", "志向", "立志", "发誓", "执念", "生得", "相貌", "容貌", "模样", "身形", "个子", "眉眼", "一袭", "身穿", "穿着", "打扮", "年纪", "岁上下", "少年", "少女", "青年", "老者", "妇人", "汉子", "书生", "死了", "战死", "身亡", "重伤", "废了", "拜师", "入门", "叛出", "逐出", "背叛", "失踪", "回来", "醒来", "重生", "穿越"];
    assert(v@ =~= background_cues());
    v
}

} // verus!
