//! What kind of book is this? Answered by counting words, not by asking a
//! model.
//!
//! The words are chosen to *discriminate*, not to describe: 修炼 appears in
//! every 玄幻 and every 仙侠 alike and is worthless here; 金丹 and 渡劫 are worth
//! everything. A genre's score is its hits per million characters, so a long
//! book cannot out-vote a short one on sheer volume; every comparison below is
//! that rate, compared exactly in integers.
use vstd::prelude::*;
use crate::text::{count_from, count_matches, to_chars};

verus! {

/// The thirteen categories the Chinese web-novel world uses, each with the
/// words that give it away.
pub open spec fn lexicon() -> Seq<(&'static str, Seq<&'static str>)> {
    seq![
        ("玄幻", seq!["斗气", "武魂", "魂力", "源气", "神魂", "帝境", "圣境", "真元", "法则之力", "大帝", "本源"]),
        ("奇幻", seq!["魔法", "法师", "骑士", "精灵", "矮人", "教廷", "德鲁伊", "魔王", "龙王", "血统", "屠龙", "炼金术"]),
        ("武侠", seq!["江湖", "内力", "武林", "掌门", "轻功", "剑客", "内功", "镖局", "侠客", "武林盟主"]),
        ("仙侠", seq!["修真", "筑基", "金丹", "元婴", "渡劫", "灵根", "道友", "洞府", "仙人", "法宝", "真人", "仙气", "飞升"]),
        ("都市", seq!["手机", "微信", "公司", "老板", "小区", "地铁", "股票", "警局", "上班", "短信", "电梯", "总裁"]),
        ("现实", seq!["工地", "打工", "下岗", "房贷", "工厂", "村支书", "农民工", "流水线"]),
        ("历史", seq!["皇帝", "朝廷", "奏折", "太子", "丞相", "天子", "圣旨", "县令", "陛下", "将军府"]),
        ("军事", seq!["部队", "连长", "步枪", "战场", "指挥部", "师长", "坦克", "特种兵", "子弹", "营长"]),
        ("游戏", seq!["副本", "玩家", "装备", "公会", "技能栏", "属性面板", "经验值", "NPC", "刷怪", "爆装", "等级提升"]),
        ("体育", seq!["比赛", "教练", "球队", "进球", "联赛", "球场", "赛季", "球迷"]),
        ("科幻", seq!["星舰", "机甲", "星际", "赛博", "义体", "纳米", "人工智能", "基因", "虫族", "飞船", "智能核心", "改造人"]),
        ("悬疑灵异", seq!["尸体", "凶手", "命案", "鬼魂", "阴气", "诡异", "灵异", "凶案", "法医", "冤魂"]),
        ("轻小说", seq!["学园", "社团", "前辈", "学姐", "东京", "漫画", "轻音", "便当", "部长", "女仆", "校门口"]),
    ]
}

fn lexicon_exec() -> (v: Vec<(&'static str, Vec<&'static str>)>)
    ensures
        v@.map_values(|p: (&'static str, Vec<&'static str>)| (p.0, p.1@)) == lexicon(),
{
    let v = vec![
        ("玄幻", vec!["斗气", "武魂", "魂力", "源气", "神魂", "帝境", "圣境", "真元", "法则之力", "大帝", "本源"]),
        ("奇幻", vec!["魔法", "法师", "骑士", "精灵", "矮人", "教廷", "德鲁伊", "魔王", "龙王", "血统", "屠龙", "炼金术"]),
        ("武侠", vec!["江湖", "内力", "武林", "掌门", "轻功", "剑客", "内功", "镖局", "侠客", "武林盟主"]),
        ("仙侠", vec!["修真", "筑基", "金丹", "元婴", "渡劫", "灵根", "道友", "洞府", "仙人", "法宝", "真人", "仙气", "飞升"]),
        ("都市", vec!["手机", "微信", "公司", "老板", "小区", "地铁", "股票", "警局", "上班", "短信", "电梯", "总裁"]),
        ("现实", vec!["工地", "打工", "下岗", "房贷", "工厂", "村支书", "农民工", "流水线"]),
        ("历史", vec!["皇帝", "朝廷", "奏折", "太子", "丞相", "天子", "圣旨", "县令", "陛下", "将军府"]),
        ("军事", vec!["部队", "连长", "步枪", "战场", "指挥部", "师长", "坦克", "特种兵", "子弹", "营长"]),
        ("游戏", vec!["副本", "玩家", "装备", "公会", "技能栏", "属性面板", "经验值", "NPC", "刷怪", "爆装", "等级提升"]),
        ("体育", vec!["比赛", "教练", "球队", "进球", "联赛", "球场", "赛季", "球迷"]),
        ("科幻", vec!["星舰", "机甲", "星际", "赛博", "义体", "纳米", "人工智能", "基因", "虫族", "飞船", "智能核心", "改造人"]),
        ("悬疑灵异", vec!["尸体", "凶手", "命案", "鬼魂", "阴气", "诡异", "灵异", "凶案", "法医", "冤魂"]),
        ("轻小说", vec!["学园", "社团", "前辈", "学姐", "东京", "漫画", "轻音", "便当", "部长", "女仆", "校门口"]),
    ];
    assert(v@.map_values(|p: (&'static str, Vec<&'static str>)| (p.0, p.1@)) =~= lexicon());
    v
}

proof fn lemma_lexicon_shape()
    ensures
        lexicon().len() == 13,
        forall|g: int| 0 <= g < 13 ==> (#[trigger] lexicon()[g]).1.len() <= 13,
{
    let l = lexicon();
    assert(l[0].1.len() == 11);
    assert(l[1].1.len() == 12);
    assert(l[2].1.len() == 10);
    assert(l[3].1.len() == 13);
    assert(l[4].1.len() == 12);
    assert(l[5].1.len() == 8);
    assert(l[6].1.len() == 10);
    assert(l[7].1.len() == 10);
    assert(l[8].1.len() == 11);
    assert(l[9].1.len() == 8);
    assert(l[10].1.len() == 12);
    assert(l[11].1.len() == 10);
    assert(l[12].1.len() == 11);
}

/// Hits of every word in `words` together.
pub open spec fn hits_of(t: Seq<char>, words: Seq<&str>) -> nat
    decreases words.len(),
{
    if words.len() == 0 {
        0
    } else {
        hits_of(t, words.drop_last()) + count_from(t, words.last()@, 0)
    }
}

/// Every genre's hits, in lexicon order.
pub open spec fn genre_hits(t: Seq<char>) -> Seq<nat> {
    lexicon().map_values(|g: (&'static str, Seq<&'static str>)| hits_of(t, g.1))
}

/// Characters the rates are taken over (never zero).
pub open spec fn char_base(t: Seq<char>) -> nat {
    if t.len() == 0 {
        1
    } else {
        t.len()
    }
}

/// Among the first `n` genres other than `excl`, the first with the most hits
/// (the order a stable sort by rate, best first, puts them in), or -1.
pub open spec fn best_upto(hs: Seq<nat>, excl: int, n: int) -> int
    decreases n,
{
    if n <= 0 {
        -1
    } else {
        let b = best_upto(hs, excl, n - 1);
        if n - 1 == excl {
            b
        } else if b < 0 || hs[n - 1] > hs[b] {
            n - 1
        } else {
            b
        }
    }
}

/// At least 30 hits per million characters: below that the "winner" is noise.
pub open spec fn above_floor(h: nat, chars: nat) -> bool {
    h * 100000 >= 3 * chars
}

/// One tag, or two when the book really is two things, or none when the text
/// does not say: the best genre if its rate reaches the floor, then the
/// runner-up if it also reaches the floor and at least half the winner's rate.
pub open spec fn tags_spec(t: Seq<char>) -> Seq<&'static str> {
    let hs = genre_hits(t);
    let c = char_base(t);
    let i1 = best_upto(hs, -1, 13);
    let i2 = best_upto(hs, i1, 13);
    let top = hs[i1];
    if !above_floor(top, c) {
        Seq::empty()
    } else if above_floor(hs[i2], c) && 2 * hs[i2] >= top {
        seq![lexicon()[i1].0, lexicon()[i2].0]
    } else {
        seq![lexicon()[i1].0]
    }
}

proof fn lemma_best_in_range(hs: Seq<nat>, excl: int, n: int)
    requires
        0 <= n <= hs.len(),
    ensures
        -1 <= best_upto(hs, excl, n) < n,
        best_upto(hs, excl, n) != excl || excl == -1 && best_upto(hs, excl, n) == -1,
        n >= 2 && 0 <= excl < n ==> best_upto(hs, excl, n) >= 0,
        n >= 1 && excl < 0 ==> best_upto(hs, excl, n) >= 0,
    decreases n,
{
    if n > 0 {
        lemma_best_in_range(hs, excl, n - 1);
    }
}

/// Hits of one genre's words.
fn hits(v: &Vec<char>, words: &Vec<&'static str>) -> (h: u128)
    requires
        words@.len() <= 13,
    ensures
        h == hits_of(v@, words@),
        h <= 13 * v@.len(),
{
    let vl = v.len();
    let mut h: u128 = 0;
    let mut j: usize = 0;
    while j < words.len()
        invariant
            j <= words@.len(),
            words@.len() <= 13,
            vl == v@.len(),
            h == hits_of(v@, words@.take(j as int)),
            h <= j * v@.len(),
        decreases words.len() - j,
    {
        assert(words@.take(j + 1).drop_last() =~= words@.take(j as int));
        let w = to_chars(words[j]);
        let n = if w.len() > 0 {
            count_matches(v.as_slice(), w.as_slice())
        } else {
            0
        };
        proof {
            lemma_count_bound(v@, w@, 0);
            assert(h + n <= (j + 1) * v@.len()) by (nonlinear_arith)
                requires
                    h <= j * v@.len(),
                    n <= v@.len(),
            ;
            assert((j + 1) * v@.len() <= 13 * v@.len()) by (nonlinear_arith)
                requires
                    j + 1 <= 13,
            ;
            assert(v@.len() <= 0xffff_ffff_ffff_ffff);
        }
        h = h + n as u128;
        j += 1;
    }
    assert(words@.take(words@.len() as int) =~= words@);
    assert(h <= 13 * v@.len()) by (nonlinear_arith)
        requires
            h <= j * v@.len(),
            j <= 13,
    ;
    h
}

proof fn lemma_count_bound(s: Seq<char>, w: Seq<char>, i: int)
    requires
        0 <= i,
    ensures
        count_from(s, w, i) <= if i <= s.len() { s.len() - i } else { 0 },
    decreases s.len() - i,
{
    if i >= 0 && w.len() > 0 && i + w.len() <= s.len() {
        if crate::text::sub_at(s, w, i) {
            lemma_count_bound(s, w, i + w.len());
        } else {
            lemma_count_bound(s, w, i + 1);
        }
    }
}

/// One tag, or two when the book really is two things, or none when the text
/// does not say. Never more: a book that is "everything" is a book the reader
/// learns nothing about.
pub fn tags(text: &str) -> (r: Vec<&'static str>)
    ensures
        r@ == tags_spec(text@),
{
    let v = to_chars(text);
    let lex = lexicon_exec();
    let ghost lv = lex@.map_values(|p: (&'static str, Vec<&'static str>)| (p.0, p.1@));
    assert(lv.len() == 13);
    let mut hs: Vec<u128> = Vec::new();
    let mut g: usize = 0;
    while g < lex.len()
        invariant
            lv == lex@.map_values(|p: (&'static str, Vec<&'static str>)| (p.0, p.1@)),
            lv == lexicon(),
            g <= lex@.len(),
            hs@.len() == g,
            forall|k: int| 0 <= k < g ==> hs@[k] == genre_hits(v@)[k],
            forall|k: int| 0 <= k < g ==> hs@[k] <= 13 * v@.len(),
        decreases lex.len() - g,
    {
        assert(lv[g as int].1 == lex@[g as int].1@);
        proof {
            lemma_lexicon_shape();
        }
        let h = hits(&v, &lex[g].1);
        hs.push(h);
        g += 1;
    }
    let ghost gh = genre_hits(v@);
    assert(hs@.map_values(|h: u128| h as nat) =~= gh);
    let c: u128 = if v.len() == 0 {
        1
    } else {
        v.len() as u128
    };
    // The winner, then the runner-up.
    let mut i1: usize = 0;
    let mut k: usize = 1;
    assert(best_upto(gh, -1, 0) == -1);
    assert(best_upto(gh, -1, 1) == 0);
    while k < 13
        invariant
            hs@.len() == 13,
            forall|q: int| 0 <= q < 13 ==> hs@[q] == gh[q],
            1 <= k <= 13,
            i1 as int == best_upto(gh, -1, k as int),
            i1 < k,
        decreases 13 - k,
    {
        if hs[k] > hs[i1] {
            i1 = k;
        }
        k += 1;
    }
    let mut i2: usize = if i1 == 0 {
        1
    } else {
        0
    };
    assert(best_upto(gh, i1 as int, (i2 + 1) as int) == i2) by {
        assert(best_upto(gh, i1 as int, 0) == -1);
        if i1 == 0 {
            assert(best_upto(gh, i1 as int, 1) == -1);
        }
    }
    let mut k2: usize = i2 + 1;
    while k2 < 13
        invariant
            hs@.len() == 13,
            forall|q: int| 0 <= q < 13 ==> hs@[q] == gh[q],
            i1 < 13,
            1 <= k2 <= 13,
            i2 as int == best_upto(gh, i1 as int, k2 as int),
            i2 < k2,
            i2 != i1,
        decreases 13 - k2,
    {
        if k2 != i1 && hs[k2] > hs[i2] {
            i2 = k2;
        }
        k2 += 1;
    }
    let top = hs[i1];
    let mut out: Vec<&'static str> = Vec::new();
    if top * 100000 < 3 * c {
        return out;
    }
    out.push(lex[i1].0);
    assert(lv[i1 as int].0 == lex@[i1 as int].0);
    let h2 = hs[i2];
    if h2 * 100000 >= 3 * c && 2 * h2 >= top {
        out.push(lex[i2].0);
        assert(lv[i2 as int].0 == lex@[i2 as int].0);
    }
    assert(out@ =~= tags_spec(v@));
    out
}

} // verus!
