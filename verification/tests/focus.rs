use novel_core::book::build;
use novel_core::fingerprint::fingerprint;
use novel_core::focus::{
    analyze, career_event, growth_event, level_for, romance_event, FocusLevel, SignalCount,
};

#[test]
fn explicit_events_are_found_without_keyword_traps() {
    assert!(career_event("他组建团队并推进调查任务。"));
    assert!(romance_event("她终于向他表白，两人牵手离开。"));
    assert!(growth_event("闭关之后，他的修为提升并突破瓶颈。"));

    assert!(!career_event("他们只是路过公司楼下。"));
    assert!(!romance_event("她喜欢吃夫妻肺片。"));
    assert!(!growth_event("他突破房门冲了出去。"));
}

#[test]
fn high_levels_require_repetition_and_spread() {
    assert_eq!(
        level_for(&SignalCount { events: 1, active_chapters: 1 }, 100),
        FocusLevel::VeryLittle
    );
    assert_eq!(
        level_for(&SignalCount { events: 50, active_chapters: 40 }, 100),
        FocusLevel::VeryMuch
    );
}

#[test]
fn every_level_has_its_band() {
    // intensity = sqrt(e/c * a/c) with c = 100
    let at = |e: usize, a: usize| level_for(&SignalCount { events: e, active_chapters: a }, 100);
    assert_eq!(at(0, 0), FocusLevel::VeryLittle);
    assert_eq!(at(5, 5), FocusLevel::Little); // 0.05
    assert_eq!(at(10, 10), FocusLevel::Medium); // 0.10
    assert_eq!(at(20, 20), FocusLevel::Much); // 0.20
    assert_eq!(at(30, 30), FocusLevel::VeryMuch); // 0.30 is not below 0.30
    assert_eq!(level_for(&SignalCount { events: 5, active_chapters: 5 }, 0), FocusLevel::VeryLittle);
}

#[test]
fn levels_read_in_chinese() {
    assert_eq!(FocusLevel::VeryLittle.zh(), "很少");
    assert_eq!(FocusLevel::Little.zh(), "较少");
    assert_eq!(FocusLevel::Medium.zh(), "中等");
    assert_eq!(FocusLevel::Much.zh(), "较多");
    assert_eq!(FocusLevel::VeryMuch.zh(), "很多");
}

#[test]
fn a_romance_in_every_chapter_reads_as_very_much() {
    let mut text = String::new();
    for i in 1..=5 {
        text.push_str(&format!("第{i}章 标题\n"));
        text.push_str("　　她终于向他表白，两人牵手离开。\n");
    }
    let fp = fingerprint("UTF-8", &text);
    let b = build(&text, &fp);
    let f = analyze(&text, &b.chapters);
    assert_eq!(f.romance, FocusLevel::VeryMuch);
    assert_eq!(f.career, FocusLevel::VeryLittle);
    assert_eq!(f.growth, FocusLevel::VeryLittle);
}
