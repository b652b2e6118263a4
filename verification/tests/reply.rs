use novel_core::reply::{after_think, person_verdict, tail_pick};

#[test]
fn the_answer_is_what_follows_the_thinking() {
    let raw = "<think>想一想。\n人物？</think>\n  他们是 同门师兄妹。\n\n";
    assert_eq!(after_think(raw, 60), "他们是 同门师兄妹");
    assert_eq!(after_think("“好。”", 60), "好");
    assert_eq!(after_think("一二三四五", 3), "一二三…");
    assert_eq!(after_think("a</think>b</think> c ", 10), "c");
}

#[test]
fn the_last_vocabulary_word_wins() {
    let vocab = vec!["人物", "词语"];
    assert_eq!(tail_pick("<think>也许是词语，不，人物</think>答：词语", &vocab), Some("词语"));
    assert_eq!(tail_pick("<think>词语</think>人物。", &vocab), Some("人物"));
    assert_eq!(tail_pick("我不知道", &vocab), None);
    assert_eq!(tail_pick("<think>人物</think>", &vocab), None);
}

#[test]
fn three_votes_decide_and_a_tie_keeps_the_name() {
    let r = |v: &[&str]| person_verdict(&v.iter().map(|s| s.to_string()).collect());
    assert_eq!(r(&["人物", "词语", "人物"]), Ok(true));
    assert_eq!(r(&["词语", "词语", "人物"]), Ok(false));
    assert_eq!(r(&["人物", "词语", "?"]), Ok(true));
    assert_eq!(r(&["?", "?", "?"]), Err("模型没有给出可用判断".to_string()));
}
