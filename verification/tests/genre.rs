use novel_core::genre::tags;

#[test]
fn a_clear_book_gets_one_tag() {
    let text = "他盘膝而坐，金丹已成，只待渡劫飞升。洞府外道友来访，取出法宝相赠。".repeat(20);
    assert_eq!(tags(&text), vec!["仙侠"]);
}

/// Two genres, genuinely: a school story whose pupils hunt dragons.
#[test]
fn a_book_that_is_two_things_keeps_both() {
    let text = "他掏出手机，坐地铁去公司见老板。".repeat(20) + &"魔法与骑士的血统，屠龙者走进教廷。".repeat(20);
    let t = tags(&text);
    assert_eq!(t.len(), 2);
    assert!(t.contains(&"都市") && t.contains(&"奇幻"), "{t:?}");
}

/// Silence is an answer: no tag rather than the least-bad guess.
#[test]
fn text_that_says_nothing_gets_no_tag() {
    let text = "今天天气不错，他出门散步，看见一只猫。".repeat(50);
    assert!(tags(&text).is_empty());
}

#[test]
fn the_runner_up_needs_half_the_winners_rate() {
    // 4 hits of 仙侠 against 1 of 都市: the runner-up is too weak to tag.
    let text = "金丹渡劫飞升法宝手机".to_string();
    assert_eq!(tags(&text), vec!["仙侠"]);
    // 2 against 1 is exactly half, and stays.
    let text = "金丹渡劫手机".to_string();
    assert_eq!(tags(&text), vec!["仙侠", "都市"]);
}

#[test]
fn ties_go_to_the_earlier_genre() {
    assert_eq!(tags("魔法斗气"), vec!["玄幻", "奇幻"]);
}

#[test]
fn an_empty_text_gets_no_tag() {
    assert!(tags("").is_empty());
}
