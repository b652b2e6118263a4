use novel_core::cast::Person;
use novel_core::romance::{analyze, RelationshipReport};

fn person(name: &str) -> Person {
    Person {
        name: name.into(),
        aliases: Vec::new(),
        mentions: 100,
        chapters: 10,
        first_chapter: 0,
        uncertain: false,
        evidence: Vec::new(),
    }
}

fn run(text: &str, names: &[&str], focus: &str) -> RelationshipReport {
    let people: Vec<Person> = names.iter().map(|name| person(name)).collect();
    analyze(&[(0, text)], &people, &[], 1, focus)
}

#[test]
fn two_explicit_relations_are_harem() {
    let report = run(
        "顾昭迎娶沈青，大婚当夜结为夫妻。十年后顾昭与叶红结为道侣。",
        &["顾昭", "沈青", "叶红"],
        "中等",
    );
    assert_eq!(report.label, "后宫");
}

#[test]
fn side_character_marriage_does_not_pollute_protagonist() {
    let report = run(
        "谢安和柳青参加赵山的婚礼，赵山迎娶钱月。谢安祝福新人。",
        &["谢安", "柳青", "赵山", "钱月"],
        "中等",
    );
    assert_eq!(report.label, "无法判断");
}

#[test]
fn dream_and_fake_wife_do_not_confirm() {
    let report = run(
        "秦野梦见自己和方雪成亲，醒来才知是幻境。方雪假扮秦野的妻子。",
        &["秦野", "方雪"],
        "中等",
    );
    assert_eq!(report.label, "无法判断");
}

#[test]
fn single_explicit_chain_is_single_heroine() {
    let report = run(
        "苏晚是林川的妻子，两人已经结婚多年。",
        &["林川", "苏晚"],
        "中等",
    );
    assert_eq!(report.label, "单女主");
}

#[test]
fn low_focus_without_pair_evidence_is_reported_cautiously() {
    let report = run(
        "陆明每日练剑。周叔的妻子陈娘来送饭。",
        &["陆明", "周叔", "陈娘"],
        "较少",
    );
    assert_eq!(report.label, "未发现明确感情线");
}

#[test]
fn direct_group_statement_is_harem() {
    let report = run(
        "在三人之间，渡边彻最喜欢九条美姬，但麻衣学姐也好，小泉老师也好，既然已经在一起，他会付出平等的爱。",
        &["渡边彻", "九条美姬", "麻衣学姐", "小泉老师"],
        "很多",
    );
    assert_eq!(report.label, "后宫");
    assert!(!report.group_evidence.is_empty());
}

#[test]
fn repeated_emotional_closeness_can_recover_an_implicit_romance() {
    let people = vec![person("高阳"), person("青翎")];
    let report = analyze(
        &[
            (0, "高阳从身后抱住青翎纤细的腰肢，能闻到她头发的清香。"),
            (8, "青翎直扑过去抱住高阳，脸埋进他的胸膛哭泣。"),
        ],
        &people,
        &[],
        9,
        "中等",
    );
    assert_eq!(report.label, "单女主");
    assert_eq!(report.people[0].status, "持续暧昧关系");
}

#[test]
fn one_embrace_or_a_fake_couple_scene_does_not_decide_the_book() {
    let people = vec![person("高阳"), person("青翎")];
    let report = analyze(
        &[
            (0, "青翎在害怕时抱住高阳，脸埋进他的胸膛哭泣。"),
            (1, "青翎抱住高阳的手臂，假装成正在早恋的学生。"),
        ],
        &people,
        &[],
        2,
        "中等",
    );
    assert_eq!(report.label, "无法判断");
}

#[test]
fn directly_named_alternate_personality_is_one_relationship_object() {
    let people = vec![person("高阳"), person("青灵"), person("青翎")];
    let report = analyze(
        &[
            (0, "高阳反应过来，青翎是青灵的副人格。"),
            (1, "高阳抱住青灵，能闻到她的发香。"),
            (2, "青翎抱住高阳，脸埋进他的胸膛哭泣。"),
        ],
        &people,
        &[],
        3,
        "中等",
    );
    assert_eq!(report.people.len(), 1);
    assert_eq!(report.people[0].name, "青灵 / 青翎");
}

#[test]
fn attributed_dialogue_pronouns_recover_an_existing_relationship() {
    let people = vec![person("封不觉"), person("若雨")];
    let report = analyze(
        &[
            (0, "若雨看向封不觉，问他是否早已知道。"),
            (
                0,
                "“你知道我没有爱上你、也不会爱上你，为什么还要跟我谈恋爱？”若雨张口就问。",
            ),
            (0, "“我喜欢上你的时候，并不知道这件事。”封不觉平静地回道。"),
        ],
        &people,
        &[],
        1,
        "较少",
    );
    assert_eq!(report.label, "单女主");
    assert_eq!(report.people[0].name, "若雨");
    assert!(report.people[0].confirmed);
    assert!(report.people[0]
        .evidence
        .iter()
        .any(|evidence| evidence.kind == "明确关系"));
}

#[test]
fn dialogue_hypotheses_questions_and_negation_are_not_relationship_facts() {
    let people = vec![person("林川"), person("苏晚")];
    let report = analyze(
        &[
            (0, "林川看向苏晚，没有说话。"),
            (0, "“如果跟你谈恋爱，我会很累。”苏晚说道。"),
            (0, "“你愿意跟我谈恋爱吗？”苏晚问道。"),
            (0, "“我并不喜欢你。”苏晚说道。"),
            (0, "“你喜欢我？”苏晚问道。"),
            (0, "“我要让你爱上我。”苏晚说道。"),
        ],
        &people,
        &[],
        1,
        "中等",
    );
    assert_eq!(report.label, "无法判断");
    assert!(report.people.is_empty());
}

#[test]
fn dialogue_reports_about_third_people_and_plural_objects_are_rejected() {
    let people = vec![person("林川"), person("苏晚")];
    let report = analyze(
        &[
            (0, "林川看向苏晚，等她解释。"),
            (0, "“我想她不是喜欢猫，是喜欢你。”苏晚认真地说道。"),
            (0, "“我也喜欢你们俩。”苏晚继续说道。"),
        ],
        &people,
        &[],
        1,
        "中等",
    );
    assert_eq!(report.label, "无法判断");
    assert!(report.people.is_empty());
}

#[test]
fn nearby_side_character_dialogue_does_not_bind_the_protagonist() {
    let people = vec![
        person("林川"),
        person("苏晚"),
        person("赵山"),
        person("钱月"),
    ];
    let report = analyze(
        &[
            (0, "林川和苏晚坐在旁边。"),
            (0, "“我一直喜欢你。”赵山说道。"),
            (0, "“我也喜欢你。”钱月回答。"),
        ],
        &people,
        &[],
        1,
        "中等",
    );
    assert_eq!(report.label, "无法判断");
    assert!(report.people.is_empty());
}

#[test]
fn no_people_cannot_be_judged() {
    let report = analyze(&[(0, "林川和苏晚结为夫妻。")], &[], &[], 3, "中等");
    assert_eq!(report.label, "无法判断");
    assert_eq!(report.reason, "没有识别到可用的主角人物");
    assert_eq!(report.confidence, 0);
    assert_eq!(report.analyzed_chapters, 3);
    assert_eq!(report.candidate_count, 0);
    assert!(report.protagonist.is_empty());
}

#[test]
fn role_names_are_not_counted_as_candidates() {
    let report = run("林川看向苏晚。", &["林川", "苏晚", "王老师", "苏母亲"], "中等");
    assert_eq!(report.protagonist, "林川");
    assert_eq!(report.candidate_count, 1);
}

#[test]
fn rare_mentions_are_not_candidates() {
    let mut thin = person("苏晚");
    thin.mentions = 10;
    thin.chapters = 10;
    let people = vec![person("林川"), thin];
    let report = analyze(&[(0, "苏晚是林川的妻子。")], &people, &[], 1, "中等");
    assert_eq!(report.candidate_count, 0);
    assert!(report.people.is_empty());
}
