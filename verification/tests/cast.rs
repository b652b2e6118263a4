use novel_core::cast::bind::bound_hints;
use novel_core::cast::census::Stat;
use novel_core::cast::select::strong_two_char_name;
use novel_core::cast::words::appellations_exec;
use novel_core::cast::{scan, Cast, Edge, Person};
use novel_core::reader::{residual_people, residual_relations, unjudged_names};
use novel_core::book::{Chapter, Span};

fn story() -> String {
    let block = [
        "　　「师妹，前面有妖兽。」林远说道。\n",
        "　　苏如雪答道：「师兄放心，如雪省得。」\n",
        "　　林远道：「小心。」\n",
        "　　「知道了。」苏如雪笑道。\n",
        "　　老者道：「小辈滚出去！」\n",
        "　　林远淡淡道:「前辈息怒。」\n",
        "　　苏如雪看着林远问道：「疼吗？」\n",
        "　　听见这话，苏如雪问道：「当真？」\n",
        "　　如雪道：「嗯。」\n",
        "　　林远把苏如雪拉到身后，说道：「师妹，退后。」\n",
    ]
    .concat();
    block.repeat(4)
}

/// Two chapters built by hand, so the test is about the cast, not about
/// title detection.
fn scan_story() -> Cast {
    let half = story();
    let text = half.repeat(2);
    let chapters: Vec<Chapter> = (0..2)
        .map(|i| Chapter {
            index: i,
            number: None,
            title: format!("第{}章", i + 1),
            span: Span { start: i * half.len(), end: (i + 1) * half.len() },
            body_start: i * half.len(),
        })
        .collect();
    scan(&text, &chapters, 2)
}

#[test]
fn dialogue_names_survive_and_formulas_do_not() {
    let cast = scan_story();
    let names: Vec<&str> = cast.people.iter().map(|p| p.name.as_str()).collect();
    assert!(names.contains(&"林远"), "got {names:?}");
    assert!(names.contains(&"苏如雪"), "got {names:?}");
    for bad in ["老者", "淡淡", "远淡淡", "他", "林远淡淡"] {
        assert!(!names.contains(&bad), "{bad} should not be a person: {names:?}");
    }
}

#[test]
fn a_given_name_folds_into_its_full_name() {
    let cast = scan_story();
    let su = cast.people.iter().find(|p| p.name == "苏如雪").expect("苏如雪");
    assert_eq!(su.aliases, vec!["如雪".to_string()]);
    assert!(!cast.people.iter().any(|p| p.name == "如雪"));
}

#[test]
fn who_stands_with_whom_carries_evidence_and_appellation() {
    let cast = scan_story();
    let lin = cast.people.iter().position(|p| p.name == "林远").unwrap();
    let su = cast.people.iter().position(|p| p.name == "苏如雪").unwrap();
    let e = cast
        .edges
        .iter()
        .find(|e| (e.a == lin && e.b == su) || (e.a == su && e.b == lin))
        .expect("edge 林远-苏如雪");
    assert!(e.weight > 0);
    assert!(e.hints.iter().any(|(w, _)| w == "师妹"), "hints: {:?}", e.hints);
    assert!(!e.evidence.is_empty());
    assert_eq!(e.label.as_deref(), Some("同门"), "hints: {:?}", e.hints);
}

#[test]
fn presence_is_tracked_per_chapter() {
    let cast = scan_story();
    let lin = cast.people.iter().find(|p| p.name == "林远").unwrap();
    assert_eq!(lin.chapters, 2);
    assert_eq!(lin.first_chapter, 0);
}

#[test]
fn a_scan_carries_its_version_and_a_relationship_report() {
    let cast = scan_story();
    assert_eq!(cast.version, novel_core::cast::SCAN_VERSION);
    let rel = cast.relationship.expect("relationship");
    assert_eq!(rel.analyzed_chapters, 2);
    assert_eq!(rel.version, novel_core::romance::RELATIONSHIP_VERSION);
}

fn bind(sent: &str, names: &[&str]) -> Vec<&'static str> {
    bind_n(sent, names, 2)
}

fn bind_n(sent: &str, names: &[&str], crowd: usize) -> Vec<&'static str> {
    let present: Vec<&'static str> =
        appellations_exec().into_iter().filter(|w| sent.contains(w)).collect();
    bound_hints(sent, &present, names, crowd)
}

#[test]
fn frequent_two_character_name_can_survive_a_slightly_weak_island_rate() {
    let real_name = Stat { count: 1000, boundary: 350, boundary_r: 120, object: 80, ..Stat::default() };
    assert!(strong_two_char_name("张雅", &real_name, 1000));

    let prose_fragment = Stat { count: 1000, boundary: 350, boundary_r: 120, object: 5, ..Stat::default() };
    assert!(!strong_two_char_name("张开", &prose_fragment, 1000));
}

#[test]
fn a_possessive_names_a_third_party_not_the_pair() {
    let s = "就还有李槐他爹，更别提还有崔瀺的爷爷";
    assert!(bind(s, &["崔瀺", "李槐"]).is_empty());
}

#[test]
fn a_stranger_in_a_possessive_says_nothing_either() {
    let s = "很小的时候，杨家铺子的杨爷爷就曾经叮嘱过我";
    assert!(bind(s, &["陈平安", "宁姚"]).is_empty());
}

#[test]
fn a_copula_makes_a_possessive_speak_about_the_pair() {
    let s = "郑大风是杨老头的嫡传弟子！";
    assert_eq!(bind(s, &["郑大风", "杨老头"]), vec!["弟子"]);
}

#[test]
fn direct_address_is_the_strongest_position() {
    assert_eq!(bind("“师父，我错了。", &["陈平安", "裴钱"]), vec!["师父"]);
}

#[test]
fn apposition_says_what_one_person_is_not_what_the_two_are() {
    let s = "嫌弃少年没有悟性，远远不如大徒弟刘羡阳";
    assert!(bind(s, &["陈平安", "刘羡阳"]).is_empty());
}

#[test]
fn a_dropped_de_is_still_a_possessive() {
    let s = "陈平安同样一句无心之言，是对宁姚爹娘说的那句";
    assert!(bind(s, &["陈平安", "宁姚"]).is_empty());
}

#[test]
fn address_needs_the_pair_to_be_alone_in_the_sentence() {
    let s = "“师父，我错了。";
    assert_eq!(bind_n(s, &["陈平安", "裴钱"], 2), vec!["师父"]);
    assert!(bind_n(s, &["陈平安", "裴钱"], 3).is_empty());
}

#[test]
fn a_loose_appellation_in_the_prose_is_dropped() {
    let s = "两人在街角分开，稚圭接过水桶去往泥瓶巷，朋友之间总是如此";
    assert!(bind(s, &["稚圭", "刘羡阳"]).is_empty());
}

#[test]
fn a_compound_never_fakes_an_address() {
    for s in ["“姑娘，请留步。", "阮邛莫名其妙骂娘起来"] {
        assert!(!bind(s, &["阮邛", "齐静春"]).iter().any(|w| *w == "娘"));
    }
}

fn small_cast() -> Cast {
    let person = |name: &str, uncertain: bool| Person {
        name: name.to_string(),
        aliases: vec![format!("小{name}")],
        mentions: 10,
        chapters: 2,
        first_chapter: 0,
        uncertain,
        evidence: vec![(0, format!("{name}来了。"))],
    };
    Cast {
        people: vec![person("林远", false), person("伸手", true), person("苏雪", true)],
        edges: vec![
            Edge { a: 0, b: 2, weight: 5, hints: vec![], label: None, evidence: vec![] },
            Edge { a: 1, b: 2, weight: 3, hints: vec![], label: None, evidence: vec![(1, "苏雪伸手。".to_string())] },
        ],
        relationship: None,
        version: novel_core::cast::SCAN_VERSION,
    }
}

#[test]
fn the_model_is_asked_only_about_what_it_has_not_judged() {
    let cast = small_cast();
    let asked = unjudged_names(&cast, &vec![("伸手".to_string(), false)]);
    assert_eq!(asked, vec![("苏雪".to_string(), "苏雪伸手。".to_string())]);
}

#[test]
fn summarized_pairs_and_written_people_are_not_redone() {
    let cast = small_cast();
    let rel = residual_relations(&cast, &vec![("林远".to_string(), "苏雪".to_string(), "同门".to_string())]);
    assert_eq!(rel.len(), 1);
    assert_eq!(rel[0].0, "伸手");
    assert_eq!(rel[0].2, vec![(1, "苏雪伸手。".to_string())]);
    let people = residual_people(&cast, &vec![("林远".to_string(), "主角".to_string())], &vec![("伸手".to_string(), false)]);
    assert_eq!(people.len(), 1);
    assert_eq!(people[0].0, "苏雪");
    assert_eq!(people[0].1, vec!["小苏雪".to_string()]);
}

#[test]
fn chapters_past_the_reader_do_not_shape_the_cast() {
    let half = story();
    let text = format!("{half}{half}");
    let first = Chapter { index: 0, number: None, title: "第1章".to_string(), span: Span { start: 0, end: half.len() }, body_start: 0 };
    let second = Chapter { index: 1, number: None, title: "第2章".to_string(), span: Span { start: half.len(), end: text.len() }, body_start: half.len() };
    let a = scan(&text, &[first.clone(), second], 1);
    let b = scan(&text, &[first], 1);
    let names_a: Vec<&str> = a.people.iter().map(|p| p.name.as_str()).collect();
    let names_b: Vec<&str> = b.people.iter().map(|p| p.name.as_str()).collect();
    assert_eq!(names_a, names_b);
    assert_eq!(a.edges.len(), b.edges.len());
    assert_eq!(a.relationship.unwrap().analyzed_chapters, b.relationship.unwrap().analyzed_chapters);
}

#[test]
fn the_pruned_graph_seats_at_most_ten() {
    let people: Vec<Person> = (0..15u32)
        .map(|i| Person {
            name: format!("人{i}"),
            aliases: vec![],
            mentions: 100 - i,
            chapters: 3,
            first_chapter: (i as usize) * 10,
            uncertain: false,
            evidence: vec![],
        })
        .collect();
    let edges = vec![Edge { a: 0, b: 14, weight: 2, hints: vec![], label: None, evidence: vec![] }];
    let cast = novel_core::cast::prune::prune(people, edges, 100);
    assert_eq!(cast.people.len(), novel_core::cast::TOP_CAST);
    assert_eq!(cast.people[0].name, "人0");
}
