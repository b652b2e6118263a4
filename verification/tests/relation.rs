use novel_core::relation::{from_hints, word_label, LABELS, UNKNOWN};

fn h(pairs: &[(&str, u32)]) -> Vec<(String, u32)> {
    pairs.iter().map(|(w, c)| (w.to_string(), *c)).collect()
}

#[test]
fn a_clear_appellation_decides() {
    assert_eq!(from_hints(&h(&[("师父", 3)])), Some("师徒"));
    assert_eq!(from_hints(&h(&[("老婆", 2)])), Some("夫妻恋人"));
    assert_eq!(from_hints(&h(&[("仇人", 2)])), Some("敌对"));
    assert_eq!(from_hints(&h(&[("师兄", 4)])), Some("同门"));
}

#[test]
fn a_single_appellation_is_too_thin_to_fire() {
    assert_eq!(from_hints(&h(&[("老婆", 1)])), None);
    assert_eq!(from_hints(&h(&[("同学", 1), ("朋友", 1)])), Some("朋友"));
}

#[test]
fn leaky_single_char_kin_never_votes() {
    assert_eq!(from_hints(&h(&[("妈", 1), ("娘", 1)])), None);
    assert_eq!(from_hints(&h(&[("父亲", 2)])), Some("亲子"));
}

#[test]
fn noise_is_outvoted_not_obeyed() {
    assert_eq!(
        from_hints(&h(&[("哥哥", 5), ("妹妹", 3), ("娘", 1)])),
        Some("兄弟姐妹")
    );
}

#[test]
fn a_real_tie_is_left_to_the_model() {
    assert_eq!(from_hints(&h(&[("爹", 2), ("队长", 2)])), None);
}

#[test]
fn ambiguous_words_never_vote() {
    assert_eq!(from_hints(&h(&[("兄弟", 3)])), None);
    assert_eq!(from_hints(&h(&[("大人", 4)])), None);
    assert_eq!(from_hints(&[]), None);
}

#[test]
fn an_absolute_title_does_not_settle_a_relationship() {
    assert_eq!(
        from_hints(&h(&[("殿下", 10), ("女友", 2), ("朋友", 1)])),
        Some("夫妻恋人")
    );
    assert_eq!(from_hints(&h(&[("属下", 3)])), Some("上下级"));
}

#[test]
fn every_rule_label_is_in_the_closed_set() {
    for w in ["师父", "爹", "哥哥", "老婆", "师兄", "朋友", "队长", "仇人"] {
        let l = word_label(w).unwrap();
        assert!(LABELS.contains(&l), "{w} → {l} not in LABELS");
    }
    assert!(!LABELS.contains(&UNKNOWN));
}

#[test]
fn a_majority_must_be_strict() {
    // 3 of 5 decisive votes is a majority; 3 of 6 is not.
    assert_eq!(from_hints(&h(&[("师父", 3), ("朋友", 2)])), Some("师徒"));
    assert_eq!(from_hints(&h(&[("师父", 3), ("朋友", 3)])), None);
    // Undecisive words do not dilute the majority.
    assert_eq!(from_hints(&h(&[("师父", 2), ("大人", 50)])), Some("师徒"));
}

#[test]
fn words_outside_the_table_have_no_label() {
    assert_eq!(word_label("殿下"), None);
    assert_eq!(word_label("娘"), None);
    assert_eq!(word_label("恩师"), Some("师徒"));
}
