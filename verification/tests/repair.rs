use novel_core::repair::{continues, join};

#[test]
fn full_width_line_without_terminator_continues() {
    // A line cut mid-sentence at exactly the wrap width.
    let l = "他望着远处的山峦，心中忽然涌起一股说不出的情绪，仿佛那些年少时的梦";
    assert!(continues(l, l.chars().count()));
}

#[test]
fn short_line_is_a_paragraph_end() {
    assert!(!continues("想又回来了", 35));
}

#[test]
fn full_width_line_with_terminator_ends() {
    let l = "他望着远处的山峦，心中忽然涌起一股说不出的情绪，仿佛那些梦回来了。";
    assert!(!continues(l, l.chars().count()));
}

#[test]
fn off_by_one_width_still_continues() {
    // Mixed ASCII makes wrapped lines land one short of the mode width.
    let l = "他打开了那台老旧的IBM电脑，屏幕上闪过一行行绿色的字符，那是他第一";
    assert!(continues(l, l.chars().count() + 1));
}

#[test]
fn join_inserts_space_only_between_ascii_words() {
    let mut p = String::from("梦");
    join(&mut p, "想");
    assert_eq!(p, "梦想");
    let mut p = String::from("the old IBM");
    join(&mut p, "machine");
    assert_eq!(p, "the old IBM machine");
}

#[test]
fn trailing_spaces_do_not_count_toward_the_width() {
    assert!(!continues("一二三四五      ", 10));
    assert!(continues("一二三四五六七八九      ", 10));
    // A width of zero or one is always reached.
    assert!(continues("", 0));
    assert!(continues("", 1));
    assert!(!continues("好。", 0));
}

#[test]
fn join_of_an_empty_paragraph_is_the_continuation() {
    let mut p = String::new();
    join(&mut p, "abc");
    assert_eq!(p, "abc");
    let mut p = String::from("abc");
    join(&mut p, "");
    assert_eq!(p, "abc");
}
