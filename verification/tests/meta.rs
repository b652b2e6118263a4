use novel_core::meta::{author_from, cover_hue, extract, from_filename};

#[test]
fn cleans_download_site_names() {
    assert_eq!(
        from_filename(r"C:\books\元尊(精校版全本)TXT下载.txt"),
        "元尊"
    );
    assert_eq!(from_filename("/x/玄鉴仙族.txt"), "玄鉴仙族");
    assert_eq!(from_filename("斗破苍穹【完结】_爱下电子书.txt"), "斗破苍穹");
}

#[test]
fn finds_author() {
    assert_eq!(
        author_from("『元尊/作者:天蚕土豆』").as_deref(),
        Some("天蚕土豆")
    );
    assert_eq!(author_from("作者：季越人").as_deref(), Some("季越人"));
    assert_eq!(author_from("正文没有作者字样"), None);
}

#[test]
fn title_from_file_content_when_it_agrees() {
    let m = extract(
        "/x/元尊(全本).txt",
        "元尊\n作者：天蚕土豆\n\u{3000}\u{3000}正文\n",
    );
    assert_eq!(m.title, "元尊");
    assert_eq!(m.author.as_deref(), Some("天蚕土豆"));
}

#[test]
fn a_renamed_file_keeps_its_new_name() {
    // The file states a title the file name does not contain.
    let m = extract("/x/我的书.txt", "元尊\n\u{3000}\u{3000}正文\n");
    assert_eq!(m.title, "我的书");
    assert_eq!(m.author, None);
}

#[test]
fn an_overlong_author_is_no_author() {
    let long = format!("作者：{}", "字".repeat(21));
    assert_eq!(author_from(&long), None);
    let ok = format!("作者：{}", "字".repeat(20));
    assert_eq!(author_from(&ok).map(|a| a.chars().count()), Some(20));
}

#[test]
fn cover_hue_is_the_fnv_hash_modulo_360() {
    assert_eq!(cover_hue("元尊"), 49);
    assert_eq!(cover_hue(""), 61);
    assert_eq!(cover_hue("斗破苍穹"), 356);
    assert!(cover_hue("元尊") < 360);
}

#[test]
fn book_title_marks_survive_and_edges_are_trimmed() {
    assert_eq!(from_filename("《剑来》.txt"), "《剑来》");
    assert_eq!(from_filename("/a/__剑来__.txt"), "剑来");
    // No extension: the whole path is the stem.
    assert_eq!(from_filename("剑来"), "剑来");
}

#[test]
fn an_author_line_in_the_indented_body_is_not_front_matter() {
    let m = extract("/x/a.txt", "\u{3000}\u{3000}作者：张三\n");
    assert_eq!(m.author, None);
    assert_eq!(m.title, "a");
}
