use novel_core::book::{build, line_kind, LineKind, FRONT_MATTER};
use novel_core::fingerprint::{fingerprint, ParagraphStyle};

/// A big book with no chapter markers comes back sliced into parts that tile
/// the whole text.
#[test]
fn markerless_book_gets_virtual_chapters() {
    let para = "他走在长街上，雨落了下来，人群散去，灯一盏一盏地熄灭了。\n";
    let text = para.repeat(2000);
    let fp = fingerprint("UTF-8", &text);
    let b = build(&text, &fp);
    assert!(b.chapters.len() > 3, "expected multiple parts, got {}", b.chapters.len());
    assert_eq!(b.chapters[0].title, "第 1 部分");
    let mut cursor = 0;
    for c in &b.chapters {
        assert_eq!(c.span.start, cursor, "parts must tile the text");
        cursor = c.span.end;
    }
    assert_eq!(cursor, text.len());
    assert!(!b.anomalies.is_empty());
}

/// A small file with no markers stays a single 开篇 chapter.
#[test]
fn small_markerless_file_stays_whole() {
    let text = "一个很短的故事。\n就这样结束了。\n";
    let fp = fingerprint("UTF-8", &text);
    let b = build(&text, &fp);
    assert_eq!(b.chapters.len(), 1);
    assert_eq!(b.chapters[0].title, FRONT_MATTER);
}

/// A book with real titles never falls into the virtual path.
#[test]
fn real_titles_win_over_virtual_slicing() {
    let mut text = String::new();
    for i in 1..=30 {
        text.push_str(&format!("第{i}章 标题\n"));
        text.push_str(&"　　正文段落，写了一些字。\n".repeat(100));
    }
    let fp = fingerprint("UTF-8", &text);
    let b = build(&text, &fp);
    assert_eq!(b.chapters.len(), 30);
    assert!(b.chapters.iter().all(|c| !c.title.contains("部分")));
}

#[test]
fn front_matter_and_notes_are_kept_apart_from_chapters() {
    let mut text = String::from("书名\n");
    for i in 1..=5 {
        text.push_str(&format!("第{i}章 标题\n"));
        text.push_str(&"　　正文段落，写了一些字。\n".repeat(3));
        text.push_str("请假一天\n");
    }
    let fp = fingerprint("UTF-8", &text);
    let b = build(&text, &fp);
    assert_eq!(b.chapters.len(), 6);
    assert_eq!(b.chapters[0].title, FRONT_MATTER);
    assert_eq!(b.chapters[0].span.start, 0);
    assert_eq!(b.chapters[1].title, "第1章 标题");
    assert_eq!(b.chapters[1].number, Some(1));
    assert_eq!(b.chapters[1].span.start, "书名\n".len());
    assert_eq!(b.chapters[1].body_start, "书名\n第1章 标题".len());
    assert_eq!(b.chapters[5].span.end, text.len());
    let notes: Vec<&str> = b.interstitials.iter().map(|i| i.text.as_str()).collect();
    assert_eq!(notes, vec!["书名", "请假一天", "请假一天", "请假一天", "请假一天", "请假一天"]);
}

/// Fewer than five 第N章 titles are not proof of a chapter sequence: a short
/// file stays one 开篇 chapter.
#[test]
fn three_ordinal_titles_do_not_make_a_table_of_contents() {
    let mut text = String::from("书名\n");
    for i in 1..=3 {
        text.push_str(&format!("第{i}章 标题\n"));
        text.push_str(&"　　正文段落，写了一些字。\n".repeat(3));
    }
    let fp = fingerprint("UTF-8", &text);
    let b = build(&text, &fp);
    assert_eq!(b.chapters.len(), 1);
    assert_eq!(b.chapters[0].title, FRONT_MATTER);
}

#[test]
fn volumes_open_the_chapter_after_them() {
    let mut text = String::new();
    for v in 1..=2 {
        text.push_str(&format!("第{v}卷 风起\n"));
        for c in 1..=3 {
            let n = (v - 1) * 3 + c;
            text.push_str(&format!("第{n}章 标题\n\u{3000}\u{3000}正文。\n"));
        }
    }
    let fp = fingerprint("UTF-8", &text);
    let b = build(&text, &fp);
    assert_eq!(b.volumes.len(), 2);
    assert_eq!(b.volumes[0].title, "第1卷 风起");
    assert_eq!(b.volumes[0].first_chapter, 1);
    assert_eq!(b.volumes[1].first_chapter, 4);
}

#[test]
fn line_kinds_follow_the_indent_signal() {
    assert_eq!(line_kind("第1章", true, ParagraphStyle::Indent), LineKind::ChapterTitle);
    assert_eq!(line_kind("请假一天", false, ParagraphStyle::Indent), LineKind::Interstitial);
    assert_eq!(line_kind("　　正文。", false, ParagraphStyle::Indent), LineKind::Body);
    assert_eq!(line_kind("   ", false, ParagraphStyle::Indent), LineKind::Body);
    assert_eq!(line_kind("请假一天", false, ParagraphStyle::BlankLine), LineKind::Body);
}

#[test]
fn a_session_without_movement_is_not_written() {
    assert!(novel_core::store::session_counts(10, 20, 0, 5));
    assert!(!novel_core::store::session_counts(10, 10, 0, 5));
    assert!(!novel_core::store::session_counts(20, 10, 0, 5));
    assert!(!novel_core::store::session_counts(10, 20, 5, 5));
}
