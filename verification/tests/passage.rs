use novel_core::book::{Chapter, Span};
use novel_core::passage::{chapter_excerpt, search_text};

fn chapter(index: usize, title: &str, start: usize, end: usize) -> Chapter {
    Chapter { index, number: None, title: title.to_string(), span: Span { start, end }, body_start: start }
}

#[test]
fn a_long_chapter_is_read_by_its_opening_and_its_close() {
    let text = "  一二三四五六七八九十  ";
    let out = chapter_excerpt(text, 0, text.len(), 3, 2);
    assert_eq!(out, "一二三\n……\n九十");
    let out = chapter_excerpt(text, 0, text.len(), 5, 5);
    assert_eq!(out, "一二三四五六七八九十");
}

#[test]
fn search_stops_where_the_reader_stopped() {
    let c1 = "第一章\n林远拔剑。\n";
    let c2 = "第二章\n林远收剑。\n";
    let text = format!("{c1}{c2}");
    let chapters = vec![chapter(0, "第一章", 0, c1.len()), chapter(1, "第二章", c1.len(), text.len())];
    let hits = search_text(&text, &chapters, " 林远 ", 0, 10);
    assert_eq!(hits.len(), 1);
    assert_eq!(hits[0].chapter, 0);
    assert_eq!(hits[0].title, "第一章");
    assert_eq!(hits[0].start, "第一章\n".len());
    assert_eq!(hits[0].text, "林远拔剑。");

    let hits = search_text(&text, &chapters, "林远", 5, 10);
    assert_eq!(hits.len(), 2);
    assert_eq!(hits[1].chapter, 1);
    assert_eq!(hits[1].title, "第二章");

    let hits = search_text(&text, &chapters, "林远", 5, 1);
    assert_eq!(hits.len(), 1);
    assert!(search_text(&text, &chapters, "  ", 5, 1).is_empty());
    assert!(search_text(&text, &[], "林远", 5, 1).is_empty());
}

#[test]
fn a_limit_of_zero_returns_every_hit() {
    let text = "甲乙甲乙甲";
    let chapters = vec![chapter(0, "一", 0, text.len())];
    assert_eq!(search_text(text, &chapters, "甲", 0, 0).len(), 3);
}
