use novel_core::chunk::{cap_per_chapter, chunk_body, TARGET_CHARS};

#[test]
fn chunks_cover_their_bytes() {
    let text = "标题\n第一段。\n第二段。\n\n第三段。\n";
    let body = 4 * 3; // past "标题\n"
    let chunks = chunk_body(text, body + 1, text.len(), 4);
    assert!(!chunks.is_empty());
    for c in &chunks {
        assert_eq!(text[c.start..c.end].trim(), c.text.replace('\n', "\n").trim());
    }
}

#[test]
fn short_paragraphs_merge_until_the_window_fills() {
    let text = "一二三。\n四五六。\n七八九。\n";
    let chunks = chunk_body(text, 0, text.len(), 8);
    assert_eq!(chunks.len(), 2);
    assert_eq!(chunks[0].text, "一二三。\n四五六。");
    assert_eq!(chunks[1].text, "七八九。");
}

#[test]
fn an_overlong_paragraph_is_cut_on_char_boundaries() {
    let text: String = "字".repeat(25);
    let chunks = chunk_body(&text, 0, text.len(), 10);
    assert_eq!(chunks.len(), 3);
    assert_eq!(chunks[0].text.chars().count(), 10);
    assert_eq!(chunks[2].text.chars().count(), 5);
    assert_eq!(chunks[0].start, 0);
    assert_eq!(chunks[2].end, text.len());
    for c in &chunks {
        assert_eq!(&text[c.start..c.end], c.text);
    }
}

#[test]
fn an_indented_overlong_paragraph_keeps_exact_spans() {
    let text = "　　甲乙丙丁戊\n";
    let chunks = chunk_body(text, 0, text.len(), 2);
    let texts: Vec<&str> = chunks.iter().map(|c| c.text.as_str()).collect();
    assert_eq!(texts, vec!["甲乙", "丙丁", "戊"]);
    assert_eq!(chunks[0].start, 6);
    for c in &chunks {
        assert_eq!(&text[c.start..c.end], c.text);
    }
}

#[test]
fn blank_bodies_give_no_chunks() {
    assert!(chunk_body("\n\n  \n", 0, 5, TARGET_CHARS).is_empty());
    assert!(chunk_body("", 0, 0, TARGET_CHARS).is_empty());
}

#[test]
fn a_window_spans_its_paragraphs() {
    let text = "甲。\n乙。\n";
    let chunks = chunk_body(text, 0, text.len(), TARGET_CHARS);
    assert_eq!(chunks.len(), 1);
    assert_eq!(chunks[0].start, 0);
    assert_eq!(chunks[0].end, text.len() - 1);
    assert_eq!(chunks[0].text, "甲。\n乙。");
}

#[test]
fn rank_caps_how_much_of_the_list_one_chapter_can_take() {
    assert_eq!(cap_per_chapter(&[1, 1, 1, 2], 10, 2), vec![0, 1, 3]);
}

#[test]
fn the_list_stops_at_k() {
    assert_eq!(cap_per_chapter(&[1, 2, 3, 4], 2, 5), vec![0, 1]);
    assert_eq!(cap_per_chapter(&[], 2, 5), Vec::<usize>::new());
}
