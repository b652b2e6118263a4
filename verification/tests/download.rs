use novel_core::download::{assemble_txt, fetch_step, FetchAction, FetchEvent, FetchState};

#[test]
fn a_downloaded_book_keeps_its_holes() {
    let chapters = vec![
        ("第一章 开始 ".to_string(), Some("  第一行 \n\n第二行\r\n".to_string())),
        ("第二章".to_string(), None),
    ];
    let txt = assemble_txt(" 某书 ", " 某人 ", &chapters);
    assert_eq!(
        txt,
        "某书\n作者：某人\n\n第一章 开始\n\n\u{3000}\u{3000}第一行\n\u{3000}\u{3000}第二行\n\n第二章\n\n\u{3000}\u{3000}（本章抓取失败）\n\n"
    );
}

#[test]
fn a_blank_title_writes_no_header() {
    let txt = assemble_txt("  ", "某人", &vec![("一".to_string(), Some("正文".to_string()))]);
    assert_eq!(txt, "一\n\n\u{3000}\u{3000}正文\n\n");
}

#[test]
fn throttling_backs_off_until_the_fifth_attempt() {
    let mut s = FetchState { attempt: 0, slowed: false };
    for n in 1..=5u32 {
        let (next, act) = fetch_step(s, FetchEvent::Failed { throttled: true });
        assert!(act == FetchAction::Wait { factor: n, again: n < 5 });
        s = next;
    }
    assert!(s.slowed);
}

#[test]
fn a_page_after_slowing_does_not_ease_the_pacer() {
    let s = FetchState { attempt: 2, slowed: true };
    assert!(fetch_step(s, FetchEvent::Body { blank: false }).1 == FetchAction::Keep { ease: false });
    let s = FetchState { attempt: 0, slowed: false };
    assert!(fetch_step(s, FetchEvent::Body { blank: false }).1 == FetchAction::Keep { ease: true });
    let s = FetchState { attempt: 0, slowed: false };
    assert!(fetch_step(s, FetchEvent::Body { blank: true }).1 == FetchAction::Give);
    let s = FetchState { attempt: 0, slowed: false };
    assert!(fetch_step(s, FetchEvent::Failed { throttled: false }).1 == FetchAction::Give);
    let s = FetchState { attempt: 0, slowed: false };
    assert!(fetch_step(s, FetchEvent::Cancelled).1 == FetchAction::Stop);
}
