use novel_core::portrait::tally::{reading_tally, split_tags};
use novel_core::store::BookRecord;

const DAY: i64 = 86400;

fn book(id: i64, title: &str, author: Option<&str>, tags: Option<&str>, chapters: i64, last: i64) -> BookRecord {
    BookRecord {
        id,
        path: format!("/{id}.txt"),
        title: title.to_string(),
        author: author.map(str::to_string),
        encoding: "UTF-8".to_string(),
        style: "Indent".to_string(),
        total_bytes: 1000,
        chapter_count: chapters,
        added_at: 0,
        last_opened_at: None,
        last_chapter: last,
        last_offset: 0,
        genre_tags: tags.map(str::to_string),
        pinned_at: None,
    }
}

fn moods(rows: &[(i64, &str)]) -> Vec<(i64, String)> {
    rows.iter().map(|(i, m)| (*i, m.to_string())).collect()
}

#[test]
fn a_reading_history_is_counted() {
    let events = vec![
        (1, 9 * DAY + 23 * 3600, 9 * DAY + 23 * 3600 + 1800),
        (1, 10 * DAY + 9 * 3600, 10 * DAY + 10 * 3600),
        (2, 8 * DAY + 14 * 3600, 8 * DAY + 14 * 3600 + 600),
        (2, 5 * DAY, 5 * DAY - 10),
    ];
    let books = vec![
        book(1, "甲", Some(" 张三 "), Some("玄幻，修仙"), 10, 9),
        book(2, "乙", Some("佚名"), Some("修仙、都市"), 10, 3),
        book(3, "丙", None, Some("科幻"), 0, 0),
    ];
    let all_moods = vec![
        moods(&[(0, "紧张"), (5, "热血, 紧张"), (10, "悲伤")]),
        moods(&[(1, "热血"), (4, "悲伤")]),
        moods(&[(0, "平静")]),
    ];
    let t = reading_tally(&events, &books, &all_moods, 10 * DAY + 12 * 3600, 0);
    assert_eq!(t.total_secs, 6000);
    assert_eq!(t.longest_session_secs, 3600);
    assert_eq!(t.night_secs, 1800);
    assert_eq!(t.active_days, 4);
    assert_eq!(t.streak, 3);
    assert_eq!(t.dominant_bucket, "上午");
    assert_eq!(t.finished, 1);
    assert_eq!(t.top_book, Some(("甲".to_string(), 5400)));
    assert_eq!(t.top_genres, vec!["修仙", "玄幻", "都市"]);
    assert_eq!(t.top_authors, vec!["张三"]);
    assert_eq!(t.top_moods, vec!["热血", "紧张"]);
    assert_eq!((t.first_month, t.first_day), (1, 6));
}

#[test]
fn an_empty_history_counts_nothing() {
    let t = reading_tally(&vec![], &vec![], &vec![], 100 * DAY, 8 * 3600);
    assert_eq!(t.total_secs, 0);
    assert_eq!(t.active_days, 0);
    assert_eq!(t.streak, 0);
    assert_eq!(t.dominant_bucket, "深夜");
    assert_eq!(t.top_book, None);
    assert!(t.top_genres.is_empty());
    assert_eq!((t.first_month, t.first_day), (0, 0));
}

#[test]
fn a_streak_may_end_yesterday_and_the_zone_moves_the_day() {
    // read on days 3 and 4 (UTC+8), nothing yet on day 5
    let tz = 8 * 3600;
    let events = vec![(1, 3 * DAY - tz + 100, 3 * DAY - tz + 200), (1, 4 * DAY - tz + 100, 4 * DAY - tz + 200)];
    let t = reading_tally(&events, &vec![], &vec![], 5 * DAY - tz + 10, tz);
    assert_eq!(t.streak, 2);
    assert_eq!(t.active_days, 2);
}

#[test]
fn tag_lists_split_on_every_separator() {
    assert_eq!(split_tags(" 玄幻，修仙、 都市 ,, 科幻 "), vec!["玄幻", "修仙", "都市", "科幻"]);
    assert!(split_tags("  ").is_empty());
}
