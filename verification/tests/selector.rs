use novel_core::source::selector::{split_content, split_index};

fn pair(r: (String, String)) -> (String, String) {
    r
}

#[test]
fn an_index_is_peeled_only_when_it_is_one() {
    assert_eq!(pair(split_index("li!0,1")), ("li".to_string(), "!0,1".to_string()));
    assert_eq!(pair(split_index("li[0, 2]")), ("li".to_string(), "[0, 2]".to_string()));
    assert_eq!(pair(split_index("a.-1")), ("a".to_string(), "-1".to_string()));
    assert_eq!(pair(split_index("a[href]")), ("a[href]".to_string(), String::new()));
    assert_eq!(pair(split_index(".v-title")), (".v-title".to_string(), String::new()));
}

#[test]
fn a_content_spec_is_peeled_off_the_end() {
    assert_eq!(pair(split_content(".item h3@text")), (".item h3".to_string(), "text".to_string()));
    assert_eq!(pair(split_content("@css:.item a@href")), ("@css:.item a".to_string(), "href".to_string()));
    assert_eq!(pair(split_content("img@data-src")), ("img".to_string(), "data-src".to_string()));
    assert_eq!(pair(split_content("href")), (String::new(), "href".to_string()));
    assert_eq!(pair(split_content(".item h3")), (".item h3".to_string(), "text".to_string()));
}

#[test]
fn capture_references_read_the_row() {
    use_caps();
}

fn use_caps() {
    let caps = vec!["全部".to_string(), "第一".to_string(), "第二".to_string()];
    assert_eq!(novel_core::source::selector::capture_ref(&caps, "$1-$2"), "第一-第二");
    assert_eq!(novel_core::source::selector::capture_ref(&caps, "x$9y"), "xy");
    assert_eq!(novel_core::source::selector::capture_ref(&caps, "$a$"), "$a$");
    assert_eq!(novel_core::source::selector::capture_ref(&caps, "$99999999999999999999999"), "");
}

#[test]
fn an_index_chooses_positions() {
    use_index();
}

fn use_index() {
    assert_eq!(novel_core::source::selector::index_picks(5, ""), None);
    assert_eq!(novel_core::source::selector::index_picks(5, "[0, -1, 9, x]"), Some(vec![0, 4]));
    assert_eq!(novel_core::source::selector::index_picks(5, "!0,-1"), Some(vec![1, 2, 3]));
    assert_eq!(novel_core::source::selector::index_picks(5, "-2"), Some(vec![3]));
    assert_eq!(novel_core::source::selector::index_picks(5, "7"), Some(vec![]));
    assert_eq!(novel_core::source::selector::index_picks(5, "abc"), None);
}
