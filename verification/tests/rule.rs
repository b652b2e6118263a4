use novel_core::source::replace::{apply_replace, strip_braces, tidy_lines};
use novel_core::source::rule::{absolute, page_key, same_page, sanitize_url, UrlSpec};
use novel_core::source::url::{arithmetic, requote, split_options, urlencode};

#[test]
fn urls_resolve_against_the_page_they_came_from() {
    let base = "https://x.example/a/b.html";
    assert_eq!(absolute(base, "/c/d.html"), "https://x.example/c/d.html");
    assert_eq!(absolute(base, "e.html"), "https://x.example/a/e.html");
    assert_eq!(absolute(base, "//y.example/f"), "https://y.example/f");
    assert_eq!(absolute(base, "https://z.example/g"), "https://z.example/g");
}

#[test]
fn odd_bases_still_resolve() {
    assert_eq!(absolute("https://x.example", "e.html"), "https://x.example/e.html");
    assert_eq!(absolute("x.example/a/b", "c"), "x.example/a/c");
    assert_eq!(absolute("x.example", "//y/z"), "https://y/z");
    assert_eq!(absolute("http://x.example/a", "//y/z"), "http://y/z");
    assert_eq!(absolute("https://x.example/a/b.html", ""), "https://x.example/a/b.html");
}

/// The end of a chapter and the start of the next one are the same link on
/// half these sites; a `#` or a trailing slash must not hide that.
#[test]
fn a_page_is_the_same_page_despite_punctuation() {
    assert!(same_page("http://a.com/1/2.html", "http://a.com/1/2.html#top"));
    assert!(same_page("http://a.com/1/2/", "http://a.com/1/2"));
    assert!(!same_page("http://a.com/1/2.html", "http://a.com/1/3.html"));
    assert!(!same_page("", ""));
}

#[test]
fn case_and_blanks_do_not_make_another_page() {
    assert!(same_page("HTTP://A.com/X ", "http://a.com/x"));
    assert_eq!(page_key(" HTTP://A.com/X/#p2"), "http://a.com/x");
}

#[test]
fn chinese_paths_are_encoded_not_rejected() {
    let u = UrlSpec::parse("/搜索/{{key}}.html?p=1", "https://x.example", "剑", 1).unwrap();
    assert_eq!(u.url, "https://x.example/%E6%90%9C%E7%B4%A2/%E5%89%91.html?p=1");
    assert_eq!(sanitize_url("https://x.example/a%20b?c=1&d=2"), "https://x.example/a%20b?c=1&d=2");
}

#[test]
fn bare_reserved_bytes_are_escaped() {
    assert_eq!(sanitize_url("a b"), "a%20b");
    assert_eq!(sanitize_url("100%"), "100%25");
    assert_eq!(sanitize_url("%4"), "%254");
    assert_eq!(sanitize_url("{x}|^"), "%7Bx%7D%7C%5E");
}

#[test]
fn a_plain_spec_is_a_get_of_the_sanitized_address() {
    let u = UrlSpec::plain("https://x.example/a b");
    assert_eq!(u.url, "https://x.example/a%20b");
    assert_eq!(u.method, "GET");
    assert!(u.body.is_none() && u.charset.is_none() && u.headers.is_empty());
}

#[test]
fn replace_regex_strips_what_the_sheet_says_to_strip() {
    let text = "第一段。\n一秒记住笔趣阁www.x.com无弹窗免费阅读！\n第二段。";
    let out = apply_replace(&text.to_string(), Some("一秒记住.*无弹窗免费阅读！"));
    assert_eq!(out, "第一段。\n第二段。");
}

/// A pattern that is half script still has a working half.
#[test]
fn a_script_in_the_pattern_does_not_disarm_the_rest() {
    let spec = "##{{try{chapter.title}catch(e){\"\"} }}|\\(第\\d+/\\d+页\\)";
    let out = apply_replace("正文。\n(第2/3页)", Some(spec));
    assert_eq!(out, "正文。");
}

/// A pattern that is only script leaves the chapter alone.
#[test]
fn a_pattern_that_is_all_script_changes_nothing() {
    assert_eq!(apply_replace("正文。", Some("<js>whatever</js>")), "正文。");
    assert_eq!(apply_replace("正文。", Some("{{cover}}")), "正文。");
}

#[test]
fn no_spec_and_a_broken_pattern_change_nothing() {
    assert_eq!(apply_replace("  正文。  ", None), "  正文。  ");
    assert_eq!(apply_replace("正文。", Some("   ")), "正文。");
    assert_eq!(apply_replace("正文(。", Some("(")), "正文(。");
}

#[test]
fn the_replacement_half_is_used_and_lines_are_tidied() {
    assert_eq!(apply_replace("甲乙\n\n  丙乙  ", Some("##乙##丁")), "甲丁\n丙丁");
}

#[test]
fn braces_are_counted_and_an_open_span_drops_the_rest() {
    let v: Vec<char> = "a{{b{c}d}}e{{f".chars().collect();
    let out: String = strip_braces(&v).into_iter().collect();
    assert_eq!(out, "ae");
}

#[test]
fn tidy_lines_trims_and_drops_blank_lines() {
    assert_eq!(tidy_lines(" a \r\n\n b\n"), "a\nb");
}

#[test]
fn search_url_carries_method_and_charset() {
    let u = UrlSpec::parse(
        r#"/search,{"method":"POST","body":"key={{key}}","charset":"gbk"}"#,
        "https://x.example",
        "剑来",
        1,
    )
    .unwrap();
    assert_eq!(u.url, "https://x.example/search");
    assert_eq!(u.method, "POST");
    assert_eq!(u.charset.as_deref(), Some("gbk"));
    assert_eq!(u.body.as_deref(), Some("key=%BD%A3%C0%B4"));
}

#[test]
fn single_quoted_options_are_read() {
    let u = UrlSpec::parse("/search/,{'method': 'POST','body': 'keyword={{key}}'}", "https://x.example", "剑", 1).unwrap();
    assert_eq!(u.method, "POST");
    assert_eq!(u.body.as_deref(), Some("keyword=%E5%89%91"));
}

#[test]
fn the_keyword_is_encoded_in_the_sites_own_charset() {
    let u = UrlSpec::parse(r#"/s?k={{key}},{"charset":"gbk"}"#, "https://x.example", "剑", 1).unwrap();
    assert_eq!(u.url, "https://x.example/s?k=%BD%A3");

    let utf8 = UrlSpec::parse("/s?k={{key}}", "https://x.example", "剑", 1).unwrap();
    assert_eq!(utf8.url, "https://x.example/s?k=%E5%89%91");
}

#[test]
fn page_arithmetic_is_not_a_script() {
    let u = UrlSpec::parse("/list?s={{(page-1)*15}}&p={{page}}", "https://x.example", "k", 3).unwrap();
    assert_eq!(u.url, "https://x.example/list?s=30&p=3");
    assert!(UrlSpec::parse("/s?x={{java.ajax(u)}}", "https://x.example", "k", 1).is_err());
}

#[test]
fn a_scripted_address_and_a_web_view_are_refused() {
    assert_eq!(
        UrlSpec::parse("<js>url</js>", "https://x.example", "k", 1).unwrap_err(),
        "这个书源的搜索地址是 JavaScript 拼出来的，本机引擎跑不了"
    );
    assert_eq!(
        UrlSpec::parse(r#"/s,{"webView":true}"#, "https://x.example", "k", 1).unwrap_err(),
        "这个书源要用浏览器内核（webView）"
    );
    let e = UrlSpec::parse("/s?q={{java.ajax(x)}}", "https://x.example", "k", 1).unwrap_err();
    assert_eq!(e, "这个书源用了脚本（{{java.ajax(x)}}），本机引擎跑不了");
}

#[test]
fn headers_keep_their_string_values() {
    let u = UrlSpec::parse(r#"/s,{"headers":{"Referer":"https://x.example","X":1}}"#, "https://x.example", "k", 1).unwrap();
    assert_eq!(u.method, "GET");
    assert_eq!(u.headers, vec![("Referer".to_string(), "https://x.example".to_string())]);
}

#[test]
fn page_arithmetic_follows_precedence_and_refuses_the_rest() {
    assert_eq!(arithmetic("page*2+1", 4), Some(9));
    assert_eq!(arithmetic("(page - 1) * 15", 3), Some(30));
    assert_eq!(arithmetic("-page+10", 3), Some(7));
    assert_eq!(arithmetic("7/2", 1), Some(3));
    assert_eq!(arithmetic("-7/2", 1), Some(-3));
    assert_eq!(arithmetic("1/0", 1), None);
    assert_eq!(arithmetic("(1", 1), None);
    assert_eq!(arithmetic("", 1), None);
    assert_eq!(arithmetic("x", 1), None);
    assert_eq!(arithmetic("99999999999999999999", 1), None);
}

#[test]
fn single_quotes_become_json_quotes() {
    assert_eq!(requote("{'a': 'b\"c', \"d'\": 1}"), "{\"a\": \"b\\\"c\", \"d'\": 1}");
}

#[test]
fn the_keyword_is_form_encoded() {
    assert_eq!(urlencode("a b-_.~!", None), "a+b-_.~%21");
    assert_eq!(urlencode("剑", Some(" UTF8 ")), "%E5%89%91");
    assert_eq!(urlencode("剑", Some("nonsense")), "%E5%89%91");
}

#[test]
fn options_split_at_the_first_valid_tail() {
    let (u, o) = split_options("/s?a={x},{\"method\":\"POST\"}");
    assert_eq!(u, "/s?a={x}");
    assert_eq!(o.as_deref(), Some("{\"method\":\"POST\"}"));
    let (u, o) = split_options("/s,{broken");
    assert_eq!(u, "/s,{broken");
    assert!(o.is_none());
}

#[test]
fn links_differing_by_case_are_one_page() {
    assert!(novel_core::source::rule::same_page("https://Example.com/Book/1.html#top", "https://example.com/book/1.html/"));
    assert!(!novel_core::source::rule::same_page("https://example.com/book/1.html", "https://example.com/book/2.html"));
}

#[test]
fn sanitizing_twice_changes_nothing() {
    for u in ["https://x.example/a%20b?c=1&d=2", "http://书.com/章 节?q=\"x\"", "a%2", "%zz|{}"] {
        let once = sanitize_url(u);
        assert_eq!(sanitize_url(&once), once);
    }
    assert_eq!(sanitize_url("https://x.example/a%20b?c=1&d=2"), "https://x.example/a%20b?c=1&d=2");
}
