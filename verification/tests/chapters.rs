use novel_core::chapters::{candidates, classify, cn_numeral, validate, Level, Template};
use novel_core::fingerprint::{fingerprint, Fingerprint};

fn fp_of(text: &str) -> Fingerprint {
    fingerprint("UTF-8", text)
}

/// A book whose titles are bare numbers, with an ad line that also happens to
/// be a bare number. The template is elected, so 400 climbing numbers win.
#[test]
fn bare_numbers_elected_when_they_form_a_sequence() {
    let mut t = String::new();
    for i in 1..=400 {
        t.push_str(&format!("{i}\n\u{3000}\u{3000}正文。\n"));
    }
    let fp = fp_of(&t);
    let v = validate(&candidates(&t, &fp), &fp);
    assert_eq!(v.templates, vec![Template::BareNumber]);
    assert_eq!(v.chapters.len(), 400);
}

/// The first arc titled "NN 标题", the rest 第N章: the number-space sequence
/// owns only the prefix, and must still be elected.
#[test]
fn number_space_prefix_then_ordinal_titles() {
    let mut t = String::new();
    for i in 1..=30 {
        t.push_str(&format!("{i:02} 标题\n"));
        t.push_str(&"\u{3000}\u{3000}正文段落，写了一些字。\n".repeat(30));
    }
    for i in 31..=300 {
        t.push_str(&format!("第{i}章 标题\n"));
        t.push_str(&"\u{3000}\u{3000}正文段落，写了一些字。\n".repeat(30));
    }
    let fp = fp_of(&t);
    let v = validate(&candidates(&t, &fp), &fp);
    assert_eq!(v.chapters.len(), 300, "templates: {:?}", v.templates);
}

/// A lone number in a book with no numeric titles must not become a chapter.
#[test]
fn lone_bare_number_is_not_a_chapter() {
    let mut t = String::from("2017\n\u{3000}\u{3000}广告。\n");
    for i in 1..=50 {
        t.push_str(&format!("第{i}章 标题\n\u{3000}\u{3000}正文。\n"));
    }
    let fp = fp_of(&t);
    let v = validate(&candidates(&t, &fp), &fp);
    assert_eq!(v.templates, vec![Template::Ordinal]);
    assert_eq!(v.chapters.len(), 50);
    assert_eq!(v.rejected.len(), 1);
    assert_eq!(v.rejected[0].text, "2017");
}

/// Scattered years in a book with no chapter template elect nothing.
#[test]
fn scattered_numbers_elect_nothing() {
    let mut t = String::new();
    for y in [1998, 2003, 2017, 2021] {
        t.push_str(&format!("{y}\n\u{3000}\u{3000}正文。\n"));
    }
    let fp = fp_of(&t);
    let v = validate(&candidates(&t, &fp), &fp);
    assert!(v.templates.is_empty());
    assert!(v.chapters.is_empty());
}

/// Volume headers stay out of the chapter list and its numbering check.
#[test]
fn volumes_are_not_chapters() {
    let mut t = String::new();
    for v in 1..=3 {
        t.push_str(&format!("第{v}卷 风起\n"));
        for c in 1..=20 {
            let n = (v - 1) * 20 + c;
            t.push_str(&format!("第{n}章 标题\n\u{3000}\u{3000}正文。\n"));
        }
    }
    let fp = fp_of(&t);
    let v = validate(&candidates(&t, &fp), &fp);
    assert_eq!(v.chapters.len(), 60);
    assert_eq!(v.volumes.len(), 3);
    assert!(v.anomalies.is_empty(), "{:?}", v.anomalies);
}

/// A body sentence starting with "第二天" is not a title.
#[test]
fn body_sentence_is_not_an_ordinal() {
    assert_eq!(classify("第二天早上，他赶着回家换校服。"), None);
    assert_eq!(
        classify("第三节课课间。"),
        Some((Template::Ordinal, Level::Chapter, Some(3)))
    );
}

/// One book, two templates: both are chapters.
#[test]
fn mixed_number_dot_and_ordinal() {
    let mut t = String::new();
    for i in 1..=30 {
        if (10..15).contains(&i) {
            t.push_str(&format!("第{i}章 标题\n"));
        } else {
            t.push_str(&format!("{i}.标题\n"));
        }
        t.push_str("　　正文。\n");
    }
    let fp = fp_of(&t);
    let v = validate(&candidates(&t, &fp), &fp);
    assert_eq!(v.chapters.len(), 30);
    assert!(v.anomalies.is_empty(), "{:?}", v.anomalies);
    assert!(v.templates.contains(&Template::NumberDot));
    assert!(v.templates.contains(&Template::Ordinal));
}

#[test]
fn cn_numerals() {
    assert_eq!(cn_numeral("一百零九"), Some(109));
    assert_eq!(cn_numeral("三千二百"), Some(3200));
    assert_eq!(cn_numeral("十"), Some(10));
    assert_eq!(cn_numeral("二十一"), Some(21));
    assert_eq!(cn_numeral("一万零五"), Some(10005));
    assert_eq!(cn_numeral("abc"), None);
}

#[test]
fn a_decreasing_number_is_reported_as_an_anomaly() {
    let mut t = String::new();
    for i in [1, 2, 3, 2, 4] {
        t.push_str(&format!("第{i}章 标题\n\u{3000}\u{3000}正文。\n\u{3000}\u{3000}正文。\n"));
    }
    let fp = fp_of(&t);
    let v = validate(&candidates(&t, &fp), &fp);
    assert_eq!(v.chapters.len(), 5);
    assert_eq!(v.anomalies.len(), 1);
}

/// Without the indent signal the climbing run is kept and the stray
/// number is dropped, still reported once.
#[test]
fn a_flush_book_drops_the_number_that_breaks_the_run() {
    let mut t = String::new();
    for i in [1, 2, 3, 2, 4] {
        t.push_str(&format!("第{i}章 标题\n\u{3000}\u{3000}正文。\n"));
    }
    let fp = fp_of(&t);
    let v = validate(&candidates(&t, &fp), &fp);
    assert_eq!(v.chapters.len(), 4);
    assert_eq!(v.anomalies.len(), 1);
    assert_eq!(v.rejected.len(), 1);
}
