use novel_core::decode::{decode, decode_as, normalize_newlines};

#[test]
fn a_utf8_bom_is_a_marker_and_newlines_are_unified() {
    let d = decode(b"\xEF\xBB\xBFab\r\nc\rd");
    assert_eq!(d.encoding, "UTF-8");
    assert_eq!(d.text, "ab\nc\nd");
}

#[test]
fn a_utf16_bom_names_the_encoding() {
    let mut raw = vec![0xFF, 0xFE];
    for u in "中文".encode_utf16() {
        raw.extend_from_slice(&u.to_le_bytes());
    }
    let d = decode(&raw);
    assert_eq!(d.encoding, "UTF-16LE");
    assert_eq!(d.text, "中文");
}

#[test]
fn plain_utf8_is_read_as_utf8() {
    let d = decode("第一章 你好".as_bytes());
    assert_eq!(d.encoding, "UTF-8");
    assert_eq!(d.text, "第一章 你好");
}

#[test]
fn legacy_chinese_bytes_are_sniffed() {
    let text = "第一章 山中\n　　少年背着剑走进山里，雨下个不停，他找了一处山洞躲雨。洞里很黑，他点起火把，看见石壁上刻着字。\n";
    let (raw, _, _) = encoding_rs::GB18030.encode(text);
    let d = decode(&raw);
    assert_eq!(d.text, text);
    assert!(d.encoding == "GBK" || d.encoding == "gb18030", "{}", d.encoding);
}

#[test]
fn a_chosen_encoding_drops_only_its_own_bom() {
    let d = decode_as(b"\xFF\xFEa\x00", "utf-16le").expect("known label");
    assert_eq!(d.encoding, "UTF-16LE");
    assert_eq!(d.text, "a");
    let d = decode_as(b"\xEF\xBB\xBFa", "utf-8").expect("known label");
    assert_eq!(d.text, "a");
    assert!(decode_as(b"abc", "no such encoding").is_none());
}

#[test]
fn newlines_are_normalised() {
    assert_eq!(normalize_newlines("a\r\nb\rc\n"), "a\nb\nc\n");
}
