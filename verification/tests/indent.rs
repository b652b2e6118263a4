use novel_core::is_indented;

#[test]
fn ascii_space_indent() {
    assert!(is_indented("    正文段落。"));
    assert!(is_indented("　　正文段落。"));
    assert!(!is_indented(" 1.十五年后的开始游戏"));
    assert!(!is_indented("第1章 标题"));
}

#[test]
fn a_tab_alone_indents_and_one_space_does_not() {
    assert!(is_indented("\t正文"));
    assert!(!is_indented("　正文"));
    assert!(!is_indented(""));
    assert!(!is_indented(" "));
}
