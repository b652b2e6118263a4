use novel_core::assistant::{clean_summary, is_engine_entry, landmine_context_spans, normalized_evidence, repeats_original};

#[test]
fn engine_delete_filter_preserves_models_and_rollback_data() {
    assert!(is_engine_entry("llama-server.exe"));
    assert!(is_engine_entry("ggml-vulkan.dll"));
    assert!(!is_engine_entry("Qwen3-0.6B-Q8_0.gguf"));
    assert!(!is_engine_entry("novel-chat-previous.gguf.rollback"));
    assert!(!is_engine_entry(".novel-chat-model.json"));
    assert!(!is_engine_entry("novel-embed-current.gguf.download"));
}

#[test]
fn clean_summary_strips_residue() {
    assert_eq!(clean_summary("<think>\n\n</think>\n\n“主角赢了。”"), "主角赢了。");
    assert_eq!(clean_summary("摘要：他走了。\n多余行"), "他走了。 多余行");
}

#[test]
fn repeat_detection_requires_substantial_verbatim_text() {
    let shared = "这是一段跨越章节边界后被下一章重复刊载的原文，用于确认它确实是同一处内容而不是相似主题。";
    let a = normalized_evidence(&format!("{shared}{shared}第一处结尾"));
    let b = normalized_evidence(&format!("第二处开头{shared}{shared}"));
    let paraphrase = normalized_evidence(
        "这段话谈论近似的情节和相同的人物，但它没有照抄连续原句，因此必须作为独立候选保留。",
    );
    assert!(repeats_original(&a, &b));
    assert!(!repeats_original(&a, &paraphrase));
}

#[test]
fn landmine_context_includes_one_neighbor_on_each_side() {
    let rows = vec![(3, 10, 20), (3, 20, 30), (3, 30, 40), (4, 40, 50)];
    assert_eq!(landmine_context_spans(3, 20, 30, &rows), vec![(10, 20), (20, 30), (30, 40)]);
}
