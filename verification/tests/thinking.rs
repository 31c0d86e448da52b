use lettuce_core::thinking::{
    normalize_thinking_content, normalize_thinking_content_seeded, split_thinking_tags,
    split_thinking_tags_seeded, trailing_open_reasoning_tag, ThinkingSplit,
    ThinkingTagStreamParser,
};

#[test]
fn detects_trailing_open_think_from_forced_open_template() {
    // Qwen3 "Thinking"/2507 generation prefix opens <think> without closing.
    let prompt = "<|im_start|>assistant\n<think>\n";
    assert_eq!(trailing_open_reasoning_tag(prompt), Some("</think>"));
}

#[test]
fn ignores_balanced_think_pairs_from_history() {
    let prompt = "<|im_start|>assistant\n<think>\nprior\n</think>\n\nanswer<|im_end|>\n";
    assert_eq!(trailing_open_reasoning_tag(prompt), None);
}

#[test]
fn seeded_parser_captures_leading_reasoning_without_open_tag() {
    // Raw split preserves whitespace; trimming is normalize's job.
    let split = split_thinking_tags_seeded(
        "weighing options\n</think>\n\nFinal answer.",
        Some("</think>"),
    );
    assert_eq!(split.reasoning, "weighing options\n");
    assert_eq!(split.content, "\n\nFinal answer.");
}

#[test]
fn seeded_parser_handles_split_streaming_chunks() {
    let mut parser = ThinkingTagStreamParser::started_in_reasoning("</think>");
    let mut reasoning = String::new();
    let mut content = String::new();
    for chunk in ["thinking ", "out lou", "d</thi", "nk>visible"] {
        let split = parser.feed(chunk);
        reasoning.push_str(&split.reasoning);
        content.push_str(&split.content);
    }
    let tail = parser.finish();
    reasoning.push_str(&tail.reasoning);
    content.push_str(&tail.content);
    assert_eq!(reasoning, "thinking out loud");
    assert_eq!(content, "visible");
}

#[test]
fn without_forced_open_leading_reasoning_leaks_to_content() {
    let split = split_thinking_tags("weighing options\n</think>\n\nFinal answer.");
    assert!(split.reasoning.is_empty());
    assert!(split.content.contains("weighing options"));
}

#[test]
fn normalize_seeded_moves_body_to_reasoning() {
    let split = normalize_thinking_content_seeded(
        Some("step one\nstep two\n</think>\n\nDone."),
        None,
        Some("</think>"),
    );
    assert_eq!(split.reasoning, "step one\nstep two");
    assert_eq!(split.content, "Done.");
}

// --- further cases -------------------------------------------------------

#[test]
fn tags_are_matched_without_ascii_case() {
    let split = split_thinking_tags("a<THINK>b</Think>c");
    assert_eq!(split.content, "ac");
    assert_eq!(split.reasoning, "b");
}

#[test]
fn every_tag_pair_is_recognised() {
    for (open, close) in [
        ("<think>", "</think>"),
        ("<thinking>", "</thinking>"),
        ("<reason>", "</reason>"),
        ("<reasoning>", "</reasoning>"),
        ("<|channel>thought", "<channel|>"),
        ("<|channel>", "<channel|>"),
    ] {
        let text = format!("x{open}r{close}y");
        let split = split_thinking_tags(&text);
        assert_eq!(split.content, "xy", "pair {open}");
        assert_eq!(split.reasoning, "r", "pair {open}");
    }
}

#[test]
fn channel_thought_tag_wins_over_bare_channel_tag() {
    let split = split_thinking_tags("<|channel>thought plan<channel|>answer");
    assert_eq!(split.reasoning, " plan");
    assert_eq!(split.content, "answer");
}

#[test]
fn partial_open_tag_is_held_back_until_complete() {
    let mut parser = ThinkingTagStreamParser::default();
    let first = parser.feed("hello <thi");
    assert_eq!(first.content, "hello ");
    assert_eq!(first.reasoning, "");
    let second = parser.feed("nk>deep");
    assert_eq!(second.content, "");
    assert_eq!(second.reasoning, "deep");
    assert_eq!(parser.ends_in_reasoning(), Some("</think>"));
    let tail = parser.finish();
    assert_eq!(tail.reasoning, "");
    assert_eq!(parser.ends_in_reasoning(), None);
}

#[test]
fn chunked_and_whole_text_agree() {
    let text = "pre<think>inner</think>post<reasoning>more</reasoning>end";
    let whole = split_thinking_tags(text);
    for cut in 0..=text.len() {
        let mut parser = ThinkingTagStreamParser::default();
        let a = parser.feed(&text[..cut]);
        let b = parser.feed(&text[cut..]);
        let c = parser.finish();
        assert_eq!(format!("{}{}{}", a.content, b.content, c.content), whole.content);
        assert_eq!(format!("{}{}{}", a.reasoning, b.reasoning, c.reasoning), whole.reasoning);
    }
}

#[test]
fn untagged_text_is_all_content() {
    let split = split_thinking_tags("just an answer <b>bold</b>");
    assert_eq!(split.content, "just an answer <b>bold</b>");
    assert_eq!(split.reasoning, "");
}

#[test]
fn unclosed_seeded_text_is_all_reasoning() {
    let split = split_thinking_tags_seeded("still thinking", Some("</think>"));
    assert_eq!(split.reasoning, "still thinking");
    assert_eq!(split.content, "");
}

#[test]
fn explicit_reasoning_fills_blank_reasoning() {
    let split = normalize_thinking_content(Some("  answer  "), Some("  why  "));
    assert_eq!(split.content, "answer");
    assert_eq!(split.reasoning, "why");
}

#[test]
fn explicit_reasoning_is_appended_after_a_blank_line() {
    let base = ThinkingSplit { content: "c".to_string(), reasoning: "first".to_string() };
    let merged = base.merge_reasoning(Some(" second "));
    assert_eq!(merged.reasoning, "first\n\nsecond");
    assert_eq!(merged.content, "c");
}

#[test]
fn repeated_explicit_reasoning_is_dropped() {
    let base = ThinkingSplit { content: String::new(), reasoning: " same ".to_string() };
    let merged = base.merge_reasoning(Some("same"));
    assert_eq!(merged.reasoning, " same ");
    let untouched = ThinkingSplit { content: String::new(), reasoning: "r".to_string() }
        .merge_reasoning(Some("   "));
    assert_eq!(untouched.reasoning, "r");
}

#[test]
fn normalize_without_content_keeps_only_explicit_reasoning() {
    let split = normalize_thinking_content(None, Some("because"));
    assert_eq!(split.content, "");
    assert_eq!(split.reasoning, "because");
}

#[test]
fn a_channel_tag_completed_in_a_later_chunk_is_read_as_plain_channel() {
    let mut parser = ThinkingTagStreamParser::default();
    let mut reasoning = String::new();
    let mut content = String::new();
    for chunk in ["<|channel>", "thought x<channel|>y"] {
        let split = parser.feed(chunk);
        reasoning.push_str(&split.reasoning);
        content.push_str(&split.content);
    }
    let tail = parser.finish();
    reasoning.push_str(&tail.reasoning);
    content.push_str(&tail.content);
    assert_eq!(reasoning, "thought x");
    assert_eq!(content, "y");
    let whole = split_thinking_tags("<|channel>thought x<channel|>y");
    assert_eq!(whole.reasoning, " x");
    assert_eq!(whole.content, "y");
}

#[test]
fn any_cut_into_chunks_streams_like_the_whole_text() {
    let text = "intro <think>step one\nstep two</think> answer <reasoning>more</reasoning>end";
    let whole = split_thinking_tags(text);
    for width in 1..=text.len() {
        let mut parser = ThinkingTagStreamParser::default();
        let mut streamed = ThinkingSplit::default();
        let chars: Vec<char> = text.chars().collect();
        for chunk in chars.chunks(width) {
            let piece: String = chunk.iter().collect();
            let split = parser.feed(&piece);
            streamed.content.push_str(&split.content);
            streamed.reasoning.push_str(&split.reasoning);
        }
        let tail = parser.finish();
        streamed.content.push_str(&tail.content);
        streamed.reasoning.push_str(&tail.reasoning);
        assert_eq!(streamed, whole, "chunks of {width}");
    }
}
