use lettuce_core::asr::{
    apply_corrections, asr_suggest_corrections_from_edit, correction_pattern_for_phrase, asr_voice_example_suggest_correction,
    build_prompt, is_low_value_replacement, is_stopword, lcs_matches, map_scopes_for_query,
    normalize_language, normalize_lookup_text, normalize_scope, normalize_whitespace,
    prepare_correction, prepare_vocabulary_term, prepare_voice_example, query_scope_clause,
    stopwords, tokenize_words, AsrVocabularyTerm, AsrVoiceExample, StoredCorrection,
    LEARNED_CONFIDENCE_PERCENT, MAX_PROMPT_CHARS, MAX_PROMPT_TERMS,
};

fn strings(items: &[&str]) -> Vec<String> {
    items.iter().map(|s| s.to_string()).collect()
}

fn term(text: &str) -> AsrVocabularyTerm {
    AsrVocabularyTerm {
        id: None,
        term: text.to_string(),
        normalized_term: None,
        language: None,
        category: None,
        scope: None,
        priority: None,
        use_count: None,
        created_at: None,
        updated_at: None,
    }
}

#[test]
fn whitespace_is_collapsed_and_trimmed() {
    assert_eq!(normalize_whitespace("  hello \t  world \n"), "hello world");
    assert_eq!(normalize_whitespace("   "), "");
}

#[test]
fn lookup_text_keeps_lowercase_words() {
    assert_eq!(normalize_lookup_text("Hello, World!"), "hello world");
    assert_eq!(normalize_lookup_text("  ÉCOLE--Naïve "), "école naïve");
    assert_eq!(normalize_lookup_text("?!"), "");
}

#[test]
fn scope_and_language_are_normalised() {
    assert_eq!(normalize_scope(None), "global");
    assert_eq!(normalize_scope(Some("  Work ")), "work");
    assert_eq!(normalize_scope(Some("   ")), "global");
    assert_eq!(normalize_language(Some(" EN ")), Some("en".to_string()));
    assert_eq!(normalize_language(Some("  ")), None);
    assert_eq!(normalize_language(None), None);
}

#[test]
fn query_scopes_default_to_global() {
    assert_eq!(map_scopes_for_query(&[]), strings(&["global"]));
    assert_eq!(map_scopes_for_query(&strings(&[" A ", ""])), strings(&["a", "global"]));
    assert_eq!(query_scope_clause(3), "scope IN (?, ?, ?)");
    assert_eq!(query_scope_clause(1), "scope IN (?)");
}

#[test]
fn words_are_letters_digits_and_apostrophes() {
    assert_eq!(tokenize_words("I can't do it-now!"), strings(&["I", "can't", "do", "it", "now"]));
    assert!(tokenize_words(" ,. ").is_empty());
}

#[test]
fn common_words_are_recognised() {
    assert_eq!(stopwords().len(), 44);
    assert!(is_stopword("the"));
    assert!(!is_stopword("cheese"));
    assert!(is_low_value_replacement(&strings(&["The"]), &strings(&["a"])));
    assert!(!is_low_value_replacement(&strings(&["teh"]), &strings(&["the"])));
}

#[test]
fn lcs_matches_pair_common_words_in_order() {
    let before = strings(&["a", "b", "c"]);
    let after = strings(&["a", "x", "c"]);
    assert_eq!(lcs_matches(&before, &after), vec![(0, 0), (2, 2)]);
    let before = strings(&["x", "y", "z", "y"]);
    let after = strings(&["y", "z", "x"]);
    assert_eq!(lcs_matches(&before, &after).len(), 2);
}

#[test]
fn an_edit_teaches_the_replaced_words() {
    let learned = asr_suggest_corrections_from_edit(
        "I like cheese cake".to_string(),
        "I like cheesecake".to_string(),
        Some(" EN ".to_string()),
        None,
    )
    .unwrap();
    assert_eq!(learned.len(), 1);
    assert_eq!(learned[0].wrong, "cheese cake");
    assert_eq!(learned[0].normalized_wrong, "cheese cake");
    assert_eq!(learned[0].correct, "cheesecake");
    assert_eq!(learned[0].normalized_correct, "cheesecake");
    assert_eq!(learned[0].language, Some("en".to_string()));
    assert_eq!(learned[0].scope, "global");
    assert_eq!(learned[0].confidence_percent, LEARNED_CONFIDENCE_PERCENT);
}

#[test]
fn an_unchanged_transcript_teaches_nothing() {
    let learned = asr_suggest_corrections_from_edit(
        "The quick brown fox".to_string(),
        "The quick brown fox".to_string(),
        None,
        None,
    )
    .unwrap();
    assert!(learned.is_empty());
}

#[test]
fn a_repeated_correction_is_learned_once() {
    let learned = asr_suggest_corrections_from_edit(
        "teh cat teh dog".to_string(),
        "the cat the dog".to_string(),
        None,
        Some("Work".to_string()),
    )
    .unwrap();
    assert_eq!(learned.len(), 1);
    assert_eq!(learned[0].wrong, "teh");
    assert_eq!(learned[0].correct, "the");
    assert_eq!(learned[0].scope, "work");
}

#[test]
fn common_word_swaps_and_long_rewrites_are_not_learned() {
    let learned = asr_suggest_corrections_from_edit(
        "the cat".to_string(),
        "a cat".to_string(),
        None,
        None,
    )
    .unwrap();
    assert!(learned.is_empty());
    let learned = asr_suggest_corrections_from_edit(
        "one two three four five six end".to_string(),
        "uno dos tres cuatro cinco seis end".to_string(),
        None,
        None,
    )
    .unwrap();
    assert!(learned.is_empty());
}

#[test]
fn a_case_only_change_is_not_learned() {
    let learned = asr_suggest_corrections_from_edit(
        "hello Paris".to_string(),
        "hello paris".to_string(),
        None,
        None,
    )
    .unwrap();
    assert!(learned.is_empty());
}

#[test]
fn a_voice_example_suggests_its_first_correction() {
    let first = asr_voice_example_suggest_correction(
        "call jon smyth now".to_string(),
        "call John Smith now".to_string(),
        None,
        None,
    )
    .unwrap()
    .unwrap();
    assert_eq!(first.wrong, "jon smyth");
    assert_eq!(first.correct, "John Smith");
    assert!(asr_voice_example_suggest_correction("same".to_string(), "same".to_string(), None, None)
        .unwrap()
        .is_none());
}

#[test]
fn the_prompt_lists_distinct_terms() {
    let terms = vec![term("Kubernetes"), term("  kubernetes "), term("Rust   lang"), term("  ")];
    assert_eq!(build_prompt(&terms), "Kubernetes, Rust lang.");
    assert_eq!(build_prompt(&[]), "");
}

#[test]
fn the_prompt_respects_its_limits() {
    let terms: Vec<AsrVocabularyTerm> = (0..30).map(|i| term(&format!("term{i:02}"))).collect();
    let prompt = build_prompt(&terms);
    assert_eq!(prompt.split(", ").count(), MAX_PROMPT_TERMS);
    let long: Vec<AsrVocabularyTerm> =
        (0..10).map(|i| term(&format!("{}{i}", "x".repeat(60)))).collect();
    let prompt = build_prompt(&long);
    assert!(prompt.len() <= MAX_PROMPT_CHARS + 1);
    assert_eq!(prompt.split(", ").count(), 3);
}

#[test]
fn vocabulary_terms_are_validated_and_defaulted() {
    let err = prepare_vocabulary_term(term(" -- ")).err().unwrap();
    assert_eq!(err, "Vocabulary term cannot be empty");
    let mut t = term("Kubernetes Cluster");
    t.scope = Some(" Work ".to_string());
    t.language = Some("EN".to_string());
    let ok = prepare_vocabulary_term(t).ok().unwrap();
    assert_eq!(ok.normalized_term, Some("kubernetes cluster".to_string()));
    assert_eq!(ok.scope, Some("work".to_string()));
    assert_eq!(ok.language, Some("en".to_string()));
    assert_eq!(ok.priority, Some(50));
    assert_eq!(ok.use_count, Some(0));
}

#[test]
fn corrections_are_validated_and_defaulted() {
    let err = prepare_correction("teh".to_string(), " ! ".to_string(), None, None, None, None)
        .err()
        .unwrap();
    assert_eq!(err, "Correction wrong/correct values cannot be empty");
    let ok = prepare_correction("Teh".to_string(), "The".to_string(), None, None, None, None)
        .ok()
        .unwrap();
    assert_eq!(ok.normalized_wrong, "teh");
    assert_eq!(ok.normalized_correct, "the");
    assert_eq!(ok.scope, "global");
    assert_eq!(ok.use_count, 1);
    assert!(!ok.user_approved);
}

#[test]
fn voice_examples_are_validated_and_keyed() {
    let example = AsrVoiceExample {
        id: Some(4),
        audio_path: "clip.wav".to_string(),
        expected_text: "Hello There".to_string(),
        normalized_expected_text: None,
        whisper_output: Some("...".to_string()),
        normalized_whisper_output: None,
        language: None,
        scope: None,
        term_id: None,
        correction_id: Some(9),
        created_at: Some("yesterday".to_string()),
    };
    let ok = prepare_voice_example(example).ok().unwrap();
    assert_eq!(ok.id, Some(4));
    assert_eq!(ok.normalized_expected_text, Some("hello there".to_string()));
    assert_eq!(ok.normalized_whisper_output, None);
    assert_eq!(ok.scope, Some("global".to_string()));
    assert_eq!(ok.created_at, None);
    assert_eq!(ok.correction_id, Some(9));
    let bad = AsrVoiceExample {
        id: None,
        audio_path: String::new(),
        expected_text: "  ".to_string(),
        normalized_expected_text: None,
        whisper_output: None,
        normalized_whisper_output: None,
        language: None,
        scope: None,
        term_id: None,
        correction_id: None,
        created_at: None,
    };
    assert_eq!(prepare_voice_example(bad).err().unwrap(), "Voice example expected text cannot be empty");
}

#[test]
fn corrections_replace_whole_words_ignoring_case() {
    let corrections = vec![StoredCorrection { id: 1, wrong: "teh".to_string(), correct: "the".to_string() }];
    let result = apply_corrections("Teh cat and teh dog, tehran".to_string(), &corrections).ok().unwrap();
    assert_eq!(result.raw_text, "Teh cat and teh dog, tehran");
    assert_eq!(result.corrected_text, "the cat and the dog, tehran");
    assert_eq!(result.applied.len(), 2);
    assert_eq!(result.applied[0].match_text, "Teh");
    assert_eq!(result.applied[1].match_text, "teh");
    assert_eq!(result.applied[0].correction_id, 1);
}

#[test]
fn multi_word_corrections_span_any_whitespace() {
    let corrections = vec![
        StoredCorrection { id: 2, wrong: "cheese   cake".to_string(), correct: "cheesecake".to_string() },
        StoredCorrection { id: 3, wrong: "a.c".to_string(), correct: "AC".to_string() },
    ];
    let result = apply_corrections("CHEESE\n cake abc a.c".to_string(), &corrections).ok().unwrap();
    assert_eq!(result.corrected_text, "cheesecake abc AC");
    assert_eq!(result.applied.len(), 2);
    assert_eq!(result.applied[0].match_text, "CHEESE\n cake");
    assert_eq!(result.applied[1].correction_id, 3);
}

#[test]
fn no_correction_leaves_the_text() {
    let corrections = vec![StoredCorrection { id: 5, wrong: "zebra".to_string(), correct: "horse".to_string() }];
    let result = apply_corrections("a plain sentence".to_string(), &corrections).ok().unwrap();
    assert_eq!(result.corrected_text, "a plain sentence");
    assert!(result.applied.is_empty());
}

#[test]
fn phrase_patterns_escape_each_word() {
    assert_eq!(correction_pattern_for_phrase("a.c  b+"), "(?i)\\ba\\.c\\s+b\\+\\b");
    assert_eq!(correction_pattern_for_phrase("plain"), "(?i)\\bplain\\b");
}

#[test]
fn stored_corrections_fix_a_transcript() {
    let corrections = vec![StoredCorrection { id: 1, wrong: "teh".to_string(), correct: "the".to_string() }];
    let r = apply_corrections("Teh cat saw teh dog, tehran".to_string(), &corrections).ok().unwrap();
    assert_eq!(r.raw_text, "Teh cat saw teh dog, tehran");
    assert_eq!(r.corrected_text, "the cat saw the dog, tehran");
    assert_eq!(r.applied.len(), 2);
    assert_eq!(r.applied[0].match_text, "Teh");
    assert_eq!(r.applied[1].match_text, "teh");
    assert!(r.applied.iter().all(|a| a.correction_id == 1 && a.wrong == "teh" && a.correct == "the"));
}

#[test]
fn no_stored_corrections_leave_the_transcript() {
    let r = apply_corrections("Teh cat".to_string(), &[]).ok().unwrap();
    assert_eq!(r.corrected_text, "Teh cat");
    assert!(r.applied.is_empty());
}
