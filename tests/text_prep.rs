use nayru::text_prep::{clean_text_for_tts, split_sentences, split_text, DEFAULT_MAX_CHUNK_LEN};

// ── clean_text_for_tts ──────────────────────────────────────────

#[test]
fn strips_fenced_code_blocks() {
    let input = "before ```rust\nfn main() {}\n``` after";
    assert_eq!(
        clean_text_for_tts(input),
        "before See the code in our conversation. after"
    );
}

#[test]
fn strips_tables() {
    let input = "intro\n| a | b |\n| 1 | 2 |\nafter";
    let result = clean_text_for_tts(input);
    assert!(result.contains("See the table in our conversation."));
    assert!(result.contains("after"));
}

#[test]
fn strips_inline_code() {
    assert_eq!(clean_text_for_tts("use `println!` here"), "use here");
}

#[test]
fn strips_bold() {
    assert_eq!(clean_text_for_tts("this is **bold** text"), "this is bold text");
}

#[test]
fn strips_italic() {
    assert_eq!(clean_text_for_tts("this is *italic* text"), "this is italic text");
}

#[test]
fn strips_headings() {
    assert_eq!(clean_text_for_tts("## Hello World"), "Hello World");
    assert_eq!(clean_text_for_tts("# H1\n## H2"), "H1\nH2");
}

#[test]
fn strips_links() {
    assert_eq!(
        clean_text_for_tts("click [here](https://example.com) now"),
        "click here now"
    );
}

#[test]
fn strips_bullet_lists() {
    let input = "items:\n- first\n- second";
    let result = clean_text_for_tts(input);
    assert!(result.contains(". first"));
    assert!(result.contains(". second"));
}

#[test]
fn strips_numbered_lists() {
    let input = "steps:\n1. first\n2. second";
    let result = clean_text_for_tts(input);
    assert!(result.contains(". first"));
    assert!(result.contains(". second"));
}

#[test]
fn strips_horizontal_rules() {
    let result = clean_text_for_tts("above\n---\nbelow");
    assert!(!result.contains("---"));
    assert!(result.contains("above"));
    assert!(result.contains("below"));
}

#[test]
fn collapses_whitespace() {
    assert_eq!(clean_text_for_tts("hello    world"), "hello world");
}

#[test]
fn cleans_double_periods() {
    assert_eq!(clean_text_for_tts("end.. start"), "end. start");
}

#[test]
fn combined_markdown() {
    let input = "# Title\n\nThis is **bold** and *italic*.\n\n```js\nconsole.log('hi');\n```\n\n- bullet one\n- [link](http://x.com)";
    let result = clean_text_for_tts(input);
    assert!(!result.contains('#'));
    assert!(!result.contains('*'));
    assert!(!result.contains("```"));
    assert!(!result.contains("http"));
    assert!(result.contains("See the code in our conversation."));
}

#[test]
fn empty_input() {
    assert_eq!(clean_text_for_tts(""), "");
}

#[test]
fn plain_text_unchanged() {
    assert_eq!(
        clean_text_for_tts("Hello, how are you today?"),
        "Hello, how are you today?"
    );
}

#[test]
fn cleaned_markdown_has_no_marks_or_double_spaces() {
    let input = "## Notes\n\n**Bold**   and *it*  `x`\n\n| a | b |\n| c | d |\n\n# End";
    let result = clean_text_for_tts(input);
    assert!(!result.contains('`'));
    assert!(!result.contains('#'));
    assert!(!result.contains('*'));
    assert!(!result.contains("| a |"));
    assert!(!result.contains("  "));
}

#[test]
fn cleaning_trims_outer_whitespace() {
    assert_eq!(clean_text_for_tts("  \t hello \n "), "hello");
    assert_eq!(clean_text_for_tts("\u{3000}wide\u{3000}"), "wide");
}

#[test]
fn cleaning_keeps_a_lone_backtick() {
    // Inline code needs a closing backtick; a single one stays.
    assert_eq!(clean_text_for_tts("a`b"), "a`b");
}

#[test]
fn cleaning_scenario_bold_and_code() {
    assert_eq!(clean_text_for_tts("**Bold** and `code` here."), "Bold and here.");
}

// ── split_text ──────────────────────────────────────────────────

#[test]
fn short_text_not_split() {
    let chunks = split_text("Hello world.", 200);
    assert_eq!(chunks, vec!["Hello world."]);
}

#[test]
fn splits_at_sentence_boundary() {
    let text = "First sentence. Second sentence. Third sentence that is long enough to push past the limit.";
    let chunks = split_text(text, 40);
    assert!(chunks.len() >= 2);
    assert!(chunks[0].ends_with('.'));
}

#[test]
fn splits_at_word_boundary() {
    let text = "word ".repeat(50);
    let chunks = split_text(text.trim(), 30);
    assert!(chunks.len() > 1);
    for chunk in &chunks {
        assert!(chunk.len() <= 30, "chunk too long: {}", chunk.len());
    }
}

#[test]
fn hard_splits_long_word() {
    let text = "a".repeat(300);
    let chunks = split_text(&text, 100);
    assert_eq!(chunks.len(), 3);
    assert_eq!(chunks[0].len(), 100);
    assert_eq!(chunks[1].len(), 100);
    assert_eq!(chunks[2].len(), 100);
}

#[test]
fn discards_tiny_trailing() {
    let text = format!("{} x", "a".repeat(198));
    let chunks = split_text(&text, 200);
    assert_eq!(chunks.len(), 1);
}

#[test]
fn preserves_all_content() {
    let text = "The quick brown fox jumps over the lazy dog. Pack my box with five dozen liquor jugs. How vexingly quick daft zebras jump.";
    let chunks = split_text(text, 50);
    let rejoined: String = chunks.join(" ");
    for word in text.split_whitespace() {
        assert!(rejoined.contains(word), "missing word: {}", word);
    }
}

#[test]
fn default_max_chunk_len() {
    assert_eq!(DEFAULT_MAX_CHUNK_LEN, 200);
}

#[test]
fn split_text_exact_cuts() {
    // The ". " at 16 is before 40 / 2, so the last space at or past 13 is used.
    let text = "Alpha beta gamma. Delta epsilon zeta eta theta iota kappa lambda";
    let chunks = split_text(text, 40);
    assert_eq!(chunks, vec!["Alpha beta gamma. Delta epsilon zeta", "eta theta iota kappa lambda"]);
    // A sentence boundary past the middle wins over a later space.
    let text = "Some words here and there. More words follow after it";
    let chunks = split_text(text, 30);
    assert_eq!(chunks, vec!["Some words here and there.", "More words follow after it"]);
}

#[test]
fn split_text_chunks_fit_and_keep_words() {
    let text = "One two three four five six seven eight nine ten eleven twelve thirteen fourteen fifteen sixteen seventeen eighteen nineteen twenty.";
    let chunks = split_text(text, 20);
    for c in &chunks {
        assert!(c.len() <= 20);
        assert!(c.len() >= 2);
    }
    let joined = chunks.join(" ");
    let words: Vec<&str> = joined.split_whitespace().collect();
    let expected: Vec<&str> = text.split_whitespace().collect();
    assert_eq!(words, expected);
}

#[test]
fn split_text_multibyte_cut_is_on_a_character() {
    let text = "é".repeat(30);
    let chunks = split_text(&text, 11);
    assert_eq!(chunks.concat(), text);
    assert_eq!(chunks[0].len(), 12);
}

// ── split_sentences ───────────────────────────────────────────

#[test]
fn split_sentences_basic() {
    let s = split_sentences("Hello world. How are you? I am fine!");
    assert_eq!(s, vec!["Hello world.", "How are you?", "I am fine!"]);
}

#[test]
fn split_sentences_paragraph_break() {
    let s = split_sentences("First paragraph.\n\nSecond paragraph.");
    assert_eq!(s, vec!["First paragraph.", "Second paragraph."]);
}

#[test]
fn split_sentences_single() {
    let s = split_sentences("Just one sentence");
    assert_eq!(s, vec!["Just one sentence"]);
}

#[test]
fn split_sentences_empty() {
    let s = split_sentences("");
    assert!(s.is_empty());
}

#[test]
fn split_sentences_trims_whitespace() {
    let s = split_sentences("  Hello.   World.  ");
    assert_eq!(s, vec!["Hello.", "World."]);
}

#[test]
fn split_sentences_mixed_punctuation() {
    let s = split_sentences("Really? Yes! OK. Done");
    assert_eq!(s, vec!["Really?", "Yes!", "OK.", "Done"]);
}

#[test]
fn split_sentences_keeps_words() {
    let text = "  Alpha beta. Gamma!\n\n\nDelta? epsilon\nzeta.  ";
    let s = split_sentences(text);
    assert_eq!(s, vec!["Alpha beta.", "Gamma!", "Delta?", "epsilon\nzeta."]);
    let mut joined: Vec<String> = s.join(" ").split_whitespace().map(|w| w.to_string()).collect();
    let mut expected: Vec<String> = text.split_whitespace().map(|w| w.to_string()).collect();
    joined.sort();
    expected.sort();
    assert_eq!(joined, expected);
}

#[test]
fn split_sentences_newline_after_period_splits() {
    let s = split_sentences("One.\nTwo.\n\nThree");
    assert_eq!(s, vec!["One.", "Two.", "Three"]);
}

#[test]
fn split_sentences_trims_unicode_whitespace() {
    assert_eq!(split_sentences("\u{3000}a"), vec!["a"]);
    assert_eq!(split_sentences("\u{a0}One. Two.\u{85}"), vec!["One.", "Two."]);
}

#[test]
fn split_text_trims_unicode_whitespace_at_cuts() {
    let text = format!("{}\u{3000}{}", "a".repeat(20), "b".repeat(20));
    // The hard cut at 22 falls inside U+3000 and moves to its end at 23.
    let chunks = split_text(&text, 22);
    assert_eq!(chunks, vec!["a".repeat(20), "b".repeat(20)]);
}

#[test]
fn split_text_never_returns_a_chunk_under_two_bytes() {
    assert!(split_text("", 20).is_empty());
    assert!(split_text("x", 20).is_empty());
    let text = format!("x{}{}", " ".repeat(30), "y".repeat(40));
    let chunks = split_text(&text, 20);
    assert_eq!(chunks, vec!["y".repeat(20), "y".repeat(20)]);
    for c in &chunks {
        assert!(c.len() >= 2);
    }
}
