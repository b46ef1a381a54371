use std::collections::HashMap;

use kaze_nhanh::nodes::{build_sentence_nodes, SentencePreprocessorOptions, SentenceTokenizer};
use kaze_nhanh::TokenizedMorpheme;

#[derive(Default)]
struct StubTokenizer {
    responses: HashMap<String, Vec<TokenizedMorpheme>>,
}

impl StubTokenizer {
    fn with_response(mut self, key: &str, value: Vec<TokenizedMorpheme>) -> Self {
        self.responses.insert(key.to_string(), value);
        self
    }
}

impl SentenceTokenizer for StubTokenizer {
    fn tokenize(&self, text: &str) -> Result<Vec<TokenizedMorpheme>, String> {
        Ok(self.responses.get(text).cloned().unwrap_or_else(Vec::new))
    }
}

struct FailingTokenizer;

impl SentenceTokenizer for FailingTokenizer {
    fn tokenize(&self, _text: &str) -> Result<Vec<TokenizedMorpheme>, String> {
        Err("analysis failed".to_string())
    }
}

fn morpheme(surface: &str, normalized: &str, pos0: &str) -> TokenizedMorpheme {
    TokenizedMorpheme::new(
        surface.to_string(),
        normalized.to_string(),
        normalized.to_string(),
        surface.to_string(),
        vec![pos0.to_string()],
        0,
        false,
        0,
        surface.len(),
        0,
        surface.len(),
        Vec::new(),
        1,
    )
}

#[test]
fn filters_short_sentences_and_stopwords() {
    let tokenizer = StubTokenizer::default()
        .with_response(
            "要約対象の文章は十分な長さを持ちます。",
            vec![
                morpheme("要約", "要約", "名詞"),
                morpheme("対象", "対象", "名詞"),
                morpheme("文章", "文章", "名詞"),
            ],
        )
        .with_response(
            "これは二文目で詳細を述べています。",
            vec![
                morpheme("これ", "これ", "名詞"),
                morpheme("二文", "二文", "名詞"),
                morpheme("詳細", "詳細", "名詞"),
            ],
        );
    let options = SentencePreprocessorOptions::new(10, 3);

    let text = "要約対象の文章は十分な長さを持ちます。これは二文目で詳細を述べています。";
    let nodes = build_sentence_nodes(&tokenizer, text, &options).expect("tokens");

    assert!(!nodes.is_empty());
    assert!(nodes.iter().all(|node| node.text.chars().count() >= 10));
    assert!(nodes.iter().flat_map(|node| node.tokens.iter()).all(|token| token != "する"));
}

#[test]
fn clamps_token_frequencies() {
    let tokenizer = StubTokenizer::default().with_response(
        "テストテストテストテスト。",
        vec![
            morpheme("テスト", "テスト", "名詞"),
            morpheme("テスト", "テスト", "名詞"),
            morpheme("テスト", "テスト", "名詞"),
            morpheme("テスト", "テスト", "名詞"),
        ],
    );
    let options = SentencePreprocessorOptions::new(2, 1);

    let text = "テストテストテストテスト。";
    let nodes = build_sentence_nodes(&tokenizer, text, &options).expect("tokens");

    assert_eq!(nodes.len(), 1);
    let node = &nodes[0];
    assert!(node.bag_of_words.iter().all(|(_, value)| *value == 1));
}

#[test]
fn skips_sentences_without_tokens() {
    let tokenizer = StubTokenizer::default();
    let options = SentencePreprocessorOptions::new(2, 2);

    let text = "!!!";
    let nodes = build_sentence_nodes(&tokenizer, text, &options).expect("tokens");

    assert!(nodes.is_empty());
}

#[test]
fn stopwords_are_dropped_and_counts_kept_in_first_seen_order() {
    let tokenizer = StubTokenizer::default().with_response(
        "これは言語と言語の話です。",
        vec![
            morpheme("これ", "これ", "名詞"),
            morpheme("言語", "言語", "名詞"),
            morpheme("話", "話", "名詞"),
            morpheme("言語", "言語", "名詞"),
        ],
    );
    let options = SentencePreprocessorOptions::new(2, 5);

    let nodes = build_sentence_nodes(&tokenizer, "これは言語と言語の話です。", &options).expect("tokens");

    assert_eq!(nodes.len(), 1);
    assert_eq!(nodes[0].position, 0);
    assert_eq!(nodes[0].tokens, vec!["言語".to_string(), "話".to_string(), "言語".to_string()]);
    assert_eq!(nodes[0].bag_of_words, vec![("言語".to_string(), 2), ("話".to_string(), 1)]);
}

#[test]
fn tokenizer_errors_end_preparation() {
    let options = SentencePreprocessorOptions::new(2, 2);
    let result = build_sentence_nodes(&FailingTokenizer, "十分に長い文です。", &options);
    assert_eq!(result.err(), Some("analysis failed".to_string()));
}

#[test]
fn text_without_candidates_is_never_analysed() {
    let options = SentencePreprocessorOptions::new(50, 2);
    let nodes = build_sentence_nodes(&FailingTokenizer, "短い文です。", &options).expect("no analysis needed");
    assert!(nodes.is_empty());
}

struct RecordingTokenizer {
    seen: std::cell::RefCell<Vec<String>>,
    fail_on: Option<String>,
}

impl SentenceTokenizer for RecordingTokenizer {
    fn tokenize(&self, text: &str) -> Result<Vec<TokenizedMorpheme>, String> {
        self.seen.borrow_mut().push(text.to_string());
        if self.fail_on.as_deref() == Some(text) {
            return Err(format!("cannot analyse {text}"));
        }
        Ok(vec![morpheme("語", "語", "名詞")])
    }
}

#[test]
fn each_candidate_text_goes_to_the_tokenizer_in_order() {
    let tokenizer = RecordingTokenizer { seen: std::cell::RefCell::new(Vec::new()), fail_on: None };
    let options = SentencePreprocessorOptions::new(3, 2);
    let nodes = build_sentence_nodes(&tokenizer, " 一つ目の文。短。 二つ目の文！", &options).expect("nodes");
    assert_eq!(*tokenizer.seen.borrow(), vec!["一つ目の文。".to_string(), "二つ目の文！".to_string()]);
    assert_eq!(nodes.iter().map(|n| n.position).collect::<Vec<_>>(), vec![0, 2]);
}

#[test]
fn the_first_tokenizer_error_stops_preparation() {
    let tokenizer = RecordingTokenizer {
        seen: std::cell::RefCell::new(Vec::new()),
        fail_on: Some("二つ目の文。".to_string()),
    };
    let options = SentencePreprocessorOptions::new(3, 2);
    let result = build_sentence_nodes(&tokenizer, "一つ目の文。二つ目の文。三つ目の文。", &options);
    assert_eq!(result.err(), Some("cannot analyse 二つ目の文。".to_string()));
    assert_eq!(tokenizer.seen.borrow().len(), 2);
}
