use kaze_nhanh::morpheme::{is_content_word, normalize_token, preferred_form};
use kaze_nhanh::TokenizedMorpheme;

fn morpheme(surface: &str, dictionary: &str, normalized: &str, pos: &[&str]) -> TokenizedMorpheme {
    TokenizedMorpheme::new(
        surface.to_string(),
        dictionary.to_string(),
        normalized.to_string(),
        surface.to_string(),
        pos.iter().map(|p| p.to_string()).collect(),
        0,
        false,
        0,
        surface.len(),
        0,
        surface.chars().count(),
        Vec::new(),
        1,
    )
}

#[test]
fn tokenized_morpheme_accessors_return_expected_values() {
    let morpheme = TokenizedMorpheme::new(
        "cat".to_string(),
        "cat".to_string(),
        "cat".to_string(),
        "cat".to_string(),
        vec!["noun".to_string(), "common".to_string()],
        0,
        false,
        0,
        3,
        0,
        2,
        vec![1, 2],
        42,
    );

    assert_eq!(morpheme.surface(), "cat");
    assert_eq!(morpheme.dictionary_form(), "cat");
    assert_eq!(morpheme.normalized_form(), "cat");
    assert_eq!(morpheme.reading_form(), "cat");
    assert_eq!(morpheme.part_of_speech()[0], "noun");
    assert_eq!(morpheme.dictionary_id(), 0);
    assert!(!morpheme.is_oov());
    assert_eq!(morpheme.begin(), 0);
    assert_eq!(morpheme.end(), 3);
    assert_eq!(morpheme.begin_c(), 0);
    assert_eq!(morpheme.end_c(), 2);
    assert_eq!(morpheme.synonym_group_ids(), &[1, 2]);
    assert_eq!(morpheme.total_cost(), 42);
}

#[test]
fn content_words_are_nouns_verbs_adjectives_or_latin() {
    assert!(is_content_word(&morpheme("言語", "言語", "言語", &["名詞"])));
    assert!(is_content_word(&morpheme("走る", "走る", "走る", &["動詞"])));
    assert!(!is_content_word(&morpheme("は", "は", "は", &["助詞"])));
    assert!(is_content_word(&morpheme("Rust", "Rust", "Rust", &["記号"])));
}

#[test]
fn preferred_form_falls_back_from_normalized_to_dictionary_to_surface() {
    assert_eq!(preferred_form(&morpheme("走っ", "走る", "走る", &["動詞"])), Some("走る".to_string()));
    assert_eq!(preferred_form(&morpheme("走っ", "走る", "*", &["動詞"])), Some("走る".to_string()));
    assert_eq!(preferred_form(&morpheme("走っ", "*", " ", &["動詞"])), Some("走っ".to_string()));
}

#[test]
fn normalize_token_drops_function_words_and_lowercases_ascii() {
    assert_eq!(normalize_token(&morpheme("Rust", "Rust", "Rust", &["名詞"])), Some("rust".to_string()));
    assert_eq!(normalize_token(&morpheme("は", "は", "は", &["助詞"])), None);
}
