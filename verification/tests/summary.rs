use kaze_nhanh::engine::check_inference_prompt;
use kaze_nhanh::error::KazeNhanhError;
use kaze_nhanh::summary::{
    build_synthesis_prompt, extract_sentences, fallback_sentence, is_noise_sentence, select_indices, sort_by_position,
};

#[test]
fn fallback_sentence_returns_first_non_empty() {
    let result = fallback_sentence("!!!\n\n有効な文です。  ");
    assert_eq!(result, Some((1, "有効な文です。".to_string())));
}

#[test]
fn fallback_sentence_of_punctuation_only_is_none() {
    assert_eq!(fallback_sentence("!!!\n？？"), None);
    assert_eq!(fallback_sentence("   "), None);
}

#[test]
fn build_synthesis_prompt_lists_sentences() {
    let prompt = build_synthesis_prompt("本文", &vec!["文1".to_string(), "文2".to_string()]);

    assert!(prompt.contains("1. 文1"));
    assert!(prompt.contains("原文"));
}

#[test]
fn synthesis_prompt_text_is_exact() {
    let prompt = build_synthesis_prompt("本文", &vec!["文1".to_string(), "文2".to_string()]);
    assert_eq!(
        prompt,
        "以下の重要文をもとに90文字程度の要約を出力してください。文体は敬体でまとめてください。\n1. 文1\n2. 文2\n\n原文:\n本文"
    );
}

#[test]
fn select_sentences_respects_threshold_but_keeps_first() {
    let ranked: Vec<(usize, f32)> = vec![(0, 0.05), (1, 0.2)];
    let threshold: f32 = 0.1;
    let passes: Vec<bool> = ranked.iter().map(|(_, score)| *score >= threshold).collect();

    let selected = select_indices(&passes, 2);

    assert_eq!(selected.len(), 2);
    assert_eq!(ranked[selected[0]].0, 0);
}

#[test]
fn selection_stops_at_the_limit_and_skips_low_scores() {
    assert_eq!(select_indices(&vec![false, false, true, true, true], 2), vec![0, 2]);
    assert_eq!(select_indices(&vec![true, true], 0), Vec::<usize>::new());
    assert_eq!(select_indices(&vec![], 3), Vec::<usize>::new());
}

#[test]
fn noise_sentences_are_punctuation_only() {
    assert!(is_noise_sentence("!？。、"));
    assert!(is_noise_sentence(""));
    assert!(!is_noise_sentence("はい。"));
}

#[test]
fn sort_by_position_is_stable() {
    let sorted = sort_by_position(&vec![(2, "c".to_string()), (0, "a".to_string()), (2, "b".to_string())]);
    assert_eq!(sorted, vec![(0, "a".to_string()), (2, "c".to_string()), (2, "b".to_string())]);
}

#[test]
fn execute_falls_back_when_no_ranked_sentences() {
    let extracted = extract_sentences(&vec![], &vec![], 5, "短い文です。").expect("fallback should succeed");

    assert_eq!(extracted, vec!["短い文です。".to_string()]);
    let prompt = build_synthesis_prompt("短い文です。", &extracted);
    assert!(prompt.contains("短い文です。"));
}

#[test]
fn extracted_sentences_follow_text_order() {
    let ranked = vec![(2, "third".to_string()), (0, "first".to_string()), (1, "second".to_string())];
    let extracted = extract_sentences(&ranked, &vec![true, true, false], 5, "first. second. third.").expect("sentences");
    assert_eq!(extracted, vec!["first".to_string(), "third".to_string()]);
}

#[test]
fn no_candidates_and_no_usable_sentence_is_an_error() {
    let error = extract_sentences(&vec![], &vec![], 5, "!!!").err().expect("error");
    assert_eq!(error, KazeNhanhError::SummarizeEngineError("lexrank produced no candidates".to_string()));
}

#[test]
fn synthesize_rejects_empty_prompt() {
    let error = check_inference_prompt("   ").err().expect("expected invalid input error");

    match error {
        KazeNhanhError::InvalidInput(message) => {
            assert!(message.contains("Prompt"));
        }
        other => panic!("unexpected error variant: {:?}", other),
    }
    assert!(check_inference_prompt(" x ").is_ok());
}
