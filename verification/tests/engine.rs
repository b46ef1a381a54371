use kaze_nhanh::engine::{check_document, important_sentences, summarizer_input, summary_details, synthesis_input, HybridSummary};
use kaze_nhanh::error::KazeNhanhError;

#[test]
fn summarizer_input_is_trimmed_text() {
    assert_eq!(summarizer_input("  本文。 "), Ok("本文。".to_string()));
    assert_eq!(
        summarizer_input(" \n"),
        Err(KazeNhanhError::InvalidInput("HybridSummarizer::execute received empty text".to_string()))
    );
}

#[test]
fn blank_documents_are_refused() {
    assert!(check_document("text").is_ok());
    assert_eq!(
        check_document("   "),
        Err(KazeNhanhError::InvalidInput("summarize_document received empty text".to_string()))
    );
}

#[test]
fn summary_details_require_a_synthesis() {
    let with = HybridSummary::new(vec!["a".to_string()], Some("s".to_string()));
    assert_eq!(summary_details(with), Ok((vec!["a".to_string()], "s".to_string())));

    let without = HybridSummary::new(vec!["a".to_string()], None);
    assert_eq!(
        summary_details(without),
        Err(KazeNhanhError::SummarizeEngineError("hybrid summarizer produced no synthesis".to_string()))
    );
}

#[test]
fn synthesis_input_joins_trimmed_non_blank_sentences() {
    assert_eq!(synthesis_input(vec![" a ".to_string(), "  ".to_string(), "b".to_string()]), Ok("a\nb".to_string()));
    assert_eq!(
        synthesis_input(vec![]),
        Err(KazeNhanhError::InvalidInput("synthesize_summary requires at least one sentence".to_string()))
    );
    assert_eq!(
        synthesis_input(vec![" ".to_string()]),
        Err(KazeNhanhError::InvalidInput("synthesize_summary received only blank sentences".to_string()))
    );
}

#[test]
fn important_sentences_take_the_first_ones() {
    let text = "風が吹けば桶屋が儲かる。雨が降る?\n\n次の文!";
    assert_eq!(
        important_sentences(text, 2),
        Ok(vec!["風が吹けば桶屋が儲かる。".to_string(), "雨が降る?".to_string()])
    );
    assert_eq!(important_sentences(text, 0), Ok(vec![]));
    assert_eq!(important_sentences(text, 10).map(|v| v.len()), Ok(3));
    assert_eq!(
        important_sentences("  ", 1),
        Err(KazeNhanhError::InvalidInput("extract_important_sentences received empty text".to_string()))
    );
}
