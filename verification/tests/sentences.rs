use kaze_nhanh::sentences::{explode_sentence, is_segmentable, split_sentences};

#[test]
fn split_sentences_returns_trimmed_segments() {
    let text = "風が吹けば桶屋が儲かる。雨が降る?\n\n次の文!";

    let sentences = split_sentences(text);

    assert_eq!(
        sentences,
        vec![
            "風が吹けば桶屋が儲かる。".to_string(),
            "雨が降る?".to_string(),
            "次の文!".to_string(),
        ]
    );
}

#[test]
fn split_sentences_returns_empty_for_blank_input() {
    let sentences = split_sentences("   \n\n   ");

    assert!(sentences.is_empty());
}

#[test]
fn split_sentences_merges_multi_punctuation() {
    let text = "本当？！\n信じられない!!";

    let sentences = split_sentences(text);

    assert_eq!(
        sentences,
        vec!["本当？！".to_string(), "信じられない!!".to_string(),]
    );
}

#[test]
fn split_sentences_handles_ascii_periods_and_whitespace() {
    let text = " First sentence.   Second sentence.  ";

    let sentences = split_sentences(text);

    assert_eq!(
        sentences,
        vec![
            "First sentence.".to_string(),
            "Second sentence.".to_string(),
        ]
    );
}

#[test]
fn split_sentences_preserves_japanese_quotes() {
    let text = "「こんにちは。」今日は晴れです。";

    let sentences = split_sentences(text);

    assert_eq!(
        sentences,
        vec![
            "「こんにちは。」".to_string(),
            "今日は晴れです。".to_string(),
        ]
    );
}

#[test]
fn explode_attaches_closers_and_drops_blank_tail() {
    assert_eq!(
        explode_sentence("Hi. (ok) yes.)  "),
        vec!["Hi.".to_string(), "(ok) yes.)".to_string()]
    );
    assert_eq!(explode_sentence("?!"), vec!["?!".to_string()]);
    assert!(explode_sentence("   ").is_empty());
}

#[test]
fn segmentable_rejects_bracket_underflow_across_lines() {
    assert!(is_segmentable("「引用」です。"));
    assert!(!is_segmentable("「\n」"));
    let deep: String = "「".repeat(300);
    assert!(!is_segmentable(&deep));
}

#[test]
fn segments_are_each_split_in_order() {
    let segments = vec!["一文目。二文目！？".to_string(), "  ".to_string(), "三文目".to_string()];
    assert_eq!(
        kaze_nhanh::sentences::sentences_from_segments(&segments),
        vec!["一文目。".to_string(), "二文目！？".to_string(), "三文目".to_string()]
    );
}

#[test]
fn push_buffer_moves_the_trimmed_buffer() {
    let mut results: Vec<Vec<char>> = vec!["一文目。".chars().collect()];
    let mut buffer: Vec<char> = " ！？ ".chars().collect();
    kaze_nhanh::sentences::push_buffer(&mut results, &mut buffer);
    assert!(buffer.is_empty());
    assert_eq!(results, vec!["一文目。！？".chars().collect::<Vec<char>>()]);

    let mut buffer: Vec<char> = " 次の文 ".chars().collect();
    kaze_nhanh::sentences::push_buffer(&mut results, &mut buffer);
    assert_eq!(results.len(), 2);
    assert_eq!(results[1], "次の文".chars().collect::<Vec<char>>());

    let mut buffer: Vec<char> = "   ".chars().collect();
    kaze_nhanh::sentences::push_buffer(&mut results, &mut buffer);
    assert_eq!(results.len(), 2);
}

#[test]
fn explode_keeps_every_non_whitespace_character() {
    let segment = " 「はい。」 そう！？ で す ";
    let pieces = kaze_nhanh::sentences::explode_sentence(segment);
    let joined: String = pieces.concat().chars().filter(|c| !c.is_whitespace()).collect();
    let original: String = segment.chars().filter(|c| !c.is_whitespace()).collect();
    assert_eq!(joined, original);
    assert!(pieces.iter().all(|p| !p.is_empty() && p.trim() == p));
}

#[test]
fn trimming_follows_char_is_whitespace() {
    for c in ['\u{9}', '\u{a}', '\u{b}', '\u{c}', '\u{d}', ' ', '\u{85}', '\u{a0}', '\u{1680}', '\u{2000}', '\u{200a}', '\u{2028}', '\u{2029}', '\u{202f}', '\u{205f}', '\u{3000}', 'a', '\u{200b}', '。'] {
        let s = format!("{c}x{c}");
        assert_eq!(kaze_nhanh::text::trim_string(&s), s.trim());
    }
}

#[test]
fn segmenter_cuts_at_every_kind_of_line_break() {
    let sentences = split_sentences("  一行目\r\n\r\n二行目\r三行目\n  ");
    assert_eq!(
        sentences,
        vec!["一行目".to_string(), "二行目".to_string(), "三行目".to_string()]
    );
}

#[test]
fn splitting_keeps_every_visible_character() {
    let text = " 一行目\r\n二行目。三（四。五）六\n\n「七。」八 ";
    let joined: String = split_sentences(text).concat();
    let visible = |s: &str| s.chars().filter(|c| !c.is_whitespace()).collect::<String>();
    assert_eq!(visible(&joined), visible(text));
}
