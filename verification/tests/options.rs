use kaze_nhanh::error::KazeNhanhError;
use kaze_nhanh::{EngineConfig, GitReportOptions};

const MODEL_BYTES: &[u8] = b"gguf-model";
const DICT_BYTES: &[u8] = b"sudachi-dictionary";
const SETTINGS_BYTES: &[u8] = br#"{"dict":"system"}"#;

fn invalid_message(options: &GitReportOptions) -> String {
    match options.validate() {
        Err(KazeNhanhError::InvalidInput(message)) => message,
        other => panic!("unexpected result: {:?}", other),
    }
}

#[test]
fn constructs_engine_config_from_static_resources() {
    let config = EngineConfig::new(MODEL_BYTES, DICT_BYTES, SETTINGS_BYTES);

    assert_eq!(config.model_bytes, MODEL_BYTES);
    assert_eq!(config.dictionary_bytes, DICT_BYTES);
    assert_eq!(config.settings_bytes, SETTINGS_BYTES);
}

#[test]
fn effective_extensions_normalize_whitespace_and_case() {
    let options = GitReportOptions {
        repo_path: ".",
        days_since: 1,
        target_extensions: Some(vec![" .MD ", ".MarkDown "]),
        custom_prompt: None,
    };

    let extensions = options.effective_extensions();

    assert_eq!(extensions, vec![".md".to_string(), ".markdown".to_string()]);
}

#[test]
fn effective_extensions_default_to_markdown() {
    let none = GitReportOptions { repo_path: ".", days_since: 1, target_extensions: None, custom_prompt: None };
    let empty = GitReportOptions { repo_path: ".", days_since: 1, target_extensions: Some(vec![]), custom_prompt: None };

    assert_eq!(none.effective_extensions(), vec![".md".to_string(), ".markdown".to_string()]);
    assert_eq!(empty.effective_extensions(), vec![".md".to_string(), ".markdown".to_string()]);
}

#[test]
fn validate_rejects_duplicate_extensions() {
    let options = GitReportOptions {
        repo_path: ".",
        days_since: 2,
        target_extensions: Some(vec![".MD", ".md"]),
        custom_prompt: Some("Focus on customer impact."),
    };

    let message = invalid_message(&options);
    assert!(message.contains("duplicates"));
}

#[test]
fn validate_accepts_trimmed_inputs() {
    let options = GitReportOptions {
        repo_path: " ./repo ",
        days_since: 7,
        target_extensions: Some(vec![" .RST ", ".md"]),
        custom_prompt: Some(" Highlight risk areas. "),
    };

    options.validate().expect("validation should succeed");
}

#[test]
fn rejects_zero_days_since() {
    let options = GitReportOptions { repo_path: ".", days_since: 0, target_extensions: None, custom_prompt: None };

    let message = invalid_message(&options);
    assert!(message.contains("days_since"));
}

#[test]
fn rejects_invalid_target_extensions_without_dot() {
    let options = GitReportOptions { repo_path: ".", days_since: 1, target_extensions: Some(vec!["md"]), custom_prompt: None };

    let message = invalid_message(&options);
    assert!(message.contains("dot"));
}

#[test]
fn rejects_duplicate_target_extensions_case_insensitive() {
    let options = GitReportOptions {
        repo_path: ".",
        days_since: 1,
        target_extensions: Some(vec![".md", ".MD"]),
        custom_prompt: None,
    };

    let message = invalid_message(&options);
    assert!(message.contains("duplicates"));
}

#[test]
fn rejects_blank_custom_prompt() {
    let options = GitReportOptions { repo_path: ".", days_since: 1, target_extensions: None, custom_prompt: Some("   ") };

    let message = invalid_message(&options);
    assert!(message.contains("custom_prompt"));
}

#[test]
fn validation_messages_name_each_problem_exactly() {
    let blank_repo = GitReportOptions { repo_path: "  ", days_since: 1, target_extensions: None, custom_prompt: None };
    assert_eq!(invalid_message(&blank_repo), "リポジトリパスが空です");

    let empty_list = GitReportOptions { repo_path: ".", days_since: 1, target_extensions: Some(vec![]), custom_prompt: None };
    assert_eq!(invalid_message(&empty_list), "target_extensions must not be empty");

    let blank_ext = GitReportOptions { repo_path: ".", days_since: 1, target_extensions: Some(vec![".md", "  "]), custom_prompt: None };
    assert_eq!(invalid_message(&blank_ext), "target_extensions contains a blank value");

    let spaced = GitReportOptions { repo_path: ".", days_since: 1, target_extensions: Some(vec![" .m d "]), custom_prompt: None };
    assert_eq!(invalid_message(&spaced), "target_extensions contain whitespace characters: `.m d`");

    let separator = GitReportOptions { repo_path: ".", days_since: 1, target_extensions: Some(vec![".md/x"]), custom_prompt: None };
    assert_eq!(invalid_message(&separator), "target_extensions must not contain path separators: `.md/x`");

    let duplicate = GitReportOptions { repo_path: ".", days_since: 1, target_extensions: Some(vec![".Md", " .mD"]), custom_prompt: None };
    assert_eq!(invalid_message(&duplicate), "target_extensions contains duplicates: `.mD`");
}

#[test]
fn first_problem_in_list_order_is_reported() {
    let options = GitReportOptions {
        repo_path: ".",
        days_since: 1,
        target_extensions: Some(vec!["md", ".a b"]),
        custom_prompt: None,
    };
    assert_eq!(invalid_message(&options), "target_extensions must start with a dot: `md`");
}
