use kaze_nhanh::correlation::{ContextualAddition, ContextualChange};
use kaze_nhanh::prompt::{build_prompt, fallback_message};

const FALLBACK_SECTION_TITLE: &str = "(no heading)";

fn sample_change(section: Option<&str>) -> ContextualChange {
    ContextualChange {
        file_path: "docs/guide.md".to_string(),
        section_title: section.map(|s| s.to_string()),
        section_level: section.map(|_| 2),
        added_lines: vec![ContextualAddition { line_number: 12, content: "- new bullet".to_string() }],
    }
}

fn change(path: &str, title: Option<&str>, lines: &[(u32, &str)]) -> ContextualChange {
    ContextualChange {
        file_path: path.to_string(),
        section_title: title.map(|s| s.to_string()),
        section_level: title.map(|_| 1),
        added_lines: lines.iter().map(|(n, t)| ContextualAddition { line_number: *n, content: t.to_string() }).collect(),
    }
}

#[test]
fn build_prompt_includes_custom_guidance_and_changes() {
    let changes = vec![sample_change(Some("Summary"))];

    let prompt = build_prompt("repo", 3, &changes, Some("Emphasize user-facing impact."));

    assert!(prompt.contains("Repository: repo"));
    assert!(prompt.contains("Additional Analyst Guidance"));
    assert!(prompt.contains("Summary"));
    assert!(prompt.contains("- new bullet"));
}

#[test]
fn build_prompt_handles_missing_headings() {
    let changes = vec![sample_change(None)];

    let prompt = build_prompt("repo", 5, &changes, None);

    assert!(prompt.contains(FALLBACK_SECTION_TITLE));
}

#[test]
fn fallback_message_formats_repository_and_window() {
    let message = fallback_message("repo", 7);

    assert!(message.contains("repo"));
    assert!(message.contains("7"));
}

#[test]
fn fallback_message_text_is_exact() {
    assert_eq!(
        fallback_message("  repo ", 7),
        "No relevant Markdown additions detected for `repo` within the last 7 day(s)."
    );
}

#[test]
fn prompt_text_is_exact() {
    let changes = vec![sample_change(Some("Summary"))];
    let prompt = build_prompt(" repo ", 3, &changes, Some("  Be brief. "));
    let expected = "You are an AI assistant that reviews Git markdown changes and produces actionable insights.\n\
Repository: repo\nTime Window: Last 3 day(s)\n\n\
Additional Analyst Guidance:\nBe brief.\n\n\
Summarize the following contextualized changes. Focus on intent, potential impact, and highlight any documentation or testing gaps.\n\n\
File: docs/guide.md\n  Section: Summary (level 2)\n    +12 - new bullet";
    assert_eq!(prompt, expected);
}

#[test]
fn files_are_listed_in_path_order_with_their_changes_in_order() {
    let changes = vec![
        change("b.md", Some("B1"), &[(1, " one ")]),
        change("a.md", None, &[(2, "two")]),
        change("b.md", Some("B2"), &[(3, "three")]),
    ];
    let prompt = build_prompt("r", 1, &changes, Some("   "));
    assert!(!prompt.contains("Additional Analyst Guidance"));
    let tail = prompt.split("gaps.\n\n").nth(1).expect("files follow the instructions");
    assert_eq!(
        tail,
        "File: a.md\n  Section: (no heading)\n    +2 two\n\n\
File: b.md\n  Section: B1 (level 1)\n    +1 one\n\n  Section: B2 (level 1)\n    +3 three"
    );
}
