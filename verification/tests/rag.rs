use kaze_nhanh::correlation::{ContextualAddition, ContextualChange, DiffIngestionEntry};
use kaze_nhanh::error::KazeNhanhError;
use kaze_nhanh::git::LineAddition;
use kaze_nhanh::markdown::MarkdownService;
use kaze_nhanh::rag::{finish_report, plan_report, settle_request, DiffIngestionResult, RagPlan};
use kaze_nhanh::{GitNativeRagContent, GitNativeRagReport};

fn entry(path: &str, document: &str, added: &[(u32, &str)]) -> DiffIngestionEntry {
    let sections = MarkdownService::new().map_document_structure(document).expect("parse");
    DiffIngestionEntry::new(
        path.to_string(),
        added.iter().map(|(n, t)| LineAddition::new(*n, t.to_string())).collect(),
        sections,
        document.to_string(),
    )
}

fn change() -> ContextualChange {
    ContextualChange {
        file_path: "a.md".to_string(),
        section_title: None,
        section_level: None,
        added_lines: vec![ContextualAddition { line_number: 1, content: "x".to_string() }],
    }
}

#[test]
fn execute_returns_fallback_when_no_changes() {
    let plan = plan_report(DiffIngestionResult::empty("repo".to_string()), 7, None);

    match plan {
        RagPlan::Fallback(report) => {
            match report.content {
                GitNativeRagContent::Fallback { ref message } => {
                    assert!(message.contains("No relevant"));
                }
                GitNativeRagContent::Synthesized { .. } => panic!("expected fallback, found synthesized"),
            }
            assert!(report.contextual_changes.is_empty());
            assert_eq!(report.repo_path, "repo");
        }
        RagPlan::Synthesize { .. } => panic!("expected a fallback"),
    }
}

#[test]
fn entries_without_added_lines_fall_back() {
    let ingestion = DiffIngestionResult::new("repo".to_string(), vec![entry("a.md", "# A\n", &[])]);
    assert!(matches!(plan_report(ingestion, 3, None), RagPlan::Fallback(_)));
}

#[test]
fn execute_runs_inference_for_changes() {
    let document = "# Title\n\n## Summary\n- initial\n- added point\n";
    let ingestion = DiffIngestionResult::new(
        "repo".to_string(),
        vec![entry("docs/changelog.md", document, &[(5, "- added point")])],
    );

    match plan_report(ingestion, 7, Some("Stress customer impact.")) {
        RagPlan::Synthesize { repo_path, changes, prompt } => {
            assert_eq!(repo_path, "repo");
            assert!(prompt.contains("File: docs/changelog.md"));
            assert!(prompt.contains("Stress customer impact"));
            assert_eq!(changes.len(), 1);
            assert_eq!(changes[0].section_title.as_deref(), Some("Summary"));
            let report = finish_report(repo_path, changes, prompt, Ok("[mock-bytes:5] summary".to_string())).expect("report");
            match report.content {
                GitNativeRagContent::Synthesized { ref summary, .. } => assert!(summary.contains("mock-bytes")),
                GitNativeRagContent::Fallback { .. } => panic!("expected synthesized result, found fallback"),
            }
            assert!(!report.contextual_changes.is_empty());
        }
        RagPlan::Fallback(_) => panic!("expected synthesis"),
    }
}

#[test]
fn failed_inference_falls_back_with_the_reason() {
    let report = finish_report(
        "repo".to_string(),
        vec![change()],
        "prompt".to_string(),
        Err(KazeNhanhError::ModelInferenceError { detail: "mock inference failure".to_string() }),
    )
    .expect("fallback report");
    assert!(report.contextual_changes.is_empty());
    assert_eq!(
        report.content,
        GitNativeRagContent::Fallback {
            message: "GitNativeRAG could not produce a summary for `repo`: AIモデルでの推論（合成）中にエラーが発生しました".to_string()
        }
    );
}

#[test]
fn other_inference_errors_end_the_run() {
    let error = KazeNhanhError::SummarizeEngineError("x".to_string());
    let result = finish_report("repo".to_string(), vec![change()], "p".to_string(), Err(error.clone()));
    assert_eq!(result, Err(error));
}

#[test]
fn invalid_requests_become_fallback_reports() {
    let settled = settle_request(" repo ", Err(KazeNhanhError::InvalidInput("days_since must be greater than 0".to_string())))
        .expect("fallback");
    assert_eq!(
        settled,
        GitNativeRagReport::fallback(
            "repo".to_string(),
            "GitNativeRAG request was invalid for `repo`: days_since must be greater than 0".to_string()
        )
    );

    let passed = settle_request("repo", Err(KazeNhanhError::RepositoryNotFound("repo".to_string())));
    assert_eq!(passed, Err(KazeNhanhError::RepositoryNotFound("repo".to_string())));
}
