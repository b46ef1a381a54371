use kaze_nhanh::error::KazeNhanhError;
use kaze_nhanh::git::{
    addition_from_diff_line, aggregate_additions, count_recent, matches_extension, normalize_line_content,
    render_diff_summary, render_git_report, since_threshold, sort_lines, FileDiff, LineAddition, SECONDS_PER_DAY,
};
use kaze_nhanh::repo::{is_missing_head_reference, open_failure, GitErrorClass, GitErrorCode};

fn md() -> Vec<String> {
    vec![".md".to_string(), ".markdown".to_string()]
}

fn line(n: u32, text: &str) -> LineAddition {
    LineAddition::new(n, text.to_string())
}

fn class_of(class: git2::ErrorClass) -> GitErrorClass {
    match class {
        git2::ErrorClass::Repository => GitErrorClass::Repository,
        git2::ErrorClass::Filesystem => GitErrorClass::Filesystem,
        git2::ErrorClass::Os => GitErrorClass::Os,
        git2::ErrorClass::Reference => GitErrorClass::Reference,
        _ => GitErrorClass::Other,
    }
}

fn code_of(code: git2::ErrorCode) -> GitErrorCode {
    match code {
        git2::ErrorCode::NotFound => GitErrorCode::NotFound,
        git2::ErrorCode::GenericError => GitErrorCode::GenericError,
        git2::ErrorCode::InvalidSpec => GitErrorCode::InvalidSpec,
        git2::ErrorCode::UnbornBranch => GitErrorCode::UnbornBranch,
        _ => GitErrorCode::Other,
    }
}

#[test]
fn returns_repository_not_found_for_missing_path() {
    let repo_path = "./path/does/not/exist";
    let err = git2::Repository::open(repo_path).err().expect("expected repository lookup error");

    let error = open_failure(repo_path.to_string(), class_of(err.class()), code_of(err.code()), err.message().to_string());
    let display = error.to_string();

    match error {
        KazeNhanhError::RepositoryNotFound(ref path) => {
            assert_eq!(path, repo_path);
            assert!(display.contains("./path/does/not/exist"));
        }
        other => panic!("unexpected error variant: {:?}", other),
    }
}

#[test]
fn calculate_since_time_saturates_when_window_exceeds_now() {
    let now = std::time::SystemTime::now()
        .duration_since(std::time::SystemTime::UNIX_EPOCH)
        .map(|d| d.as_secs())
        .unwrap_or(0);
    let time = since_threshold(now, u32::MAX);
    assert_eq!(time, 0);
}

#[test]
fn since_threshold_subtracts_whole_days() {
    assert_eq!(since_threshold(10 * SECONDS_PER_DAY + 5, 3), 7 * SECONDS_PER_DAY + 5);
    assert_eq!(since_threshold(100, 1), 0);
}

#[test]
fn count_recent_stops_at_first_old_commit() {
    assert_eq!(count_recent(&vec![50, 40, 10, 45], 30), 2);
    assert_eq!(count_recent(&vec![50, 40], 30), 2);
    assert_eq!(count_recent(&vec![5, 40], 30), 0);
    assert_eq!(count_recent(&vec![], 30), 0);
}

#[test]
fn extension_matching_ignores_ascii_case() {
    assert!(matches_extension("docs/README.MD", &md()));
    assert!(matches_extension("notes.Markdown", &md()));
    assert!(!matches_extension("notes.txt", &md()));
    assert!(!matches_extension("md", &md()));
}

#[test]
fn line_content_loses_its_line_ending() {
    assert_eq!(normalize_line_content(b"Second line\r\n"), "Second line");
    assert_eq!(normalize_line_content(b"keep  \n\n"), "keep  ");
    assert_eq!(normalize_line_content(&[0x66, 0xff, 0x0a]), "f\u{fffd}");
}

#[test]
fn only_added_lines_of_matching_text_files_are_kept() {
    let exts = md();
    let kept = addition_from_diff_line(false, Some("notes.md".to_string()), None, '+', Some(3), b"new\n", &exts);
    assert_eq!(kept, Some(("notes.md".to_string(), line(3, "new"))));

    let old_path = addition_from_diff_line(false, None, Some("gone.md".to_string()), '+', Some(1), b"x\n", &exts);
    assert_eq!(old_path, Some(("gone.md".to_string(), line(1, "x"))));

    assert_eq!(addition_from_diff_line(true, Some("binary.md".to_string()), None, '+', Some(1), b"x", &exts), None);
    assert_eq!(addition_from_diff_line(false, Some("notes.txt".to_string()), None, '+', Some(1), b"x", &exts), None);
    assert_eq!(addition_from_diff_line(false, Some("notes.md".to_string()), None, '-', Some(1), b"x", &exts), None);
    assert_eq!(addition_from_diff_line(false, Some("notes.md".to_string()), None, '+', None, b"x", &exts), None);
    assert_eq!(addition_from_diff_line(false, None, None, '+', Some(1), b"x", &exts), None);
}

#[test]
fn collects_and_sorts_added_markdown_lines_across_commits() {
    let adds = vec![
        ("docs/notes.md".to_string(), line(5, "- feature b")),
        ("docs/notes.md".to_string(), line(4, "- feature a")),
    ];

    let diffs = aggregate_additions(&adds);

    assert_eq!(diffs.len(), 1);
    let diff = &diffs[0];
    assert!(diff.path.ends_with("docs/notes.md"));
    assert_eq!(diff.added_lines.len(), 2);
    assert_eq!(diff.added_lines[0].line_number, 4);
    assert_eq!(diff.added_lines[0].content, "- feature a");
    assert_eq!(diff.added_lines[1].line_number, 5);
    assert_eq!(diff.added_lines[1].content, "- feature b");
}

#[test]
fn aggregation_orders_files_by_path() {
    let adds = vec![
        ("b.md".to_string(), line(2, "y")),
        ("a.md".to_string(), line(9, "z")),
        ("b.md".to_string(), line(2, "x")),
        ("a.md".to_string(), line(1, "w")),
    ];

    let diffs = aggregate_additions(&adds);

    assert_eq!(
        diffs,
        vec![
            FileDiff::new("a.md".to_string(), vec![line(1, "w"), line(9, "z")]),
            FileDiff::new("b.md".to_string(), vec![line(2, "x"), line(2, "y")]),
        ]
    );
}

#[test]
fn aggregation_of_nothing_is_empty() {
    assert!(aggregate_additions(&vec![]).is_empty());
}

#[test]
fn sort_lines_orders_by_number_then_text() {
    let sorted = sort_lines(&vec![line(3, "b"), line(1, "z"), line(3, "a")]);
    assert_eq!(sorted, vec![line(1, "z"), line(3, "a"), line(3, "b")]);
}

#[test]
fn diff_summary_lists_at_most_ten_lines() {
    let short = FileDiff::new("notes.md".to_string(), vec![line(1, "# Title"), line(2, "Second line")]);
    assert_eq!(render_diff_summary(&short), "### notes.md\n  +1 # Title\n  +2 Second line");

    let long = FileDiff::new("long.md".to_string(), (1..=12).map(|n| line(n, "x")).collect());
    let text = render_diff_summary(&long);
    assert!(text.starts_with("### long.md\n  +1 x\n"));
    assert!(text.contains("  +10 x\n  ... (+2 more lines)"));
    assert!(!text.contains("+11 x"));
}

#[test]
fn git_report_includes_markdown_additions() {
    let diffs = vec![FileDiff::new("notes.md".to_string(), vec![line(1, "Hello")])];
    let report = render_git_report("repo", 3, &diffs);
    assert_eq!(report, "Git activity report for `repo`\n\n### notes.md\n  +1 Hello");
}

#[test]
fn git_report_without_changes_says_so() {
    assert_eq!(render_git_report(" repo ", 7, &vec![]), "No Markdown changes detected for ` repo ` in the last 7 day(s).");
}

#[test]
fn missing_head_is_recognised() {
    assert!(is_missing_head_reference(GitErrorClass::Reference, GitErrorCode::UnbornBranch));
    assert!(is_missing_head_reference(GitErrorClass::Reference, GitErrorCode::NotFound));
    assert!(!is_missing_head_reference(GitErrorClass::Repository, GitErrorCode::NotFound));
    assert!(!is_missing_head_reference(GitErrorClass::Reference, GitErrorCode::Other));
}

#[test]
fn other_open_failures_are_git_operation_errors() {
    let error = open_failure("repo".to_string(), GitErrorClass::Reference, GitErrorCode::NotFound, "boom".to_string());
    assert_eq!(error, KazeNhanhError::GitOperationError { path: "repo".to_string(), detail: "boom".to_string() });
    assert_eq!(error.to_string(), "Gitリポジトリの操作に失敗しました (パス: repo)");
}
