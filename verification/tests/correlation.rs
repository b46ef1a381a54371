use kaze_nhanh::correlation::{correlate, find_section, group_by_section, ContextualAddition, ContextualChange, DiffIngestionEntry};
use kaze_nhanh::git::LineAddition;
use kaze_nhanh::markdown::{MarkdownSection, MarkdownService};

fn make_entry(document: &str, added: &[(u32, &str)]) -> DiffIngestionEntry {
    let service = MarkdownService::new();
    let sections = service.map_document_structure(document).expect("failed to parse document");

    DiffIngestionEntry {
        file_path: "docs/changes.md".to_string(),
        added_lines: added.iter().map(|(line, text)| LineAddition { line_number: *line, content: text.to_string() }).collect(),
        sections,
        document: document.to_string(),
    }
}

#[test]
fn correlates_lines_with_matching_sections() {
    let document = "# Title\n\n## Summary\nNew insights\n\n## Details\nMore text\n";
    let entry = make_entry(document, &[(3, "- add summary bullet"), (6, "- add detail")]);

    let changes = correlate(&vec![entry]);

    assert_eq!(changes.len(), 2);

    let summary = changes
        .iter()
        .find(|change| change.section_title.as_deref() == Some("Summary"))
        .expect("missing summary change");
    assert_eq!(summary.added_lines.len(), 1);
    assert_eq!(summary.added_lines[0].line_number, 3);

    let details = changes
        .iter()
        .find(|change| change.section_title.as_deref() == Some("Details"))
        .expect("missing details change");
    assert_eq!(details.added_lines[0].line_number, 6);
}

#[test]
fn assigns_lines_without_section_to_default_group() {
    let document = "Intro text\nSecond line\n";
    let entry = make_entry(document, &[(1, "- new intro line"), (2, "- another line")]);

    let changes = correlate(&vec![entry]);

    assert_eq!(changes.len(), 1);
    let change = &changes[0];
    assert!(change.section_title.is_none());
    assert_eq!(change.added_lines.len(), 2);
    assert_eq!(change.added_lines[0].content, "- new intro line");
}

#[test]
fn collapses_multiple_lines_in_same_section() {
    let document = "# Title\n\n## Summary\nLine\n";
    let entry = make_entry(document, &[(3, "- first"), (4, "- second")]);

    let changes = correlate(&vec![entry]);

    assert_eq!(changes.len(), 1);
    let summary = &changes[0];
    assert_eq!(summary.section_title.as_deref(), Some("Summary"));
    assert_eq!(summary.added_lines.len(), 2);
}

#[test]
fn groups_come_in_section_order_with_lines_in_added_order() {
    let document = "intro\n# A\nx\n# B\ny\n";
    let entry = make_entry(document, &[(5, "b1"), (1, "i"), (3, "a"), (4, "b0")]);

    let changes = group_by_section(&entry);

    let expected = vec![
        ContextualChange {
            file_path: "docs/changes.md".to_string(),
            section_title: None,
            section_level: None,
            added_lines: vec![ContextualAddition { line_number: 1, content: "i".to_string() }],
        },
        ContextualChange {
            file_path: "docs/changes.md".to_string(),
            section_title: Some("A".to_string()),
            section_level: Some(1),
            added_lines: vec![ContextualAddition { line_number: 3, content: "a".to_string() }],
        },
        ContextualChange {
            file_path: "docs/changes.md".to_string(),
            section_title: Some("B".to_string()),
            section_level: Some(1),
            added_lines: vec![
                ContextualAddition { line_number: 5, content: "b1".to_string() },
                ContextualAddition { line_number: 4, content: "b0".to_string() },
            ],
        },
    ];
    assert_eq!(changes, expected);
}

#[test]
fn entries_without_lines_contribute_nothing() {
    let empty = make_entry("# A\n", &[]);
    let full = make_entry("# A\n", &[(1, "x")]);

    let changes = correlate(&vec![empty, full]);

    assert_eq!(changes.len(), 1);
    assert_eq!(changes[0].section_title.as_deref(), Some("A"));
}

#[test]
fn the_latest_covering_section_wins() {
    let mut outer = MarkdownSection::new(1, "Outer".to_string(), 1);
    let inner = MarkdownSection::new(2, "Inner".to_string(), 3);
    let stray = MarkdownSection::new(2, "Stray".to_string(), 9);
    let sections = vec![outer.clone(), inner, stray];
    assert_eq!(find_section(&sections, 3), Some(1));
    assert_eq!(find_section(&sections, 1), Some(0));
    assert_eq!(find_section(&sections, 2), None);
    outer = MarkdownSection::new(1, "Outer".to_string(), 0);
    assert_eq!(find_section(&vec![outer], 0), Some(0));
    assert_eq!(find_section(&vec![], 4), None);
}
