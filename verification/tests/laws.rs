use kaze_nhanh::correlation::{correlate, DiffIngestionEntry};
use kaze_nhanh::generation::TokenWindow;
use kaze_nhanh::git::{aggregate_additions, LineAddition};
use kaze_nhanh::markdown::{assign_section_ranges, normalize_heading_text, LineOffsetMap, MarkdownSection, MarkdownService};
use kaze_nhanh::sentences::split_sentences;
use kaze_nhanh::summary::select_indices;
use kaze_nhanh::GitReportOptions;

#[test]
fn line_numbers_never_decrease_with_offsets() {
    let text = "# A\n\nline three\nend";
    let map = LineOffsetMap::new(text);
    let lines: Vec<u32> = (0..=text.len()).map(|o| map.line_for_offset(o).unwrap()).collect();
    assert!(lines.iter().all(|l| *l >= 1));
    assert!(lines.windows(2).all(|w| w[0] <= w[1]));
    assert_eq!(lines[0], 1);
    assert_eq!(*lines.last().unwrap(), 4);
}

#[test]
fn normalized_titles_have_single_inner_spaces() {
    let title = normalize_heading_text("\t Deep \u{3000} dive\n into   it  ");
    assert_eq!(title, "Deep dive into it");
    assert!(!title.contains("  "));
    assert!(!title.starts_with(' ') && !title.ends_with(' '));
}

#[test]
fn section_ranges_do_not_overlap() {
    let map = LineOffsetMap::new("# A\nx\n# B\ny\n# C\nz");
    let mut sections = vec![
        MarkdownSection::new(1, "A".to_string(), 1),
        MarkdownSection::new(1, "B".to_string(), 3),
        MarkdownSection::new(1, "C".to_string(), 5),
    ];
    assign_section_ranges(&map, &mut sections);
    for pair in sections.windows(2) {
        assert!(pair[0].start_line() <= pair[0].end_line());
        assert!(pair[0].end_line() < pair[1].start_line());
    }
    assert_eq!(sections[2].end_line(), 6);
}

#[test]
fn every_sentence_is_trimmed_and_non_empty() {
    let text = "  一文目です。  二文目！？\n\n 「三文目。」 last one ";
    let sentences = split_sentences(text);
    assert!(!sentences.is_empty());
    for s in &sentences {
        assert!(!s.is_empty());
        assert_eq!(s.trim(), s);
    }
}

#[test]
fn correlation_keeps_every_added_line() {
    let document = "intro\n# A\nx\n## B\ny\n";
    let sections = MarkdownService::new().map_document_structure(document).unwrap();
    let added = vec![(1, "i"), (3, "a"), (5, "b"), (4, "h")];
    let entry = DiffIngestionEntry::new(
        "f.md".to_string(),
        added.iter().map(|(n, t)| LineAddition::new(*n, t.to_string())).collect(),
        sections,
        document.to_string(),
    );
    let changes = correlate(&vec![entry]);
    let listed: usize = changes.iter().map(|c| c.added_lines.len()).sum();
    assert_eq!(listed, added.len());
    assert!(changes.iter().all(|c| !c.added_lines.is_empty()));
}

#[test]
fn aggregation_keeps_every_added_line() {
    let adds = vec![
        ("z.md".to_string(), LineAddition::new(1, "a".to_string())),
        ("y.md".to_string(), LineAddition::new(2, "b".to_string())),
        ("z.md".to_string(), LineAddition::new(1, "a".to_string())),
    ];
    let files = aggregate_additions(&adds);
    let total: usize = files.iter().map(|f| f.added_lines.len()).sum();
    assert_eq!(total, 3);
    assert!(files.windows(2).all(|w| w[0].path < w[1].path));
}

#[test]
fn valid_options_yield_clean_distinct_extensions() {
    let options = GitReportOptions {
        repo_path: "repo",
        days_since: 1,
        target_extensions: Some(vec![" .MD", ".Rst "]),
        custom_prompt: None,
    };
    options.validate().unwrap();
    let exts = options.effective_extensions();
    assert_eq!(exts, vec![".md".to_string(), ".rst".to_string()]);
    assert!(exts.iter().all(|e| e.starts_with('.') && !e.contains(' ')));
}

#[test]
fn selection_keeps_the_best_candidate() {
    assert_eq!(select_indices(&vec![false, false], 3), vec![0]);
}

#[test]
fn window_never_exceeds_its_limit() {
    let mut w = TokenWindow::new(vec![1, 2], 2, 128);
    for t in 10..20 {
        assert!(w.accept(t, None));
        let (input, _) = w.step_input(0);
        assert!(input.len() <= 2);
        assert_eq!(*input.last().unwrap(), t);
    }
}
