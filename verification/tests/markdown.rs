use kaze_nhanh::error::KazeNhanhError;
use kaze_nhanh::markdown::{
    assign_section_ranges, normalize_heading_text, sections_from_events, LineOffsetMap,
    MarkdownEvent, MarkdownSection, MarkdownService,
};

#[test]
fn line_offset_map_tracks_line_counts() {
    let markdown = "# Title\nLine two\n\nLine four";
    let map = LineOffsetMap::new(markdown);

    assert_eq!(map.total_lines(), 4);
    assert_eq!(map.line_for_offset(0).unwrap(), 1);
    assert_eq!(map.line_for_offset(2).unwrap(), 1);
    assert_eq!(map.line_for_offset(8).unwrap(), 2);
    assert_eq!(map.line_for_offset(markdown.len()).unwrap(), 4);
}

#[test]
fn line_offset_map_rejects_out_of_bounds_offsets() {
    let map = LineOffsetMap::new("# Heading\n");

    let error = map.line_for_offset(1024).unwrap_err();
    let message = error.to_string();

    assert!(message.contains("byte offset"));
}

#[test]
fn normalize_heading_collapses_whitespace() {
    let normalized = normalize_heading_text("  Foo   \n  Bar\tBaz ");
    assert_eq!(normalized, "Foo Bar Baz");
}

#[test]
fn assigns_section_ranges_with_next_heading_boundaries() {
    let mut sections = vec![
        MarkdownSection::new(1, "Intro".to_string(), 1),
        MarkdownSection::new(2, "Details".to_string(), 5),
    ];

    let map = LineOffsetMap::new("# Intro\ntext\n\n## Details\ncontent\n");
    assign_section_ranges(&map, &mut sections);

    assert_eq!(sections[0].end_line(), 4);
    assert_eq!(sections[1].end_line(), 5);
}

#[test]
fn markdown_service_maps_headings_to_sections() {
    let markdown = "# Title\nLead paragraph.\n\n## Sub\nContent\n\n### Deep\nMore";
    let service = MarkdownService::new();
    let sections = service
        .map_document_structure(markdown)
        .expect("mapping should succeed");

    assert_eq!(sections.len(), 3);
    assert_eq!(sections[0].level(), 1);
    assert_eq!(sections[0].title(), "Title");
    assert_eq!(sections[0].start_line(), 1);
    assert_eq!(sections[0].end_line(), 3);

    assert_eq!(sections[1].level(), 2);
    assert_eq!(sections[1].title(), "Sub");
    assert_eq!(sections[1].start_line(), 4);
    assert_eq!(sections[1].end_line(), 6);

    assert_eq!(sections[2].level(), 3);
    assert_eq!(sections[2].title(), "Deep");
    assert_eq!(sections[2].start_line(), 7);
    assert_eq!(sections[2].end_line(), 8);
}

#[test]
fn markdown_service_handles_empty_input() {
    let service = MarkdownService::new();
    let sections = service.map_document_structure("   \n \n").unwrap();

    assert!(sections.is_empty());
}

#[test]
fn line_span_covers_multiline_ranges() {
    let map = LineOffsetMap::new("ab\ncd\nef");
    assert_eq!(map.line_span(0..2).unwrap(), (1, 1));
    assert_eq!(map.line_span(1..5).unwrap(), (1, 2));
    assert_eq!(map.line_span(3..3).unwrap(), (2, 2));
    assert_eq!(map.line_span(0..100).unwrap(), (1, 3));
    let error = map.line_span(5..2).unwrap_err();
    assert_eq!(
        error.to_string(),
        "Markdownの解析または行番号のマッピングに失敗しました: invalid offset range: 5..2"
    );
}

#[test]
fn line_offset_map_counts_multibyte_offsets() {
    let text = "見出し\n本文";
    let map = LineOffsetMap::new(text);
    assert_eq!(map.total_lines(), 2);
    assert_eq!(map.line_for_offset(9).unwrap(), 1);
    assert_eq!(map.line_for_offset(10).unwrap(), 2);
    assert_eq!(LineOffsetMap::new("").total_lines(), 0);
    assert_eq!(LineOffsetMap::new("a\n").total_lines(), 1);
}

#[test]
fn mismatched_heading_events_are_rejected() {
    let events = vec![
        MarkdownEvent::HeadingStart { level: 1, offset: 0 },
        MarkdownEvent::Fragment { text: "Title".to_string() },
        MarkdownEvent::HeadingEnd { level: 2 },
    ];
    let error = sections_from_events("# Title", &events).unwrap_err();
    assert_eq!(
        error,
        KazeNhanhError::MarkdownParseError(
            "mismatched heading tags detected".to_string()
        )
    );
}

#[test]
fn heading_text_joins_fragments_and_breaks() {
    let events = vec![
        MarkdownEvent::HeadingStart { level: 2, offset: 4 },
        MarkdownEvent::Fragment { text: "Use".to_string() },
        MarkdownEvent::Fragment { text: "code".to_string() },
        MarkdownEvent::LineBreak,
        MarkdownEvent::Other,
        MarkdownEvent::HeadingEnd { level: 2 },
    ];
    let sections = sections_from_events("x\n\n\n## Use `code`\nbody", &events).unwrap();
    assert_eq!(sections.len(), 1);
    assert_eq!(sections[0].title(), "Use code");
    assert_eq!(sections[0].start_line(), 4);
    assert_eq!(sections[0].end_line(), 5);
}

#[test]
fn line_numbers_count_line_feeds() {
    let text = "a\nb\n\nc\n";
    let map = LineOffsetMap::new(text);
    assert_eq!(map.total_lines(), text.lines().count() as u32);
    for o in 0..=text.len() {
        let feeds = text.as_bytes()[..o].iter().filter(|b| **b == b'\n').count() as u32;
        assert_eq!(map.line_for_offset(o).unwrap(), 1 + feeds);
    }
    assert_eq!(map.line_span(1..5).unwrap(), (1, 3));
    assert_eq!(map.line_span(2..2).unwrap(), (2, 2));
    assert_eq!(map.line_span(2..100).unwrap(), (2, 5));
    assert!(map.line_span(3..2).is_err());
    assert!(map.line_span(9..10).is_err());
    assert_eq!(LineOffsetMap::new("").total_lines(), 0);
}

#[test]
fn maps_depend_on_length_and_line_feeds_only() {
    assert_eq!(LineOffsetMap::new("ab\ncd"), LineOffsetMap::new("xy\nzw"));
    assert_ne!(LineOffsetMap::new("ab\ncd"), LineOffsetMap::new("a\nbcd"));
    assert_ne!(LineOffsetMap::new("ab"), LineOffsetMap::new("abc"));
}

#[test]
fn normalizing_twice_changes_nothing() {
    for input in ["  Foo   \n  Bar\tBaz ", "x", "", " \u{3000} a  b "] {
        let once = normalize_heading_text(input);
        assert_eq!(normalize_heading_text(&once), once);
        assert_eq!(once, input.split_whitespace().collect::<Vec<_>>().join(" "));
    }
}

#[test]
fn section_titles_are_normalized_and_levels_in_range() {
    let sections = MarkdownService::new().map_document_structure("# Title  one\n\n###### Deep\n").unwrap();
    assert_eq!(sections.len(), 2);
    for s in &sections {
        assert!((1..=6).contains(&s.level()));
        assert_eq!(normalize_heading_text(s.title()), s.title());
        assert!(s.start_line() <= s.end_line());
    }
    assert_eq!(sections[1].level(), 6);
}

#[test]
fn sections_follow_document_order_without_overlap() {
    let events = vec![
        MarkdownEvent::HeadingStart { level: 1, offset: 0 },
        MarkdownEvent::Fragment { text: "A".to_string() },
        MarkdownEvent::HeadingEnd { level: 1 },
        MarkdownEvent::Other,
        MarkdownEvent::HeadingStart { level: 2, offset: 10 },
        MarkdownEvent::Fragment { text: "B".to_string() },
        MarkdownEvent::HeadingEnd { level: 2 },
        MarkdownEvent::HeadingStart { level: 3, offset: 16 },
        MarkdownEvent::Fragment { text: "C".to_string() },
        MarkdownEvent::HeadingEnd { level: 3 },
    ];
    let text = "# A\nbody\n\n## B\n\n### C\ntail";
    let sections = sections_from_events(text, &events).unwrap();
    assert_eq!(sections.len(), 3);
    let lines: Vec<(u32, u32)> = sections.iter().map(|s| (s.start_line(), s.end_line())).collect();
    assert_eq!(lines, vec![(1, 3), (4, 5), (6, 7)]);
    for w in sections.windows(2) {
        assert!(w[0].start_line() < w[1].start_line());
        assert!(w[0].end_line() < w[1].start_line());
    }
}

#[test]
fn parsed_headings_come_in_document_order() {
    let text = "# A\nbody\n\n## B\r\n\r\nB text\n\nSetext\n---\n### C\ntail";
    let sections = MarkdownService::new().map_document_structure(text).unwrap();
    let lines: Vec<(u32, u32)> = sections.iter().map(|s| (s.start_line(), s.end_line())).collect();
    assert_eq!(lines, vec![(1, 3), (4, 7), (8, 9), (10, 11)]);
    assert_eq!(sections[2].title(), "Setext");
    assert_eq!(sections[2].level(), 2);
}

#[test]
fn a_lone_carriage_return_keeps_headings_on_one_line_feed_line() {
    let sections = MarkdownService::new().map_document_structure("# A\r# B").unwrap();
    let lines: Vec<(u32, u32)> = sections.iter().map(|s| (s.start_line(), s.end_line())).collect();
    assert_eq!(lines, vec![(1, 1), (1, 1)]);
}
