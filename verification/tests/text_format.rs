use simplebookmarker::entry::{
    analyze_entries, format_entries, indentation, parse_line, Entry, ParseReport,
};

fn entry(page: u32, title: &str, depth: usize) -> Entry {
    Entry {
        page,
        title: title.to_string(),
        depth,
    }
}

#[test]
fn parses_supported_formats_and_filters_invalid_entries() {
    let contents = "20 ONE\n    22-Child\n\t23 - Tab child\n  24 bad indent\n0 zero\n101 too far\nnot an entry";

    assert_eq!(
        analyze_entries(contents, 100).entries,
        vec![
            Entry {
                page: 20,
                title: "ONE".to_string(),
                depth: 0,
            },
            Entry {
                page: 22,
                title: "Child".to_string(),
                depth: 1,
            },
            Entry {
                page: 23,
                title: "Tab child".to_string(),
                depth: 1,
            },
        ]
    );
}

#[test]
fn reports_entry_parse_details_for_dry_run() {
    let contents = "1-Parent\n\n    2-Child\n3-Too far\n  bad indent";

    assert_eq!(
        analyze_entries(contents, 2),
        ParseReport {
            entries: vec![
                Entry {
                    page: 1,
                    title: "Parent".to_string(),
                    depth: 0,
                },
                Entry {
                    page: 2,
                    title: "Child".to_string(),
                    depth: 1,
                },
            ],
            blank_lines: 1,
            malformed_lines: vec![5],
            out_of_range_lines: vec![(4, 3)],
        }
    );
}

#[test]
fn formats_entries_with_existing_bookmark_syntax() {
    assert_eq!(
        format_entries(&[
            Entry {
                page: 1,
                title: "Parent".to_string(),
                depth: 0,
            },
            Entry {
                page: 2,
                title: "Child".to_string(),
                depth: 1,
            },
        ]),
        "1-Parent\n    2-Child\n"
    );
}

#[test]
fn formatted_entries_read_back_unchanged() {
    let entries = vec![
        entry(1, "Introduction", 0),
        entry(3, "Background", 1),
        entry(5, "- dashed title", 2),
        entry(10, "Café chapter", 0),
        entry(12, "Skipped level", 3),
    ];
    let text = format_entries(&entries);
    let report = analyze_entries(&text, 12);
    assert_eq!(
        report,
        ParseReport {
            entries,
            blank_lines: 0,
            malformed_lines: vec![],
            out_of_range_lines: vec![],
        }
    );
}

#[test]
fn formats_deep_entries_with_four_spaces_per_level() {
    assert_eq!(format_entries(&[entry(4321, "Deep", 3)]), "            4321-Deep\n");
    assert_eq!(format_entries(&[]), "");
}

#[test]
fn splits_lines_like_str_lines() {
    // CRLF endings lose the carriage return; a final line ending adds no line.
    let report = analyze_entries("1 One\r\n2 Two\r\n\r\n", 5);
    assert_eq!(report.entries, vec![entry(1, "One", 0), entry(2, "Two", 0)]);
    assert_eq!(report.blank_lines, 1);
    // A lone carriage return at the very end is whitespace of the title.
    let report = analyze_entries("3 Three\r", 5);
    assert_eq!(report.entries, vec![entry(3, "Three", 0)]);
    assert_eq!(analyze_entries("", 5).blank_lines, 0);
    assert_eq!(analyze_entries("\n\n", 5).blank_lines, 2);
    assert_eq!(analyze_entries(" \u{3000}\t", 5).blank_lines, 1);
}

#[test]
fn parses_pages_titles_and_indentation() {
    assert_eq!(parse_line("007 - Leading zeros"), Some(entry(7, "Leading zeros", 0)));
    assert_eq!(parse_line("4294967295 Last"), Some(entry(4294967295, "Last", 0)));
    assert_eq!(parse_line("4294967296 Too big"), None);
    assert_eq!(parse_line("99999999999999999999 Far too big"), None);
    assert_eq!(parse_line("5-"), None);
    assert_eq!(parse_line("5 -   "), None);
    assert_eq!(parse_line("5--x"), Some(entry(5, "-x", 0)));
    assert_eq!(parse_line("\t    6 Mixed"), Some(entry(6, "Mixed", 2)));
    assert_eq!(parse_line("  \t6 Tab after spaces"), None);
    assert_eq!(parse_line("     6 Five spaces"), None);
    assert_eq!(parse_line("6\u{a0}Title\u{2003}"), Some(entry(6, "Title", 0)));
    assert_eq!(parse_line("x6 Title"), None);
    assert_eq!(indentation("\t\tabc"), Some((2, "abc")));
    assert_eq!(indentation("        x"), Some((2, "x")));
    assert_eq!(indentation("   x"), None);
    assert_eq!(indentation(" \tx"), None);
    assert_eq!(indentation(""), Some((0, "")));
}

#[test]
fn counts_every_kind_of_line() {
    let report = analyze_entries("0 zero\n1 a\n\n9 beyond\n1\n   \n2 b", 3);
    assert_eq!(report.entries, vec![entry(1, "a", 0), entry(2, "b", 0)]);
    assert_eq!(report.blank_lines, 2);
    assert_eq!(report.malformed_lines, vec![1, 5]);
    assert_eq!(report.out_of_range_lines, vec![(4, 9)]);
}

#[test]
fn reading_written_entries_again_changes_nothing() {
    let text = "1 - Intro \n\t2 Child\n  bad\n\n        3-Deep  \n9 far\n";
    let first = analyze_entries(text, 5);
    let second = analyze_entries(&format_entries(&first.entries), 5);
    assert_eq!(second.entries, first.entries);
    assert_eq!(second.blank_lines, 0);
    assert!(second.malformed_lines.is_empty());
    assert!(second.out_of_range_lines.is_empty());
}

#[test]
fn formatting_runs_one_after_another() {
    let a = vec![entry(1, "One", 0), entry(2, "Two", 1)];
    let b = vec![entry(3, "Three", 2)];
    let both: Vec<Entry> = a.iter().chain(b.iter()).cloned().collect();
    assert_eq!(
        format_entries(&both),
        format_entries(&a) + &format_entries(&b)
    );
    assert_eq!(format_entries(&[]), "");
}

#[test]
fn tabs_and_four_spaces_read_back_as_levels() {
    for depth in 0..4usize {
        let spaces = format!("{}7 Title", "    ".repeat(depth));
        let tabs = format!("{}7 Title", "\t".repeat(depth));
        assert_eq!(indentation(&spaces), Some((depth, "7 Title")));
        assert_eq!(indentation(&tabs), Some((depth, "7 Title")));
        assert_eq!(parse_line(&tabs), Some(entry(7, "Title", depth)));
    }
    // Mixed levels: at least one and at most four characters per level.
    assert_eq!(indentation("\t    \tx"), Some((3, "x")));
}

#[test]
fn a_parsed_title_is_a_trimmed_piece_of_its_line() {
    let line = "\t12 -  Général  ";
    let parsed = parse_line(line).unwrap();
    assert_eq!(parsed.title, "Général");
    assert!(line.contains(&parsed.title));
    assert_eq!(parsed.title, parsed.title.trim());
}

#[test]
fn fewer_pages_move_entries_out_of_range_only() {
    let text = "1 a\n\n5 b\nbad\n3 c\n9 d";
    let wide = analyze_entries(text, 10);
    let narrow = analyze_entries(text, 3);
    assert_eq!(narrow.blank_lines, wide.blank_lines);
    assert_eq!(narrow.malformed_lines, wide.malformed_lines);
    let within: Vec<Entry> = wide.entries.iter().filter(|e| e.page <= 3).cloned().collect();
    assert_eq!(narrow.entries, within);
    assert_eq!(
        narrow.entries.len() + narrow.out_of_range_lines.len(),
        wide.entries.len() + wide.out_of_range_lines.len()
    );
    assert_eq!(narrow.out_of_range_lines, vec![(3, 5), (6, 9)]);
}
