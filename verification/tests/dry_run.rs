use simplebookmarker::cli::{ExistingPolicy, Paths};
use simplebookmarker::entry::analyze_entries;
use simplebookmarker::report::dry_run_report;

#[test]
fn prints_the_dry_run_report() {
    let paths = Paths {
        input: "book.pdf".to_string(),
        bookmarks: "book.txt".to_string(),
        output: "book_bm.pdf".to_string(),
    };
    let report = analyze_entries("1-Parent\n\n    2-Child\n3-Too far\n  bad indent", 2);
    let text = dry_run_report(&paths, 2, 4, &report, ExistingPolicy::Create, false);
    assert_eq!(
        text,
        "Dry run: no PDF will be written\n\
         Input PDF: book.pdf\n\
         Bookmark text: book.txt\n\
         PDF pages: 2\n\
         Existing PDF bookmarks: 4\n\
         Existing bookmark policy: Create\n\
         Would write PDF: book_bm.pdf\n\
         Valid entries: 2\n\
         \x20 page 1 depth 0 title Parent\n\
         \x20 page 2 depth 1 title Child\n\
         Blank lines: 1\n\
         Malformed lines: 1\n\
         \x20 line 5: malformed or unsupported indentation\n\
         Out-of-range entries: 1\n\
         \x20 line 4: page 3 is outside 1..=2\n"
    );
}

#[test]
fn reports_in_place_and_from_zero() {
    let paths = Paths {
        input: "book.pdf".to_string(),
        bookmarks: "toc.txt".to_string(),
        output: "book.pdf".to_string(),
    };
    let report = analyze_entries("", 10);
    let text = dry_run_report(&paths, 10, 0, &report, ExistingPolicy::Update, true);
    assert_eq!(
        text,
        "Dry run: no PDF will be written\n\
         Input PDF: book.pdf\n\
         Bookmark text: toc.txt\n\
         PDF pages: 10\n\
         Existing PDF bookmarks: 0\n\
         Existing bookmark policy: FromZero\n\
         Would replace input PDF: book.pdf\n\
         Valid entries: 0\n\
         Blank lines: 0\n\
         Malformed lines: 0\n\
         Out-of-range entries: 0\n"
    );
    let text = dry_run_report(&paths, 10, 0, &report, ExistingPolicy::Update, false);
    assert!(text.contains("Existing bookmark policy: Update\n"));
}

#[test]
fn the_report_has_one_line_per_item() {
    let paths = Paths {
        input: "in.pdf".to_string(),
        bookmarks: "in.txt".to_string(),
        output: "out.pdf".to_string(),
    };
    let report = analyze_entries("1 a\n2 b\n\nbad\n  worse\n9 far", 3);
    let text = dry_run_report(&paths, 3, 0, &report, ExistingPolicy::Create, false);
    assert_eq!(
        text.matches('\n').count(),
        11 + report.entries.len() + report.malformed_lines.len() + report.out_of_range_lines.len()
    );
    assert_eq!(text.lines().count(), 11 + 2 + 2 + 1);
}
