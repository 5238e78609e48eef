//! The text of a dry run: what would be written, and what the bookmark text holds.

use vstd::prelude::*;
use crate::cli::{same_path, same_path_of, ExistingPolicy, Paths};
use crate::entry::{has_no_newline, EntryView, ParseReport, ReportView};
use crate::text::{decimal, lemma_decimal_shape, push_decimal, push_str};

verus! {

/// One line per valid entry.
pub open spec fn entry_lines(entries: Seq<EntryView>) -> Seq<char>
    decreases entries.len(),
{
    if entries.len() == 0 {
        seq![]
    } else {
        let e = entries.last();
        entry_lines(entries.drop_last()) + "  page "@ + decimal(e.page as nat) + " depth "@
            + decimal(e.depth) + " title "@ + e.title + "\n"@
    }
}

/// One line per malformed line.
pub open spec fn malformed_lines(numbers: Seq<nat>) -> Seq<char>
    decreases numbers.len(),
{
    if numbers.len() == 0 {
        seq![]
    } else {
        malformed_lines(numbers.drop_last()) + "  line "@ + decimal(numbers.last())
            + ": malformed or unsupported indentation\n"@
    }
}

/// One line per entry whose page lies beyond the document.
pub open spec fn out_of_range_lines(lines: Seq<(nat, u32)>, max_page: u32) -> Seq<char>
    decreases lines.len(),
{
    if lines.len() == 0 {
        seq![]
    } else {
        let (n, page) = lines.last();
        out_of_range_lines(lines.drop_last(), max_page) + "  line "@ + decimal(n) + ": page "@
            + decimal(page as nat) + " is outside 1..="@ + decimal(max_page as nat) + "\n"@
    }
}

/// The name of a policy.
pub open spec fn policy_name(policy: ExistingPolicy) -> Seq<char> {
    match policy {
        ExistingPolicy::Create => "Create"@,
        ExistingPolicy::Update => "Update"@,
    }
}

/// `prefix` followed by the head of the dry-run report: the files, the page
/// count, the number of existing bookmarks and the policy for them.
pub open spec fn with_head(
    prefix: Seq<char>,
    input: Seq<char>,
    bookmarks: Seq<char>,
    output: Seq<char>,
    max_page: u32,
    existing_count: nat,
    policy: ExistingPolicy,
    from_zero: bool,
) -> Seq<char> {
    let replaces = same_path_of(input, output);
    prefix + "Dry run: no PDF will be written\n"@ + "Input PDF: "@ + input + "\n"@
        + "Bookmark text: "@ + bookmarks + "\n"@ + "PDF pages: "@ + decimal(max_page as nat)
        + "\n"@ + "Existing PDF bookmarks: "@ + decimal(existing_count) + "\n"@
        + "Existing bookmark policy: "@ + (if from_zero {
        "FromZero"@
    } else {
        policy_name(policy)
    }) + "\n"@ + (if replaces {
        "Would replace input PDF: "@
    } else {
        "Would write PDF: "@
    }) + (if replaces {
        input
    } else {
        output
    }) + "\n"@
}

/// `prefix` followed by the body of the dry-run report: the valid entries,
/// the blank lines, the malformed lines and the out-of-range entries.
pub open spec fn with_body(prefix: Seq<char>, report: ReportView, max_page: u32) -> Seq<char> {
    prefix + "Valid entries: "@ + decimal(report.entries.len()) + "\n"@ + entry_lines(
        report.entries,
    ) + "Blank lines: "@ + decimal(report.blank_lines) + "\n"@ + "Malformed lines: "@ + decimal(
        report.malformed_lines.len(),
    ) + "\n"@ + malformed_lines(report.malformed_lines) + "Out-of-range entries: "@ + decimal(
        report.out_of_range_lines.len(),
    ) + "\n"@ + out_of_range_lines(report.out_of_range_lines, max_page)
}

fn push_head(
    out: &mut String,
    paths: &Paths,
    max_page: u32,
    existing_count: usize,
    policy: ExistingPolicy,
    from_zero: bool,
)
    ensures
        final(out)@ == with_head(
            old(out)@,
            paths.input@,
            paths.bookmarks@,
            paths.output@,
            max_page,
            existing_count as nat,
            policy,
            from_zero,
        ),
{
    push_str(out, "Dry run: no PDF will be written\n");
    push_str(out, "Input PDF: ");
    push_str(out, paths.input.as_str());
    push_str(out, "\n");
    push_str(out, "Bookmark text: ");
    push_str(out, paths.bookmarks.as_str());
    push_str(out, "\n");
    push_str(out, "PDF pages: ");
    push_decimal(out, max_page as usize);
    push_str(out, "\n");
    push_str(out, "Existing PDF bookmarks: ");
    push_decimal(out, existing_count);
    push_str(out, "\n");
    push_str(out, "Existing bookmark policy: ");
    if from_zero {
        push_str(out, "FromZero");
    } else {
        match policy {
            ExistingPolicy::Create => push_str(out, "Create"),
            ExistingPolicy::Update => push_str(out, "Update"),
        }
    }
    push_str(out, "\n");
    let replaces = same_path(paths.input.as_str(), paths.output.as_str());
    if replaces {
        push_str(out, "Would replace input PDF: ");
    } else {
        push_str(out, "Would write PDF: ");
    }
    if replaces {
        push_str(out, paths.input.as_str());
    } else {
        push_str(out, paths.output.as_str());
    }
    push_str(out, "\n");
}

fn push_entry_lines(out: &mut String, report: &ParseReport)
    ensures
        final(out)@ == old(out)@ + entry_lines(report@.entries),
{
    let ghost head = out@;
    let n = report.entries.len();
    for k in 0..n
        invariant
            n == report.entries@.len(),
            out@ == head + entry_lines(report@.entries.take(k as int)),
    {
        let e = &report.entries[k];
        push_str(out, "  page ");
        push_decimal(out, e.page as usize);
        push_str(out, " depth ");
        push_decimal(out, e.depth);
        push_str(out, " title ");
        push_str(out, e.title.as_str());
        push_str(out, "\n");
        proof {
            let es = report@.entries.take(k + 1);
            assert(es.drop_last() == report@.entries.take(k as int));
            assert(es.last() == e@);
        }
    }
    proof {
        assert(report@.entries.take(n as int) == report@.entries);
    }
}

fn push_malformed_lines(out: &mut String, report: &ParseReport)
    ensures
        final(out)@ == old(out)@ + malformed_lines(report@.malformed_lines),
{
    let ghost head = out@;
    let n = report.malformed_lines.len();
    for k in 0..n
        invariant
            n == report.malformed_lines@.len(),
            out@ == head + malformed_lines(report@.malformed_lines.take(k as int)),
    {
        let line = report.malformed_lines[k];
        push_str(out, "  line ");
        push_decimal(out, line);
        push_str(out, ": malformed or unsupported indentation\n");
        proof {
            let ns = report@.malformed_lines.take(k + 1);
            assert(ns.drop_last() == report@.malformed_lines.take(k as int));
            assert(ns.last() == line as nat);
        }
    }
    proof {
        assert(report@.malformed_lines.take(n as int) == report@.malformed_lines);
    }
}

fn push_out_of_range_lines(out: &mut String, report: &ParseReport, max_page: u32)
    ensures
        final(out)@ == old(out)@ + out_of_range_lines(report@.out_of_range_lines, max_page),
{
    let ghost head = out@;
    let n = report.out_of_range_lines.len();
    for k in 0..n
        invariant
            n == report.out_of_range_lines@.len(),
            out@ == head + out_of_range_lines(report@.out_of_range_lines.take(k as int), max_page),
    {
        let (line, page) = report.out_of_range_lines[k];
        push_str(out, "  line ");
        push_decimal(out, line);
        push_str(out, ": page ");
        push_decimal(out, page as usize);
        push_str(out, " is outside 1..=");
        push_decimal(out, max_page as usize);
        push_str(out, "\n");
        proof {
            let ls = report@.out_of_range_lines.take(k + 1);
            assert(ls.drop_last() == report@.out_of_range_lines.take(k as int));
            assert(ls.last() == (line as nat, page));
        }
    }
    proof {
        assert(report@.out_of_range_lines.take(n as int) == report@.out_of_range_lines);
    }
}

/// The text that a dry run prints: the head, then the body.
pub fn dry_run_report(
    paths: &Paths,
    max_page: u32,
    existing_count: usize,
    report: &ParseReport,
    policy: ExistingPolicy,
    from_zero: bool,
) -> (text: String)
    ensures
        text@ == with_body(
            with_head(
                seq![],
                paths.input@,
                paths.bookmarks@,
                paths.output@,
                max_page,
                existing_count as nat,
                policy,
                from_zero,
            ),
            report@,
            max_page,
        ),
{
    let mut out = String::new();
    push_head(&mut out, paths, max_page, existing_count, policy, from_zero);
    push_str(&mut out, "Valid entries: ");
    push_decimal(&mut out, report.entries.len());
    push_str(&mut out, "\n");
    push_entry_lines(&mut out, report);
    push_str(&mut out, "Blank lines: ");
    push_decimal(&mut out, report.blank_lines);
    push_str(&mut out, "\n");
    push_str(&mut out, "Malformed lines: ");
    push_decimal(&mut out, report.malformed_lines.len());
    push_str(&mut out, "\n");
    push_malformed_lines(&mut out, report);
    push_str(&mut out, "Out-of-range entries: ");
    push_decimal(&mut out, report.out_of_range_lines.len());
    push_str(&mut out, "\n");
    push_out_of_range_lines(&mut out, report, max_page);
    out
}

/// Whether a character ends a line.
pub open spec fn is_line_break(c: char) -> bool {
    c == '\n'
}

/// The number of line breaks in `s`.
pub open spec fn line_breaks(s: Seq<char>) -> nat {
    s.filter(|c: char| is_line_break(c)).len()
}

broadcast proof fn lemma_line_breaks_add(a: Seq<char>, b: Seq<char>)
    ensures
        #[trigger] line_breaks(a + b) == line_breaks(a) + line_breaks(b),
{
    Seq::filter_distributes_over_add(a, b, |c: char| is_line_break(c));
}

proof fn lemma_no_line_breaks(s: Seq<char>)
    requires
        has_no_newline(s),
    ensures
        line_breaks(s) == 0,
    decreases s.len(),
{
    reveal(Seq::filter);
    if s.len() > 0 {
        assert(has_no_newline(s.drop_last())) by {
            assert forall|j: int| 0 <= j < s.drop_last().len() implies #[trigger] s.drop_last()[j]
                != '\n' by {
                assert(s.drop_last()[j] == s[j]);
            }
        }
        lemma_no_line_breaks(s.drop_last());
        assert(s[s.len() - 1] != '\n');
    }
}

/// A piece of text that is free of line breaks, or ends in the only one.
proof fn lemma_one_line_break(s: Seq<char>)
    requires
        s.len() > 0,
        s.last() == '\n',
        has_no_newline(s.drop_last()),
    ensures
        line_breaks(s) == 1,
{
    reveal(Seq::filter);
    lemma_no_line_breaks(s.drop_last());
}

proof fn lemma_decimal_no_line_break(n: nat)
    ensures
        line_breaks(decimal(n)) == 0,
{
    lemma_decimal_shape(n);
    assert forall|j: int| 0 <= j < decimal(n).len() implies #[trigger] decimal(n)[j] != '\n' by {}
    lemma_no_line_breaks(decimal(n));
}

proof fn lemma_literal_breaks()
    ensures
        line_breaks("\n"@) == 1,
        line_breaks("Dry run: no PDF will be written\n"@) == 1,
        line_breaks("Input PDF: "@) == 0,
        line_breaks("Bookmark text: "@) == 0,
        line_breaks("PDF pages: "@) == 0,
        line_breaks("Existing PDF bookmarks: "@) == 0,
        line_breaks("Existing bookmark policy: "@) == 0,
        line_breaks("FromZero"@) == 0,
        line_breaks("Create"@) == 0,
        line_breaks("Update"@) == 0,
        line_breaks("Would replace input PDF: "@) == 0,
        line_breaks("Would write PDF: "@) == 0,
        line_breaks("Valid entries: "@) == 0,
        line_breaks("  page "@) == 0,
        line_breaks(" depth "@) == 0,
        line_breaks(" title "@) == 0,
        line_breaks("Blank lines: "@) == 0,
        line_breaks("Malformed lines: "@) == 0,
        line_breaks("  line "@) == 0,
        line_breaks(": malformed or unsupported indentation\n"@) == 1,
        line_breaks("Out-of-range entries: "@) == 0,
        line_breaks(": page "@) == 0,
        line_breaks(" is outside 1..="@) == 0,
{
    reveal_strlit("\n");
    reveal_strlit("Dry run: no PDF will be written\n");
    reveal_strlit("Input PDF: ");
    reveal_strlit("Bookmark text: ");
    reveal_strlit("PDF pages: ");
    reveal_strlit("Existing PDF bookmarks: ");
    reveal_strlit("Existing bookmark policy: ");
    reveal_strlit("FromZero");
    reveal_strlit("Create");
    reveal_strlit("Update");
    reveal_strlit("Would replace input PDF: ");
    reveal_strlit("Would write PDF: ");
    reveal_strlit("Valid entries: ");
    reveal_strlit("  page ");
    reveal_strlit(" depth ");
    reveal_strlit(" title ");
    reveal_strlit("Blank lines: ");
    reveal_strlit("Malformed lines: ");
    reveal_strlit("  line ");
    reveal_strlit(": malformed or unsupported indentation\n");
    reveal_strlit("Out-of-range entries: ");
    reveal_strlit(": page ");
    reveal_strlit(" is outside 1..=");
    lemma_one_line_break("\n"@);
    lemma_one_line_break("Dry run: no PDF will be written\n"@);
    lemma_no_line_breaks("Input PDF: "@);
    lemma_no_line_breaks("Bookmark text: "@);
    lemma_no_line_breaks("PDF pages: "@);
    lemma_no_line_breaks("Existing PDF bookmarks: "@);
    lemma_no_line_breaks("Existing bookmark policy: "@);
    lemma_no_line_breaks("FromZero"@);
    lemma_no_line_breaks("Create"@);
    lemma_no_line_breaks("Update"@);
    lemma_no_line_breaks("Would replace input PDF: "@);
    lemma_no_line_breaks("Would write PDF: "@);
    lemma_no_line_breaks("Valid entries: "@);
    lemma_no_line_breaks("  page "@);
    lemma_no_line_breaks(" depth "@);
    lemma_no_line_breaks(" title "@);
    lemma_no_line_breaks("Blank lines: "@);
    lemma_no_line_breaks("Malformed lines: "@);
    lemma_no_line_breaks("  line "@);
    lemma_one_line_break(": malformed or unsupported indentation\n"@);
    lemma_no_line_breaks("Out-of-range entries: "@);
    lemma_no_line_breaks(": page "@);
    lemma_no_line_breaks(" is outside 1..="@);
}

proof fn lemma_entry_lines_breaks(entries: Seq<EntryView>)
    requires
        forall|i: int| 0 <= i < entries.len() ==> has_no_newline(#[trigger] entries[i].title),
    ensures
        line_breaks(entry_lines(entries)) == entries.len(),
    decreases entries.len(),
{
    broadcast use lemma_line_breaks_add;

    if entries.len() > 0 {
        let e = entries.last();
        assert forall|i: int| 0 <= i < entries.drop_last().len() implies has_no_newline(
            #[trigger] entries.drop_last()[i].title,
        ) by {
            assert(entries.drop_last()[i] == entries[i]);
        }
        lemma_entry_lines_breaks(entries.drop_last());
        assert(has_no_newline(entries[entries.len() - 1].title));
        lemma_no_line_breaks(e.title);
        lemma_decimal_no_line_break(e.page as nat);
        lemma_decimal_no_line_break(e.depth);
        lemma_literal_breaks();
    }
}

proof fn lemma_malformed_lines_breaks(numbers: Seq<nat>)
    ensures
        line_breaks(malformed_lines(numbers)) == numbers.len(),
    decreases numbers.len(),
{
    broadcast use lemma_line_breaks_add;

    if numbers.len() > 0 {
        lemma_malformed_lines_breaks(numbers.drop_last());
        lemma_decimal_no_line_break(numbers.last());
        lemma_literal_breaks();
    }
}

proof fn lemma_out_of_range_lines_breaks(lines: Seq<(nat, u32)>, max_page: u32)
    ensures
        line_breaks(out_of_range_lines(lines, max_page)) == lines.len(),
    decreases lines.len(),
{
    broadcast use lemma_line_breaks_add;

    if lines.len() > 0 {
        lemma_out_of_range_lines_breaks(lines.drop_last(), max_page);
        lemma_decimal_no_line_break(lines.last().0);
        lemma_decimal_no_line_break(lines.last().1 as nat);
        lemma_decimal_no_line_break(max_page as nat);
        lemma_literal_breaks();
    }
}

/// When no path and no title holds a line break, the dry-run text has
/// exactly eleven lines of its own plus one per valid entry, per malformed
/// line and per out-of-range entry.
pub proof fn law_dry_run_line_count(
    input: Seq<char>,
    bookmarks: Seq<char>,
    output: Seq<char>,
    max_page: u32,
    existing_count: nat,
    report: ReportView,
    policy: ExistingPolicy,
    from_zero: bool,
)
    requires
        has_no_newline(input),
        has_no_newline(bookmarks),
        has_no_newline(output),
        forall|i: int|
            0 <= i < report.entries.len() ==> has_no_newline(#[trigger] report.entries[i].title),
    ensures
        line_breaks(
            with_body(
                with_head(
                    seq![],
                    input,
                    bookmarks,
                    output,
                    max_page,
                    existing_count,
                    policy,
                    from_zero,
                ),
                report,
                max_page,
            ),
        ) == 11 + report.entries.len() + report.malformed_lines.len()
            + report.out_of_range_lines.len(),
{
    broadcast use lemma_line_breaks_add;

    lemma_literal_breaks();
    lemma_no_line_breaks(input);
    lemma_no_line_breaks(bookmarks);
    lemma_no_line_breaks(output);
    lemma_no_line_breaks(seq![]);
    lemma_decimal_no_line_break(max_page as nat);
    lemma_decimal_no_line_break(existing_count);
    lemma_decimal_no_line_break(report.entries.len());
    lemma_decimal_no_line_break(report.blank_lines);
    lemma_decimal_no_line_break(report.malformed_lines.len());
    lemma_decimal_no_line_break(report.out_of_range_lines.len());
    lemma_entry_lines_breaks(report.entries);
    lemma_malformed_lines_breaks(report.malformed_lines);
    lemma_out_of_range_lines_breaks(report.out_of_range_lines, max_page);
}

/// Whether `line` stands in `text`.
pub open spec fn holds_text(text: Seq<char>, line: Seq<char>) -> bool {
    exists|k: int| 0 <= k && k + line.len() <= text.len() && #[trigger] text.subrange(k, k + line.len()) == line
}

proof fn lemma_holds_middle(a: Seq<char>, m: Seq<char>, b: Seq<char>)
    ensures
        holds_text(a + m + b, m),
{
    let t = a + m + b;
    assert(t.subrange(a.len() as int, (a.len() + m.len()) as int) == m);
}

/// The policy line of a dry run: with `--from-zero` it reads `FromZero`
/// whatever the policy, and the report does not depend on the policy;
/// otherwise it names the policy, `Create` or `Update`.
#[verifier::spinoff_prover]
#[verifier::rlimit(60)]
pub proof fn law_dry_run_policy_line(
    input: Seq<char>,
    bookmarks: Seq<char>,
    output: Seq<char>,
    max_page: u32,
    existing_count: nat,
    report: ReportView,
    policy: ExistingPolicy,
    from_zero: bool,
)
    ensures
        ({
            let text = with_body(
                with_head(
                    seq![],
                    input,
                    bookmarks,
                    output,
                    max_page,
                    existing_count,
                    policy,
                    from_zero,
                ),
                report,
                max_page,
            );
            &&& from_zero ==> holds_text(text, "Existing bookmark policy: FromZero\n"@)
            &&& from_zero ==> forall|other: ExistingPolicy|
                text == #[trigger] with_body(
                    with_head(
                        seq![],
                        input,
                        bookmarks,
                        output,
                        max_page,
                        existing_count,
                        other,
                        true,
                    ),
                    report,
                    max_page,
                )
            &&& !from_zero && policy == ExistingPolicy::Create ==> holds_text(
                text,
                "Existing bookmark policy: Create\n"@,
            )
            &&& !from_zero && policy == ExistingPolicy::Update ==> holds_text(
                text,
                "Existing bookmark policy: Update\n"@,
            )
        }),
{
    reveal_strlit("Existing bookmark policy: ");
    reveal_strlit("FromZero");
    reveal_strlit("Create");
    reveal_strlit("Update");
    reveal_strlit("\n");
    reveal_strlit("Existing bookmark policy: FromZero\n");
    reveal_strlit("Existing bookmark policy: Create\n");
    reveal_strlit("Existing bookmark policy: Update\n");
    let replaces = same_path_of(input, output);
    let a = seq![] + "Dry run: no PDF will be written\n"@ + "Input PDF: "@ + input + "\n"@
        + "Bookmark text: "@ + bookmarks + "\n"@ + "PDF pages: "@ + decimal(max_page as nat)
        + "\n"@ + "Existing PDF bookmarks: "@ + decimal(existing_count) + "\n"@;
    let name = if from_zero {
        "FromZero"@
    } else {
        policy_name(policy)
    };
    let line = "Existing bookmark policy: "@ + name + "\n"@;
    let tail = (if replaces {
        "Would replace input PDF: "@
    } else {
        "Would write PDF: "@
    }) + (if replaces {
        input
    } else {
        output
    }) + "\n"@;
    let head = with_head(
        seq![],
        input,
        bookmarks,
        output,
        max_page,
        existing_count,
        policy,
        from_zero,
    );
    assert(head == a + line + tail);
    let text = with_body(head, report, max_page);
    let body = text.subrange(head.len() as int, text.len() as int);
    assert(text == a + line + (tail + body));
    lemma_holds_middle(a, line, tail + body);
    if from_zero {
        assert(line =~= "Existing bookmark policy: FromZero\n"@);
    } else if policy == ExistingPolicy::Create {
        assert(line =~= "Existing bookmark policy: Create\n"@);
    } else {
        assert(line =~= "Existing bookmark policy: Update\n"@);
    }
}

} // verus!
