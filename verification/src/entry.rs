//! The bookmark text format: one entry per line, a one-based page number,
//! an optional hyphen and a title, indented by one tab or four spaces per level.

use vstd::prelude::*;
use crate::text::{
    chars_of, decimal, decimal_value, digit_value, is_digit, is_digit_char, is_space,
    leading_digits, leading_spaces, lemma_decimal_shape, lemma_decimal_value_prefix,
    lemma_leading_digits_at, lemma_leading_digits_bound, lemma_leading_spaces_at,
    lemma_leading_spaces_bound, lemma_split_lines_append, lemma_split_lines_len,
    lemma_split_lines_no_newline, lemma_split_one_open, lemma_split_one_terminated,
    lemma_trailing_spaces_at, lemma_trim_empty, lemma_trim_ends, push_decimal, push_str,
    skip_spaces,
    skip_spaces_back, split_lines, strip_cr, trim, trim_end, trim_start,
};

verus! {

/// One bookmark: the page it points to, its title and its nesting level.
#[derive(Clone, Debug, PartialEq, Eq)]
pub struct Entry {
    pub page: u32,
    pub title: String,
    pub depth: usize,
}

/// The mathematical value of an [`Entry`].
pub struct EntryView {
    pub page: u32,
    pub title: Seq<char>,
    pub depth: nat,
}

impl View for Entry {
    type V = EntryView;

    open spec fn view(&self) -> EntryView {
        EntryView { page: self.page, title: self.title@, depth: self.depth as nat }
    }
}

/// The views of a sequence of entries.
pub open spec fn entries_view(entries: Seq<Entry>) -> Seq<EntryView> {
    entries.map_values(|e: Entry| e@)
}

/// A character that may indent a line.
pub open spec fn is_indent_char(c: char) -> bool {
    c == ' ' || c == '\t'
}

/// Number of spaces and tabs at the start of `s`.
pub open spec fn indent_width(s: Seq<char>) -> nat
    decreases s.len(),
{
    if s.len() > 0 && is_indent_char(s[0]) {
        1 + indent_width(s.drop_first())
    } else {
        0
    }
}

/// The level that an indentation of spaces and tabs denotes: each tab and
/// each run of four spaces is one level; anything else is no indentation.
pub open spec fn indent_depth(p: Seq<char>) -> Option<nat>
    decreases p.len(),
{
    if p.len() == 0 {
        Some(0)
    } else if p[0] == '\t' {
        match indent_depth(p.drop_first()) {
            Some(d) => Some(d + 1),
            None => None,
        }
    } else if p.len() >= 4 && p[0] == ' ' && p[1] == ' ' && p[2] == ' ' && p[3] == ' ' {
        match indent_depth(p.skip(4)) {
            Some(d) => Some(d + 1),
            None => None,
        }
    } else {
        None
    }
}

/// The level of a line and the text after its indentation, when the
/// indentation is well formed.
pub open spec fn indentation_of(line: Seq<char>) -> Option<(nat, Seq<char>)> {
    let k = indent_width(line);
    match indent_depth(line.take(k as int)) {
        Some(d) => Some((d, line.skip(k as int))),
        None => None,
    }
}

pub proof fn lemma_indent_width_at(s: Seq<char>, k: int)
    requires
        0 <= k <= s.len(),
        forall|j: int| 0 <= j < k ==> is_indent_char(#[trigger] s[j]),
        k < s.len() ==> !is_indent_char(s[k]),
    ensures
        indent_width(s) == k,
    decreases k,
{
    if k > 0 {
        assert(is_indent_char(s[0]));
        assert forall|j: int| 0 <= j < k - 1 implies is_indent_char(#[trigger] s.drop_first()[j]) by {
            assert(s.drop_first()[j] == s[j + 1]);
        }
        lemma_indent_width_at(s.drop_first(), k - 1);
    }
}

/// Adds one level to an indentation result.
pub open spec fn deeper(d: Option<nat>) -> Option<nat> {
    match d {
        Some(n) => Some(n + 1),
        None => None,
    }
}

/// Adds `n` levels to an indentation result.
pub open spec fn deeper_by(d: Option<nat>, n: nat) -> Option<nat> {
    match d {
        Some(m) => Some(m + n),
        None => None,
    }
}

/// Reads the indentation of `chars[from..to]`: the index where the text after
/// it starts and the level, or `None` when it is malformed.
fn read_indentation(chars: &Vec<char>, from: usize, to: usize) -> (r: Option<(usize, usize)>)
    requires
        from <= to <= chars@.len(),
    ensures
        ({
            let line = chars@.subrange(from as int, to as int);
            match r {
                Some((k, d)) => from <= k <= to && indentation_of(line) == Some(
                    (d as nat, chars@.subrange(k as int, to as int)),
                ),
                None => indentation_of(line) is None,
            }
        }),
{
    let ghost line = chars@.subrange(from as int, to as int);
    let mut k = from;
    while k < to && (chars[k] == ' ' || chars[k] == '\t')
        invariant
            from <= k <= to <= chars@.len(),
            forall|j: int| from <= j < k ==> is_indent_char(#[trigger] chars@[j]),
        decreases to - k,
    {
        k = k + 1;
    }
    proof {
        assert forall|j: int| 0 <= j < k - from implies is_indent_char(#[trigger] line[j]) by {
            assert(line[j] == chars@[from + j]);
        }
        lemma_indent_width_at(line, k - from);
    }
    let ghost prefix = line.take(k - from);
    let mut i = from;
    let mut depth: usize = 0;
    proof {
        assert(prefix.skip(0) == prefix);
    }
    while i < k
        invariant
            from <= i <= k <= to <= chars@.len(),
            prefix == chars@.subrange(from as int, k as int),
            line == chars@.subrange(from as int, to as int),
            prefix == line.take(k - from),
            indent_width(line) == k - from,
            forall|j: int| from <= j < k ==> is_indent_char(#[trigger] chars@[j]),
            depth <= i - from,
            indent_depth(prefix) == deeper_by(indent_depth(prefix.skip(i - from)), depth as nat),
        decreases k - i,
    {
        let ghost rest = prefix.skip(i - from);
        assert(rest[0] == chars@[i as int]);
        if chars[i] == '\t' {
            assert(rest.drop_first() == prefix.skip(i + 1 - from));
            depth = depth + 1;
            i = i + 1;
        } else if k - i >= 4 && chars[i + 1] == ' ' && chars[i + 2] == ' ' && chars[i + 3] == ' ' {
            assert(rest[1] == chars@[i + 1]);
            assert(rest[2] == chars@[i + 2]);
            assert(rest[3] == chars@[i + 3]);
            assert(rest.skip(4) == prefix.skip(i + 4 - from));
            depth = depth + 1;
            i = i + 4;
        } else {
            proof {
                assert(rest.len() == k - i);
                assert(is_indent_char(chars@[i as int]));
                if rest.len() >= 4 {
                    assert(rest[1] == chars@[i + 1]);
                    assert(rest[2] == chars@[i + 2]);
                    assert(rest[3] == chars@[i + 3]);
                }
                assert(indent_depth(rest) is None);
                assert(indent_depth(prefix) is None);
            }
            return None;
        }
    }
    proof {
        assert(prefix.skip(k - from) == Seq::<char>::empty());
        assert(line.skip(k - from) == chars@.subrange(k as int, to as int));
    }
    Some((k, depth))
}

/// The level of `line` and the text after its indentation: one tab or four
/// spaces per level; `None` when the indentation mixes in anything else.
pub fn indentation(line: &str) -> (r: Option<(usize, &str)>)
    ensures
        match r {
            Some((d, rest)) => indentation_of(line@) == Some((d as nat, rest@)),
            None => indentation_of(line@) is None,
        },
{
    let chars = chars_of(line);
    let n = chars.len();
    proof {
        assert(chars@.subrange(0, n as int) == line@);
    }
    match read_indentation(&chars, 0, n) {
        Some((k, d)) => {
            let rest = line.substring_char(k, n);
            Some((d, rest))
        },
        None => None,
    }
}


/// A title may start with a hyphen that separates it from the page number.
pub open spec fn strip_hyphen(s: Seq<char>) -> Seq<char> {
    if s.len() > 0 && s[0] == '-' {
        s.drop_first()
    } else {
        s
    }
}

/// The entry that the text after the indentation denotes: leading decimal
/// digits give a page in `1..=u32::MAX`, then optional whitespace, an optional
/// hyphen, and a title that is not empty once trimmed.
pub open spec fn entry_of_content(depth: nat, content: Seq<char>) -> Option<EntryView> {
    let n = leading_digits(content);
    let page = decimal_value(content.take(n as int));
    let title = trim(strip_hyphen(trim_start(content.skip(n as int))));
    if n == 0 || page == 0 || page > u32::MAX || title.len() == 0 {
        None
    } else {
        Some(EntryView { page: page as u32, title, depth })
    }
}

/// The entry that a line denotes, if it is a valid bookmark line.
pub open spec fn entry_of_line(line: Seq<char>) -> Option<EntryView> {
    match indentation_of(line) {
        Some((d, content)) => entry_of_content(d, content),
        None => None,
    }
}

/// The view of an optional entry.
pub open spec fn opt_entry_view(e: Option<Entry>) -> Option<EntryView> {
    match e {
        Some(x) => Some(x@),
        None => None,
    }
}

/// Parses the line `chars[from..to]`.
fn read_entry(text: &str, chars: &Vec<char>, from: usize, to: usize) -> (r: Option<Entry>)
    requires
        from <= to <= chars@.len(),
        text@ == chars@,
    ensures
        opt_entry_view(r) == entry_of_line(chars@.subrange(from as int, to as int)),
{
    let (k, depth) = match read_indentation(chars, from, to) {
        Some(x) => x,
        None => return None,
    };
    let ghost content = chars@.subrange(k as int, to as int);
    let mut j = k;
    let mut value: u64 = 0;
    proof {
        assert(chars@.subrange(k as int, k as int) == Seq::<char>::empty());
    }
    while j < to && is_digit_char(chars[j])
        invariant
            k <= j <= to <= chars@.len(),
            content == chars@.subrange(k as int, to as int),
            indentation_of(chars@.subrange(from as int, to as int)) == Some((depth as nat, content)),
            forall|i: int| k <= i < j ==> is_digit(#[trigger] chars@[i]),
            value == decimal_value(chars@.subrange(k as int, j as int)),
            value <= u32::MAX,
        decreases to - j,
    {
        let d = (chars[j] as u32 - '0' as u32) as u64;
        proof {
            let t = chars@.subrange(k as int, j + 1);
            assert(t.drop_last() == chars@.subrange(k as int, j as int));
            assert(t.last() == chars@[j as int]);
            assert(d == digit_value(chars@[j as int]));
            assert(decimal_value(t) == value * 10 + d);
        }
        let next = value * 10 + d;
        if next > 0xffff_ffff {
            proof {
                lemma_leading_digits_bound(content);
                let n = leading_digits(content);
                if n <= j - k {
                    assert(content[n as int] == chars@[k + n]);
                }
                assert(n > j - k);
                assert(content.take(n as int).take(j + 1 - k) == chars@.subrange(k as int, j + 1));
                lemma_decimal_value_prefix(content.take(n as int), j + 1 - k);
            }
            return None;
        }
        value = next;
        j = j + 1;
    }
    proof {
        assert forall|i: int| 0 <= i < j - k implies is_digit(#[trigger] content[i]) by {
            assert(content[i] == chars@[k + i]);
        }
        if j < to {
            assert(content[j - k] == chars@[j as int]);
        }
        lemma_leading_digits_at(content, j - k);
        assert(content.take(j - k) == chars@.subrange(k as int, j as int));
        assert(content.skip(j - k) == chars@.subrange(j as int, to as int));
    }
    if j == k {
        return None;
    }
    let r = skip_spaces(chars, j, to);
    proof {
        assert(trim_start(chars@.subrange(j as int, to as int)) == chars@.subrange(r as int, to as int));
    }
    let s0 = if r < to && chars[r] == '-' {
        r + 1
    } else {
        r
    };
    proof {
        let ts = chars@.subrange(r as int, to as int);
        if r < to {
            assert(ts[0] == chars@[r as int]);
        }
        assert(strip_hyphen(ts) == chars@.subrange(s0 as int, to as int));
    }
    let t0 = skip_spaces(chars, s0, to);
    let t1 = skip_spaces_back(chars, t0, to);
    proof {
        assert(trim_start(chars@.subrange(s0 as int, to as int)) == chars@.subrange(t0 as int, to as int));
        assert(chars@.subrange(t0 as int, to as int).take(t1 - t0) == chars@.subrange(t0 as int, t1 as int));
    }
    if value == 0 || t0 == t1 {
        return None;
    }
    let title = String::from_str(text.substring_char(t0, t1));
    Some(Entry { page: value as u32, title, depth })
}

/// Parses one bookmark line: `None` for a malformed line, a page of zero,
/// a page above `u32::MAX` or an empty title.
pub fn parse_line(line: &str) -> (r: Option<Entry>)
    ensures
        opt_entry_view(r) == entry_of_line(line@),
{
    let chars = chars_of(line);
    let n = chars.len();
    proof {
        assert(chars@.subrange(0, n as int) == line@);
    }
    read_entry(line, &chars, 0, n)
}


/// What a dry run reports of a bookmark text: the valid entries, the number
/// of blank lines, the numbers of malformed lines, and the numbers and pages
/// of the entries whose page lies beyond the document.
#[derive(Debug, PartialEq, Eq)]
pub struct ParseReport {
    pub entries: Vec<Entry>,
    pub blank_lines: usize,
    pub malformed_lines: Vec<usize>,
    pub out_of_range_lines: Vec<(usize, u32)>,
}

/// The mathematical value of a [`ParseReport`].
pub struct ReportView {
    pub entries: Seq<EntryView>,
    pub blank_lines: nat,
    pub malformed_lines: Seq<nat>,
    pub out_of_range_lines: Seq<(nat, u32)>,
}

impl View for ParseReport {
    type V = ReportView;

    open spec fn view(&self) -> ReportView {
        ReportView {
            entries: entries_view(self.entries@),
            blank_lines: self.blank_lines as nat,
            malformed_lines: self.malformed_lines@.map_values(|n: usize| n as nat),
            out_of_range_lines: self.out_of_range_lines@.map_values(
                |p: (usize, u32)| (p.0 as nat, p.1),
            ),
        }
    }
}

/// The report of no lines at all.
pub open spec fn empty_report() -> ReportView {
    ReportView {
        entries: seq![],
        blank_lines: 0,
        malformed_lines: seq![],
        out_of_range_lines: seq![],
    }
}

/// Records line number `number` (one-based) in a report: a blank line is
/// counted, a valid entry on a page up to `max_page` is kept, a valid entry
/// beyond it is listed with its page, and anything else is malformed.
pub open spec fn classify(r: ReportView, line: Seq<char>, number: nat, max_page: u32) -> ReportView {
    if trim(line).len() == 0 {
        ReportView { blank_lines: r.blank_lines + 1, ..r }
    } else {
        match entry_of_line(line) {
            Some(e) => if e.page <= max_page {
                ReportView { entries: r.entries.push(e), ..r }
            } else {
                ReportView { out_of_range_lines: r.out_of_range_lines.push((number, e.page)), ..r }
            },
            None => ReportView { malformed_lines: r.malformed_lines.push(number), ..r },
        }
    }
}

/// The report of a sequence of lines, numbered from one.
pub open spec fn report_of_lines(lines: Seq<Seq<char>>, max_page: u32) -> ReportView
    decreases lines.len(),
{
    if lines.len() == 0 {
        empty_report()
    } else {
        classify(report_of_lines(lines.drop_last(), max_page), lines.last(), lines.len(), max_page)
    }
}

/// The report of a bookmark text against a document of `max_page` pages.
pub open spec fn analysis_of(contents: Seq<char>, max_page: u32) -> ReportView {
    report_of_lines(split_lines(contents), max_page)
}

/// Records the line `chars[from..to]`, numbered `number`.
fn classify_line(
    report: &mut ParseReport,
    text: &str,
    chars: &Vec<char>,
    from: usize,
    to: usize,
    number: usize,
    max_page: u32,
)
    requires
        from <= to <= chars@.len(),
        text@ == chars@,
        old(report).blank_lines < usize::MAX,
    ensures
        final(report)@ == classify(
            old(report)@,
            chars@.subrange(from as int, to as int),
            number as nat,
            max_page,
        ),
        final(report).blank_lines <= old(report).blank_lines + 1,
{
    let ghost line = chars@.subrange(from as int, to as int);
    let a = skip_spaces(chars, from, to);
    proof {
        lemma_trim_empty(line);
    }
    if a == to {
        report.blank_lines = report.blank_lines + 1;
        return;
    }
    match read_entry(text, chars, from, to) {
        Some(e) => {
            if e.page <= max_page {
                let ghost before = report.entries@;
                report.entries.push(e);
                proof {
                    assert(entries_view(report.entries@) == entries_view(before).push(e@));
                }
            } else {
                let ghost before = report.out_of_range_lines@;
                let page = e.page;
                report.out_of_range_lines.push((number, page));
                proof {
                    assert(report.out_of_range_lines@.map_values(|p: (usize, u32)| (p.0 as nat, p.1))
                        == before.map_values(|p: (usize, u32)| (p.0 as nat, p.1)).push(
                        (number as nat, page),
                    ));
                }
            }
        },
        None => {
            let ghost before = report.malformed_lines@;
            report.malformed_lines.push(number);
            proof {
                assert(report.malformed_lines@.map_values(|n: usize| n as nat) == before.map_values(
                    |n: usize| n as nat,
                ).push(number as nat));
            }
        },
    }
}

/// Reads a bookmark text line by line (as `str::lines` splits it) and sorts
/// each line into the report: blank, valid within `1..=max_page`, valid but
/// beyond `max_page`, or malformed.
pub fn analyze_entries(contents: &str, max_page: u32) -> (report: ParseReport)
    ensures
        report@ == analysis_of(contents@, max_page),
{
    let chars = chars_of(contents);
    let n = chars.len();
    let mut report = ParseReport {
        entries: Vec::new(),
        blank_lines: 0,
        malformed_lines: Vec::new(),
        out_of_range_lines: Vec::new(),
    };
    let mut start: usize = 0;
    let mut i: usize = 0;
    let mut line_number: usize = 0;
    proof {
        assert(chars@.take(0) == Seq::<char>::empty());
        assert(entries_view(report.entries@) == Seq::<EntryView>::empty());
        assert(report.malformed_lines@.map_values(|n: usize| n as nat) == Seq::<nat>::empty());
        assert(report.out_of_range_lines@.map_values(|p: (usize, u32)| (p.0 as nat, p.1)) == Seq::<
            (nat, u32),
        >::empty());
    }
    while i < n
        invariant
            start <= i <= n,
            n == chars@.len(),
            chars@ == contents@,
            start == 0 || chars@[start - 1] == '\n',
            forall|j: int| start <= j < i ==> #[trigger] chars@[j] != '\n',
            report@ == report_of_lines(split_lines(chars@.take(start as int)), max_page),
            line_number == split_lines(chars@.take(start as int)).len(),
            report.blank_lines <= line_number <= start,
        decreases n - i,
    {
        if chars[i] == '\n' {
            let end = if i > start && chars[i - 1] == '\r' {
                i - 1
            } else {
                i
            };
            proof {
                let t = chars@.take(start as int);
                let u = chars@.subrange(start as int, i as int);
                assert(chars@.take(i + 1) == t + u.push('\n'));
                if t.len() > 0 {
                    assert(t.last() == chars@[start - 1]);
                }
                lemma_split_lines_append(t, u.push('\n'));
                lemma_split_one_terminated(u);
                assert(strip_cr(u) == chars@.subrange(start as int, end as int));
                let lines = split_lines(chars@.take(i + 1));
                assert(lines.drop_last() == split_lines(t));
                lemma_split_lines_len(t);
            }
            line_number = line_number + 1;
            classify_line(&mut report, contents, &chars, start, end, line_number, max_page);
            start = i + 1;
        }
        i = i + 1;
    }
    if start < n {
        proof {
            let t = chars@.take(start as int);
            let u = chars@.subrange(start as int, n as int);
            assert(chars@ == t + u);
            assert(chars@.take(n as int) == chars@);
            if t.len() > 0 {
                assert(t.last() == chars@[start - 1]);
            }
            lemma_split_lines_append(t, u);
            lemma_split_one_open(u);
            let lines = split_lines(chars@);
            assert(lines.drop_last() == split_lines(t));
        }
        line_number = line_number + 1;
        classify_line(&mut report, contents, &chars, start, n, line_number, max_page);
    } else {
        proof {
            assert(chars@.take(start as int) == chars@);
        }
    }
    report
}


/// Four spaces per level.
pub open spec fn indent_text(depth: nat) -> Seq<char>
    decreases depth,
{
    if depth == 0 {
        seq![]
    } else {
        indent_text((depth - 1) as nat) + seq![' ', ' ', ' ', ' ']
    }
}

/// The line that writes an entry: its indentation, page, a hyphen, its title
/// and a line ending.
pub open spec fn entry_line(e: EntryView) -> Seq<char> {
    indent_text(e.depth) + decimal(e.page as nat) + seq!['-'] + e.title + seq!['\n']
}

/// The text that writes a sequence of entries, one line each.
pub open spec fn formatted(entries: Seq<EntryView>) -> Seq<char>
    decreases entries.len(),
{
    if entries.len() == 0 {
        seq![]
    } else {
        formatted(entries.drop_last()) + entry_line(entries.last())
    }
}

/// Writes entries in the bookmark text format, one line each.
pub fn format_entries(entries: &[Entry]) -> (contents: String)
    ensures
        contents@ == formatted(entries_view(entries@)),
{
    let mut out = String::new();
    let n = entries.len();
    proof {
        reveal_strlit("    ");
        reveal_strlit("-");
        reveal_strlit("\n");
    }
    for k in 0..n
        invariant
            n == entries@.len(),
            out@ == formatted(entries_view(entries@.take(k as int))),
            "    "@ == seq![' ', ' ', ' ', ' '],
            "-"@ == seq!['-'],
            "\n"@ == seq!['\n'],
    {
        let e = &entries[k];
        let ghost before = out@;
        let mut d: usize = 0;
        while d < e.depth
            invariant
                d <= e.depth,
                out@ == before + indent_text(d as nat),
                "    "@ == seq![' ', ' ', ' ', ' '],
            decreases e.depth - d,
        {
            push_str(&mut out, "    ");
            d = d + 1;
        }
        push_decimal(&mut out, e.page as usize);
        push_str(&mut out, "-");
        push_str(&mut out, e.title.as_str());
        push_str(&mut out, "\n");
        proof {
            let es = entries_view(entries@.take(k + 1));
            assert(es.drop_last() == entries_view(entries@.take(k as int)));
            assert(es.last() == e@);
            assert(out@ == before + entry_line(e@));
        }
    }
    proof {
        assert(entries@.take(n as int) == entries@);
    }
    out
}


/// A title that the text format gives back unchanged: not empty, no
/// whitespace at either end and no line break inside.
pub open spec fn is_clean_title(t: Seq<char>) -> bool {
    &&& t.len() > 0
    &&& !is_space(t[0])
    &&& !is_space(t.last())
    &&& forall|j: int| 0 <= j < t.len() ==> #[trigger] t[j] != '\n'
}

/// An entry that a document of `max_page` pages keeps when it is written
/// and read back: its page is in `1..=max_page` and its title is clean.
pub open spec fn is_writable(e: EntryView, max_page: u32) -> bool {
    &&& 1 <= e.page <= max_page
    &&& is_clean_title(e.title)
}

/// The report that lists `entries` and nothing else.
pub open spec fn only_entries(entries: Seq<EntryView>) -> ReportView {
    ReportView { entries: entries, ..empty_report() }
}

/// The text of an entry's line, without the line ending.
pub open spec fn entry_body(e: EntryView) -> Seq<char> {
    indent_text(e.depth) + decimal(e.page as nat) + seq!['-'] + e.title
}

proof fn lemma_indent_text_front(d: nat)
    requires
        d > 0,
    ensures
        indent_text(d) == seq![' ', ' ', ' ', ' '] + indent_text((d - 1) as nat),
    decreases d,
{
    if d > 1 {
        lemma_indent_text_front((d - 1) as nat);
        assert(indent_text(d) == seq![' ', ' ', ' ', ' '] + indent_text((d - 1) as nat));
    } else {
        assert(indent_text(0) == Seq::<char>::empty());
        assert(indent_text(1) == seq![' ', ' ', ' ', ' ']);
    }
}

proof fn lemma_indent_text(d: nat)
    ensures
        indent_text(d).len() == 4 * d,
        forall|j: int| 0 <= j < indent_text(d).len() ==> #[trigger] indent_text(d)[j] == ' ',
        indent_depth(indent_text(d)) == Some(d),
    decreases d,
{
    if d > 0 {
        lemma_indent_text((d - 1) as nat);
        lemma_indent_text_front(d);
        let t = indent_text(d);
        assert(t.skip(4) == indent_text((d - 1) as nat));
        assert forall|j: int| 0 <= j < t.len() implies #[trigger] t[j] == ' ' by {
            if j >= 4 {
                assert(t[j] == indent_text((d - 1) as nat)[j - 4]);
            }
        }
    }
}

/// A writable entry's line reads back as that entry, and is not blank.
proof fn lemma_entry_line_reads_back(e: EntryView, max_page: u32)
    requires
        is_writable(e, max_page),
    ensures
        entry_of_line(entry_body(e)) == Some(e),
        trim(entry_body(e)).len() != 0,
{
    let ind = indent_text(e.depth);
    let dec = decimal(e.page as nat);
    let line = entry_body(e);
    lemma_indent_text(e.depth);
    lemma_decimal_shape(e.page as nat);
    let k = ind.len() as int;
    assert forall|j: int| 0 <= j < k implies is_indent_char(#[trigger] line[j]) by {
        assert(line[j] == ind[j]);
    }
    assert(line[k] == dec[0]);
    lemma_indent_width_at(line, k);
    assert(line.take(k) == ind);
    let content = line.skip(k);
    assert(content == dec + seq!['-'] + e.title);
    assert forall|j: int| 0 <= j < dec.len() implies is_digit(#[trigger] content[j]) by {
        assert(content[j] == dec[j]);
    }
    assert(content[dec.len() as int] == '-');
    lemma_leading_digits_at(content, dec.len() as int);
    assert(content.take(dec.len() as int) == dec);
    let after = content.skip(dec.len() as int);
    assert(after == seq!['-'] + e.title);
    lemma_leading_spaces_at(after, 0);
    assert(trim_start(after) == after);
    assert(strip_hyphen(after) == e.title);
    lemma_leading_spaces_at(e.title, 0);
    assert(trim_start(e.title) == e.title);
    lemma_trailing_spaces_at(e.title, e.title.len() as int);
    assert(trim_end(e.title) == e.title);
    lemma_trim_empty(line);
    lemma_leading_spaces_bound(line);
    if leading_spaces(line) == line.len() {
        assert(line[k + dec.len()] == '-');
        assert(is_space(line[k + dec.len()]));
    }
}

proof fn lemma_formatted_lines(entries: Seq<EntryView>, max_page: u32)
    requires
        forall|i: int| 0 <= i < entries.len() ==> is_writable(#[trigger] entries[i], max_page),
    ensures
        split_lines(formatted(entries)) == entries.map_values(|e: EntryView| entry_body(e)),
        formatted(entries).len() == 0 || formatted(entries).last() == '\n',
    decreases entries.len(),
{
    if entries.len() > 0 {
        let prefix = entries.drop_last();
        let e = entries.last();
        assert(is_writable(e, max_page));
        lemma_formatted_lines(prefix, max_page);
        let body = entry_body(e);
        assert(entry_line(e) == body.push('\n'));
        assert forall|j: int| 0 <= j < body.len() implies #[trigger] body[j] != '\n' by {
            let ind = indent_text(e.depth);
            let dec = decimal(e.page as nat);
            lemma_indent_text(e.depth);
            lemma_decimal_shape(e.page as nat);
            if j < ind.len() {
                assert(body[j] == ind[j]);
            } else if j < ind.len() + dec.len() {
                assert(body[j] == dec[j - ind.len()]);
                assert(is_digit(dec[j - ind.len()]));
            } else if j > ind.len() + dec.len() {
                assert(body[j] == e.title[j - ind.len() - dec.len() - 1]);
            }
        }
        lemma_split_lines_append(formatted(prefix), entry_line(e));
        lemma_split_one_terminated(body);
        assert(body.last() == e.title.last());
        assert(strip_cr(body) == body);
        assert(entries.map_values(|e: EntryView| entry_body(e)) == prefix.map_values(
            |e: EntryView| entry_body(e),
        ).push(body));
    } else {
        assert(formatted(entries) == Seq::<char>::empty());
    }
}

proof fn lemma_report_of_bodies(entries: Seq<EntryView>, max_page: u32)
    requires
        forall|i: int| 0 <= i < entries.len() ==> is_writable(#[trigger] entries[i], max_page),
    ensures
        report_of_lines(entries.map_values(|e: EntryView| entry_body(e)), max_page) == only_entries(
            entries,
        ),
    decreases entries.len(),
{
    let lines = entries.map_values(|e: EntryView| entry_body(e));
    if entries.len() > 0 {
        let prefix = entries.drop_last();
        lemma_report_of_bodies(prefix, max_page);
        assert(lines.drop_last() == prefix.map_values(|e: EntryView| entry_body(e)));
        lemma_entry_line_reads_back(entries.last(), max_page);
        assert(prefix.push(entries.last()) == entries);
    } else {
        assert(entries == Seq::<EntryView>::empty());
    }
}

/// Writing entries in the text format and reading the text back against a
/// document of `max_page` pages gives back every entry, in order, with no
/// blank, malformed or out-of-range line, as long as each page is in
/// `1..=max_page` and each title is clean.
pub proof fn law_format_then_analyze(entries: Seq<EntryView>, max_page: u32)
    requires
        forall|i: int| 0 <= i < entries.len() ==> is_writable(#[trigger] entries[i], max_page),
    ensures
        analysis_of(formatted(entries), max_page) == only_entries(entries),
{
    lemma_formatted_lines(entries, max_page);
    lemma_report_of_bodies(entries, max_page);
}


/// A report that accounts for `count` lines read against `max_page`:
/// each line is in exactly one of its four lists, every kept entry is on a
/// page in `1..=max_page` with a clean title, the listed line numbers are
/// increasing and within `1..=count`, and no line is listed both as
/// malformed and as out of range.
pub open spec fn is_sound_report(r: ReportView, count: nat, max_page: u32) -> bool {
    &&& r.entries.len() + r.blank_lines + r.malformed_lines.len() + r.out_of_range_lines.len()
        == count
    &&& forall|i: int| 0 <= i < r.entries.len() ==> is_writable(#[trigger] r.entries[i], max_page)
    &&& forall|i: int|
        0 <= i < r.malformed_lines.len() ==> 1 <= #[trigger] r.malformed_lines[i] <= count
    &&& forall|i: int, j: int|
        0 <= i < j < r.malformed_lines.len() ==> r.malformed_lines[i] < r.malformed_lines[j]
    &&& forall|i: int|
        0 <= i < r.out_of_range_lines.len() ==> 1 <= (#[trigger] r.out_of_range_lines[i]).0 <= count
            && r.out_of_range_lines[i].1 > max_page
    &&& forall|i: int, j: int|
        0 <= i < j < r.out_of_range_lines.len() ==> r.out_of_range_lines[i].0
            < r.out_of_range_lines[j].0
    &&& forall|i: int, j: int|
        0 <= i < r.malformed_lines.len() && 0 <= j < r.out_of_range_lines.len()
            ==> #[trigger] r.malformed_lines[i] != (#[trigger] r.out_of_range_lines[j]).0
}

/// No line break is in `s`.
pub open spec fn has_no_newline(s: Seq<char>) -> bool {
    forall|j: int| 0 <= j < s.len() ==> #[trigger] s[j] != '\n'
}

proof fn lemma_no_newline_subrange(s: Seq<char>, from: int, to: int)
    requires
        has_no_newline(s),
        0 <= from <= to <= s.len(),
    ensures
        has_no_newline(s.subrange(from, to)),
{
    assert forall|j: int| 0 <= j < to - from implies #[trigger] s.subrange(from, to)[j] != '\n' by {
        assert(s.subrange(from, to)[j] == s[from + j]);
    }
}

proof fn lemma_indent_width_bound(s: Seq<char>)
    ensures
        indent_width(s) <= s.len(),
    decreases s.len(),
{
    if s.len() > 0 && is_indent_char(s[0]) {
        lemma_indent_width_bound(s.drop_first());
    }
}

/// A line that reads as an entry gives a page in `1..=u32::MAX` and a clean title.
proof fn lemma_entry_of_line_clean(line: Seq<char>)
    requires
        has_no_newline(line),
        entry_of_line(line) is Some,
    ensures
        entry_of_line(line)->0.page >= 1,
        is_clean_title(entry_of_line(line)->0.title),
{
    let k = indent_width(line);
    lemma_indent_width_bound(line);
    let content = line.skip(k as int);
    lemma_no_newline_subrange(line, k as int, line.len() as int);
    assert(content == line.subrange(k as int, line.len() as int));
    let n = leading_digits(content);
    lemma_leading_digits_bound(content);
    let c2 = content.skip(n as int);
    lemma_no_newline_subrange(content, n as int, content.len() as int);
    assert(c2 == content.subrange(n as int, content.len() as int));
    lemma_leading_spaces_bound(c2);
    let c3 = trim_start(c2);
    lemma_no_newline_subrange(c2, leading_spaces(c2) as int, c2.len() as int);
    assert(c3 == c2.subrange(leading_spaces(c2) as int, c2.len() as int));
    let x = strip_hyphen(c3);
    if c3.len() > 0 && c3[0] == '-' {
        lemma_no_newline_subrange(c3, 1, c3.len() as int);
        assert(x == c3.subrange(1, c3.len() as int));
    }
    assert(has_no_newline(x));
    lemma_trim_ends(x);
    let t = trim(x);
    lemma_no_newline_subrange(x, leading_spaces(x) as int, (leading_spaces(x) + t.len()) as int);
}

proof fn lemma_report_sound(lines: Seq<Seq<char>>, max_page: u32)
    requires
        forall|i: int| 0 <= i < lines.len() ==> has_no_newline(#[trigger] lines[i]),
    ensures
        is_sound_report(report_of_lines(lines, max_page), lines.len(), max_page),
    decreases lines.len(),
{
    if lines.len() > 0 {
        let prev = lines.drop_last();
        assert forall|i: int| 0 <= i < prev.len() implies has_no_newline(#[trigger] prev[i]) by {
            assert(prev[i] == lines[i]);
        }
        lemma_report_sound(prev, max_page);
        let line = lines.last();
        assert(has_no_newline(lines[lines.len() - 1]));
        if trim(line).len() != 0 && entry_of_line(line) is Some {
            lemma_entry_of_line_clean(line);
        }
    }
}

/// Reading a bookmark text accounts for every line exactly once (kept,
/// blank, malformed or out of range, and never both of the last two), keeps
/// only entries on pages in `1..=max_page` with clean titles, and lists line
/// numbers in increasing order within the text.
pub proof fn law_every_line_accounted(contents: Seq<char>, max_page: u32)
    ensures
        is_sound_report(analysis_of(contents, max_page), split_lines(contents).len(), max_page),
{
    lemma_split_lines_no_newline(contents);
    let lines = split_lines(contents);
    assert forall|i: int| 0 <= i < lines.len() implies has_no_newline(#[trigger] lines[i]) by {
        assert forall|j: int| 0 <= j < lines[i].len() implies #[trigger] lines[i][j] != '\n' by {}
    }
    lemma_report_sound(lines, max_page);
}

/// Writing the entries that a text gives and reading them back gives the
/// same entries and nothing else: the text format is a fixed point after one
/// reading.
pub proof fn law_reread_is_stable(contents: Seq<char>, max_page: u32)
    ensures
        analysis_of(formatted(analysis_of(contents, max_page).entries), max_page) == only_entries(
            analysis_of(contents, max_page).entries,
        ),
{
    law_every_line_accounted(contents, max_page);
    law_format_then_analyze(analysis_of(contents, max_page).entries, max_page);
}

/// Writing entries one run after another gives the text of the first run
/// followed by the text of the second; no entries give no text.
pub proof fn law_format_concat(a: Seq<EntryView>, b: Seq<EntryView>)
    ensures
        formatted(a + b) == formatted(a) + formatted(b),
        formatted(Seq::<EntryView>::empty()) == Seq::<char>::empty(),
    decreases b.len(),
{
    if b.len() == 0 {
        assert(a + b == a);
    } else {
        law_format_concat(a, b.drop_last());
        assert((a + b).drop_last() == a + b.drop_last());
        assert((a + b).last() == b.last());
    }
}

/// `d` tabs.
pub open spec fn tab_text(d: nat) -> Seq<char> {
    Seq::new(d, |i: int| '\t')
}

proof fn lemma_tab_depth(d: nat)
    ensures
        indent_depth(tab_text(d)) == Some(d),
    decreases d,
{
    if d > 0 {
        lemma_tab_depth((d - 1) as nat);
        assert(tab_text(d).drop_first() == tab_text((d - 1) as nat));
    }
}

proof fn lemma_indent_reads_back(ind: Seq<char>, d: nat, s: Seq<char>)
    requires
        indent_depth(ind) == Some(d),
        forall|j: int| 0 <= j < ind.len() ==> is_indent_char(#[trigger] ind[j]),
        s.len() == 0 || !is_indent_char(s[0]),
    ensures
        indentation_of(ind + s) == Some((d, s)),
{
    let line = ind + s;
    let k = ind.len() as int;
    assert forall|j: int| 0 <= j < k implies is_indent_char(#[trigger] line[j]) by {
        assert(line[j] == ind[j]);
    }
    if k < line.len() {
        assert(line[k] == s[0]);
    }
    lemma_indent_width_at(line, k);
    assert(line.take(k) == ind);
    assert(line.skip(k) == s);
}

/// One tab or four spaces per level: a text indented that way by `d`
/// levels, whose rest does not start with a space or a tab, reads back as
/// depth `d` and that rest.
pub proof fn law_indentation_reads_back(d: nat, s: Seq<char>)
    requires
        s.len() == 0 || !is_indent_char(s[0]),
    ensures
        indentation_of(indent_text(d) + s) == Some((d, s)),
        indentation_of(tab_text(d) + s) == Some((d, s)),
{
    lemma_indent_text(d);
    lemma_indent_reads_back(indent_text(d), d, s);
    lemma_tab_depth(d);
    lemma_indent_reads_back(tab_text(d), d, s);
}

proof fn lemma_indent_depth_bounds(p: Seq<char>)
    ensures
        indent_depth(p) matches Some(d) ==> d <= p.len() <= 4 * d,
    decreases p.len(),
{
    if p.len() > 0 {
        if p[0] == '\t' {
            lemma_indent_depth_bounds(p.drop_first());
        } else if p.len() >= 4 && p[0] == ' ' && p[1] == ' ' && p[2] == ' ' && p[3] == ' ' {
            lemma_indent_depth_bounds(p.skip(4));
        }
    }
}

proof fn lemma_indent_width_stops(s: Seq<char>)
    ensures
        indent_width(s) <= s.len(),
        forall|j: int| 0 <= j < indent_width(s) ==> is_indent_char(#[trigger] s[j]),
        indent_width(s) < s.len() ==> !is_indent_char(s[indent_width(s) as int]),
    decreases s.len(),
{
    if s.len() > 0 && is_indent_char(s[0]) {
        lemma_indent_width_stops(s.drop_first());
        assert forall|j: int| 0 <= j < indent_width(s) implies is_indent_char(#[trigger] s[j]) by {
            if j > 0 {
                assert(s[j] == s.drop_first()[j - 1]);
            }
        }
        if indent_width(s) < s.len() {
            assert(s[indent_width(s) as int] == s.drop_first()[indent_width(s) - 1]);
        }
    }
}

/// A well-formed indentation is the spaces and tabs at the start of the
/// line: the rest does not start with either, and the indentation is at
/// least one and at most four characters per level.
pub proof fn law_indentation_bounds(line: Seq<char>)
    ensures
        indentation_of(line) matches Some((d, rest)) ==> {
            let k = line.len() - rest.len();
            &&& rest == line.skip(k)
            &&& rest.len() == 0 || !is_indent_char(rest[0])
            &&& d <= k <= 4 * d
        },
{
    let k = indent_width(line);
    lemma_indent_width_stops(line);
    lemma_indent_depth_bounds(line.take(k as int));
    if k < line.len() {
        assert(line.skip(k as int)[0] == line[k as int]);
    }
}

/// The entry that a line reads as has a page of at least one and a title
/// that is a piece of the line, not empty and with no whitespace at either
/// end; on a line with no line break, the title is clean.
pub proof fn law_parsed_title_is_a_clean_piece(line: Seq<char>)
    requires
        entry_of_line(line) is Some,
    ensures
        ({
            let e = entry_of_line(line)->0;
            &&& e.page >= 1
            &&& e.title.len() > 0
            &&& !is_space(e.title[0])
            &&& !is_space(e.title.last())
            &&& exists|i: int|
                0 <= i && i + e.title.len() <= line.len() && #[trigger] line.subrange(
                    i,
                    i + e.title.len(),
                ) == e.title
            &&& has_no_newline(line) ==> is_clean_title(e.title)
        }),
{
    let e = entry_of_line(line)->0;
    let l = line.len() as int;
    let k = indent_width(line) as int;
    lemma_indent_width_bound(line);
    let content = line.skip(k);
    assert(content == line.subrange(k, l));
    let n = leading_digits(content) as int;
    lemma_leading_digits_bound(content);
    let c2 = content.skip(n);
    assert(c2 == line.subrange(k + n, l));
    let ls = leading_spaces(c2) as int;
    lemma_leading_spaces_bound(c2);
    let c3 = trim_start(c2);
    assert(c3 == line.subrange(k + n + ls, l));
    let h: int = if c3.len() > 0 && c3[0] == '-' {
        1
    } else {
        0
    };
    let x = strip_hyphen(c3);
    assert(x == line.subrange(k + n + ls + h, l));
    lemma_trim_ends(x);
    let lx = leading_spaces(x) as int;
    let t = trim(x);
    assert(t == e.title);
    let off = k + n + ls + h + lx;
    assert(line.subrange(off, off + t.len()) == t);
    if has_no_newline(line) {
        lemma_entry_of_line_clean(line);
    }
}

/// The entries of a report that lie on pages up to `max_page`.
pub open spec fn entries_within(entries: Seq<EntryView>, max_page: u32) -> Seq<EntryView> {
    entries.filter(|e: EntryView| e.page <= max_page)
}

proof fn lemma_smaller_limit_lines(lines: Seq<Seq<char>>, m1: u32, m2: u32)
    requires
        m1 <= m2,
    ensures
        ({
            let r1 = report_of_lines(lines, m1);
            let r2 = report_of_lines(lines, m2);
            &&& r1.blank_lines == r2.blank_lines
            &&& r1.malformed_lines == r2.malformed_lines
            &&& r1.entries == entries_within(r2.entries, m1)
            &&& r1.entries.len() + r1.out_of_range_lines.len() == r2.entries.len()
                + r2.out_of_range_lines.len()
        }),
    decreases lines.len(),
{
    reveal(Seq::filter);
    if lines.len() > 0 {
        lemma_smaller_limit_lines(lines.drop_last(), m1, m2);
        let r2 = report_of_lines(lines.drop_last(), m2);
        let line = lines.last();
        if trim(line).len() != 0 {
            if let Some(e) = entry_of_line(line) {
                if e.page <= m2 {
                    assert(r2.entries.push(e).drop_last() == r2.entries);
                }
            }
        }
    }
}

/// Reading the same text against fewer pages keeps the same blank and
/// malformed lines, keeps exactly the entries that lie within the smaller
/// page count, and counts every other entry as out of range.
pub proof fn law_smaller_page_limit(contents: Seq<char>, m1: u32, m2: u32)
    requires
        m1 <= m2,
    ensures
        ({
            let r1 = analysis_of(contents, m1);
            let r2 = analysis_of(contents, m2);
            &&& r1.blank_lines == r2.blank_lines
            &&& r1.malformed_lines == r2.malformed_lines
            &&& r1.entries == entries_within(r2.entries, m1)
            &&& r1.entries.len() + r1.out_of_range_lines.len() == r2.entries.len()
                + r2.out_of_range_lines.len()
        }),
{
    lemma_smaller_limit_lines(split_lines(contents), m1, m2);
}

} // verus!
