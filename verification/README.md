# simplebookmarker

`sbm` adds PDF bookmarks from an indented plain-text table of contents:

```text
1-Introduction
    3-Background
        5-History
10 First chapter
```

Each line holds a one-based page number, an optional hyphen and a title;
one tab or four spaces indent a bookmark one level below the previous one.

## Layout

The library under `src/` is verified with Verus:

- `text.rs`: whitespace, trimming, line splitting and decimal numbers over
  `Seq<char>`.
- `entry.rs`: the bookmark text format — parsing a line, reading a whole
  text into a report, writing entries back — with the laws that written
  entries read back unchanged and that every line is accounted for.
- `cli.rs`: resolving the command-line options into the files of a run and
  the policy for existing bookmarks.
- `outline.rs`: reading and writing the outline of a `lopdf` document, and
  pairing new entries with existing bookmarks.
- `placement.rs`: the laws of where each bookmark is written, what each
  policy does to the existing bookmarks, and that entries on pages the
  document lacks change nothing.
- `report.rs`: the text of a dry run, with one line per reported item.

A PDF whose catalog has no `/Outlines` entry has no bookmarks: reading its
existing bookmarks gives none rather than an error, so `sbm NAME` works on a
PDF without bookmarks. With `--from-zero` and no valid entry, the catalog's
`/Outlines` entry is removed, so the output keeps none of the old bookmarks.

When bookmarks are written, the catalog's `/Outlines` entry is pointed at
the new outline dictionary before `lopdf` writes the outline objects, so the
contract of the write can say what `Document::get_toc` reads back: each
bookmark of the planned outline, depth first, with its level, title and page
number (for a catalog without named destinations, distinct page objects, an
outline at most one hundred levels deep, and objects numbered within the
document's last object number).

`app/main.rs` is the command itself: it reads the command line with `clap`,
loads and saves the PDF, reads and writes the text files, and prints what the
library computed. The tests under `tests/` run the library with the real
`lopdf`.
