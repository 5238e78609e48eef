use std::collections::BTreeMap;

use lopdf::{Dictionary, Document, Object};

use simplebookmarker::cli::ExistingPolicy;
use simplebookmarker::entry::Entry;
use simplebookmarker::outline::{
    add_bookmarks, add_bookmarks_checked, append_entries, entries_from_toc, existing_entries,
    last_page, summarize, write_bookmarks, BookmarkError, TocItem,
};

fn entry(page: u32, title: &str, depth: usize) -> Entry {
    Entry {
        page,
        title: title.to_string(),
        depth,
    }
}

fn two_page_document() -> Document {
    let mut document = Document::with_version("1.5");
    let pages_id = document.new_object_id();
    let page_ids: Vec<Object> = (0..2)
        .map(|_| {
            let mut page = Dictionary::new();
            page.set("Type", "Page");
            page.set("Parent", pages_id);
            page.set(
                "MediaBox",
                vec![0.into(), 0.into(), 595.into(), 842.into()],
            );
            document.add_object(page).into()
        })
        .collect();
    let mut pages = Dictionary::new();
    pages.set("Type", "Pages");
    pages.set("Kids", page_ids);
    pages.set("Count", 2);
    document.objects.insert(pages_id, Object::Dictionary(pages));
    let mut catalog = Dictionary::new();
    catalog.set("Type", "Catalog");
    catalog.set("Pages", pages_id);
    let catalog_id = document.add_object(catalog);
    document.trailer.set("Root", catalog_id);
    document
}

fn document_with_existing_outlines() -> Document {
    let mut document = two_page_document();
    let pages = document.get_pages();
    add_bookmarks(
        &mut document,
        Vec::new(),
        vec![
            Entry {
                page: 1,
                title: "Old parent".to_string(),
                depth: 0,
            },
            Entry {
                page: 2,
                title: "Old child".to_string(),
                depth: 1,
            },
        ],
        &pages,
        ExistingPolicy::Create,
    )
    .unwrap();
    let mut bytes = Vec::new();
    document.save_to(&mut bytes).unwrap();
    Document::load_mem(&bytes).unwrap()
}

fn reload(document: &mut Document) -> Document {
    let mut bytes = Vec::new();
    document.save_to(&mut bytes).unwrap();
    Document::load_mem(&bytes).unwrap()
}

#[test]
fn updates_the_title_of_an_existing_same_page_bookmark() {
    let mut document = document_with_existing_outlines();
    let pages = document.get_pages();
    let existing = existing_entries(&document).unwrap();

    add_bookmarks(
        &mut document,
        existing,
        vec![Entry {
            page: 1,
            title: "New parent".to_string(),
            depth: 0,
        }],
        &pages,
        ExistingPolicy::Update,
    )
    .unwrap();

    let toc = document.get_toc().unwrap().toc;
    assert_eq!(toc.len(), 2);
    assert_eq!(toc[0].title, "New parent");
    assert_eq!(toc[0].level, 1);
    assert_eq!(toc[1].title, "Old child");
    assert_eq!(toc[1].level, 2);
}

#[test]
fn creates_a_new_bookmark_when_the_same_page_already_exists() {
    let mut document = document_with_existing_outlines();
    let pages = document.get_pages();
    let existing = existing_entries(&document).unwrap();

    add_bookmarks(
        &mut document,
        existing,
        vec![Entry {
            page: 1,
            title: "New parent".to_string(),
            depth: 0,
        }],
        &pages,
        ExistingPolicy::Create,
    )
    .unwrap();

    let toc = document.get_toc().unwrap().toc;
    assert_eq!(toc.len(), 3);
    assert!(toc.iter().any(|item| item.title == "Old parent"));
    assert!(toc.iter().any(|item| item.title == "New parent"));
    assert!(toc.iter().any(|item| item.title == "Old child"));
}

#[test]
fn rebuilds_bookmarks_from_zero_without_existing_entries() {
    let mut document = document_with_existing_outlines();
    let pages = document.get_pages();

    add_bookmarks(
        &mut document,
        Vec::new(),
        vec![Entry {
            page: 2,
            title: "Only new bookmark".to_string(),
            depth: 0,
        }],
        &pages,
        ExistingPolicy::Create,
    )
    .unwrap();

    let toc = document.get_toc().unwrap().toc;
    assert_eq!(toc.len(), 1);
    assert_eq!(toc[0].title, "Only new bookmark");
    assert_eq!(toc[0].page, 2);
}

#[test]
fn writes_visible_nested_outlines_in_memory() {
    let mut document = two_page_document();
    let pages = document.get_pages();
    add_bookmarks(
        &mut document,
        Vec::new(),
        vec![entry(1, "Parent", 0), entry(2, "Child", 1)],
        &pages,
        ExistingPolicy::Create,
    )
    .unwrap();

    let loaded = reload(&mut document);
    let outline_id = loaded
        .catalog()
        .unwrap()
        .get(b"Outlines")
        .unwrap()
        .as_reference()
        .unwrap();
    let outline = loaded.get_object(outline_id).unwrap().as_dict().unwrap();
    assert_eq!(outline.get(b"Count").unwrap().as_i64().unwrap(), 1);
    let first_id = outline.get(b"First").unwrap().as_reference().unwrap();
    let first = loaded.get_object(first_id).unwrap().as_dict().unwrap();
    assert!(first.get(b"First").is_ok());
}

#[test]
fn reads_existing_entries_back_in_document_order() {
    let document = document_with_existing_outlines();
    assert_eq!(
        existing_entries(&document).unwrap(),
        vec![entry(1, "Old parent", 0), entry(2, "Old child", 1)]
    );
    // A catalog without `Outlines` holds no bookmarks.
    assert_eq!(existing_entries(&two_page_document()).unwrap(), vec![]);
}

#[test]
fn attaches_skipped_levels_at_the_deepest_available_level() {
    let mut document = two_page_document();
    let pages = document.get_pages();
    add_bookmarks(
        &mut document,
        Vec::new(),
        vec![
            entry(1, "Deep first", 3),
            entry(1, "Top", 0),
            entry(2, "Skips two levels", 3),
            entry(2, "Grandchild", 2),
            entry(9, "Missing page", 1),
            entry(2, "Sibling", 1),
        ],
        &pages,
        ExistingPolicy::Create,
    )
    .unwrap();
    let loaded = reload(&mut document);
    let toc = loaded.get_toc().unwrap().toc;
    let shape: Vec<(usize, &str, usize)> =
        toc.iter().map(|t| (t.level, t.title.as_str(), t.page)).collect();
    assert_eq!(
        shape,
        vec![
            (1, "Deep first", 1),
            (1, "Top", 1),
            (2, "Skips two levels", 2),
            (3, "Grandchild", 2),
            (2, "Sibling", 2),
        ]
    );
}

#[test]
fn update_takes_each_existing_bookmark_once_in_order() {
    let mut document = two_page_document();
    let pages = document.get_pages();
    add_bookmarks(
        &mut document,
        Vec::new(),
        vec![entry(1, "A", 0), entry(1, "B", 0), entry(2, "C", 1)],
        &pages,
        ExistingPolicy::Create,
    )
    .unwrap();
    let mut document = reload(&mut document);
    let existing = existing_entries(&document).unwrap();
    add_bookmarks(
        &mut document,
        existing,
        vec![entry(1, "A2", 0), entry(1, "B2", 0), entry(1, "Extra", 0)],
        &pages,
        ExistingPolicy::Update,
    )
    .unwrap();
    let toc = document.get_toc().unwrap().toc;
    let shape: Vec<(usize, &str, usize)> =
        toc.iter().map(|t| (t.level, t.title.as_str(), t.page)).collect();
    assert_eq!(
        shape,
        vec![(1, "A2", 1), (1, "B2", 1), (2, "C", 2), (1, "Extra", 1)]
    );
}

#[test]
fn append_entries_returns_ids_and_skips_missing_pages() {
    let mut document = two_page_document();
    let pages = document.get_pages();
    let ids = append_entries(
        &mut document,
        &[entry(1, "a", 0), entry(7, "gone", 0), entry(2, "b", 1)],
        &pages,
    );
    assert_eq!(ids, vec![Some(1), None, Some(2)]);
    assert_eq!(document.bookmarks, vec![1]);
    assert_eq!(document.bookmark_table[&1].children, vec![2]);
    assert_eq!(document.bookmark_table[&2].title, "b");
}

#[test]
fn converts_table_of_contents_items() {
    let items = vec![
        TocItem {
            level: 1,
            title: "One".to_string(),
            page: 3,
        },
        TocItem {
            level: 0,
            title: "Zero".to_string(),
            page: 4,
        },
        TocItem {
            level: 4,
            title: "Four".to_string(),
            page: 5,
        },
    ];
    assert_eq!(
        entries_from_toc(items),
        vec![entry(3, "One", 0), entry(4, "Zero", 0), entry(5, "Four", 3)]
    );
}

#[test]
fn no_bookmarks_leave_the_catalog_alone() {
    let mut document = two_page_document();
    let pages = document.get_pages();
    add_bookmarks(
        &mut document,
        Vec::new(),
        vec![entry(9, "Beyond", 0)],
        &pages,
        ExistingPolicy::Create,
    )
    .unwrap();
    assert!(document.catalog().unwrap().get(b"Outlines").is_err());
}

#[test]
fn last_page_is_the_highest_page_number() {
    let document = two_page_document();
    assert_eq!(last_page(&document.get_pages()), 2);

    let mut pages = BTreeMap::new();
    pages.insert(5u32, (10u32, 0u16));
    pages.insert(1u32, (11u32, 0u16));
    pages.insert(3u32, (12u32, 0u16));
    assert_eq!(last_page(&pages), 5);
    assert_eq!(last_page(&BTreeMap::new()), 0);
}

#[test]
fn checked_run_writes_on_a_fresh_outline_only() {
    let mut document = two_page_document();
    let pages = document.get_pages();
    let result = add_bookmarks_checked(
        &mut document,
        Vec::new(),
        vec![entry(1, "Parent", 0), entry(2, "Child", 1)],
        &pages,
        ExistingPolicy::Create,
    );
    assert!(matches!(result, Some(Ok(()))));
    let toc = document.get_toc().unwrap().toc;
    let shape: Vec<(usize, &str, usize)> =
        toc.iter().map(|t| (t.level, t.title.as_str(), t.page)).collect();
    assert_eq!(shape, vec![(1, "Parent", 1), (2, "Child", 2)]);

    // The in-memory outline now holds two bookmarks: a second run is refused
    // and leaves them alone.
    let again = add_bookmarks_checked(
        &mut document,
        Vec::new(),
        vec![entry(1, "Other", 0)],
        &pages,
        ExistingPolicy::Create,
    );
    assert!(again.is_none());
    assert_eq!(document.bookmarks, vec![1]);
    assert_eq!(document.bookmark_table.len(), 2);
}

#[test]
fn checked_run_refuses_exhausted_bookmark_ids() {
    let mut document = two_page_document();
    document.max_bookmark_id = u32::MAX;
    let pages = document.get_pages();
    let result = add_bookmarks_checked(
        &mut document,
        Vec::new(),
        vec![entry(1, "Parent", 0)],
        &pages,
        ExistingPolicy::Create,
    );
    assert!(result.is_none());
    assert!(document.bookmarks.is_empty());
}

#[test]
fn summarizes_a_document_with_bookmarks() {
    let document = document_with_existing_outlines();
    let summary = summarize(&document).unwrap();
    assert_eq!(summary.last_page, 2);
    assert_eq!(summary.pages, document.get_pages());
    assert_eq!(
        summary.existing,
        vec![entry(1, "Old parent", 0), entry(2, "Old child", 1)]
    );
}

#[test]
fn writes_a_run_keeping_or_discarding_existing_bookmarks() {
    let mut document = document_with_existing_outlines();
    let summary = summarize(&document).unwrap();
    let result = write_bookmarks(
        &mut document,
        summary,
        vec![entry(2, "New", 0)],
        ExistingPolicy::Create,
        false,
    );
    assert!(matches!(result, Some(Ok(()))));
    let titles: Vec<String> = document
        .get_toc()
        .unwrap()
        .toc
        .into_iter()
        .map(|t| t.title)
        .collect();
    assert_eq!(titles, vec!["Old parent", "Old child", "New"]);

    let mut document = document_with_existing_outlines();
    let summary = summarize(&document).unwrap();
    let result = write_bookmarks(
        &mut document,
        summary,
        vec![entry(2, "New", 0)],
        ExistingPolicy::Create,
        true,
    );
    assert!(matches!(result, Some(Ok(()))));
    let titles: Vec<String> = document
        .get_toc()
        .unwrap()
        .toc
        .into_iter()
        .map(|t| t.title)
        .collect();
    assert_eq!(titles, vec!["New"]);
}

#[test]
fn points_the_catalog_at_the_new_outline() {
    let mut document = two_page_document();
    let pages = document.get_pages();
    let next_object = document.max_id + 1;
    add_bookmarks(
        &mut document,
        Vec::new(),
        vec![entry(1, "A", 0), entry(2, "B", 3)],
        &pages,
        ExistingPolicy::Create,
    )
    .unwrap();
    let outlines = document
        .catalog()
        .unwrap()
        .get(b"Outlines")
        .unwrap()
        .as_reference()
        .unwrap();
    assert_eq!(outlines, (next_object, 0));
    let toc = document.get_toc().unwrap().toc;
    let shape: Vec<(&str, usize, usize)> =
        toc.iter().map(|t| (t.title.as_str(), t.level, t.page)).collect();
    assert_eq!(shape, vec![("A", 1, 1), ("B", 2, 2)]);
}

#[test]
fn update_renames_one_bookmark_and_adds_the_rest() {
    let mut document = two_page_document();
    let pages = document.get_pages();
    add_bookmarks(
        &mut document,
        vec![entry(1, "Old", 0)],
        vec![entry(1, "A", 0), entry(1, "B", 0)],
        &pages,
        ExistingPolicy::Update,
    )
    .unwrap();
    let toc = document.get_toc().unwrap().toc;
    let shape: Vec<(&str, usize, usize)> =
        toc.iter().map(|t| (t.title.as_str(), t.level, t.page)).collect();
    assert_eq!(shape, vec![("A", 1, 1), ("B", 1, 1)]);
}

#[test]
fn from_zero_without_entries_drops_every_bookmark() {
    let mut document = document_with_existing_outlines();
    let summary = summarize(&document).unwrap();
    assert_eq!(summary.existing.len(), 2);
    let result = write_bookmarks(
        &mut document,
        summary,
        vec![entry(9, "Beyond the document", 0)],
        ExistingPolicy::Create,
        true,
    );
    assert!(matches!(result, Some(Ok(()))));
    assert!(document.catalog().unwrap().get(b"Outlines").is_err());
    let reloaded = reload(&mut document);
    assert_eq!(existing_entries(&reloaded).unwrap(), vec![]);
}

fn toc_shape(document: &Document) -> Vec<(String, usize, usize)> {
    document
        .get_toc()
        .unwrap()
        .toc
        .into_iter()
        .map(|t| (t.title, t.level, t.page))
        .collect()
}

#[test]
fn entries_on_missing_pages_change_nothing() {
    let entries = vec![
        entry(1, "A", 0),
        entry(0, "Page zero", 1),
        entry(2, "B", 1),
        entry(7, "Beyond", 0),
        entry(2, "C", 2),
    ];
    let on_pages: Vec<Entry> = entries
        .iter()
        .filter(|e| e.page == 1 || e.page == 2)
        .cloned()
        .collect();
    for policy in [ExistingPolicy::Create, ExistingPolicy::Update] {
        let mut d1 = document_with_existing_outlines();
        let mut d2 = document_with_existing_outlines();
        let pages = d1.get_pages();
        let existing = existing_entries(&d1).unwrap();
        add_bookmarks(&mut d1, existing.clone(), entries.clone(), &pages, policy).unwrap();
        add_bookmarks(&mut d2, existing, on_pages.clone(), &pages, policy).unwrap();
        assert_eq!(toc_shape(&d1), toc_shape(&d2));
    }
}

#[test]
fn hands_on_the_error_of_a_document_without_catalog() {
    let mut document = two_page_document();
    let pages = document.get_pages();
    document.trailer.remove(b"Root");
    let catalog_error = format!("{:?}", document.catalog().unwrap_err());
    match existing_entries(&document) {
        Err(BookmarkError::Pdf(error)) => {
            assert_eq!(format!("{:?}", error), format!("{:?}", document.get_toc().unwrap_err()));
            assert_eq!(format!("{:?}", error), catalog_error);
        }
        other => panic!("expected the error of get_toc, got {:?}", other),
    }
    match add_bookmarks(
        &mut document,
        Vec::new(),
        vec![entry(1, "A", 0)],
        &pages,
        ExistingPolicy::Create,
    ) {
        Err(BookmarkError::Pdf(error)) => assert_eq!(format!("{:?}", error), catalog_error),
        Ok(()) => panic!("a document without catalog cannot take an outline"),
    }
}

#[test]
fn written_titles_read_back_unchanged() {
    let mut document = two_page_document();
    let pages = document.get_pages();
    add_bookmarks(
        &mut document,
        Vec::new(),
        vec![entry(2, "Café – Übersicht", 0), entry(1, "ASCII child", 1)],
        &pages,
        ExistingPolicy::Create,
    )
    .unwrap();
    let shape = toc_shape(&document);
    assert_eq!(
        shape,
        vec![
            ("Café – Übersicht".to_string(), 1, 2),
            ("ASCII child".to_string(), 2, 1)
        ]
    );
    assert_eq!(
        existing_entries(&document).unwrap(),
        vec![entry(2, "Café – Übersicht", 0), entry(1, "ASCII child", 1)]
    );
}
