//! Writing bookmarks into a PDF document with `lopdf`.
//!
//! The document is an outside value. What this library reads of it is the
//! in-memory outline that `lopdf` builds before it writes the `Outlines`
//! tree (the root bookmark ids, the table from id to bookmark, and the last
//! bookmark id that it handed out), the catalog's `/Outlines` entry, the
//! page map, and the table of contents that `Document::get_toc` reads.

use vstd::prelude::*;
use std::collections::BTreeMap;
use crate::cli::ExistingPolicy;
use crate::entry::{entries_view, Entry, EntryView};

verus! {

broadcast use {vstd::std_specs::btree::group_btree_axioms, vstd::laws_cmp::group_laws_cmp};

/// A PDF document of `lopdf`.
#[verifier::external_type_specification]
#[verifier::external_body]
pub struct ExDocument(lopdf::Document);

/// An error of `lopdf`.
#[verifier::external_type_specification]
#[verifier::external_body]
pub struct ExPdfError(lopdf::Error);

/// A bookmark in the table: its title, the page object it points to and the
/// ids of its children, in order.
pub type BookmarkNode = (Seq<char>, (u32, u16), Seq<u32>);

/// The ids of the top-level bookmarks of a document, in order (`Document::bookmarks`).
pub uninterp spec fn outline_roots(doc: lopdf::Document) -> Seq<u32>;

/// The bookmarks of a document by id (`Document::bookmark_table`).
pub uninterp spec fn outline_table(doc: lopdf::Document) -> Map<u32, (Seq<char>, (u32, u16), Seq<u32>)>;

/// The last bookmark id that a document handed out (`Document::max_bookmark_id`).
pub uninterp spec fn last_bookmark_id(doc: lopdf::Document) -> u32;

/// The last object number that a document handed out (`Document::max_id`).
pub uninterp spec fn last_object_id(doc: lopdf::Document) -> u32;

/// What `Document::catalog` finds: the error it fails with when the
/// document has no catalog dictionary; otherwise the object that the
/// catalog's `/Outlines` entry refers to (`None` when that entry is missing
/// or is not a reference), and whether the catalog has a `Dests` or a
/// `Names` entry, where named destinations are looked up.
pub uninterp spec fn catalog_outlines(doc: lopdf::Document) -> Result<(Option<(u32, u16)>, bool), lopdf::Error>;

/// The highest object number among `Document::objects`, zero when it holds
/// no object.
pub uninterp spec fn highest_object_number(doc: lopdf::Document) -> u32;

/// What `catalog_outlines` gives for a catalog with the given `/Outlines`
/// and named-destination entries.
pub open spec fn catalog_with(outlines: Option<(u32, u16)>, names: bool) -> Result<(Option<(u32, u16)>, bool), lopdf::Error> {
    Ok((outlines, names))
}

/// What `catalog_outlines` gives for a document whose catalog lookup fails
/// with `e`.
pub open spec fn no_catalog(e: lopdf::Error) -> Result<(Option<(u32, u16)>, bool), lopdf::Error> {
    Err(e)
}

/// Whether a catalog lookup found a catalog with a `Dests` or `Names` entry.
pub open spec fn has_named_destinations(c: Result<(Option<(u32, u16)>, bool), lopdf::Error>) -> bool {
    match c {
        Ok((_, names)) => names,
        Err(_) => false,
    }
}

/// Every object of the document is numbered at most `Document::max_id`, so
/// the object numbers that the document hands out next are free.
pub open spec fn objects_within_last(doc: lopdf::Document) -> bool {
    highest_object_number(doc) <= last_object_id(doc)
}

/// The bookmarks of an outline in the order that `lopdf` reads an outline
/// back: each bookmark, then the bookmarks under it, then its next sibling;
/// each with its level (one at the top), title and page object. `None` when
/// the outline is deeper than the reading follows, one hundred levels.
pub open spec fn outline_walk(
    table: Map<u32, (Seq<char>, (u32, u16), Seq<u32>)>,
    ids: Seq<u32>,
    level: int,
) -> Option<Seq<(nat, Seq<char>, (u32, u16))>>
    decreases 101 - level, ids.len(),
{
    if ids.len() == 0 {
        Some(seq![])
    } else if level < 1 || level > 100 {
        None
    } else {
        let b = table[ids[0]];
        match outline_walk(table, b.2, level + 1) {
            None => None,
            Some(below) => match outline_walk(table, ids.drop_first(), level) {
                None => None,
                Some(rest) => Some(seq![(level as nat, b.0, b.1)] + below + rest),
            },
        }
    }
}

/// No two page numbers of a page map share a page object.
pub open spec fn pages_distinct(pages: Map<u32, (u32, u16)>) -> bool {
    forall|a: u32, b: u32|
        #![trigger pages[a], pages[b]]
        pages.contains_key(a) && pages.contains_key(b) && pages[a] == pages[b] ==> a == b
}

/// The page number whose page object is `page`, if any.
pub open spec fn page_number(pages: Map<u32, (u32, u16)>, page: (u32, u16)) -> Option<u32> {
    if exists|n: u32| pages.contains_key(n) && pages[n] == page {
        Some(choose|n: u32| pages.contains_key(n) && pages[n] == page)
    } else {
        None
    }
}

/// The table of contents that `Document::get_toc` lists for walked
/// bookmarks: each one whose page object is a page of `pages`, with its
/// level, title and page number.
pub open spec fn toc_items(
    items: Seq<(nat, Seq<char>, (u32, u16))>,
    pages: Map<u32, (u32, u16)>,
) -> Seq<(usize, Seq<char>, usize)>
    decreases items.len(),
{
    if items.len() == 0 {
        seq![]
    } else {
        let rest = toc_items(items.drop_last(), pages);
        let item = items.last();
        match page_number(pages, item.2) {
            Some(n) => rest.push((item.0 as usize, item.1, n as usize)),
            None => rest,
        }
    }
}

/// The in-memory outline of a document.
pub struct OutlineState {
    pub roots: Seq<u32>,
    pub table: Map<u32, (Seq<char>, (u32, u16), Seq<u32>)>,
    pub last_id: nat,
}

/// The in-memory outline of `doc`.
pub open spec fn outline_of(doc: lopdf::Document) -> OutlineState {
    OutlineState {
        roots: outline_roots(doc),
        table: outline_table(doc),
        last_id: last_bookmark_id(doc) as nat,
    }
}

/// The outline after adding a bookmark with the next id under `parent` (a
/// root when `None`): the parent, if the table holds it, lists the new id
/// last among its children.
pub open spec fn outline_after_add(
    s: OutlineState,
    title: Seq<char>,
    page: (u32, u16),
    parent: Option<u32>,
) -> OutlineState {
    let id = (s.last_id + 1) as u32;
    let roots = match parent {
        Some(_) => s.roots,
        None => s.roots.push(id),
    };
    let table = match parent {
        Some(p) => if s.table.contains_key(p) {
            s.table.insert(p, (s.table[p].0, s.table[p].1, s.table[p].2.push(id)))
        } else {
            s.table
        },
        None => s.table,
    };
    OutlineState { roots, table: table.insert(id, (title, page, seq![])), last_id: s.last_id + 1 }
}

/// An outline that `lopdf` can write out: the table is finite, every id in
/// it is at most the last id handed out, every listed id is in the table,
/// and no id is listed twice (so the tree has no cycles and no shared nodes).
pub open spec fn outline_ok(s: OutlineState) -> bool {
    &&& s.table.dom().finite()
    &&& forall|id: u32| #[trigger] s.table.contains_key(id) ==> id <= s.last_id
    &&& forall|i: int| 0 <= i < s.roots.len() ==> s.table.contains_key(#[trigger] s.roots[i])
    &&& forall|p: u32, i: int|
        #![trigger s.table[p].2[i]]
        s.table.contains_key(p) && 0 <= i < s.table[p].2.len() ==> s.table.contains_key(
            s.table[p].2[i],
        )
    &&& s.roots.no_duplicates()
    &&& forall|p: u32| #[trigger] s.table.contains_key(p) ==> s.table[p].2.no_duplicates()
    &&& forall|p: u32, id: u32|
        #![trigger s.table[p].2.contains(id), s.roots.contains(id)]
        s.table.contains_key(p) && s.table[p].2.contains(id) ==> !s.roots.contains(id)
    &&& forall|p: u32, q: u32, id: u32|
        #![trigger s.table[p].2.contains(id), s.table[q].2.contains(id)]
        s.table.contains_key(p) && s.table.contains_key(q) && s.table[p].2.contains(id)
            && s.table[q].2.contains(id) ==> p == q
}

/// Calls `Document::add_bookmark` with a bookmark of the given title and
/// page (black, plain text): the document hands out the next bookmark id,
/// adds the bookmark under `parent` (or as a root) and returns the id.
/// What is said here is the whole of that method's effect on the outline;
/// it touches neither the objects nor the trailer, so the catalog reads as
/// before.
#[verifier::external_body]
fn add_bookmark(
    doc: &mut lopdf::Document,
    title: String,
    page: (u32, u16),
    parent: Option<u32>,
) -> (id: u32)
    requires
        last_bookmark_id(*old(doc)) < u32::MAX,
    ensures
        id == last_bookmark_id(*old(doc)) + 1,
        last_bookmark_id(*final(doc)) == id,
        outline_roots(*final(doc)) == outline_after_add(
            outline_of(*old(doc)),
            title@,
            page,
            parent,
        ).roots,
        outline_table(*final(doc)) == outline_after_add(
            outline_of(*old(doc)),
            title@,
            page,
            parent,
        ).table,
        last_object_id(*final(doc)) == last_object_id(*old(doc)),
        catalog_outlines(*final(doc)) == catalog_outlines(*old(doc)),
        highest_object_number(*final(doc)) == highest_object_number(*old(doc)),
{
    doc.add_bookmark(lopdf::Bookmark::new(title, Default::default(), 0, page), parent)
}

/// Calls `Document::build_outline`, which writes the in-memory outline as
/// objects of the document, numbered from one past the last object number,
/// and returns the id of the new outline dictionary, the first of them; or
/// returns `None`, changing nothing, when there is no root bookmark. It
/// leaves the in-memory outline as it is and adds only dictionaries, so a
/// catalog that was found is still found, and a catalog lookup that still
/// fails fails along the same objects, with the same error; when every
/// object is numbered at most the last object number, no object is
/// overwritten and a catalog that was found reads the same.
///
/// Each bookmark becomes a dictionary with its title (ASCII bytes, or
/// UTF-16BE after a byte-order mark), an action dictionary going to its page
/// object, and `First`/`Next` links to its children and next sibling. When
/// the catalog already refers to the new outline dictionary and holds no
/// named destinations, `Document::get_toc` then reads the outline back as
/// `outline_walk` lists it, titles unchanged, with the page numbers of the
/// page map after the call (as long as no two pages share a page object and
/// the outline is at most one hundred levels deep).
///
/// It panics when it would need object numbers past `u32::MAX` (it takes
/// two per bookmark and one more), and it follows child lists without
/// limit, which the `requires` rules out.
#[verifier::external_body]
fn build_outline(doc: &mut lopdf::Document) -> (r: Option<(u32, u16)>)
    requires
        outline_ok(outline_of(*old(doc))),
        last_object_id(*old(doc)) + 1 + 2 * outline_table(*old(doc)).len() <= u32::MAX,
    ensures
        r is Some <==> outline_roots(*old(doc)).len() > 0,
        r is Some ==> r == Some(((last_object_id(*old(doc)) + 1) as u32, 0u16)),
        r is None ==> *final(doc) == *old(doc),
        outline_roots(*final(doc)) == outline_roots(*old(doc)),
        outline_table(*final(doc)) == outline_table(*old(doc)),
        last_bookmark_id(*final(doc)) == last_bookmark_id(*old(doc)),
        catalog_outlines(*old(doc)) is Ok ==> catalog_outlines(*final(doc)) is Ok,
        catalog_outlines(*final(doc)) is Err ==> catalog_outlines(*final(doc)) == catalog_outlines(
            *old(doc),
        ),
        objects_within_last(*old(doc)) && catalog_outlines(*old(doc)) is Ok ==> catalog_outlines(
            *final(doc),
        ) == catalog_outlines(*old(doc)),
        ({
            let walk = outline_walk(outline_table(*old(doc)), outline_roots(*old(doc)), 1);
            r is Some && objects_within_last(*old(doc)) && catalog_outlines(*old(doc))
                == catalog_with(r, false) && pages_distinct(pages_of(*final(doc))) && walk is Some
                ==> toc_of(*final(doc)) == toc_read(toc_items(walk->0, pages_of(*final(doc))))
        }),
{
    doc.build_outline()
}

/// Calls `Document::catalog_mut` and sets the catalog's `Outlines` entry to
/// a reference to `outline`. It fails exactly when the document has no
/// catalog, with the error that `Document::catalog` gives (both look the
/// catalog up the same way); it changes no other catalog entry, adds no
/// object and does not touch the in-memory outline.
#[verifier::external_body]
fn set_outline_root(doc: &mut lopdf::Document, outline: (u32, u16)) -> (r: Result<(), lopdf::Error>)
    ensures
        r is Ok <==> catalog_outlines(*old(doc)) is Ok,
        r matches Err(e) ==> catalog_outlines(*old(doc)) == no_catalog(e),
        r is Ok ==> catalog_outlines(*final(doc)) == catalog_with(
            Some(outline),
            has_named_destinations(catalog_outlines(*old(doc))),
        ),
        outline_roots(*final(doc)) == outline_roots(*old(doc)),
        outline_table(*final(doc)) == outline_table(*old(doc)),
        last_bookmark_id(*final(doc)) == last_bookmark_id(*old(doc)),
        last_object_id(*final(doc)) == last_object_id(*old(doc)),
        highest_object_number(*final(doc)) == highest_object_number(*old(doc)),
{
    doc.catalog_mut()?.set("Outlines", lopdf::Object::Reference(outline));
    Ok(())
}

/// Calls `Document::catalog_mut` and removes the catalog's `Outlines`
/// entry. It fails exactly when the document has no catalog, with the error
/// that `Document::catalog` gives. Afterwards the
/// catalog has no `/Outlines`, so `Document::get_toc` fails on its lookup
/// with a missing-key error for `Outlines`: the document has no bookmarks.
/// It does not touch the in-memory outline.
#[verifier::external_body]
fn remove_outline_root(doc: &mut lopdf::Document) -> (r: Result<(), lopdf::Error>)
    ensures
        r is Ok <==> catalog_outlines(*old(doc)) is Ok,
        r matches Err(e) ==> catalog_outlines(*old(doc)) == no_catalog(e),
        r is Ok ==> catalog_outlines(*final(doc)) == catalog_with(
            None,
            has_named_destinations(catalog_outlines(*old(doc))),
        ),
        r is Ok ==> toc_of(*final(doc)) == toc_no_outline(),
        outline_roots(*final(doc)) == outline_roots(*old(doc)),
        outline_table(*final(doc)) == outline_table(*old(doc)),
        last_bookmark_id(*final(doc)) == last_bookmark_id(*old(doc)),
{
    doc.catalog_mut()?.remove(b"Outlines");
    Ok(())
}

/// An error while writing bookmarks into a document.
#[derive(Debug)]
pub enum BookmarkError {
    /// `lopdf` failed.
    Pdf(lopdf::Error),
}

/// One item of a document's table of contents, as `Document::get_toc` lists it.
pub struct TocItem {
    /// Nesting level, one for a top-level bookmark.
    pub level: usize,
    pub title: String,
    /// One-based page number.
    pub page: usize,
}

/// What `Document::get_toc` does on a document: `None` when it does not
/// return (it panics on a destination array shorter than two, and does not
/// end on a cyclic `/Next` chain or a destination that refers to itself);
/// `Some(Ok(items))` with, for each bookmark in document order, its level,
/// title and one-based page number; `Some(Err(None))` when it fails because
/// the document has no outline (`Error::NoOutline`, or a missing-key error
/// for the catalog's `Outlines` entry); `Some(Err(Some(e)))` when it fails
/// otherwise, with the error `e`.
pub uninterp spec fn toc_of(doc: lopdf::Document) -> Option<Result<Seq<(usize, Seq<char>, usize)>, Option<lopdf::Error>>>;

/// What `toc_of` gives for a document that reads `items`.
pub open spec fn toc_read(items: Seq<(usize, Seq<char>, usize)>) -> Option<Result<Seq<(usize, Seq<char>, usize)>, Option<lopdf::Error>>> {
    Some(Ok(items))
}

/// What `toc_of` gives for a document without outline.
pub open spec fn toc_no_outline() -> Option<Result<Seq<(usize, Seq<char>, usize)>, Option<lopdf::Error>>> {
    Some(Err(None))
}

/// What `toc_of` gives for a document on which `get_toc` fails with `e`
/// for another reason.
pub open spec fn toc_failed(e: lopdf::Error) -> Option<Result<Seq<(usize, Seq<char>, usize)>, Option<lopdf::Error>>> {
    Some(Err(Some(e)))
}

/// The items of a table of contents as plain values.
pub open spec fn toc_view(items: Seq<TocItem>) -> Seq<(usize, Seq<char>, usize)> {
    items.map_values(|i: TocItem| (i.level, i.title@, i.page))
}

/// The entry that a table-of-contents item (level, title, page) becomes:
/// its page number cut to 32 bits, its title, and a depth one less than its
/// level (zero at least).
pub open spec fn entry_of_toc_item(item: (usize, Seq<char>, usize)) -> EntryView {
    EntryView {
        page: item.2 as u32,
        title: item.1,
        depth: if item.0 >= 1 {
            (item.0 - 1) as nat
        } else {
            0
        },
    }
}

/// The entries that a table of contents becomes, item by item.
pub open spec fn entries_of_toc(items: Seq<(usize, Seq<char>, usize)>) -> Seq<EntryView> {
    items.map_values(|i: (usize, Seq<char>, usize)| entry_of_toc_item(i))
}

/// Turns a table of contents into entries, item by item.
pub fn entries_from_toc(items: Vec<TocItem>) -> (entries: Vec<Entry>)
    ensures
        entries_view(entries@) == entries_of_toc(toc_view(items@)),
{
    let mut entries: Vec<Entry> = Vec::new();
    let n = items.len();
    for k in 0..n
        invariant
            n == items@.len(),
            entries_view(entries@) == entries_of_toc(toc_view(items@.take(k as int))),
    {
        let item = &items[k];
        let page: u32 = #[verifier::truncate] (item.page as u32);
        let depth = if item.level >= 1 {
            item.level - 1
        } else {
            0
        };
        let ghost before = entries@;
        entries.push(Entry { page, title: item.title.clone(), depth });
        proof {
            assert(entries_view(entries@) == entries_view(before).push(
                entry_of_toc_item((item.level, item.title@, item.page)),
            ));
            assert(items@.take(k + 1) == items@.take(k as int).push(*item));
            assert(toc_view(items@.take(k + 1)) == toc_view(items@.take(k as int)).push(
                (item.level, item.title@, item.page),
            ));
        }
    }
    proof {
        assert(items@.take(n as int) == items@);
    }
    entries
}

/// What `Document::get_toc` gave: the items of the table of contents, no
/// outline at all, or another error.
pub enum TocRead {
    Items(Vec<TocItem>),
    NoOutline,
    Failed(lopdf::Error),
}

/// Calls `Document::get_toc` and lists its items, each as the level, title
/// and page that `lopdf` gives it, or tells a document without outline
/// (`Error::NoOutline`, or the missing-key error for the catalog's
/// `Outlines` entry) from other failures. The documents on which `get_toc`
/// does not return are left out by the `requires`.
#[verifier::external_body]
fn document_toc(doc: &lopdf::Document) -> (r: TocRead)
    requires
        toc_of(*doc) is Some,
    ensures
        match r {
            TocRead::Items(items) => toc_of(*doc) == toc_read(toc_view(items@)),
            TocRead::NoOutline => toc_of(*doc) == toc_no_outline(),
            TocRead::Failed(e) => toc_of(*doc) == toc_failed(e),
        },
{
    match doc.get_toc() {
        Ok(toc) => TocRead::Items(
            toc.toc.into_iter().map(|t| TocItem { level: t.level, title: t.title, page: t.page }).collect(),
        ),
        Err(lopdf::Error::NoOutline) => TocRead::NoOutline,
        Err(lopdf::Error::DictKey(key)) if key == "Outlines" => TocRead::NoOutline,
        Err(error) => TocRead::Failed(error),
    }
}

/// The bookmarks that a document already has, in document order, one entry
/// per item of its table of contents: none when the document has no
/// outline, and, when the table of contents cannot be read otherwise, the
/// error that `Document::get_toc` gave. The documents on which `Document::get_toc` panics or does not
/// return are left out.
pub fn existing_entries(doc: &lopdf::Document) -> (r: Result<Vec<Entry>, BookmarkError>)
    requires
        toc_of(*doc) is Some,
    ensures
        match toc_of(*doc) {
            Some(Ok(items)) => r matches Ok(es) && entries_view(es@) == entries_of_toc(items),
            Some(Err(None)) => r matches Ok(es) && es@.len() == 0,
            Some(Err(Some(e))) => r == Err::<Vec<Entry>, BookmarkError>(BookmarkError::Pdf(e)),
            None => false,
        },
{
    match document_toc(doc) {
        TocRead::Items(items) => Ok(entries_from_toc(items)),
        TocRead::NoOutline => Ok(Vec::new()),
        TocRead::Failed(e) => Err(BookmarkError::Pdf(e)),
    }
}

/// Where the bookmarks written so far stand: the outline, the ids of the
/// bookmarks that a new entry can hang under (one per level), and the id
/// given to each entry so far (`None` for an entry whose page the document
/// lacks).
pub struct Placement {
    pub outline: OutlineState,
    pub stack: Seq<u32>,
    pub ids: Seq<Option<u32>>,
}

/// The level an entry gets: its depth, but no deeper than one below the
/// deepest bookmark it could hang under.
pub open spec fn level_of(depth: nat, available: nat) -> nat {
    if depth <= available {
        depth
    } else {
        available
    }
}

/// The bookmark that an entry at `level` hangs under: none at level zero.
pub open spec fn parent_at(stack: Seq<u32>, level: nat) -> Option<u32> {
    if level == 0 {
        None
    } else {
        Some(stack[level - 1])
    }
}

/// Writes one entry: skipped when its page is not in `pages`, else added at
/// its level under the last bookmark one level up.
pub open spec fn place_entry(st: Placement, e: EntryView, pages: Map<u32, (u32, u16)>) -> Placement {
    if !pages.contains_key(e.page) {
        Placement { ids: st.ids.push(None), ..st }
    } else {
        let level = level_of(e.depth, st.stack.len());
        let outline = outline_after_add(
            st.outline,
            e.title,
            pages[e.page],
            parent_at(st.stack, level),
        );
        let id = outline.last_id as u32;
        Placement { outline, stack: st.stack.take(level as int).push(id), ids: st.ids.push(Some(id)) }
    }
}

/// Writes entries one after the other.
pub open spec fn place_entries(st: Placement, entries: Seq<EntryView>, pages: Map<u32, (u32, u16)>) -> Placement
    decreases entries.len(),
{
    if entries.len() == 0 {
        st
    } else {
        place_entry(place_entries(st, entries.drop_last(), pages), entries.last(), pages)
    }
}

/// The start of a run of entries on an outline.
pub open spec fn start_on(outline: OutlineState) -> Placement {
    Placement { outline, stack: seq![], ids: seq![] }
}

/// Placing entries gives one id per entry and hands out at most one id per
/// entry.
pub proof fn lemma_place_entries_counts(st: Placement, entries: Seq<EntryView>, pages: Map<u32, (u32, u16)>)
    ensures
        place_entries(st, entries, pages).ids.len() == st.ids.len() + entries.len(),
        st.outline.last_id <= place_entries(st, entries, pages).outline.last_id <= st.outline.last_id
            + entries.len(),
    decreases entries.len(),
{
    if entries.len() > 0 {
        lemma_place_entries_counts(st, entries.drop_last(), pages);
    }
}

/// The highest page number of a page map, zero when it has no page.
pub open spec fn is_last_page(pages: Map<u32, (u32, u16)>, last: u32) -> bool {
    &&& forall|k: u32| #[trigger] pages.contains_key(k) ==> k <= last
    &&& pages.contains_key(last) || (last == 0 && pages.dom() == Set::<u32>::empty())
}

/// The number of the last page of a document: the highest key of its page
/// map, or zero when it has no page.
pub fn last_page(pages: &BTreeMap<u32, (u32, u16)>) -> (last: u32)
    ensures
        is_last_page(pages@, last),
{
    if pages.is_empty() {
        proof {
            assert(pages@.dom() == Set::<u32>::empty());
        }
        return 0;
    }
    let mut last: u32 = 0;
    let mut seen = false;
    let ghost mut all: Seq<u32> = Seq::empty();
    for k in it: pages.keys()
        invariant
            it.seq().unref().to_set() == pages@.dom(),
            it.seq().len() > 0,
            all == it.seq().unref().take(it.index()),
            seen <==> it.index() > 0,
            it.index() == it.seq().len() ==> all.to_set() == pages@.dom(),
            forall|j: int| 0 <= j < all.len() ==> #[trigger] all[j] <= last,
            seen ==> exists|j: int| 0 <= j < all.len() && #[trigger] all[j] == last,
    {
        if !seen || *k > last {
            last = *k;
        }
        seen = true;
        proof {
            let keys = it.seq().unref();
            assert(keys.take(it.index() + 1) == all.push(*k));
            all = all.push(*k);
            if it.index() + 1 == it.seq().len() {
                assert(keys.take(it.index() + 1) == keys);
            }
            assert(all[all.len() - 1] == *k);
        }
    }
    proof {
        assert forall|k: u32| #[trigger] pages@.contains_key(k) implies k <= last by {
            assert(all.to_set().contains(k));
            let j = choose|j: int| 0 <= j < all.len() && all[j] == k;
        }
        let j = choose|j: int| 0 <= j < all.len() && #[trigger] all[j] == last;
        assert(all.to_set().contains(all[j]));
    }
    last
}

/// Adds a bookmark for each entry whose page the document has, in order:
/// an entry hangs under the last bookmark added one level up, and an entry
/// that skips levels hangs at the deepest level available. Returns the id
/// given to each entry, `None` for an entry whose page is not in `pages`.
pub fn append_entries(
    doc: &mut lopdf::Document,
    entries: &[Entry],
    pages: &BTreeMap<u32, (u32, u16)>,
) -> (ids: Vec<Option<u32>>)
    requires
        last_bookmark_id(*old(doc)) + entries@.len() <= u32::MAX,
    ensures
        ({
            let p = place_entries(start_on(outline_of(*old(doc))), entries_view(entries@), pages@);
            &&& outline_of(*final(doc)) == p.outline
            &&& ids@ == p.ids
        }),
        last_object_id(*final(doc)) == last_object_id(*old(doc)),
        catalog_outlines(*final(doc)) == catalog_outlines(*old(doc)),
        highest_object_number(*final(doc)) == highest_object_number(*old(doc)),
{
    let ghost start = start_on(outline_of(*doc));
    let ghost last0 = last_bookmark_id(*doc);
    let ghost obj0 = last_object_id(*doc);
    let ghost cat0 = catalog_outlines(*doc);
    let ghost high0 = highest_object_number(*doc);
    let mut parents: Vec<u32> = Vec::new();
    let mut ids: Vec<Option<u32>> = Vec::new();
    let n = entries.len();
    for k in 0..n
        invariant
            n == entries@.len(),
            last0 + n <= u32::MAX,
            last_object_id(*doc) == obj0,
            catalog_outlines(*doc) == cat0,
            highest_object_number(*doc) == high0,
            start.outline.last_id == last0,
            ({
                let p = place_entries(start, entries_view(entries@.take(k as int)), pages@);
                &&& outline_of(*doc) == p.outline
                &&& parents@ == p.stack
                &&& ids@ == p.ids
            }),
    {
        let ghost es = entries_view(entries@.take(k + 1));
        proof {
            assert(es.drop_last() == entries_view(entries@.take(k as int)));
            assert(es.last() == entries@[k as int]@);
            lemma_place_entries_counts(start, entries_view(entries@.take(k as int)), pages@);
        }
        let entry = &entries[k];
        match pages.get(&entry.page) {
            None => {
                ids.push(None);
            },
            Some(page_id) => {
                let depth = if entry.depth < parents.len() {
                    entry.depth
                } else {
                    parents.len()
                };
                parents.truncate(depth);
                let parent = if depth == 0 {
                    None
                } else {
                    Some(parents[depth - 1])
                };
                let id = add_bookmark(doc, entry.title.clone(), *page_id, parent);
                parents.push(id);
                ids.push(Some(id));
            },
        }
    }
    proof {
        assert(entries@.take(n as int) == entries@);
    }
    ids
}


/// Adding a bookmark with a fresh id keeps an outline writable and grows the
/// table by one.
pub proof fn lemma_add_keeps_ok(s: OutlineState, title: Seq<char>, page: (u32, u16), parent: Option<u32>)
    requires
        outline_ok(s),
        s.last_id < u32::MAX,
    ensures
        outline_ok(outline_after_add(s, title, page, parent)),
        outline_after_add(s, title, page, parent).table.len() == s.table.len() + 1,
        outline_after_add(s, title, page, parent).last_id == s.last_id + 1,
{
    let id = (s.last_id + 1) as u32;
    let a = outline_after_add(s, title, page, parent);
    let t = s.table;
    assert(!t.contains_key(id));
    assert(!s.roots.contains(id));
    assert forall|q: u32| #[trigger] t.contains_key(q) implies !t[q].2.contains(id) by {
        if t[q].2.contains(id) {
            let i = choose|i: int| 0 <= i < t[q].2.len() && t[q].2[i] == id;
            assert(t.contains_key(t[q].2[i]));
        }
    }
    let t1 = match parent {
        Some(p) => if t.contains_key(p) {
            t.insert(p, (t[p].0, t[p].1, t[p].2.push(id)))
        } else {
            t
        },
        None => t,
    };
    assert(t1.dom() == t.dom());
    assert(a.table == t1.insert(id, (title, page, seq![])));
    assert(a.table.dom() == t.dom().insert(id));
    // Children lists of the new table.
    assert forall|q: u32| #[trigger] a.table.contains_key(q) implies a.table[q].2 == (if q == id {
        Seq::<u32>::empty()
    } else if parent == Some(q) {
        t[q].2.push(id)
    } else {
        t[q].2
    }) by {}
    assert forall|i: int| 0 <= i < a.roots.len() implies a.table.contains_key(#[trigger] a.roots[i]) by {
        if i < s.roots.len() {
            assert(a.roots[i] == s.roots[i]);
        }
    }
    assert forall|q: u32, i: int|
        #![trigger a.table[q].2[i]]
        a.table.contains_key(q) && 0 <= i < a.table[q].2.len() implies a.table.contains_key(
        a.table[q].2[i],
    ) by {
        if q != id && parent == Some(q) && i == t[q].2.len() {
        } else if q != id {
            assert(a.table[q].2[i] == t[q].2[i]);
        }
    }
    assert(a.roots.no_duplicates()) by {
        if parent is None {
            assert forall|i: int, j: int| 0 <= i < j < a.roots.len() implies a.roots[i]
                != a.roots[j] by {
                if j == s.roots.len() {
                    assert(s.roots.contains(s.roots[i]));
                }
            }
        }
    }
    assert forall|q: u32| #[trigger] a.table.contains_key(q) implies a.table[q].2.no_duplicates() by {
        if q != id && parent == Some(q) {
            let c = t[q].2.push(id);
            assert forall|i: int, j: int| 0 <= i < j < c.len() implies c[i] != c[j] by {
                if j == t[q].2.len() {
                    assert(t[q].2.contains(t[q].2[i]));
                }
            }
        }
    }
    assert forall|q: u32, x: u32|
        #![trigger a.table[q].2.contains(x), a.roots.contains(x)]
        a.table.contains_key(q) && a.table[q].2.contains(x) implies !a.roots.contains(x) by {
        if q != id {
            if x == id {
                if parent != Some(q) {
                    assert(t[q].2.contains(id));
                }
                assert(a.roots == s.roots);
            } else {
                if parent == Some(q) {
                    let i = choose|i: int| 0 <= i < a.table[q].2.len() && a.table[q].2[i] == x;
                    assert(t[q].2[i] == x);
                }
                assert(t[q].2.contains(x));
                assert(!s.roots.contains(x));
                if a.roots.contains(x) {
                    let i = choose|i: int| 0 <= i < a.roots.len() && a.roots[i] == x;
                    if i < s.roots.len() {
                        assert(s.roots[i] == x);
                        assert(s.roots.contains(x));
                    }
                }
            }
        }
    }
    assert forall|q: u32, r: u32, x: u32|
        #![trigger a.table[q].2.contains(x), a.table[r].2.contains(x)]
        a.table.contains_key(q) && a.table.contains_key(r) && a.table[q].2.contains(x)
            && a.table[r].2.contains(x) implies q == r by {
        if q != id && r != id {
            if x == id {
                if parent != Some(q) {
                    assert(t[q].2.contains(id));
                }
                if parent != Some(r) {
                    assert(t[r].2.contains(id));
                }
            } else {
                if parent == Some(q) {
                    let i = choose|i: int| 0 <= i < a.table[q].2.len() && a.table[q].2[i] == x;
                    assert(t[q].2[i] == x);
                }
                if parent == Some(r) {
                    let i = choose|i: int| 0 <= i < a.table[r].2.len() && a.table[r].2[i] == x;
                    assert(t[r].2[i] == x);
                }
                assert(t[q].2.contains(x));
                assert(t[r].2.contains(x));
            }
        }
    }
}


/// Placing entries keeps an outline writable and adds at most one bookmark
/// per entry.
pub proof fn lemma_place_keeps_ok(st: Placement, entries: Seq<EntryView>, pages: Map<u32, (u32, u16)>)
    requires
        outline_ok(st.outline),
        st.outline.last_id + entries.len() <= u32::MAX,
    ensures
        outline_ok(place_entries(st, entries, pages).outline),
        place_entries(st, entries, pages).outline.table.len() <= st.outline.table.len() + entries.len(),
        place_entries(st, entries, pages).outline.last_id <= st.outline.last_id + entries.len(),
    decreases entries.len(),
{
    if entries.len() > 0 {
        let prev = place_entries(st, entries.drop_last(), pages);
        lemma_place_keeps_ok(st, entries.drop_last(), pages);
        let e = entries.last();
        if pages.contains_key(e.page) {
            let level = level_of(e.depth, prev.stack.len());
            lemma_add_keeps_ok(prev.outline, e.title, pages[e.page], parent_at(prev.stack, level));
        }
    }
}

/// How the entries of an update pair up with the existing bookmarks: the
/// existing entries (titles updated), which of them are taken, and for each
/// new entry the index of the existing entry it took, if any.
pub struct Matching {
    pub existing: Seq<EntryView>,
    pub used: Seq<bool>,
    pub matches: Seq<Option<nat>>,
}

/// The first existing entry from index `from` on that is on `page` and not
/// taken yet.
pub open spec fn first_unused_from(existing: Seq<EntryView>, used: Seq<bool>, page: u32, from: int) -> Option<nat>
    decreases existing.len() - from,
{
    if from < 0 || from >= existing.len() {
        None
    } else if !used[from] && existing[from].page == page {
        Some(from as nat)
    } else {
        first_unused_from(existing, used, page, from + 1)
    }
}

/// Pairs one new entry with the first untaken existing entry on its page,
/// which takes the new title; or with none.
pub open spec fn match_entry(m: Matching, e: EntryView) -> Matching {
    match first_unused_from(m.existing, m.used, e.page, 0) {
        Some(k) => Matching {
            existing: m.existing.update(k as int, EntryView { title: e.title, ..m.existing[k as int] }),
            used: m.used.update(k as int, true),
            matches: m.matches.push(Some(k)),
        },
        None => Matching { matches: m.matches.push(None), ..m },
    }
}

/// Pairs new entries with existing ones, in order.
pub open spec fn match_entries(m: Matching, entries: Seq<EntryView>) -> Matching
    decreases entries.len(),
{
    if entries.len() == 0 {
        m
    } else {
        match_entry(match_entries(m, entries.drop_last()), entries.last())
    }
}

/// The pairing under a policy: updating pairs entries with existing
/// bookmarks on the same page; creating pairs none.
pub open spec fn matching_of(existing: Seq<EntryView>, entries: Seq<EntryView>, policy: ExistingPolicy) -> Matching {
    let start = Matching { existing, used: Seq::new(existing.len(), |i: int| false), matches: seq![] };
    match policy {
        ExistingPolicy::Update => match_entries(start, entries),
        ExistingPolicy::Create => Matching {
            matches: Seq::new(entries.len(), |i: int| None::<nat>),
            ..start
        },
    }
}

/// Pairing keeps the number, pages and depths of the existing entries and
/// gives one pairing per new entry.
pub proof fn lemma_match_entries_shape(m: Matching, entries: Seq<EntryView>)
    requires
        m.used.len() == m.existing.len(),
    ensures
        match_entries(m, entries).existing.len() == m.existing.len(),
        match_entries(m, entries).used.len() == m.existing.len(),
        match_entries(m, entries).matches.len() == m.matches.len() + entries.len(),
        forall|i: int| 0 <= i < m.existing.len() ==> #[trigger] match_entries(m, entries).existing[i].page
            == m.existing[i].page && match_entries(m, entries).existing[i].depth == m.existing[i].depth,
        (forall|i: int| 0 <= i < m.matches.len() ==> (#[trigger] m.matches[i] matches Some(k) ==> k
            < m.existing.len())) ==> forall|i: int|
            0 <= i < match_entries(m, entries).matches.len() ==> (#[trigger] match_entries(
                m,
                entries,
            ).matches[i] matches Some(k) ==> k < m.existing.len()),
    decreases entries.len(),
{
    if entries.len() > 0 {
        lemma_match_entries_shape(m, entries.drop_last());
        let prev = match_entries(m, entries.drop_last());
        lemma_first_unused_bound(prev.existing, prev.used, entries.last().page, 0);
    }
}

/// The first untaken existing entry on a page, when there is one, is untaken
/// and on that page.
pub proof fn lemma_first_unused_bound(existing: Seq<EntryView>, used: Seq<bool>, page: u32, from: int)
    ensures
        first_unused_from(existing, used, page, from) matches Some(k) ==> from <= k < existing.len()
            && !used[k as int] && existing[k as int].page == page,
    decreases existing.len() - from,
{
    if 0 <= from < existing.len() && !(!used[from] && existing[from].page == page) {
        lemma_first_unused_bound(existing, used, page, from + 1);
    }
}

/// Where the new entries stand while they are written: the outline and the
/// ids that a new entry can hang under, one per level.
pub struct Writing {
    pub outline: OutlineState,
    pub stack: Seq<u32>,
}

/// Writes one new entry: skipped when its page is not in `pages`; else it
/// takes the place of `reuse` (the existing bookmark it updates) when there
/// is one, and is added at its level otherwise.
pub open spec fn write_entry(w: Writing, e: EntryView, reuse: Option<u32>, pages: Map<u32, (u32, u16)>) -> Writing {
    if !pages.contains_key(e.page) {
        w
    } else {
        let level = level_of(e.depth, w.stack.len());
        match reuse {
            Some(id) => Writing { outline: w.outline, stack: w.stack.take(level as int).push(id) },
            None => {
                let outline = outline_after_add(
                    w.outline,
                    e.title,
                    pages[e.page],
                    parent_at(w.stack, level),
                );
                Writing { outline, stack: w.stack.take(level as int).push(outline.last_id as u32) }
            },
        }
    }
}

/// Writes new entries one after the other; `reuses[i]` is the bookmark that
/// entry `i` updates, if any.
pub open spec fn write_entries(
    w: Writing,
    entries: Seq<EntryView>,
    reuses: Seq<Option<u32>>,
    pages: Map<u32, (u32, u16)>,
) -> Writing
    decreases entries.len(),
{
    if entries.len() == 0 {
        w
    } else {
        write_entry(
            write_entries(w, entries.drop_last(), reuses, pages),
            entries.last(),
            reuses[entries.len() - 1],
            pages,
        )
    }
}

/// Writing new entries keeps an outline writable and adds at most one bookmark
/// per entry.
pub proof fn lemma_write_keeps_ok(
    w: Writing,
    entries: Seq<EntryView>,
    reuses: Seq<Option<u32>>,
    pages: Map<u32, (u32, u16)>,
)
    requires
        outline_ok(w.outline),
        w.outline.last_id + entries.len() <= u32::MAX,
    ensures
        outline_ok(write_entries(w, entries, reuses, pages).outline),
        write_entries(w, entries, reuses, pages).outline.table.len() <= w.outline.table.len()
            + entries.len(),
        write_entries(w, entries, reuses, pages).outline.last_id <= w.outline.last_id + entries.len(),
    decreases entries.len(),
{
    if entries.len() > 0 {
        let prev = write_entries(w, entries.drop_last(), reuses, pages);
        lemma_write_keeps_ok(w, entries.drop_last(), reuses, pages);
        let e = entries.last();
        if pages.contains_key(e.page) {
            let level = level_of(e.depth, prev.stack.len());
            lemma_add_keeps_ok(prev.outline, e.title, pages[e.page], parent_at(prev.stack, level));
        }
    }
}

/// The bookmark that new entry `i` updates: the one its paired existing
/// entry became, if that one was written.
pub open spec fn reuses_of(matches: Seq<Option<nat>>, existing_ids: Seq<Option<u32>>) -> Seq<Option<u32>> {
    Seq::new(
        matches.len(),
        |i: int|
            match matches[i] {
                Some(k) => existing_ids[k as int],
                None => None,
            },
    )
}

/// The outline after writing the existing entries again (titles updated
/// under `Update`) and then the new entries.
pub open spec fn bookmark_plan(
    outline: OutlineState,
    existing: Seq<EntryView>,
    entries: Seq<EntryView>,
    pages: Map<u32, (u32, u16)>,
    policy: ExistingPolicy,
) -> OutlineState {
    let m = matching_of(existing, entries, policy);
    let placed = place_entries(start_on(outline), m.existing, pages);
    write_entries(
        Writing { outline: placed.outline, stack: seq![] },
        entries,
        reuses_of(m.matches, placed.ids),
        pages,
    ).outline
}

/// Pairs each new entry with the first untaken existing entry on its page,
/// which takes the new title. Returns the pairing.
fn match_existing(existing: &mut Vec<Entry>, entries: &Vec<Entry>) -> (matches: Vec<Option<usize>>)
    ensures
        ({
            let m = match_entries(
                Matching {
                    existing: entries_view(old(existing)@),
                    used: Seq::new(old(existing)@.len(), |i: int| false),
                    matches: seq![],
                },
                entries_view(entries@),
            );
            &&& entries_view(final(existing)@) == m.existing
            &&& matches@.map_values(|k: Option<usize>| match k {
                Some(x) => Some(x as nat),
                None => None,
            }) == m.matches
        }),
{
    let ghost start = Matching {
        existing: entries_view(existing@),
        used: Seq::new(existing@.len(), |i: int| false),
        matches: seq![],
    };
    let ghost len0 = existing@.len();
    let mut used: Vec<bool> = Vec::new();
    let mut u: usize = 0;
    while u < existing.len()
        invariant
            u <= existing@.len(),
            used@ == Seq::new(u as nat, |i: int| false),
        decreases existing@.len() - u,
    {
        used.push(false);
        u = u + 1;
    }
    let mut matches: Vec<Option<usize>> = Vec::new();
    let n = entries.len();
    for i in 0..n
        invariant
            n == entries@.len(),
            existing@.len() == len0,
            start.used == Seq::new(len0, |i: int| false),
            start.existing.len() == len0,
            ({
                let m = match_entries(start, entries_view(entries@.take(i as int)));
                &&& entries_view(existing@) == m.existing
                &&& used@ == m.used
                &&& matches@.map_values(|k: Option<usize>| match k {
                    Some(x) => Some(x as nat),
                    None => None,
                }) == m.matches
            }),
    {
        let ghost es = entries_view(entries@.take(i + 1));
        proof {
            assert(es.drop_last() == entries_view(entries@.take(i as int)));
            assert(es.last() == entries@[i as int]@);
            lemma_match_entries_shape(start, entries_view(entries@.take(i as int)));
        }
        let page = entries[i].page;
        let mut j: usize = 0;
        let mut found: Option<usize> = None;
        while j < existing.len()
            invariant_except_break
                found is None,
                first_unused_from(entries_view(existing@), used@, page, 0) == first_unused_from(
                    entries_view(existing@),
                    used@,
                    page,
                    j as int,
                ),
            invariant
                j <= existing@.len(),
                existing@.len() == used@.len(),
            ensures
                match found {
                    Some(k) => k < existing@.len() && first_unused_from(
                        entries_view(existing@),
                        used@,
                        page,
                        0,
                    ) == Some(k as nat),
                    None => first_unused_from(entries_view(existing@), used@, page, 0) is None,
                },
            decreases existing@.len() - j,
        {
            proof {
                assert(entries_view(existing@)[j as int].page == existing@[j as int].page);
            }
            if !used[j] && existing[j].page == page {
                found = Some(j);
                break;
            }
            j = j + 1;
        }
        let ghost before = matches@;
        match found {
            Some(k) => {
                let updated = Entry {
                    page: existing[k].page,
                    title: entries[i].title.clone(),
                    depth: existing[k].depth,
                };
                let ghost old_view = entries_view(existing@);
                existing.set(k, updated);
                used.set(k, true);
                matches.push(Some(k));
                proof {
                    assert(entries_view(existing@) == old_view.update(
                        k as int,
                        EntryView { title: entries@[i as int].title@, ..old_view[k as int] },
                    ));
                }
            },
            None => {
                matches.push(None);
            },
        }
        proof {
            assert(matches@ == before.push(found));
            assert(matches@.map_values(|k: Option<usize>| match k {
                Some(x) => Some(x as nat),
                None => None,
            }) == before.map_values(|k: Option<usize>| match k {
                Some(x) => Some(x as nat),
                None => None,
            }).push(
                match found {
                    Some(x) => Some(x as nat),
                    None => None,
                },
            ));
        }
    }
    proof {
        assert(entries@.take(n as int) == entries@);
    }
    matches
}


/// The index form of a pairing.
pub open spec fn matches_view(matches: Seq<Option<usize>>) -> Seq<Option<nat>> {
    matches.map_values(
        |k: Option<usize>|
            match k {
                Some(x) => Some(x as nat),
                None => None,
            },
    )
}

/// What writing the outline `plan` does to the catalog of a document whose
/// catalog read `before` and whose last object number was `last_object`:
/// with no root bookmark nothing is written and the write succeeds; with
/// some, the write fails only when the document has no catalog, with the
/// error that the catalog lookup gave, and on success the document still
/// has a catalog; when every object was numbered at most `last_object`
/// (`objects_ok`), its `/Outlines` refers to the new outline dictionary,
/// object number `last_object + 1`, and its other entries are as they were.
pub open spec fn catalog_after_write(
    before: Result<(Option<(u32, u16)>, bool), lopdf::Error>,
    last_object: u32,
    objects_ok: bool,
    plan: OutlineState,
    r: Result<(), BookmarkError>,
    after: Result<(Option<(u32, u16)>, bool), lopdf::Error>,
) -> bool {
    &&& r matches Err(BookmarkError::Pdf(e)) ==> plan.roots.len() > 0 && before == no_catalog(e)
    &&& plan.roots.len() == 0 ==> after == before && r is Ok
    &&& r is Ok && plan.roots.len() > 0 ==> after is Ok
    &&& r is Ok && plan.roots.len() > 0 && objects_ok ==> after == catalog_with(
        Some(((last_object + 1) as u32, 0u16)),
        has_named_destinations(before),
    )
}

/// What `Document::get_toc` reads after writing the outline `plan`: when
/// the write succeeded with some root bookmark, every object was numbered
/// at most the last object number, the catalog holds no named destinations,
/// no two pages share a page object and the outline is at most one hundred
/// levels deep, it reads each bookmark of the plan in the order of
/// `outline_walk`, with its level, its title and the number of its page.
pub open spec fn toc_after_write(
    before: Result<(Option<(u32, u16)>, bool), lopdf::Error>,
    objects_ok: bool,
    plan: OutlineState,
    r: Result<(), BookmarkError>,
    pages_after: Map<u32, (u32, u16)>,
    toc: Option<Result<Seq<(usize, Seq<char>, usize)>, Option<lopdf::Error>>>,
) -> bool {
    let walk = outline_walk(plan.table, plan.roots, 1);
    r is Ok && plan.roots.len() > 0 && objects_ok && !has_named_destinations(before)
        && pages_distinct(pages_after) && walk is Some ==> toc == toc_read(
        toc_items(walk->0, pages_after),
    )
}

/// Writes the bookmarks of a run into the document and builds its outline:
/// first the existing entries again, under `Update` each with the title of
/// the first new entry on its page that takes it (each existing entry is
/// taken at most once, in document order); then each new entry whose page
/// the document has, at its level under the last bookmark one level up,
/// as the existing bookmark it took when there is one, else as a new
/// bookmark. Entries on pages the document lacks are left out. The catalog
/// then points to the new outline; that last step fails when the document
/// has no catalog.
pub fn add_bookmarks(
    doc: &mut lopdf::Document,
    existing: Vec<Entry>,
    entries: Vec<Entry>,
    pages: &BTreeMap<u32, (u32, u16)>,
    policy: ExistingPolicy,
) -> (r: Result<(), BookmarkError>)
    requires
        outline_ok(outline_of(*old(doc))),
        last_bookmark_id(*old(doc)) + existing@.len() + entries@.len() <= u32::MAX,
        last_object_id(*old(doc)) + 1 + 2 * (outline_table(*old(doc)).len() + existing@.len()
            + entries@.len()) <= u32::MAX,
    ensures
        outline_of(*final(doc)) == bookmark_plan(
            outline_of(*old(doc)),
            entries_view(existing@),
            entries_view(entries@),
            pages@,
            policy,
        ),
        ({
            let plan = bookmark_plan(
                outline_of(*old(doc)),
                entries_view(existing@),
                entries_view(entries@),
                pages@,
                policy,
            );
            &&& catalog_after_write(
                catalog_outlines(*old(doc)),
                last_object_id(*old(doc)),
                objects_within_last(*old(doc)),
                plan,
                r,
                catalog_outlines(*final(doc)),
            )
            &&& toc_after_write(
                catalog_outlines(*old(doc)),
                objects_within_last(*old(doc)),
                plan,
                r,
                pages_of(*final(doc)),
                toc_of(*final(doc)),
            )
        }),
{
    let ghost outline0 = outline_of(*doc);
    let ghost obj0 = last_object_id(*doc);
    let ghost cat0 = catalog_outlines(*doc);
    let ghost high0 = highest_object_number(*doc);
    let ghost m = matching_of(entries_view(existing@), entries_view(entries@), policy);
    let mut existing = existing;
    let n = entries.len();
    let matches: Vec<Option<usize>> = match policy {
        ExistingPolicy::Update => {
            let ghost start = Matching {
                existing: entries_view(existing@),
                used: Seq::new(existing@.len(), |i: int| false),
                matches: seq![],
            };
            let r = match_existing(&mut existing, &entries);
            proof {
                lemma_match_entries_shape(start, entries_view(entries@));
            }
            r
        },
        ExistingPolicy::Create => {
            let mut r: Vec<Option<usize>> = Vec::new();
            for i in 0..n
                invariant
                    n == entries@.len(),
                    r@ == Seq::new(i as nat, |j: int| None::<usize>),
            {
                r.push(None);
            }
            proof {
                assert(matches_view(r@) == Seq::new(n as nat, |i: int| None::<nat>));
            }
            r
        },
    };
    proof {
        assert(entries_view(existing@) == m.existing);
        assert(matches_view(matches@) == m.matches);
        assert(m.matches.len() == n);
        assert forall|i: int| 0 <= i < n implies (#[trigger] m.matches[i] matches Some(k) ==> k
            < existing@.len()) by {}
        assert(entries_view(existing@).len() == existing@.len());
    }
    let existing_ids = append_entries(doc, existing.as_slice(), pages);
    let ghost placed = place_entries(start_on(outline0), m.existing, pages@);
    let ghost reuses = reuses_of(m.matches, placed.ids);
    let ghost w0 = Writing { outline: placed.outline, stack: seq![] };
    proof {
        lemma_place_entries_counts(start_on(outline0), m.existing, pages@);
        lemma_place_keeps_ok(start_on(outline0), m.existing, pages@);
    }
    let mut parents: Vec<u32> = Vec::new();
    for i in 0..n
        invariant
            n == entries@.len(),
            existing_ids@ == placed.ids,
            placed.ids.len() == existing@.len(),
            matches_view(matches@) == m.matches,
            m.matches.len() == n,
            forall|j: int| 0 <= j < n ==> (#[trigger] m.matches[j] matches Some(k) ==> k
                < existing@.len()),
            reuses == reuses_of(m.matches, placed.ids),
            outline_ok(w0.outline),
            w0.outline.last_id + n <= u32::MAX,
            last_object_id(*doc) == obj0,
            catalog_outlines(*doc) == cat0,
            highest_object_number(*doc) == high0,
            ({
                let w = write_entries(w0, entries_view(entries@.take(i as int)), reuses, pages@);
                &&& outline_of(*doc) == w.outline
                &&& parents@ == w.stack
            }),
    {
        let ghost es = entries_view(entries@.take(i + 1));
        proof {
            assert(es.drop_last() == entries_view(entries@.take(i as int)));
            assert(es.last() == entries@[i as int]@);
            lemma_write_keeps_ok(w0, entries_view(entries@.take(i as int)), reuses, pages@);
        }
        let entry = &entries[i];
        match pages.get(&entry.page) {
            None => {},
            Some(page_id) => {
                let depth = if entry.depth < parents.len() {
                    entry.depth
                } else {
                    parents.len()
                };
                parents.truncate(depth);
                let parent = if depth == 0 {
                    None
                } else {
                    Some(parents[depth - 1])
                };
                proof {
                    assert(m.matches[i as int] == match matches@[i as int] {
                        Some(x) => Some(x as nat),
                        None => None::<nat>,
                    });
                }
                let reuse = match matches[i] {
                    Some(k) => existing_ids[k],
                    None => None,
                };
                proof {
                    assert(reuse == reuses[i as int]);
                }
                let id = match reuse {
                    Some(id) => id,
                    None => add_bookmark(doc, entry.title.clone(), *page_id, parent),
                };
                parents.push(id);
            },
        }
    }
    proof {
        assert(entries@.take(n as int) == entries@);
        lemma_write_keeps_ok(w0, entries_view(entries@), reuses, pages@);
    }
    if root_count(doc) == 0 {
        return Ok(());
    }
    let outline_id = (last_object(doc) + 1, 0u16);
    match set_outline_root(doc, outline_id) {
        Ok(()) => {},
        Err(e) => return Err(BookmarkError::Pdf(e)),
    }
    let built = build_outline(doc);
    proof {
        assert(built == Some(outline_id));
    }
    Ok(())
}


/// Reads `Document::bookmarks`: the number of top-level bookmarks of the
/// document's in-memory outline.
#[verifier::external_body]
fn root_count(doc: &lopdf::Document) -> (n: usize)
    ensures
        n == outline_roots(*doc).len(),
{
    doc.bookmarks.len()
}

/// Calls `HashMap::is_empty` on `Document::bookmark_table`: whether the
/// in-memory outline holds no bookmark.
#[verifier::external_body]
fn table_is_empty(doc: &lopdf::Document) -> (b: bool)
    ensures
        b <==> outline_table(*doc).dom() == Set::<u32>::empty(),
{
    doc.bookmark_table.is_empty()
}

/// Reads `Document::max_bookmark_id`.
#[verifier::external_body]
fn last_bookmark(doc: &lopdf::Document) -> (id: u32)
    ensures
        id == last_bookmark_id(*doc),
{
    doc.max_bookmark_id
}

/// Reads `Document::max_id`.
#[verifier::external_body]
fn last_object(doc: &lopdf::Document) -> (id: u32)
    ensures
        id == last_object_id(*doc),
{
    doc.max_id
}

/// An in-memory outline with no bookmark yet, as a document has when it has
/// just been loaded.
pub open spec fn outline_is_empty(s: OutlineState) -> bool {
    &&& s.roots.len() == 0
    &&& s.table.dom() == Set::<u32>::empty()
}

/// Whether the bookmark ids and object numbers that a run of `existing` and
/// `new` entries may use on an empty outline stay within `u32`.
pub open spec fn run_fits(last_bookmark: u32, last_object: u32, existing: nat, new: nat) -> bool {
    &&& last_bookmark + existing + new <= u32::MAX
    &&& last_object + 1 + 2 * (existing + new) <= u32::MAX
}

/// `add_bookmarks` on a document whose in-memory outline is still empty, as
/// it is after loading; `None`, with the document left as it was, when the
/// outline already has bookmarks or the run would need bookmark ids or
/// object numbers past `u32::MAX`.
pub fn add_bookmarks_checked(
    doc: &mut lopdf::Document,
    existing: Vec<Entry>,
    entries: Vec<Entry>,
    pages: &BTreeMap<u32, (u32, u16)>,
    policy: ExistingPolicy,
) -> (r: Option<Result<(), BookmarkError>>)
    ensures
        r is Some <==> outline_is_empty(outline_of(*old(doc))) && run_fits(
            last_bookmark_id(*old(doc)),
            last_object_id(*old(doc)),
            existing@.len(),
            entries@.len(),
        ),
        r is None ==> *final(doc) == *old(doc),
        r is Some ==> outline_of(*final(doc)) == bookmark_plan(
            outline_of(*old(doc)),
            entries_view(existing@),
            entries_view(entries@),
            pages@,
            policy,
        ),
        r matches Some(res) ==> catalog_after_write(
            catalog_outlines(*old(doc)),
            last_object_id(*old(doc)),
            objects_within_last(*old(doc)),
            bookmark_plan(
                outline_of(*old(doc)),
                entries_view(existing@),
                entries_view(entries@),
                pages@,
                policy,
            ),
            res,
            catalog_outlines(*final(doc)),
        ),
        r matches Some(res) ==> toc_after_write(
            catalog_outlines(*old(doc)),
            objects_within_last(*old(doc)),
            bookmark_plan(
                outline_of(*old(doc)),
                entries_view(existing@),
                entries_view(entries@),
                pages@,
                policy,
            ),
            res,
            pages_of(*final(doc)),
            toc_of(*final(doc)),
        ),
{
    let roots = root_count(doc);
    let no_bookmarks = table_is_empty(doc);
    let last_id = last_bookmark(doc);
    let last_obj = last_object(doc);
    let ne = existing.len();
    let nn = entries.len();
    if roots != 0 || !no_bookmarks || ne > 0xFFFF_FFFF || nn > 0xFFFF_FFFF {
        return None;
    }
    let ids_needed: u64 = last_id as u64 + ne as u64 + nn as u64;
    let objects_needed: u64 = last_obj as u64 + 1 + 2 * (ne as u64 + nn as u64);
    if ids_needed > 0xFFFF_FFFF || objects_needed > 0xFFFF_FFFF {
        return None;
    }
    Some(add_bookmarks(doc, existing, entries, pages, policy))
}

/// The pages of a document by one-based page number, each with the id of its
/// page object, as `Document::get_pages` walks the page tree.
pub uninterp spec fn pages_of(doc: lopdf::Document) -> Map<u32, (u32, u16)>;

/// Calls `Document::get_pages`: the result is the name `pages_of` of the
/// document.
#[verifier::external_body]
fn document_pages(doc: &lopdf::Document) -> (pages: BTreeMap<u32, (u32, u16)>)
    ensures
        pages@ == pages_of(*doc),
{
    doc.get_pages()
}

/// What a bookmarking run reads from a loaded document: its pages, the
/// number of its last page, and the bookmarks it already has.
pub struct DocumentSummary {
    pub pages: BTreeMap<u32, (u32, u16)>,
    pub last_page: u32,
    pub existing: Vec<Entry>,
}

/// Reads the pages, the last page number and the existing bookmarks of a
/// loaded document; fails exactly when its existing bookmarks cannot be
/// read, with the error that `Document::get_toc` gave. The documents on which `Document::get_toc` panics or does not
/// return are left out.
pub fn summarize(doc: &lopdf::Document) -> (r: Result<DocumentSummary, BookmarkError>)
    requires
        toc_of(*doc) is Some,
    ensures
        r is Err <==> toc_of(*doc) matches Some(Err(Some(_))),
        toc_of(*doc) matches Some(Err(Some(e))) ==> r == Err::<DocumentSummary, BookmarkError>(
            BookmarkError::Pdf(e),
        ),
        r matches Ok(s) ==> {
            &&& s.pages@ == pages_of(*doc)
            &&& is_last_page(s.pages@, s.last_page)
            &&& match toc_of(*doc) {
                Some(Ok(items)) => entries_view(s.existing@) == entries_of_toc(items),
                _ => s.existing@.len() == 0,
            }
        },
{
    let pages = document_pages(doc);
    let last = last_page(&pages);
    match existing_entries(doc) {
        Ok(existing) => Ok(DocumentSummary { pages, last_page: last, existing }),
        Err(e) => Err(e),
    }
}

/// Writes the entries of a run into a document that `summary` describes:
/// `add_bookmarks_checked` with the existing bookmarks of the summary, or
/// none of them when `from_zero` discards them. When `from_zero` leaves no
/// bookmark at all, the catalog's `/Outlines` entry is removed, so the
/// document keeps none of its old bookmarks; that fails when it has no
/// catalog.
pub fn write_bookmarks(
    doc: &mut lopdf::Document,
    summary: DocumentSummary,
    entries: Vec<Entry>,
    policy: ExistingPolicy,
    from_zero: bool,
) -> (r: Option<Result<(), BookmarkError>>)
    ensures
        ({
            let existing = if from_zero {
                Seq::<Entry>::empty()
            } else {
                summary.existing@
            };
            let plan = bookmark_plan(
                outline_of(*old(doc)),
                entries_view(existing),
                entries_view(entries@),
                summary.pages@,
                policy,
            );
            &&& r is Some <==> outline_is_empty(outline_of(*old(doc))) && run_fits(
                last_bookmark_id(*old(doc)),
                last_object_id(*old(doc)),
                existing.len(),
                entries@.len(),
            )
            &&& r is None ==> *final(doc) == *old(doc)
            &&& r is Some ==> outline_of(*final(doc)) == plan
            &&& (!from_zero || plan.roots.len() > 0) ==> (r matches Some(res) ==> catalog_after_write(
                catalog_outlines(*old(doc)),
                last_object_id(*old(doc)),
                objects_within_last(*old(doc)),
                plan,
                res,
                catalog_outlines(*final(doc)),
            ))
            &&& r matches Some(res) ==> toc_after_write(
                catalog_outlines(*old(doc)),
                objects_within_last(*old(doc)),
                plan,
                res,
                pages_of(*final(doc)),
                toc_of(*final(doc)),
            )
            &&& from_zero && plan.roots.len() == 0 ==> (r matches Some(res) ==> {
                &&& res is Ok <==> catalog_outlines(*old(doc)) is Ok
                &&& res matches Err(BookmarkError::Pdf(e)) ==> catalog_outlines(*old(doc))
                    == no_catalog(e)
                &&& res is Ok ==> catalog_outlines(*final(doc)) == catalog_with(
                    None,
                    has_named_destinations(catalog_outlines(*old(doc))),
                )
                &&& res is Ok ==> toc_of(*final(doc)) == toc_no_outline()
            })
        }),
{
    let existing = if from_zero {
        Vec::new()
    } else {
        summary.existing
    };
    let r = add_bookmarks_checked(doc, existing, entries, &summary.pages, policy);
    match r {
        Some(Ok(())) => {
            if from_zero && root_count(doc) == 0 {
                match remove_outline_root(doc) {
                    Ok(()) => Some(Ok(())),
                    Err(e) => Some(Err(BookmarkError::Pdf(e))),
                }
            } else {
                Some(Ok(()))
            }
        },
        other => other,
    }
}

proof fn lemma_first_unused_spec(existing: Seq<EntryView>, used: Seq<bool>, page: u32, from: int)
    requires
        0 <= from,
    ensures
        first_unused_from(existing, used, page, from) matches Some(k) ==> from <= k < existing.len()
            && !used[k as int] && existing[k as int].page == page && forall|j: int|
            from <= j < k ==> (used[j] || existing[j].page != page),
        first_unused_from(existing, used, page, from) is None ==> forall|j: int|
            from <= j < existing.len() ==> (used[j] || existing[j].page != page),
    decreases existing.len() - from,
{
    if from < existing.len() && !(!used[from] && existing[from].page == page) {
        lemma_first_unused_spec(existing, used, page, from + 1);
    }
}

/// What pairing new entries with existing ones keeps true: an existing entry
/// is taken exactly when some new entry took it, no two new entries take the
/// same one, a taken one is on the page of the entry that took it and has
/// its title, an untaken one is as it was, pages and depths never change,
/// and each new entry took the first existing entry on its page that no
/// earlier entry took (or none, when every such entry was taken).
pub open spec fn pairing_holds(existing: Seq<EntryView>, entries: Seq<EntryView>, m: Matching) -> bool {
    &&& m.existing.len() == existing.len()
    &&& m.used.len() == existing.len()
    &&& m.matches.len() == entries.len()
    &&& forall|k: int|
        0 <= k < existing.len() ==> (#[trigger] m.used[k] <==> exists|i: int|
            0 <= i < entries.len() && #[trigger] m.matches[i] == Some(k as nat))
    &&& forall|i: int|
        0 <= i < entries.len() && (#[trigger] m.matches[i]) is Some ==> {
            let k = m.matches[i]->0 as int;
            &&& k < existing.len()
            &&& existing[k].page == entries[i].page
            &&& m.existing[k].title == entries[i].title
        }
    &&& forall|i: int, j: int|
        0 <= i < j < entries.len() && m.matches[i] is Some ==> #[trigger] m.matches[i]
            != #[trigger] m.matches[j]
    &&& forall|k: int| 0 <= k < existing.len() && !m.used[k] ==> #[trigger] m.existing[k] == existing[k]
    &&& forall|k: int|
        0 <= k < existing.len() ==> (#[trigger] m.existing[k]).page == existing[k].page
            && m.existing[k].depth == existing[k].depth
    &&& forall|i: int, j: int|
        #![trigger m.matches[i], existing[j]]
        0 <= i < entries.len() && m.matches[i] is Some && 0 <= j < m.matches[i]->0
            && existing[j].page == entries[i].page ==> exists|i2: int|
            0 <= i2 < i && #[trigger] m.matches[i2] == Some(j as nat)
    &&& forall|i: int, j: int|
        #![trigger m.matches[i], existing[j]]
        0 <= i < entries.len() && m.matches[i] is None && 0 <= j < existing.len()
            && existing[j].page == entries[i].page ==> exists|i2: int|
            0 <= i2 < i && #[trigger] m.matches[i2] == Some(j as nat)
}

#[verifier::rlimit(40)]
proof fn lemma_pairing_step(existing: Seq<EntryView>, prev: Seq<EntryView>, e: EntryView, m: Matching)
    requires
        pairing_holds(existing, prev, m),
    ensures
        pairing_holds(existing, prev.push(e), match_entry(m, e)),
{
    let entries = prev.push(e);
    let m2 = match_entry(m, e);
    let n = prev.len() as int;
    assert(entries.last() == e);
    assert(entries.drop_last() == prev);
    lemma_first_unused_spec(m.existing, m.used, e.page, 0);
    assert forall|k: int| 0 <= k < existing.len() implies m.existing[k].page == existing[k].page by {
        assert(m.existing[k].page == existing[k].page);
    }
    assert forall|i: int| 0 <= i < n implies #[trigger] m2.matches[i] == m.matches[i] by {}
    assert forall|k: int|
        0 <= k < existing.len() implies (#[trigger] m2.used[k] <==> exists|i: int|
            0 <= i < entries.len() && #[trigger] m2.matches[i] == Some(k as nat)) by {
        if m2.used[k] {
            if m.used[k] {
                let i = choose|i: int| 0 <= i < n && #[trigger] m.matches[i] == Some(k as nat);
                assert(m2.matches[i] == Some(k as nat));
            } else {
                assert(m2.matches[n] == Some(k as nat));
            }
        }
        if exists|i: int| 0 <= i < entries.len() && #[trigger] m2.matches[i] == Some(k as nat) {
            let i = choose|i: int|
                0 <= i < entries.len() && #[trigger] m2.matches[i] == Some(k as nat);
            if i < n {
                assert(m.matches[i] == Some(k as nat));
            }
        }
    }
    assert forall|i: int, j: int|
        0 <= i < j < entries.len() && m2.matches[i] is Some implies #[trigger] m2.matches[i]
            != #[trigger] m2.matches[j] by {
        if j == n {
            if m2.matches[n] is Some {
                let k = m2.matches[n]->0;
                assert(!m.used[k as int]);
                if m.matches[i] == Some(k) {
                    assert(exists|i2: int| 0 <= i2 < n && #[trigger] m.matches[i2] == Some(k));
                }
            }
        }
    }
    assert forall|i: int, j: int|
        #![trigger m2.matches[i], existing[j]]
        0 <= i < entries.len() && m2.matches[i] is Some && 0 <= j < m2.matches[i]->0
            && existing[j].page == entries[i].page implies exists|i2: int|
            0 <= i2 < i && #[trigger] m2.matches[i2] == Some(j as nat) by {
        if i < n {
            assert(m.matches[i] == m2.matches[i]);
            assert(entries[i] == prev[i]);
            let i2 = choose|i2: int| 0 <= i2 < i && #[trigger] m.matches[i2] == Some(j as nat);
            assert(m2.matches[i2] == Some(j as nat));
        } else {
            assert(m.used[j]);
            let i2 = choose|i2: int| 0 <= i2 < n && #[trigger] m.matches[i2] == Some(j as nat);
            assert(m2.matches[i2] == Some(j as nat));
        }
    }
    assert forall|i: int, j: int|
        #![trigger m2.matches[i], existing[j]]
        0 <= i < entries.len() && m2.matches[i] is None && 0 <= j < existing.len()
            && existing[j].page == entries[i].page implies exists|i2: int|
            0 <= i2 < i && #[trigger] m2.matches[i2] == Some(j as nat) by {
        if i < n {
            assert(m.matches[i] is None);
            assert(entries[i] == prev[i]);
            let i2 = choose|i2: int| 0 <= i2 < i && #[trigger] m.matches[i2] == Some(j as nat);
            assert(m2.matches[i2] == Some(j as nat));
        } else {
            assert(m.used[j]);
            let i2 = choose|i2: int| 0 <= i2 < n && #[trigger] m.matches[i2] == Some(j as nat);
            assert(m2.matches[i2] == Some(j as nat));
        }
    }
    assert forall|i: int|
        0 <= i < entries.len() && (#[trigger] m2.matches[i]) is Some implies {
            let k = m2.matches[i]->0 as int;
            &&& k < existing.len()
            &&& existing[k].page == entries[i].page
            &&& m2.existing[k].title == entries[i].title
        } by {
        if i < n {
            let k = m.matches[i]->0;
            assert(m.matches[i] == m2.matches[i]);
            assert(entries[i] == prev[i]);
            assert(m.used[k as int]);
        }
    }
}

proof fn lemma_pairing(existing: Seq<EntryView>, entries: Seq<EntryView>)
    ensures
        pairing_holds(
            existing,
            entries,
            match_entries(
                Matching {
                    existing,
                    used: Seq::new(existing.len(), |i: int| false),
                    matches: seq![],
                },
                entries,
            ),
        ),
    decreases entries.len(),
{
    let start = Matching { existing, used: Seq::new(existing.len(), |i: int| false), matches: seq![] };
    if entries.len() > 0 {
        let prev = entries.drop_last();
        lemma_pairing(existing, prev);
        lemma_pairing_step(existing, prev, entries.last(), match_entries(start, prev));
        assert(prev.push(entries.last()) == entries);
    }
}

/// Updating pairs each new entry with the first existing bookmark on its
/// page, in document order, that no earlier entry took; each existing
/// bookmark is taken at most once; a taken bookmark keeps its page and level
/// and gets the entry's title; the others stay as they were; and an entry
/// that takes none finds every existing bookmark on its page taken before.
pub proof fn law_update_pairs_once_in_order(existing: Seq<EntryView>, entries: Seq<EntryView>)
    ensures
        pairing_holds(existing, entries, matching_of(existing, entries, ExistingPolicy::Update)),
{
    lemma_pairing(existing, entries);
}

/// Creating keeps every existing bookmark as it was and pairs no new entry
/// with one, so every new entry on a page of the document becomes a new
/// bookmark.
pub proof fn law_create_keeps_existing(existing: Seq<EntryView>, entries: Seq<EntryView>, ids: Seq<Option<u32>>)
    ensures
        matching_of(existing, entries, ExistingPolicy::Create).existing == existing,
        reuses_of(matching_of(existing, entries, ExistingPolicy::Create).matches, ids) == Seq::new(
            entries.len(),
            |i: int| None::<u32>,
        ),
{
    let m = matching_of(existing, entries, ExistingPolicy::Create);
    assert(reuses_of(m.matches, ids) == Seq::new(entries.len(), |i: int| None::<u32>));
}

} // verus!
