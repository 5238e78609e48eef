//! How entries hang together when they are written: the level an entry gets
//! and the entry it hangs under, stated over entry positions; how the written
//! outline reflects them; and what a run writes under each policy for
//! existing bookmarks.

use vstd::prelude::*;
use crate::entry::EntryView;
use crate::cli::ExistingPolicy;
use crate::outline::{
    first_unused_from, lemma_first_unused_bound, lemma_match_entries_shape, match_entries,
    match_entry, Matching,
    bookmark_plan, law_update_pairs_once_in_order, lemma_add_keeps_ok, lemma_place_entries_counts,
    lemma_place_keeps_ok, lemma_write_keeps_ok,
    level_of, matching_of, outline_after_add, outline_ok, place_entries, reuses_of, start_on,
    write_entries, write_entry, OutlineState, Placement, Writing,
};

verus! {

/// Whether entry `i` is written, that is whether the document has its page.
pub open spec fn is_placed(es: Seq<EntryView>, pages: Map<u32, (u32, u16)>, i: int) -> bool {
    pages.contains_key(es[i].page)
}

/// The positions of the entries that a new entry could hang under after the
/// first `n` entries: one per level, the last written entry at that level.
pub open spec fn chain(es: Seq<EntryView>, pages: Map<u32, (u32, u16)>, n: int) -> Seq<int>
    decreases n,
{
    if n <= 0 {
        seq![]
    } else {
        let c = chain(es, pages, n - 1);
        if !is_placed(es, pages, n - 1) {
            c
        } else {
            let level = level_of(es[n - 1].depth, c.len());
            c.take(level as int).push(n - 1)
        }
    }
}

/// The level that entry `i` is written at.
pub open spec fn level_at(es: Seq<EntryView>, pages: Map<u32, (u32, u16)>, i: int) -> nat {
    level_of(es[i].depth, chain(es, pages, i).len())
}

/// The position of the entry that entry `i` hangs under; `None` at the top level.
pub open spec fn parent_entry(es: Seq<EntryView>, pages: Map<u32, (u32, u16)>, i: int) -> Option<int> {
    if level_at(es, pages, i) == 0 {
        None
    } else {
        Some(chain(es, pages, i)[level_at(es, pages, i) - 1])
    }
}

/// What the chain after `k` entries is: at each level, the last written
/// entry at that level, with only deeper entries written after it; empty
/// before any entry is written, and one longer than the level of the last
/// written entry after that.
pub open spec fn chain_holds(es: Seq<EntryView>, pages: Map<u32, (u32, u16)>, k: int) -> bool {
    let c = chain(es, pages, k);
    &&& forall|p: int|
        0 <= p < c.len() ==> {
            &&& 0 <= #[trigger] c[p] < k
            &&& is_placed(es, pages, c[p])
            &&& level_at(es, pages, c[p]) == p
            &&& forall|m: int|
                c[p] < m < k && is_placed(es, pages, m) ==> #[trigger] level_at(es, pages, m) > p
        }
    &&& (forall|m: int| 0 <= m < k ==> !is_placed(es, pages, m)) ==> c.len() == 0
    &&& forall|j: int|
        0 <= j < k && is_placed(es, pages, j) && (forall|m: int|
            j < m < k ==> !is_placed(es, pages, m)) ==> c.len() == #[trigger] level_at(es, pages, j)
            + 1
}

proof fn lemma_chain_holds(es: Seq<EntryView>, pages: Map<u32, (u32, u16)>, k: int)
    requires
        0 <= k <= es.len(),
    ensures
        chain_holds(es, pages, k),
    decreases k,
{
    if k > 0 {
        lemma_chain_holds(es, pages, k - 1);
        let c0 = chain(es, pages, k - 1);
        let c = chain(es, pages, k);
        let i = k - 1;
        if is_placed(es, pages, i) {
            let level = level_at(es, pages, i);
            assert(c == c0.take(level as int).push(i));
            assert forall|p: int| 0 <= p < c.len() implies {
                &&& 0 <= #[trigger] c[p] < k
                &&& is_placed(es, pages, c[p])
                &&& level_at(es, pages, c[p]) == p
                &&& forall|m: int|
                    c[p] < m < k && is_placed(es, pages, m) ==> #[trigger] level_at(es, pages, m) > p
            } by {
                if p < level {
                    assert(c[p] == c0[p]);
                    assert forall|m: int|
                        c[p] < m < k && is_placed(es, pages, m) implies #[trigger] level_at(
                        es,
                        pages,
                        m,
                    ) > p by {
                        if m < i {
                            assert(c0[p] == c[p]);
                        }
                    }
                }
            }
            assert forall|j: int|
                0 <= j < k && is_placed(es, pages, j) && (forall|m: int|
                    j < m < k ==> !is_placed(es, pages, m)) implies c.len() == #[trigger] level_at(
                es,
                pages,
                j,
            ) + 1 by {
                if j < i {
                    assert(!is_placed(es, pages, i));
                }
            }
        } else {
            assert(c == c0);
            assert forall|j: int|
                0 <= j < k && is_placed(es, pages, j) && (forall|m: int|
                    j < m < k ==> !is_placed(es, pages, m)) implies c.len() == #[trigger] level_at(
                es,
                pages,
                j,
            ) + 1 by {
                assert forall|m: int| j < m < k - 1 implies !is_placed(es, pages, m) by {}
            }
        }
    }
}

/// An entry is written at its own depth, or, when that skips levels, at the
/// deepest level available: one below the last entry written before it
/// (the top level when there is none). It hangs under the last entry written
/// before it one level up, and every entry written in between is at its
/// level or deeper.
pub proof fn law_entries_nest(es: Seq<EntryView>, pages: Map<u32, (u32, u16)>, i: int)
    requires
        0 <= i < es.len(),
        is_placed(es, pages, i),
    ensures
        level_at(es, pages, i) <= es[i].depth,
        (forall|m: int| 0 <= m < i ==> !is_placed(es, pages, m)) ==> level_at(es, pages, i) == 0,
        forall|j: int|
            0 <= j < i && is_placed(es, pages, j) && (forall|m: int|
                j < m < i ==> !is_placed(es, pages, m)) ==> level_at(es, pages, i) == if es[i].depth
                <= #[trigger] level_at(es, pages, j) + 1 {
                es[i].depth
            } else {
                level_at(es, pages, j) + 1
            },
        parent_entry(es, pages, i) is None <==> level_at(es, pages, i) == 0,
        parent_entry(es, pages, i) matches Some(j) ==> {
            &&& 0 <= j < i
            &&& is_placed(es, pages, j)
            &&& level_at(es, pages, j) + 1 == level_at(es, pages, i)
            &&& forall|m: int|
                j < m < i && is_placed(es, pages, m) ==> #[trigger] level_at(es, pages, m) >= level_at(
                    es,
                    pages,
                    i,
                )
        },
{
    lemma_chain_holds(es, pages, i);
    let c = chain(es, pages, i);
    if level_at(es, pages, i) > 0 {
        let p = level_at(es, pages, i) - 1;
        assert(0 <= c[p] < i);
    }
}


/// What the outline holds after writing the first `k` entries onto
/// `outline0`: each written entry has its own new id, above every id that
/// `outline0` had handed out, and a bookmark with its title and page object,
/// listed among the children of the bookmark of the entry it hangs under, or
/// among the roots at the top level; an entry whose page the document lacks
/// has no id; every bookmark of `outline0` stays, and no bookmark is added
/// but those of the written entries.
pub open spec fn outline_reflects(
    es: Seq<EntryView>,
    pages: Map<u32, (u32, u16)>,
    outline0: OutlineState,
    k: int,
) -> bool {
    let p = place_entries(start_on(outline0), es.take(k), pages);
    &&& p.ids.len() == k
    &&& forall|m: int| 0 <= m < k ==> ((#[trigger] p.ids[m]) is Some <==> is_placed(es, pages, m))
    &&& forall|m: int|
        0 <= m < k && is_placed(es, pages, m) ==> {
            let id = (#[trigger] p.ids[m])->0;
            &&& outline0.last_id < id <= p.outline.last_id
            &&& p.outline.table.contains_key(id)
            &&& p.outline.table[id].0 == es[m].title
            &&& p.outline.table[id].1 == pages[es[m].page]
            &&& match parent_entry(es, pages, m) {
                Some(j) => p.outline.table[p.ids[j]->0].2.contains(id),
                None => p.outline.roots.contains(id),
            }
        }
    &&& forall|m1: int, m2: int|
        0 <= m1 < m2 < k && is_placed(es, pages, m1) && is_placed(es, pages, m2) ==> (
        #[trigger] p.ids[m1])->0 != (#[trigger] p.ids[m2])->0
    &&& forall|id: u32|
        #[trigger] p.outline.table.contains_key(id) ==> outline0.table.contains_key(id) || exists|
            m: int,
        |
            0 <= m < k && #[trigger] p.ids[m] == Some(id)
    &&& forall|id: u32| #[trigger] outline0.table.contains_key(id) ==> p.outline.table.contains_key(id)
}

/// The stack of a placement holds the ids of the chain.
pub open spec fn stack_matches_chain(
    es: Seq<EntryView>,
    pages: Map<u32, (u32, u16)>,
    p: Placement,
    k: int,
) -> bool {
    let c = chain(es, pages, k);
    &&& p.stack.len() == c.len()
    &&& forall|q: int| 0 <= q < c.len() ==> #[trigger] p.stack[q] == p.ids[c[q]]->0
}

#[verifier::rlimit(60)]
proof fn lemma_reflects_step(
    es: Seq<EntryView>,
    pages: Map<u32, (u32, u16)>,
    outline0: OutlineState,
    k: int,
)
    requires
        0 <= k < es.len(),
        outline0.last_id + es.len() <= u32::MAX,
        outline_reflects(es, pages, outline0, k),
        stack_matches_chain(es, pages, place_entries(start_on(outline0), es.take(k), pages), k),
        place_entries(start_on(outline0), es.take(k), pages).outline.last_id <= outline0.last_id + k,
    ensures
        outline_reflects(es, pages, outline0, k + 1),
        stack_matches_chain(
            es,
            pages,
            place_entries(start_on(outline0), es.take(k + 1), pages),
            k + 1,
        ),
        place_entries(start_on(outline0), es.take(k + 1), pages).outline.last_id <= outline0.last_id
            + k + 1,
{
    let p = place_entries(start_on(outline0), es.take(k), pages);
    let p2 = place_entries(start_on(outline0), es.take(k + 1), pages);
    assert(es.take(k + 1).drop_last() == es.take(k));
    assert(es.take(k + 1).last() == es[k]);
    let c = chain(es, pages, k);
    lemma_chain_holds(es, pages, k);
    lemma_place_entries_counts(start_on(outline0), es.take(k), pages);
    if is_placed(es, pages, k) {
        let level = level_at(es, pages, k);
        let t = p.outline.table;
        let new_id = (p.outline.last_id + 1) as u32;
        let parent = if level == 0 {
            None
        } else {
            Some(p.stack[level - 1])
        };
        assert(p2.ids[k] == Some(new_id));
        assert forall|m: int| 0 <= m < k implies #[trigger] p2.ids[m] == p.ids[m] by {}
        if level > 0 {
            let j = c[level - 1];
            assert(parent == Some(p.ids[j]->0));
            assert(t.contains_key(p.ids[j]->0));
        }
        assert forall|m: int|
            0 <= m < k + 1 && is_placed(es, pages, m) implies {
            let id = (#[trigger] p2.ids[m])->0;
            &&& outline0.last_id < id <= p2.outline.last_id
            &&& p2.outline.table.contains_key(id)
            &&& p2.outline.table[id].0 == es[m].title
            &&& p2.outline.table[id].1 == pages[es[m].page]
            &&& match parent_entry(es, pages, m) {
                Some(j) => p2.outline.table[p2.ids[j]->0].2.contains(id),
                None => p2.outline.roots.contains(id),
            }
        } by {
            if m < k {
                let id = p.ids[m]->0;
                assert(p2.ids[m] == p.ids[m]);
                match parent_entry(es, pages, m) {
                    Some(j) => {
                        lemma_chain_holds(es, pages, m);
                        assert(0 <= j < m);
                        assert(p2.ids[j] == p.ids[j]);
                        let pj = p.ids[j]->0;
                        assert(t[pj].2.contains(id));
                        if parent == Some(pj) {
                            assert(p2.outline.table[pj].2 == t[pj].2.push(new_id));
                            let w = choose|w: int| 0 <= w < t[pj].2.len() && t[pj].2[w] == id;
                            assert(p2.outline.table[pj].2[w] == id);
                        } else {
                            assert(p2.outline.table[pj] == t[pj]);
                        }
                    },
                    None => {
                        assert(p.outline.roots.contains(id));
                        if parent is None {
                            let w = choose|w: int| 0 <= w < p.outline.roots.len() && p.outline.roots[w] == id;
                            assert(p2.outline.roots[w] == id);
                        }
                    },
                }
            } else {
                match parent_entry(es, pages, m) {
                    Some(j) => {
                        assert(j == c[level - 1]);
                        assert(p2.ids[j] == p.ids[j]);
                        let pj = p.ids[j]->0;
                        assert(p2.outline.table[pj].2 == t[pj].2.push(new_id));
                        assert(p2.outline.table[pj].2[t[pj].2.len() as int] == new_id);
                    },
                    None => {
                        assert(p2.outline.roots == p.outline.roots.push(new_id));
                        assert(p2.outline.roots[p.outline.roots.len() as int] == new_id);
                    },
                }
            }
        }
        assert forall|id: u32|
            #[trigger] p2.outline.table.contains_key(id) && !outline0.table.contains_key(
                id,
            ) implies exists|m: int| 0 <= m < k + 1 && #[trigger] p2.ids[m] == Some(id) by {
            if id == new_id {
                assert(p2.ids[k] == Some(id));
            } else {
                assert(t.contains_key(id));
                let m = choose|m: int| 0 <= m < k && #[trigger] p.ids[m] == Some(id);
                assert(p2.ids[m] == Some(id));
            }
        }
        let c2 = chain(es, pages, k + 1);
        assert(c2 == c.take(level as int).push(k));
        assert forall|q: int| 0 <= q < c2.len() implies #[trigger] p2.stack[q] == p2.ids[c2[q]]->0 by {
            if q < level {
                assert(c2[q] == c[q]);
                assert(p2.stack[q] == p.stack[q]);
                assert(0 <= c[q] < k);
            }
        }
    } else {
        assert(p2.ids == p.ids.push(None));
        assert(p2.outline == p.outline);
        assert(chain(es, pages, k + 1) == c);
        assert forall|m: int| 0 <= m < k implies #[trigger] p2.ids[m] == p.ids[m] by {}
        assert forall|id: u32|
            #[trigger] p2.outline.table.contains_key(id) && !outline0.table.contains_key(
                id,
            ) implies exists|m: int| 0 <= m < k + 1 && #[trigger] p2.ids[m] == Some(id) by {
            let m = choose|m: int| 0 <= m < k && #[trigger] p.ids[m] == Some(id);
            assert(p2.ids[m] == Some(id));
        }
        assert forall|m: int|
            0 <= m < k + 1 && is_placed(es, pages, m) implies {
            let id = (#[trigger] p2.ids[m])->0;
            match parent_entry(es, pages, m) {
                Some(j) => p2.outline.table[p2.ids[j]->0].2.contains(id),
                None => p2.outline.roots.contains(id),
            }
        } by {
            assert(m < k);
            assert(p2.ids[m] == p.ids[m]);
            if let Some(j) = parent_entry(es, pages, m) {
                lemma_chain_holds(es, pages, m);
                assert(0 <= j < m);
                assert(p2.ids[j] == p.ids[j]);
            }
        }
    }
}

proof fn lemma_reflects(es: Seq<EntryView>, pages: Map<u32, (u32, u16)>, outline0: OutlineState, k: int)
    requires
        0 <= k <= es.len(),
        outline0.last_id + es.len() <= u32::MAX,
    ensures
        outline_reflects(es, pages, outline0, k),
        stack_matches_chain(es, pages, place_entries(start_on(outline0), es.take(k), pages), k),
        place_entries(start_on(outline0), es.take(k), pages).outline.last_id <= outline0.last_id + k,
    decreases k,
{
    if k == 0 {
        assert(es.take(0) == Seq::<EntryView>::empty());
    } else {
        lemma_reflects(es, pages, outline0, k - 1);
        lemma_reflects_step(es, pages, outline0, k - 1);
    }
}

/// Writing entries onto any outline, as long as the new bookmark ids fit in
/// `u32`, gives each entry whose page the document has a new bookmark with
/// its title and page and an id of its own above every earlier id, listed
/// under the bookmark of the entry it hangs under (see `law_entries_nest`),
/// or among the roots at the top level; an entry whose page the document
/// lacks gets no bookmark, and no other bookmark is added.
pub proof fn law_outline_follows_nesting(
    outline0: OutlineState,
    es: Seq<EntryView>,
    pages: Map<u32, (u32, u16)>,
)
    requires
        outline0.last_id + es.len() <= u32::MAX,
    ensures
        outline_reflects(es, pages, outline0, es.len() as int),
        place_entries(start_on(outline0), es, pages) == place_entries(
            start_on(outline0),
            es.take(es.len() as int),
            pages,
        ),
{
    lemma_reflects(es, pages, outline0, es.len() as int);
    assert(es.take(es.len() as int) == es);
}

proof fn lemma_write_without_reuse(
    w: Writing,
    p: Placement,
    es: Seq<EntryView>,
    reuses: Seq<Option<u32>>,
    pages: Map<u32, (u32, u16)>,
)
    requires
        w.outline == p.outline,
        w.stack == p.stack,
        forall|i: int| 0 <= i < es.len() ==> reuses[i] is None,
    ensures
        write_entries(w, es, reuses, pages).outline == place_entries(p, es, pages).outline,
        write_entries(w, es, reuses, pages).stack == place_entries(p, es, pages).stack,
    decreases es.len(),
{
    if es.len() > 0 {
        lemma_write_without_reuse(w, p, es.drop_last(), reuses, pages);
        assert(reuses[es.len() - 1] is None);
    }
}

/// Under `Create`, the plan writes the existing entries again as they were
/// and then every new entry as a new bookmark, each with the nesting that
/// `law_outline_follows_nesting` describes.
pub proof fn law_create_writes_existing_then_new(
    outline0: OutlineState,
    existing: Seq<EntryView>,
    entries: Seq<EntryView>,
    pages: Map<u32, (u32, u16)>,
)
    ensures
        bookmark_plan(outline0, existing, entries, pages, ExistingPolicy::Create) == place_entries(
            start_on(place_entries(start_on(outline0), existing, pages).outline),
            entries,
            pages,
        ).outline,
{
    let m = matching_of(existing, entries, ExistingPolicy::Create);
    let placed = place_entries(start_on(outline0), m.existing, pages);
    let reuses = reuses_of(m.matches, placed.ids);
    assert(m.existing == existing);
    assert forall|i: int| 0 <= i < entries.len() implies reuses[i] is None by {}
    lemma_write_without_reuse(
        Writing { outline: placed.outline, stack: seq![] },
        start_on(placed.outline),
        entries,
        reuses,
        pages,
    );
}

/// Two outlines with the same bookmarks in the same places: the same roots,
/// the same ids with the same pages and children, and the same last id;
/// only titles may differ.
pub open spec fn same_shape(a: OutlineState, b: OutlineState) -> bool {
    &&& a.roots == b.roots
    &&& a.last_id == b.last_id
    &&& a.table.dom() == b.table.dom()
    &&& forall|id: u32|
        #[trigger] a.table.contains_key(id) ==> a.table[id].1 == b.table[id].1 && a.table[id].2
            == b.table[id].2
}

/// Two runs of entries that agree on every page and depth.
pub open spec fn same_places(a: Seq<EntryView>, b: Seq<EntryView>) -> bool {
    &&& a.len() == b.len()
    &&& forall|i: int|
        0 <= i < a.len() ==> (#[trigger] a[i]).page == b[i].page && a[i].depth == b[i].depth
}

proof fn lemma_same_places_shape(
    st1: Placement,
    st2: Placement,
    a: Seq<EntryView>,
    b: Seq<EntryView>,
    pages: Map<u32, (u32, u16)>,
)
    requires
        same_shape(st1.outline, st2.outline),
        st1.stack == st2.stack,
        st1.ids == st2.ids,
        same_places(a, b),
    ensures
        same_shape(place_entries(st1, a, pages).outline, place_entries(st2, b, pages).outline),
        place_entries(st1, a, pages).stack == place_entries(st2, b, pages).stack,
        place_entries(st1, a, pages).ids == place_entries(st2, b, pages).ids,
    decreases a.len(),
{
    if a.len() > 0 {
        let n = a.len() - 1;
        assert(same_places(a.drop_last(), b.drop_last())) by {
            assert forall|i: int| 0 <= i < n implies (#[trigger] a.drop_last()[i]).page
                == b.drop_last()[i].page && a.drop_last()[i].depth == b.drop_last()[i].depth by {
                assert(a.drop_last()[i] == a[i]);
                assert(b.drop_last()[i] == b[i]);
            }
        }
        lemma_same_places_shape(st1, st2, a.drop_last(), b.drop_last(), pages);
        let p1 = place_entries(st1, a.drop_last(), pages);
        let p2 = place_entries(st2, b.drop_last(), pages);
        let e1 = a.last();
        let e2 = b.last();
        assert(e1.page == e2.page && e1.depth == e2.depth);
        if pages.contains_key(e1.page) {
            let level = level_of(e1.depth, p1.stack.len());
            let parent = if level == 0 {
                None
            } else {
                Some(p1.stack[level - 1])
            };
            let o1 = outline_after_add(p1.outline, e1.title, pages[e1.page], parent);
            let o2 = outline_after_add(p2.outline, e2.title, pages[e2.page], parent);
            assert(o1.table.dom() == o2.table.dom());
            assert forall|id: u32| #[trigger] o1.table.contains_key(id) implies o1.table[id].1
                == o2.table[id].1 && o1.table[id].2 == o2.table[id].2 by {
                if parent is Some && p1.outline.table.contains_key(parent->0) {
                    assert(p1.outline.table[parent->0].2 == p2.outline.table[parent->0].2);
                }
            }
        }
    }
}

/// Updating changes only titles: the existing bookmarks are written again
/// with the same ids, in the same places, on the same pages, as they are
/// when nothing is updated.
pub proof fn law_update_keeps_hierarchy(
    outline0: OutlineState,
    existing: Seq<EntryView>,
    entries: Seq<EntryView>,
    pages: Map<u32, (u32, u16)>,
)
    ensures
        ({
            let updated = place_entries(
                start_on(outline0),
                matching_of(existing, entries, ExistingPolicy::Update).existing,
                pages,
            );
            let kept = place_entries(start_on(outline0), existing, pages);
            &&& same_shape(updated.outline, kept.outline)
            &&& updated.ids == kept.ids
        }),
{
    let m = matching_of(existing, entries, ExistingPolicy::Update);
    law_update_pairs_once_in_order(existing, entries);
    assert(same_places(m.existing, existing));
    lemma_same_places_shape(
        start_on(outline0),
        start_on(outline0),
        matching_of(existing, entries, ExistingPolicy::Update).existing,
        existing,
        pages,
    );
}

/// The number of new entries that a write adds as new bookmarks: those on a
/// page of the document that update no existing bookmark.
pub open spec fn added_count(
    entries: Seq<EntryView>,
    reuses: Seq<Option<u32>>,
    pages: Map<u32, (u32, u16)>,
) -> nat
    decreases entries.len(),
{
    if entries.len() == 0 {
        0
    } else {
        added_count(entries.drop_last(), reuses, pages) + if pages.contains_key(entries.last().page)
            && reuses[entries.len() - 1] is None {
            1nat
        } else {
            0nat
        }
    }
}

proof fn lemma_write_facts(
    w: Writing,
    entries: Seq<EntryView>,
    reuses: Seq<Option<u32>>,
    pages: Map<u32, (u32, u16)>,
)
    requires
        outline_ok(w.outline),
        w.outline.last_id + entries.len() <= u32::MAX,
    ensures
        ({
            let r = write_entries(w, entries, reuses, pages).outline;
            &&& r.table.len() == w.outline.table.len() + added_count(entries, reuses, pages)
            &&& w.outline.last_id <= r.last_id
            &&& forall|id: u32|
                #[trigger] w.outline.table.contains_key(id) ==> r.table.contains_key(id)
                    && r.table[id].0 == w.outline.table[id].0 && r.table[id].1
                    == w.outline.table[id].1
            &&& forall|i: int|
                0 <= i < entries.len() && pages.contains_key(#[trigger] entries[i].page)
                    && reuses[i] is None ==> exists|id: u32|
                    w.outline.last_id < id <= r.last_id && #[trigger] r.table.contains_key(id)
                        && r.table[id].0 == entries[i].title && r.table[id].1
                        == pages[entries[i].page]
        }),
    decreases entries.len(),
{
    if entries.len() > 0 {
        let n = entries.len() - 1;
        let prev = write_entries(w, entries.drop_last(), reuses, pages);
        lemma_write_facts(w, entries.drop_last(), reuses, pages);
        lemma_write_keeps_ok(w, entries.drop_last(), reuses, pages);
        let e = entries.last();
        let r = write_entries(w, entries, reuses, pages).outline;
        assert forall|i: int| 0 <= i < n implies #[trigger] entries.drop_last()[i] == entries[i] by {}
        if pages.contains_key(e.page) && reuses[n] is None {
            let level = level_of(e.depth, prev.stack.len());
            let parent = if level == 0 {
                None
            } else {
                Some(prev.stack[level - 1])
            };
            let t = prev.outline.table;
            let new_id = (prev.outline.last_id + 1) as u32;
            lemma_add_keeps_ok(prev.outline, e.title, pages[e.page], parent);
            assert(r == outline_after_add(prev.outline, e.title, pages[e.page], parent));
            assert(!t.contains_key(new_id));
            assert forall|id: u32| #[trigger] t.contains_key(id) implies r.table.contains_key(id)
                && r.table[id].0 == t[id].0 && r.table[id].1 == t[id].1 by {}
            assert forall|i: int|
                0 <= i < entries.len() && pages.contains_key(#[trigger] entries[i].page)
                    && reuses[i] is None implies exists|id: u32|
                w.outline.last_id < id <= r.last_id && #[trigger] r.table.contains_key(id)
                    && r.table[id].0 == entries[i].title && r.table[id].1 == pages[entries[i].page] by {
                if i < n {
                    assert(entries.drop_last()[i] == entries[i]);
                    let id = choose|id: u32|
                        w.outline.last_id < id <= prev.outline.last_id && #[trigger] t.contains_key(id)
                            && t[id].0 == entries.drop_last()[i].title && t[id].1
                            == pages[entries.drop_last()[i].page];
                    assert(r.table.contains_key(id));
                } else {
                    assert(entries[i] == e);
                    assert(r.table.contains_key(new_id));
                }
            }
        } else {
            assert(r == prev.outline);
            assert forall|i: int|
                0 <= i < entries.len() && pages.contains_key(#[trigger] entries[i].page)
                    && reuses[i] is None implies exists|id: u32|
                w.outline.last_id < id <= r.last_id && #[trigger] r.table.contains_key(id)
                    && r.table[id].0 == entries[i].title && r.table[id].1 == pages[entries[i].page] by {
                assert(i < n);
                assert(entries.drop_last()[i] == entries[i]);
            }
        }
    }
}

/// Under `Update`, a new entry on a page of the document either gives its
/// title to the existing bookmark it took, which keeps its page, or, having
/// taken none, is added as a new bookmark with its title and page, above
/// every id the existing bookmarks got; the new entries add exactly as many
/// bookmarks as there are such entries.
pub proof fn law_update_retitles_or_adds(
    outline0: OutlineState,
    existing: Seq<EntryView>,
    entries: Seq<EntryView>,
    pages: Map<u32, (u32, u16)>,
)
    requires
        outline_ok(outline0),
        outline0.last_id + existing.len() + entries.len() <= u32::MAX,
    ensures
        ({
            let m = matching_of(existing, entries, ExistingPolicy::Update);
            let placed = place_entries(start_on(outline0), m.existing, pages);
            let plan = bookmark_plan(outline0, existing, entries, pages, ExistingPolicy::Update);
            &&& forall|i: int|
                0 <= i < entries.len() && pages.contains_key(entries[i].page) && (
                #[trigger] m.matches[i]) is Some ==> {
                    let k = m.matches[i]->0 as int;
                    &&& placed.ids[k] is Some
                    &&& plan.table.contains_key(placed.ids[k]->0)
                    &&& plan.table[placed.ids[k]->0].0 == entries[i].title
                    &&& plan.table[placed.ids[k]->0].1 == pages[entries[i].page]
                }
            &&& forall|i: int|
                0 <= i < entries.len() && pages.contains_key(entries[i].page) && (
                #[trigger] m.matches[i]) is None ==> exists|id: u32|
                    placed.outline.last_id < id && #[trigger] plan.table.contains_key(id)
                        && plan.table[id].0 == entries[i].title && plan.table[id].1
                        == pages[entries[i].page]
            &&& plan.table.len() == placed.outline.table.len() + added_count(
                entries,
                reuses_of(m.matches, placed.ids),
                pages,
            )
        }),
{
    let m = matching_of(existing, entries, ExistingPolicy::Update);
    let placed = place_entries(start_on(outline0), m.existing, pages);
    let reuses = reuses_of(m.matches, placed.ids);
    let w0 = Writing { outline: placed.outline, stack: seq![] };
    let plan = bookmark_plan(outline0, existing, entries, pages, ExistingPolicy::Update);
    law_update_pairs_once_in_order(existing, entries);
    law_outline_follows_nesting(outline0, m.existing, pages);
    lemma_place_keeps_ok(start_on(outline0), m.existing, pages);
    lemma_write_facts(w0, entries, reuses, pages);
    assert(plan == write_entries(w0, entries, reuses, pages).outline);
    let n = m.existing.len() as int;
    assert(place_entries(start_on(outline0), m.existing.take(n), pages) == placed) by {
        assert(m.existing.take(n) == m.existing);
    }
    assert forall|i: int|
        0 <= i < entries.len() && pages.contains_key(entries[i].page) && (
        #[trigger] m.matches[i]) is Some implies {
        let k = m.matches[i]->0 as int;
        &&& placed.ids[k] is Some
        &&& plan.table.contains_key(placed.ids[k]->0)
        &&& plan.table[placed.ids[k]->0].0 == entries[i].title
        &&& plan.table[placed.ids[k]->0].1 == pages[entries[i].page]
    } by {
        let k = m.matches[i]->0 as int;
        assert(m.existing[k].page == existing[k].page);
        assert(is_placed(m.existing, pages, k));
        assert(placed.ids[k] is Some);
        let id = placed.ids[k]->0;
        assert(placed.outline.table.contains_key(id));
    }
    assert forall|i: int|
        0 <= i < entries.len() && pages.contains_key(entries[i].page) && (
        #[trigger] m.matches[i]) is None implies exists|id: u32|
        placed.outline.last_id < id && #[trigger] plan.table.contains_key(id)
            && plan.table[id].0 == entries[i].title && plan.table[id].1 == pages[entries[i].page] by {
        assert(reuses[i] is None);
        assert(pages.contains_key(entries[i].page));
    }
}

/// The entries whose page the document has, in order.
pub open spec fn on_pages(entries: Seq<EntryView>, pages: Map<u32, (u32, u16)>) -> Seq<EntryView> {
    entries.filter(|e: EntryView| pages.contains_key(e.page))
}

/// The position that entry `i` takes among the entries on pages of the
/// document.
pub open spec fn on_pages_index(entries: Seq<EntryView>, pages: Map<u32, (u32, u16)>, i: int) -> int {
    on_pages(entries.take(i), pages).len() as int
}

proof fn lemma_on_pages_step(entries: Seq<EntryView>, pages: Map<u32, (u32, u16)>)
    requires
        entries.len() > 0,
    ensures
        on_pages(entries, pages) == if pages.contains_key(entries.last().page) {
            on_pages(entries.drop_last(), pages).push(entries.last())
        } else {
            on_pages(entries.drop_last(), pages)
        },
        forall|i: int|
            0 <= i < entries.len() - 1 ==> #[trigger] on_pages_index(entries, pages, i)
                == on_pages_index(entries.drop_last(), pages, i),
        on_pages_index(entries, pages, entries.len() - 1) == on_pages(entries.drop_last(), pages).len(),
{
    reveal(Seq::filter);
    assert forall|i: int| 0 <= i < entries.len() - 1 implies #[trigger] on_pages_index(
        entries,
        pages,
        i,
    ) == on_pages_index(entries.drop_last(), pages, i) by {
        assert(entries.take(i) == entries.drop_last().take(i));
    }
    assert(entries.take(entries.len() - 1) == entries.drop_last());
}

/// Two pairings that agree on every existing entry whose page the document
/// has, and on the pages and depths of all of them.
pub open spec fn agree_on_pages(
    a: Matching,
    b: Matching,
    existing: Seq<EntryView>,
    pages: Map<u32, (u32, u16)>,
) -> bool {
    &&& a.existing.len() == existing.len()
    &&& b.existing.len() == existing.len()
    &&& a.used.len() == existing.len()
    &&& b.used.len() == existing.len()
    &&& forall|j: int|
        0 <= j < existing.len() ==> (#[trigger] a.existing[j]).page == existing[j].page
            && b.existing[j].page == existing[j].page && a.existing[j].depth == b.existing[j].depth
    &&& forall|j: int|
        0 <= j < existing.len() && pages.contains_key(existing[j].page) ==> #[trigger] a.existing[j]
            == b.existing[j] && a.used[j] == b.used[j]
}

proof fn lemma_first_unused_agrees(
    a: Matching,
    b: Matching,
    existing: Seq<EntryView>,
    pages: Map<u32, (u32, u16)>,
    page: u32,
    from: int,
)
    requires
        agree_on_pages(a, b, existing, pages),
        pages.contains_key(page),
    ensures
        first_unused_from(a.existing, a.used, page, from) == first_unused_from(
            b.existing,
            b.used,
            page,
            from,
        ),
    decreases existing.len() - from,
{
    if 0 <= from < existing.len() {
        assert(a.existing[from].page == existing[from].page);
        lemma_first_unused_agrees(a, b, existing, pages, page, from + 1);
    }
}

proof fn lemma_matching_on_pages(
    start: Matching,
    existing: Seq<EntryView>,
    entries: Seq<EntryView>,
    pages: Map<u32, (u32, u16)>,
)
    requires
        start.existing == existing,
        start.used.len() == existing.len(),
        start.matches.len() == 0,
    ensures
        ({
            let a = match_entries(start, entries);
            let b = match_entries(start, on_pages(entries, pages));
            &&& agree_on_pages(a, b, existing, pages)
            &&& b.matches.len() == on_pages(entries, pages).len()
            &&& forall|i: int|
                0 <= i < entries.len() && pages.contains_key(#[trigger] entries[i].page) ==> {
                    &&& on_pages_index(entries, pages, i) < b.matches.len()
                    &&& a.matches[i] == b.matches[on_pages_index(entries, pages, i)]
                }
        }),
    decreases entries.len(),
{
    reveal(Seq::filter);
    let f = on_pages(entries, pages);
    if entries.len() == 0 {
        assert(f.len() == 0);
    } else {
        let prev = entries.drop_last();
        let e = entries.last();
        lemma_matching_on_pages(start, existing, prev, pages);
        lemma_on_pages_step(entries, pages);
        lemma_match_entries_shape(start, prev);
        lemma_match_entries_shape(start, on_pages(prev, pages));
        let a0 = match_entries(start, prev);
        let b0 = match_entries(start, on_pages(prev, pages));
        let a = match_entries(start, entries);
        assert(a == match_entry(a0, e));
        lemma_first_unused_bound(a0.existing, a0.used, e.page, 0);
        if pages.contains_key(e.page) {
            assert(f.drop_last() == on_pages(prev, pages));
            assert(f.last() == e);
            let b = match_entries(start, f);
            assert(b == match_entry(b0, e));
            lemma_first_unused_agrees(a0, b0, existing, pages, e.page, 0);
            assert(agree_on_pages(a, b, existing, pages));
            assert forall|i: int|
                0 <= i < entries.len() && pages.contains_key(#[trigger] entries[i].page) implies {
                &&& on_pages_index(entries, pages, i) < b.matches.len()
                &&& a.matches[i] == b.matches[on_pages_index(entries, pages, i)]
            } by {
                if i < entries.len() - 1 {
                    assert(prev[i] == entries[i]);
                }
            }
        } else {
            let b = b0;
            assert(f == on_pages(prev, pages));
            assert(agree_on_pages(a, b, existing, pages)) by {
                assert forall|j: int|
                    0 <= j < existing.len() && pages.contains_key(existing[j].page) implies #[trigger] a.existing[j]
                    == b.existing[j] && a.used[j] == b.used[j] by {
                    assert(a0.existing[j].page == existing[j].page);
                }
            }
            assert forall|i: int|
                0 <= i < entries.len() && pages.contains_key(#[trigger] entries[i].page) implies {
                &&& on_pages_index(entries, pages, i) < b.matches.len()
                &&& a.matches[i] == b.matches[on_pages_index(entries, pages, i)]
            } by {
                assert(i < entries.len() - 1);
                assert(prev[i] == entries[i]);
            }
        }
    }
}

proof fn lemma_place_ignores_unplaced(
    st: Placement,
    a: Seq<EntryView>,
    b: Seq<EntryView>,
    pages: Map<u32, (u32, u16)>,
)
    requires
        a.len() == b.len(),
        forall|i: int|
            0 <= i < a.len() ==> (#[trigger] a[i]).page == b[i].page && (pages.contains_key(
                a[i].page,
            ) ==> a[i] == b[i]),
    ensures
        place_entries(st, a, pages) == place_entries(st, b, pages),
    decreases a.len(),
{
    if a.len() > 0 {
        assert forall|i: int| 0 <= i < a.len() - 1 implies (#[trigger] a.drop_last()[i]).page
            == b.drop_last()[i].page && (pages.contains_key(a.drop_last()[i].page)
            ==> a.drop_last()[i] == b.drop_last()[i]) by {
            assert(a.drop_last()[i] == a[i]);
            assert(b.drop_last()[i] == b[i]);
        }
        lemma_place_ignores_unplaced(st, a.drop_last(), b.drop_last(), pages);
        assert(a.last() == a[a.len() - 1]);
    }
}

proof fn lemma_write_ignores_unplaced(
    w: Writing,
    entries: Seq<EntryView>,
    ra: Seq<Option<u32>>,
    rb: Seq<Option<u32>>,
    pages: Map<u32, (u32, u16)>,
)
    requires
        forall|i: int|
            0 <= i < entries.len() && pages.contains_key(#[trigger] entries[i].page) ==> ra[i]
                == rb[on_pages_index(entries, pages, i)],
    ensures
        write_entries(w, entries, ra, pages) == write_entries(w, on_pages(entries, pages), rb, pages),
    decreases entries.len(),
{
    reveal(Seq::filter);
    if entries.len() > 0 {
        let prev = entries.drop_last();
        let e = entries.last();
        lemma_on_pages_step(entries, pages);
        assert forall|i: int|
            0 <= i < prev.len() && pages.contains_key(#[trigger] prev[i].page) implies ra[i]
            == rb[on_pages_index(prev, pages, i)] by {
            assert(prev[i] == entries[i]);
        }
        lemma_write_ignores_unplaced(w, prev, ra, rb, pages);
        let f = on_pages(entries, pages);
        if pages.contains_key(e.page) {
            assert(f.drop_last() == on_pages(prev, pages));
            assert(f.last() == e);
            assert(entries[entries.len() - 1] == e);
        }
    }
}

/// Entries on pages that the document lacks (page zero or beyond its last
/// page) change nothing: leaving them out beforehand gives the same outline,
/// under either policy.
pub proof fn law_missing_pages_change_nothing(
    outline0: OutlineState,
    existing: Seq<EntryView>,
    entries: Seq<EntryView>,
    pages: Map<u32, (u32, u16)>,
    policy: ExistingPolicy,
)
    ensures
        bookmark_plan(outline0, existing, entries, pages, policy) == bookmark_plan(
            outline0,
            existing,
            on_pages(entries, pages),
            pages,
            policy,
        ),
{
    let f = on_pages(entries, pages);
    let m = matching_of(existing, entries, policy);
    let mf = matching_of(existing, f, policy);
    let start = Matching { existing, used: Seq::new(existing.len(), |i: int| false), matches: seq![] };
    lemma_matching_on_pages(start, existing, entries, pages);
    assert(m.existing.len() == existing.len());
    assert forall|i: int| 0 <= i < m.existing.len() implies (#[trigger] m.existing[i]).page
        == mf.existing[i].page && (pages.contains_key(m.existing[i].page) ==> m.existing[i]
        == mf.existing[i]) by {
        assert(m.existing[i].page == existing[i].page);
    }
    lemma_place_ignores_unplaced(start_on(outline0), m.existing, mf.existing, pages);
    let placed = place_entries(start_on(outline0), m.existing, pages);
    let ra = reuses_of(m.matches, placed.ids);
    let rb = reuses_of(mf.matches, placed.ids);
    assert forall|i: int|
        0 <= i < entries.len() && pages.contains_key(#[trigger] entries[i].page) implies ra[i]
        == rb[on_pages_index(entries, pages, i)] by {
        let k = on_pages_index(entries, pages, i);
        lemma_match_entries_shape(start, entries);
        lemma_match_entries_shape(start, f);
        let a = match_entries(start, entries);
        let b = match_entries(start, f);
        assert(k < b.matches.len());
        assert(a.matches[i] == b.matches[k]);
        match policy {
            ExistingPolicy::Update => {
                assert(m == a);
                assert(mf == b);
            },
            ExistingPolicy::Create => {
                assert(m.matches[i] is None);
                assert(mf.matches[k] is None);
            },
        }
    }
    lemma_write_ignores_unplaced(
        Writing { outline: placed.outline, stack: seq![] },
        entries,
        ra,
        rb,
        pages,
    );
}

/// Writing a new entry on a page of the document puts the bookmark it stands
/// for at the end of the chain of bookmarks that later entries hang under,
/// at the entry's level: the existing bookmark it updates, or else the
/// bookmark it adds, with the next id. The chain above that level stays.
pub proof fn law_written_entry_heads_chain(
    w: Writing,
    e: EntryView,
    reuse: Option<u32>,
    pages: Map<u32, (u32, u16)>,
)
    requires
        pages.contains_key(e.page),
    ensures
        ({
            let level = level_of(e.depth, w.stack.len());
            let w1 = write_entry(w, e, reuse, pages);
            let id = match reuse {
                Some(r) => r,
                None => (w.outline.last_id + 1) as u32,
            };
            &&& w1.stack.len() == level + 1
            &&& w1.stack.last() == id
            &&& w1.stack.take(level as int) == w.stack.take(level as int)
        }),
{
    let level = level_of(e.depth, w.stack.len());
    let w1 = write_entry(w, e, reuse, pages);
    assert(w1.stack.take(level as int) == w.stack.take(level as int));
}

/// Under `Update`, an entry that takes an existing bookmark becomes the
/// parent of a following new entry that is deeper: the new bookmark is
/// listed last among the existing bookmark's children, not at the top level.
pub proof fn law_later_entry_hangs_under_updated(
    w: Writing,
    e1: EntryView,
    r: u32,
    e2: EntryView,
    pages: Map<u32, (u32, u16)>,
)
    requires
        outline_ok(w.outline),
        w.outline.last_id < u32::MAX,
        w.outline.table.contains_key(r),
        pages.contains_key(e1.page),
        pages.contains_key(e2.page),
        e2.depth > level_of(e1.depth, w.stack.len()),
    ensures
        ({
            let w1 = write_entry(w, e1, Some(r), pages);
            let w2 = write_entry(w1, e2, None, pages);
            let added = (w.outline.last_id + 1) as u32;
            &&& w2.outline.table[r].2 == w.outline.table[r].2.push(added)
            &&& w2.outline.table[added].0 == e2.title
            &&& !w2.outline.roots.contains(added)
        }),
{
    let w1 = write_entry(w, e1, Some(r), pages);
    law_written_entry_heads_chain(w, e1, Some(r), pages);
    let level2 = level_of(e2.depth, w1.stack.len());
    assert(level2 == w1.stack.len());
    assert(w1.stack[level2 - 1] == r);
    let added = (w.outline.last_id + 1) as u32;
    assert(added != r);
    assert(!w.outline.roots.contains(added));
}

} // verus!
