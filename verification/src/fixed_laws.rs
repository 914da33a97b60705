//! The document of a subset is a fixed point of the splitter: split again
//! over all of its pages, it is written as it was.
//!
//! The graph of the written document is the graph of the subset with its
//! nodes renamed, so the search meets the same objects in the same order,
//! and they get the numbers that they have. Rewriting their references
//! then changes nothing.

use crate::closure::{add_new, closure_is_closed, lemma_add_new, successors};
use crate::document::DocumentView;
use crate::entries_laws::{
    lemma_lookup_concat, lemma_lookup_rewrite, lemma_lookup_without, lemma_position,
};
use crate::extract::{is_page, lemma_roots_hold, links, links_but};
use crate::lexer::text;
use crate::names::lemma_names;
use crate::object::{entries_of, key_position, lookup, refs, ObjectId, Value};
use crate::object_laws::no_key;
use crate::order_laws::{agrees, inside, lemma_add_new_mapped, lemma_bfs_mapped, mapped, renames};
use crate::output_laws::{
    leaf_page, lemma_node, lemma_page_value, lemma_written_resolve, new_id, node_of,
    selection_holds_pages, subset_is_sound,
};
use crate::pages::{nothing_inherited, Page};
use crate::parse_laws::{as_read, source_well_formed};
use crate::reference_laws::{
    all_carried, carried, lemma_link_found, lemma_links_concat, lemma_links_moved,
    lemma_links_without, lemma_moved_concat, lemma_resolved_concat, lemma_resolved_moved,
    lemma_rewrite_refs, lemma_root_found, lemma_target_found, lemma_target_holds, moved,
    moved_refs, names,
};
use crate::resplit_laws::{
    attribute_of, lemma_numbering_within, lemma_page_stays, lemma_page_written, table_within,
    written_subset,
};
use crate::rewrite::{
    catalog_value, fits, inherited_entry, kids, lemma_numbering_len, numbering,
    numbering_follows_order, output_value, output_values, page_entries, page_value, pages_value,
    reference_to, rewrite, rewrite_entries, rewrite_items, selection, stream_length, without_key,
    PAGES_NUMBER,
};
use crate::subset_laws::{
    lemma_concat_well_formed, lemma_inherited_lookup, lemma_inherited_well_formed,
    lemma_source_entries, lemma_without_key,
};
use crate::syntax::MAX_DEPTH;
use crate::tree_laws::{own_first, well_formed_page, well_formed_pages};
use crate::value_laws::{entries_well_formed, well_formed};
use vstd::prelude::*;

verus! {

/// The new numbers of a subset, as names of nodes.
pub open spec fn renaming(doc: DocumentView, selected: Seq<Page>) -> Seq<usize> {
    names(numbering(doc.extract(selected), doc.objects.len()))
}

/// The numbers from 3 on, as many as `count`.
pub open spec fn from_three(count: nat) -> Seq<usize> {
    Seq::new(count, |k: int| (k + 3) as usize)
}

/// The new numbers rename the objects of a subset: the object at position
/// `k` gets the number `k + 3`.
pub proof fn lemma_renaming(doc: DocumentView, selected: Seq<Page>)
    requires
        fits(selected, doc.extract(selected)),
    ensures
        renaming(doc, selected).len() == doc.graph().len(),
        renames(
            renaming(doc, selected),
            doc.extract(selected).to_set(),
            doc.extract(selected).len() + 3,
        ),
        mapped(doc.extract(selected), renaming(doc, selected)) == from_three(
            doc.extract(selected).len(),
        ),
        forall|x: usize|
            #[trigger] doc.extract(selected).to_set().contains(x) ==> inside(
                successors(doc.graph(), x),
                doc.extract(selected).to_set(),
            ),
{
    let found = doc.extract(selected);
    let limit = doc.objects.len();
    let table = numbering(found, limit);
    let m = renaming(doc, selected);
    let dom = found.to_set();
    let g = doc.graph();
    closure_is_closed(g, doc.roots(selected));
    numbering_follows_order(found, limit);
    lemma_numbering_len(found, limit);
    assert forall|x: usize| #[trigger] dom.contains(x) implies x < m.len() && m[x as int]
        < found.len() + 3 by {
        let k = choose|k: int| 0 <= k < found.len() && found[k] == x;
        assert(table[found[k] as int] == k + 3);
    }
    assert forall|x: usize, y: usize|
        #[trigger] dom.contains(x) && #[trigger] dom.contains(y) && m[x as int]
            == m[y as int] implies x == y by {
        let k = choose|k: int| 0 <= k < found.len() && found[k] == x;
        let j = choose|j: int| 0 <= j < found.len() && found[j] == y;
        assert(table[found[k] as int] == k + 3);
        assert(table[found[j] as int] == j + 3);
    }
    assert(mapped(found, m) =~= from_three(found.len())) by {
        assert forall|k: int| 0 <= k < found.len() implies mapped(found, m)[k] == (k + 3) as usize by {
            assert(table[found[k] as int] == k + 3);
        }
    }
    assert forall|x: usize| #[trigger] dom.contains(x) implies inside(successors(g, x), dom) by {
        assert forall|j: int| 0 <= j < successors(g, x).len() implies dom.contains(
            #[trigger] successors(g, x)[j],
        ) by {
            let y = successors(g, x)[j];
            assert(y < g.len()) by {
                if x < g.len() {
                    assert(g[x as int] == doc.node_successors(x as int));
                    assert(doc.node_successors(x as int).contains(y));
                    let v = doc.objects[x as int]->0;
                    let at = lemma_target_found(doc, links(v), y);
                }
            }
        }
    }
}

/// References whose targets are part of a subset are all carried over.
pub proof fn lemma_all_carried(
    doc: DocumentView,
    selected: Seq<Page>,
    version: Seq<u8>,
    ids: Seq<ObjectId>,
)
    requires
        fits(selected, doc.extract(selected)),
        forall|i: int|
            0 <= i < ids.len() && doc.resolve(#[trigger] ids[i]) is Some ==> doc.extract(
                selected,
            ).contains(ids[i].number as usize),
    ensures
        all_carried(
            doc,
            written_subset(doc, selected, version),
            numbering(doc.extract(selected), doc.objects.len()),
            ids,
        ),
{
    let found = doc.extract(selected);
    let limit = doc.objects.len();
    let table = numbering(found, limit);
    let values = output_values(doc, selected, found);
    let out = written_subset(doc, selected, version);
    closure_is_closed(doc.graph(), doc.roots(selected));
    numbering_follows_order(found, limit);
    lemma_numbering_len(found, limit);
    assert(values.len() == found.len() + 2);
    assert forall|i: int| 0 <= i < ids.len() && doc.resolve(
        #[trigger] ids[i],
    ) is Some implies carried(doc, table, ids[i]) && out.resolve(moved(table, ids[i])) is Some by {
        let k = choose|k: int| 0 <= k < found.len() && found[k] == ids[i].number as usize;
        assert(table[found[k] as int] == k + 3);
        lemma_written_resolve(version, values, (k + 3) as u32);
        assert(moved(table, ids[i]) == new_id((k + 3) as u32));
    }
}

/// What leads on from a rewritten object are the rewritten references of
/// what led on from the object.
pub proof fn lemma_links_rewritten(doc: DocumentView, table: Seq<u32>, v: Value)
    requires
        source_well_formed(v),
    ensures
        links(rewrite(doc, table, v)) == moved_refs(doc, table, links(v)),
{
    let depth = (MAX_DEPTH - 1) as nat;
    match v {
        Value::Dictionary(entries) => {
            lemma_page_stays(doc, table, entries);
            if is_page(entries) {
                assert forall|i: int| 0 <= i < entries.len() implies refs(
                    rewrite(doc, table, (#[trigger] entries[i]).1),
                ) == moved_refs(doc, table, refs(entries[i].1)) by {
                    lemma_rewrite_refs(doc, table, entries[i].1, depth);
                }
                lemma_links_moved(doc, table, entries, text("Parent"));
            } else {
                lemma_rewrite_refs(doc, table, v, MAX_DEPTH as nat);
            }
        },
        Value::Stream(entries, data) => {
            let after = rewrite_entries(doc, table, entries);
            let kept = without_key(after, text("Length"));
            let last = (text("Length"), Value::Integer(stream_length(data.len())));
            assert forall|i: int| 0 <= i < entries.len() implies refs(
                rewrite(doc, table, (#[trigger] entries[i]).1),
            ) == moved_refs(doc, table, refs(entries[i].1)) by {
                lemma_rewrite_refs(doc, table, entries[i].1, depth);
            }
            lemma_links_moved(doc, table, entries, text("Length"));
            lemma_links_without(after, text("Length"));
            assert(kept.push(last).drop_last() =~= kept);
            assert(kept.push(last).last() == last);
        },
        _ => {
            lemma_rewrite_refs(doc, table, v, MAX_DEPTH as nat);
        },
    }
}

/// The objects from which the search for a subset starts: the roots, each
/// once.
pub open spec fn start(doc: DocumentView, selected: Seq<Page>) -> Seq<usize> {
    add_new(doc.graph().len() as nat, Seq::empty(), doc.roots(selected))
}

/// An object of a subset that is none of its pages leads, in the new
/// document, to the new numbers of what it led to, in their order.
pub proof fn lemma_plain_agrees(doc: DocumentView, selected: Seq<Page>, version: Seq<u8>, k: int)
    requires
        as_read(doc),
        fits(selected, doc.extract(selected)),
        0 <= k < doc.extract(selected).len(),
        doc.extract(selected)[k] < doc.objects.len(),
        selection(selected, doc.objects.len())[doc.extract(selected)[k] as int] is None,
    ensures
        successors(written_subset(doc, selected, version).graph(), (k + 3) as usize) == mapped(
            successors(doc.graph(), doc.extract(selected)[k]),
            renaming(doc, selected),
        ),
{
    let found = doc.extract(selected);
    let limit = doc.objects.len();
    let table = numbering(found, limit);
    let chosen = selection(selected, limit);
    let values = output_values(doc, selected, found);
    let out = written_subset(doc, selected, version);
    let g = doc.graph();
    let h = out.graph();
    let x = found[k];
    lemma_renaming(doc, selected);
    assert(values[k + 2] == output_value(doc, table, chosen, x));
    assert(out.objects[k + 3] == Some(values[k + 2]));
    assert(h[k + 3] == out.node_successors(k + 3));
    assert(g[x as int] == doc.node_successors(x as int));
    if doc.objects[x as int] is Some {
        let v = doc.objects[x as int]->0;
        let ids = links(v);
        lemma_links_rewritten(doc, table, v);
        assert(found.to_set().contains(x));
        assert forall|i: int| 0 <= i < ids.len() && doc.resolve(
            #[trigger] ids[i],
        ) is Some implies found.contains(ids[i].number as usize) by {
            lemma_target_holds(doc, ids, i);
            let y = ids[i].number as usize;
            let j = choose|j: int| 0 <= j < successors(g, x).len() && successors(g, x)[j] == y;
            assert(found.to_set().contains(successors(g, x)[j]));
        }
        lemma_all_carried(doc, selected, version, ids);
        lemma_resolved_moved(doc, out, table, ids);
    } else {
        assert(out.resolved(links(Value::Null)) =~= Seq::empty());
        assert(mapped(successors(g, x), renaming(doc, selected)) =~= Seq::empty());
    }
}

/// The entries that hand inherited attributes to a page.
pub open spec fn handed_entries(doc: DocumentView, page: Page) -> Seq<(Seq<u8>, Value)> {
    inherited_entry(doc, page, page.resources, text("Resources")) + inherited_entry(
        doc,
        page,
        Some(page.media_box),
        text("MediaBox"),
    ) + inherited_entry(doc, page, page.rotate, text("Rotate"))
}

/// What a reference in an attribute that is handed to a page of a subset
/// resolves to is an object from which the subset is reached.
pub proof fn lemma_handed_roots(doc: DocumentView, selected: Seq<Page>, at: int, id: ObjectId)
    requires
        0 <= at < selected.len(),
        links_but(handed_entries(doc, selected[at]), text("Parent")).contains(id),
        doc.resolve(id) is Some,
    ensures
        doc.roots(selected).contains(id.number as usize),
{
    let page = selected[at];
    let handed = handed_entries(doc, page);
    let i1 = inherited_entry(doc, page, page.resources, text("Resources"));
    let i2 = inherited_entry(doc, page, Some(page.media_box), text("MediaBox"));
    let i3 = inherited_entry(doc, page, page.rotate, text("Rotate"));
    let own = doc.resolved(seq![page.id]);
    let first = doc.attribute_roots(page.resources, text("Resources"));
    let second = doc.attribute_roots(Some(page.media_box), text("MediaBox"));
    let third = doc.attribute_roots(page.rotate, text("Rotate"));
    let all = doc.page_roots(page);
    let r = id.number as usize;
    assert(all == own + first + second + third);
    let e = lemma_link_found(handed, text("Parent"), id);
    if e < i1.len() {
        assert(handed[e] == i1[e]);
        let a = doc.attribute(page.resources->0, text("Resources"))->0;
        let j = choose|j: int| 0 <= j < refs(a).len() && refs(a)[j] == id;
        lemma_target_holds(doc, refs(a), j);
        let t = choose|t: int| 0 <= t < first.len() && first[t] == r;
        assert(all[own.len() + t] == r);
    } else if e < i1.len() + i2.len() {
        assert(handed[e] == i2[e - i1.len()]);
        let a = doc.attribute(page.media_box, text("MediaBox"))->0;
        let j = choose|j: int| 0 <= j < refs(a).len() && refs(a)[j] == id;
        lemma_target_holds(doc, refs(a), j);
        let t = choose|t: int| 0 <= t < second.len() && second[t] == r;
        assert(all[own.len() + first.len() + t] == r);
    } else {
        assert(handed[e] == i3[e - i1.len() - i2.len()]);
        let a = doc.attribute(page.rotate->0, text("Rotate"))->0;
        let j = choose|j: int| 0 <= j < refs(a).len() && refs(a)[j] == id;
        lemma_target_holds(doc, refs(a), j);
        let t = choose|t: int| 0 <= t < third.len() && third[t] == r;
        assert(all[own.len() + first.len() + second.len() + t] == r);
    }
    assert(all.contains(r));
    assert(selected.contains(page));
    lemma_roots_hold(doc, selected, page);
}

/// The entries of a page of a subset, before its references are rewritten,
/// are well formed.
pub proof fn lemma_page_entries(doc: DocumentView, page: Page)
    requires
        as_read(doc),
        well_formed_page(doc, page),
    ensures
        entries_well_formed(
            page_entries(doc, page, doc.resolve(page.id)->0->Dictionary_0),
            (MAX_DEPTH - 1) as nat,
        ),
        no_key(page_entries(doc, page, doc.resolve(page.id)->0->Dictionary_0), text("Parent")),
        page_entries(doc, page, doc.resolve(page.id)->0->Dictionary_0) == without_key(
            doc.resolve(page.id)->0->Dictionary_0,
            text("Parent"),
        ) + handed_entries(doc, page),
{
    lemma_names();
    let depth = (MAX_DEPTH - 1) as nat;
    let own = doc.resolve(page.id)->0->Dictionary_0;
    let object = doc.objects[page.id.number as int]->0;
    assert(object == Value::Dictionary(own));
    lemma_source_entries(object);
    let kept = without_key(own, text("Parent"));
    let first = inherited_entry(doc, page, page.resources, text("Resources"));
    let second = inherited_entry(doc, page, Some(page.media_box), text("MediaBox"));
    let third = inherited_entry(doc, page, page.rotate, text("Rotate"));
    lemma_without_key(own, text("Parent"), depth);
    lemma_inherited_well_formed(doc, page, page.resources, text("Resources"));
    lemma_inherited_well_formed(doc, page, Some(page.media_box), text("MediaBox"));
    lemma_inherited_well_formed(doc, page, page.rotate, text("Rotate"));
    lemma_concat_well_formed(kept, first, depth);
    lemma_concat_well_formed(kept + first, second, depth);
    lemma_concat_well_formed(kept + first + second, third, depth);
    let before = page_entries(doc, page, own);
    assert(before == kept + first + second + third);
    assert(before =~= kept + (first + second + third));
    assert forall|i: int| 0 <= i < before.len() implies (#[trigger] before[i]).0 != text(
        "Parent",
    ) by {
        if i < kept.len() {
            assert(before[i] == kept[i]);
        } else if i < kept.len() + first.len() {
            assert(before[i] == first[i - kept.len()]);
        } else if i < kept.len() + first.len() + second.len() {
            assert(before[i] == second[i - kept.len() - first.len()]);
        } else {
            assert(before[i] == third[i - kept.len() - first.len() - second.len()]);
        }
    }
}

/// What leads on from a page of a subset as it stands in the new document:
/// the rewritten references of what led on from it, and behind them those
/// of the attributes that are handed to it.
pub proof fn lemma_page_links(doc: DocumentView, table: Seq<u32>, page: Page)
    requires
        as_read(doc),
        well_formed_page(doc, page),
    ensures
        links(page_value(doc, table, page)) == moved_refs(
            doc,
            table,
            links(doc.resolve(page.id)->0),
        ) + moved_refs(doc, table, links_but(handed_entries(doc, page), text("Parent"))),
{
    let depth = (MAX_DEPTH - 1) as nat;
    let own = doc.resolve(page.id)->0->Dictionary_0;
    let key = text("Parent");
    let kept = without_key(own, key);
    let handed = handed_entries(doc, page);
    let before = page_entries(doc, page, own);
    let after = rewrite_entries(doc, table, before);
    let parent = seq![(key, reference_to(PAGES_NUMBER))];
    let entries = parent + after;
    lemma_page_value(doc, table, page);
    lemma_page_entries(doc, page);
    assert(page_value(doc, table, page) == Value::Dictionary(entries));
    assert(is_page(entries));
    assert(is_page(own));
    lemma_links_concat(parent, after, key);
    assert(links_but(parent, key) =~= Seq::empty()) by {
        assert(parent.last().0 == key);
        assert(parent.drop_last() =~= Seq::empty());
        assert(links_but(parent.drop_last(), key) =~= Seq::empty());
    }
    assert(links_but(entries, key) =~= links_but(after, key));
    assert forall|i: int| 0 <= i < before.len() implies refs(
        rewrite(doc, table, (#[trigger] before[i]).1),
    ) == moved_refs(doc, table, refs(before[i].1)) by {
        lemma_rewrite_refs(doc, table, before[i].1, depth);
    }
    lemma_links_moved(doc, table, before, key);
    lemma_links_concat(kept, handed, key);
    lemma_links_without(own, key);
    lemma_moved_concat(doc, table, links_but(own, key), links_but(handed, key));
}

/// A page of a subset leads, in the new document, to the new numbers of
/// what it led to, in their order, and behind them only to objects from
/// which the subset is reached.
pub proof fn lemma_page_agrees(doc: DocumentView, selected: Seq<Page>, version: Seq<u8>, at: int)
    requires
        as_read(doc),
        well_formed_pages(doc, selected),
        fits(selected, doc.extract(selected)),
        0 <= at < selected.len(),
    ensures
        agrees(
            doc.graph(),
            written_subset(doc, selected, version).graph(),
            renaming(doc, selected),
            selected[at].id.number as usize,
            mapped(start(doc, selected), renaming(doc, selected)),
        ),
{
    let found = doc.extract(selected);
    let limit = doc.objects.len();
    let table = numbering(found, limit);
    let values = output_values(doc, selected, found);
    let out = written_subset(doc, selected, version);
    let g = doc.graph();
    let h = out.graph();
    let m = renaming(doc, selected);
    let page = selected[at];
    let x = page.id.number as usize;
    let node = node_of(doc, selected, at);
    let base = start(doc, selected);
    let key = text("Parent");
    let v = doc.resolve(page.id)->0;
    let first = links(v);
    let second = links_but(handed_entries(doc, page), key);
    assert(well_formed_page(doc, page));
    lemma_renaming(doc, selected);
    lemma_page_written(doc, selected, at);
    lemma_node(doc, selected, at);
    lemma_page_links(doc, table, page);
    closure_is_closed(g, doc.roots(selected));
    lemma_add_new(limit as nat, Seq::empty(), doc.roots(selected));
    assert(doc.objects[x as int] == Some(v));
    assert(g[x as int] == doc.node_successors(x as int));
    assert(out.objects[node as int] == Some(values[node - 1]));
    assert(h[node as int] == out.node_successors(node as int));
    assert(found.to_set().contains(x));
    assert forall|i: int| 0 <= i < first.len() && doc.resolve(
        #[trigger] first[i],
    ) is Some implies found.contains(first[i].number as usize) by {
        lemma_target_holds(doc, first, i);
        let y = first[i].number as usize;
        let j = choose|j: int| 0 <= j < successors(g, x).len() && successors(g, x)[j] == y;
        assert(found.to_set().contains(successors(g, x)[j]));
    }
    assert forall|i: int| 0 <= i < second.len() && doc.resolve(
        #[trigger] second[i],
    ) is Some implies found.contains(second[i].number as usize) by {
        assert(second.contains(second[i]));
        lemma_handed_roots(doc, selected, at, second[i]);
    }
    lemma_all_carried(doc, selected, version, first);
    lemma_all_carried(doc, selected, version, second);
    lemma_resolved_moved(doc, out, table, first);
    lemma_resolved_moved(doc, out, table, second);
    lemma_resolved_concat(out, moved_refs(doc, table, first), moved_refs(doc, table, second));
    let a = mapped(successors(g, x), m);
    let extra = mapped(doc.resolved(second), m);
    let b = successors(h, m[x as int]);
    assert(b == a + extra);
    assert(b.subrange(0, a.len() as int) =~= a);
    assert forall|i: int| a.len() <= i < b.len() implies mapped(base, m).contains(
        #[trigger] b[i],
    ) by {
        let r = doc.resolved(second)[i - a.len()];
        assert(b[i] == m[r as int]);
        assert(doc.resolved(second).contains(r));
        let t = lemma_target_found(doc, second, r);
        assert(second.contains(second[t]));
        lemma_handed_roots(doc, selected, at, second[t]);
        assert(base.contains(r));
        let j = choose|j: int| 0 <= j < base.len() && base[j] == r;
        assert(mapped(base, m)[j] == m[r as int]);
    }
}

/// What the source of an attribute defines for it, if there is a source.
pub open spec fn attribute_value(doc: DocumentView, source: Option<u32>, key: Seq<u8>) -> Option<
    Value,
> {
    match source {
        Some(n) => doc.attribute(n, key),
        None => None,
    }
}

/// The entries of a page of a subset as it stands in the new document.
pub open spec fn written_entries(doc: DocumentView, table: Seq<u32>, page: Page) -> Seq<
    (Seq<u8>, Value),
> {
    seq![(text("Parent"), reference_to(PAGES_NUMBER))] + rewrite_entries(
        doc,
        table,
        page_entries(doc, page, doc.resolve(page.id)->0->Dictionary_0),
    )
}

/// A page of a subset defines, in the new document, every attribute that
/// it had, with its references rewritten, and no other.
pub proof fn lemma_written_attribute(
    doc: DocumentView,
    table: Seq<u32>,
    page: Page,
    source: Option<u32>,
    key: Seq<u8>,
)
    requires
        well_formed_page(doc, page),
        attribute_of(page, source, key),
    ensures
        page_value(doc, table, page) == Value::Dictionary(written_entries(doc, table, page)),
        lookup(written_entries(doc, table, page), key) == match attribute_value(doc, source, key) {
            Some(a) => Some(rewrite(doc, table, a)),
            None => None,
        },
{
    lemma_names();
    let own = doc.resolve(page.id)->0->Dictionary_0;
    let parent = seq![(text("Parent"), reference_to(PAGES_NUMBER))];
    let kept = without_key(own, text("Parent"));
    let first = inherited_entry(doc, page, page.resources, text("Resources"));
    let second = inherited_entry(doc, page, Some(page.media_box), text("MediaBox"));
    let third = inherited_entry(doc, page, page.rotate, text("Rotate"));
    let before = page_entries(doc, page, own);
    let after = rewrite_entries(doc, table, before);
    assert(before == kept + first + second + third);
    assert(doc.objects[page.id.number as int] == Some(Value::Dictionary(own)));
    assert(entries_of(Value::Dictionary(own)) == own);
    assert(own_first(page, own));
    assert(parent[0].0 == text("Parent"));
    assert(key_position(parent, key, 1) == 1);
    lemma_lookup_concat(parent, after, key);
    lemma_lookup_rewrite(doc, table, before, key);
    lemma_lookup_without(own, text("Parent"), key);
    lemma_lookup_concat(kept, first, key);
    lemma_lookup_concat(kept + first, second, key);
    lemma_lookup_concat(kept + first + second, third, key);
    if key != text("Resources") {
        lemma_inherited_lookup(doc, page, page.resources, text("Resources"), key);
    }
    if key != text("MediaBox") {
        lemma_inherited_lookup(doc, page, Some(page.media_box), text("MediaBox"), key);
    }
    if key != text("Rotate") {
        lemma_inherited_lookup(doc, page, page.rotate, text("Rotate"), key);
    }
    let entry = inherited_entry(doc, page, source, key);
    if entry.len() > 0 {
        assert(entry[0].0 == key);
        assert(key_position(entry, key, 0) == 0);
    } else {
        assert(key_position(entry, key, 0) == 0);
    }
}

/// What an attribute of a page of a subset leads to in the new document:
/// the new numbers of what it led to, in their order.
pub proof fn lemma_attribute_mapped(
    doc: DocumentView,
    selected: Seq<Page>,
    version: Seq<u8>,
    at: int,
    source: Option<u32>,
    key: Seq<u8>,
)
    requires
        as_read(doc),
        well_formed_pages(doc, selected),
        fits(selected, doc.extract(selected)),
        0 <= at < selected.len(),
        attribute_of(selected[at], source, key),
    ensures
        written_subset(doc, selected, version).attribute_roots(
            if attribute_value(doc, source, key) is Some {
                Some(node_of(doc, selected, at))
            } else {
                None
            },
            key,
        ) == mapped(doc.attribute_roots(source, key), renaming(doc, selected)),
{
    let found = doc.extract(selected);
    let table = numbering(found, doc.objects.len());
    let values = output_values(doc, selected, found);
    let out = written_subset(doc, selected, version);
    let m = renaming(doc, selected);
    let page = selected[at];
    let node = node_of(doc, selected, at);
    assert(well_formed_page(doc, page));
    lemma_written_attribute(doc, table, page, source, key);
    lemma_page_written(doc, selected, at);
    assert(out.objects[node as int] == Some(values[node - 1]));
    if attribute_value(doc, source, key) is Some {
        let a = attribute_value(doc, source, key)->0;
        let ids = refs(a);
        let holder = doc.objects[source->0 as int]->0;
        lemma_source_entries(holder);
        lemma_position(entries_of(holder), key, 0);
        let place = key_position(entries_of(holder), key, 0);
        assert(well_formed(entries_of(holder)[place].1, (MAX_DEPTH - 1) as nat));
        lemma_rewrite_refs(doc, table, a, (MAX_DEPTH - 1) as nat);
        closure_is_closed(doc.graph(), doc.roots(selected));
        assert forall|i: int| 0 <= i < ids.len() && doc.resolve(
            #[trigger] ids[i],
        ) is Some implies found.contains(ids[i].number as usize) by {
            lemma_target_holds(doc, ids, i);
            lemma_attribute_root(doc, selected, at, source, key, ids[i].number as usize);
        }
        lemma_all_carried(doc, selected, version, ids);
        lemma_resolved_moved(doc, out, table, ids);
        assert(out.attribute(node, key) == Some(rewrite(doc, table, a)));
    } else {
        assert(doc.attribute_roots(source, key) =~= Seq::empty());
        assert(mapped(doc.attribute_roots(source, key), m) =~= Seq::empty());
    }
}

/// What an attribute of a page leads to is an object from which the
/// subset is reached.
pub proof fn lemma_attribute_root(
    doc: DocumentView,
    selected: Seq<Page>,
    at: int,
    source: Option<u32>,
    key: Seq<u8>,
    r: usize,
)
    requires
        0 <= at < selected.len(),
        attribute_of(selected[at], source, key),
        doc.attribute_roots(source, key).contains(r),
    ensures
        doc.roots(selected).contains(r),
{
    lemma_names();
    let page = selected[at];
    let own = doc.resolved(seq![page.id]);
    let first = doc.attribute_roots(page.resources, text("Resources"));
    let second = doc.attribute_roots(Some(page.media_box), text("MediaBox"));
    let third = doc.attribute_roots(page.rotate, text("Rotate"));
    let all = doc.page_roots(page);
    assert(all == own + first + second + third);
    let t = choose|t: int|
        0 <= t < doc.attribute_roots(source, key).len() && doc.attribute_roots(source, key)[t]
            == r;
    if key == text("Resources") {
        assert(all[own.len() + t] == r);
    } else if key == text("MediaBox") {
        assert(all[own.len() + first.len() + t] == r);
    } else {
        assert(all[own.len() + first.len() + second.len() + t] == r);
    }
    assert(all.contains(r));
    assert(selected.contains(page));
    lemma_roots_hold(doc, selected, page);
}

/// The page that the walk of the new document makes of a page of a subset
/// is reached from the new numbers of what the page was reached from, in
/// their order.
pub proof fn lemma_page_roots_mapped(
    doc: DocumentView,
    selected: Seq<Page>,
    version: Seq<u8>,
    at: int,
)
    requires
        as_read(doc),
        well_formed_pages(doc, selected),
        fits(selected, doc.extract(selected)),
        0 <= at < selected.len(),
    ensures
        written_subset(doc, selected, version).page_roots(
            leaf_page(
                written_subset(doc, selected, version),
                node_of(doc, selected, at),
                nothing_inherited(),
            ),
        ) == mapped(doc.page_roots(selected[at]), renaming(doc, selected)),
{
    let found = doc.extract(selected);
    let table = numbering(found, doc.objects.len());
    let values = output_values(doc, selected, found);
    let out = written_subset(doc, selected, version);
    let m = renaming(doc, selected);
    let page = selected[at];
    let node = node_of(doc, selected, at);
    let written = leaf_page(out, node, nothing_inherited());
    let entries = written_entries(doc, table, page);
    assert(well_formed_page(doc, page));
    lemma_names();
    lemma_node(doc, selected, at);
    lemma_numbering_len(found, doc.objects.len());
    lemma_page_written(doc, selected, at);
    lemma_written_resolve(version, values, node);
    lemma_written_attribute(doc, table, page, page.resources, text("Resources"));
    lemma_written_attribute(doc, table, page, Some(page.media_box), text("MediaBox"));
    lemma_written_attribute(doc, table, page, page.rotate, text("Rotate"));
    assert(out.resolve(new_id(node)) == Some(Value::Dictionary(entries)));
    lemma_attribute_mapped(doc, selected, version, at, page.resources, text("Resources"));
    lemma_attribute_mapped(doc, selected, version, at, Some(page.media_box), text("MediaBox"));
    lemma_attribute_mapped(doc, selected, version, at, page.rotate, text("Rotate"));
    // The page itself.
    let old_id = seq![page.id];
    assert(old_id.last() == page.id);
    assert(old_id.drop_last() =~= Seq::empty());
    assert(doc.resolved(old_id.drop_last()) =~= Seq::empty());
    assert(doc.resolved(old_id) =~= seq![page.id.number as usize]);
    let new = seq![written.id];
    assert(new.last() == new_id(node));
    assert(new.drop_last() =~= Seq::empty());
    assert(out.resolved(new.drop_last()) =~= Seq::empty());
    assert(out.resolved(new) =~= seq![node as usize]);
    assert(m[page.id.number as int] == node as usize);
    let a = doc.resolved(old_id);
    let b = doc.attribute_roots(page.resources, text("Resources"));
    let c = doc.attribute_roots(Some(page.media_box), text("MediaBox"));
    let d = doc.attribute_roots(page.rotate, text("Rotate"));
    assert(mapped(a + b + c + d, m) =~= mapped(a, m) + mapped(b, m) + mapped(c, m) + mapped(
        d,
        m,
    ));
    assert(mapped(a, m) =~= seq![node as usize]);
}

/// Pages that are each reached from the new numbers of what a page of
/// the subset was reached from are together reached from the new numbers
/// of what the pages of the subset were reached from.
pub proof fn lemma_roots_mapped(
    doc: DocumentView,
    out: DocumentView,
    m: Seq<usize>,
    before: Seq<Page>,
    after: Seq<Page>,
)
    requires
        before.len() == after.len(),
        forall|i: int|
            0 <= i < before.len() ==> out.page_roots(#[trigger] after[i]) == mapped(
                doc.page_roots(before[i]),
                m,
            ),
    ensures
        out.roots(after) == mapped(doc.roots(before), m),
    decreases before.len(),
{
    if before.len() == 0 {
        assert(mapped(doc.roots(before), m) =~= Seq::empty());
    } else {
        let init = before.drop_last();
        let rest = after.drop_last();
        assert forall|i: int| 0 <= i < init.len() implies out.page_roots(#[trigger] rest[i])
            == mapped(doc.page_roots(init[i]), m) by {
            assert(rest[i] == after[i]);
            assert(init[i] == before[i]);
        }
        lemma_roots_mapped(doc, out, m, init, rest);
        assert(after.last() == after[after.len() - 1]);
        assert(before.last() == before[before.len() - 1]);
        assert(mapped(doc.roots(init) + doc.page_roots(before.last()), m) =~= mapped(
            doc.roots(init),
            m,
        ) + mapped(doc.page_roots(before.last()), m));
    }
}

/// What references resolve to are numbers of objects.
pub proof fn lemma_resolved_bounded(doc: DocumentView, ids: Seq<ObjectId>)
    ensures
        forall|j: int|
            0 <= j < doc.resolved(ids).len() ==> (#[trigger] doc.resolved(ids)[j])
                < doc.objects.len(),
{
    assert forall|j: int| 0 <= j < doc.resolved(ids).len() implies (#[trigger] doc.resolved(
        ids,
    )[j]) < doc.objects.len() by {
        let y = doc.resolved(ids)[j];
        assert(doc.resolved(ids).contains(y));
        let at = lemma_target_found(doc, ids, y);
    }
}

/// What an attribute leads to are numbers of objects.
pub proof fn lemma_attribute_bounded(doc: DocumentView, source: Option<u32>, key: Seq<u8>)
    ensures
        forall|j: int|
            0 <= j < doc.attribute_roots(source, key).len() ==> (#[trigger] doc.attribute_roots(
                source,
                key,
            )[j]) < doc.objects.len(),
{
    if source is Some && doc.attribute(source->0, key) is Some {
        lemma_resolved_bounded(doc, refs(doc.attribute(source->0, key)->0));
    }
}

/// The objects from which a subset is reached are objects of the document.
pub proof fn lemma_roots_bounded(doc: DocumentView, pages: Seq<Page>)
    ensures
        forall|j: int|
            0 <= j < doc.roots(pages).len() ==> (#[trigger] doc.roots(pages)[j])
                < doc.objects.len(),
{
    assert forall|j: int| 0 <= j < doc.roots(pages).len() implies (#[trigger] doc.roots(
        pages,
    )[j]) < doc.objects.len() by {
        let r = doc.roots(pages)[j];
        assert(doc.roots(pages).contains(r));
        let at = lemma_root_found(doc, pages, r);
        let page = pages[at];
        let own = doc.resolved(seq![page.id]);
        let first = doc.attribute_roots(page.resources, text("Resources"));
        let second = doc.attribute_roots(Some(page.media_box), text("MediaBox"));
        let third = doc.attribute_roots(page.rotate, text("Rotate"));
        let all = doc.page_roots(page);
        assert(all == own + first + second + third);
        lemma_resolved_bounded(doc, seq![page.id]);
        lemma_attribute_bounded(doc, page.resources, text("Resources"));
        lemma_attribute_bounded(doc, Some(page.media_box), text("MediaBox"));
        lemma_attribute_bounded(doc, page.rotate, text("Rotate"));
        let i = choose|i: int| 0 <= i < all.len() && all[i] == r;
        if i < own.len() {
            assert(own[i] == r);
        } else if i < own.len() + first.len() {
            assert(first[i - own.len()] == r);
        } else if i < own.len() + first.len() + second.len() {
            assert(second[i - own.len() - first.len()] == r);
        } else {
            assert(third[i - own.len() - first.len() - second.len()] == r);
        }
    }
}

/// Every object of a subset agrees with its new number on what it leads
/// to.
pub proof fn lemma_all_agree(doc: DocumentView, selected: Seq<Page>, version: Seq<u8>, x: usize)
    requires
        as_read(doc),
        well_formed_pages(doc, selected),
        fits(selected, doc.extract(selected)),
        doc.extract(selected).contains(x),
    ensures
        agrees(
            doc.graph(),
            written_subset(doc, selected, version).graph(),
            renaming(doc, selected),
            x,
            mapped(start(doc, selected), renaming(doc, selected)),
        ),
{
    let found = doc.extract(selected);
    let limit = doc.objects.len();
    let table = numbering(found, limit);
    let chosen = selection(selected, limit);
    let m = renaming(doc, selected);
    let g = doc.graph();
    let h = written_subset(doc, selected, version).graph();
    let k = choose|k: int| 0 <= k < found.len() && found[k] == x;
    closure_is_closed(g, doc.roots(selected));
    numbering_follows_order(found, limit);
    lemma_numbering_len(found, limit);
    assert(table[found[k] as int] == k + 3);
    assert forall|i: int| 0 <= i < selected.len() implies (#[trigger] selected[i]).id.number
        < limit by {
        assert(well_formed_page(doc, selected[i]));
    }
    selection_holds_pages(selected, limit);
    if chosen[x as int] is Some {
        let i = choose|i: int| 0 <= i < selected.len() && (#[trigger] selected[i]).id.number == x;
        lemma_page_agrees(doc, selected, version, i);
    } else {
        lemma_plain_agrees(doc, selected, version, k);
        let a = mapped(successors(g, x), m);
        assert(successors(h, m[x as int]) == a);
        assert(a.subrange(0, a.len() as int) =~= a);
    }
}

/// The search in the document of a subset, for all of its pages, meets
/// the objects of the subset in the order in which they were written: the
/// second subset holds the numbers from 3 on, in their order.
pub proof fn written_order(doc: DocumentView, selected: Seq<Page>, version: Seq<u8>)
    requires
        as_read(doc),
        well_formed_pages(doc, selected),
        selected.len() >= 1,
        fits(selected, doc.extract(selected)),
    ensures
        written_subset(doc, selected, version).pages() is Ok,
        written_subset(doc, selected, version).pages()->Ok_0.len() == selected.len(),
        written_subset(doc, selected, version).extract(
            written_subset(doc, selected, version).pages()->Ok_0,
        ) == from_three(doc.extract(selected).len()),
{
    let found = doc.extract(selected);
    let out = written_subset(doc, selected, version);
    let m = renaming(doc, selected);
    let g = doc.graph();
    let h = out.graph();
    let dom = found.to_set();
    let roots = doc.roots(selected);
    let base = start(doc, selected);
    subset_is_sound(doc, selected, version);
    let pages = out.pages()->Ok_0;
    assert forall|i: int| 0 <= i < selected.len() implies out.page_roots(#[trigger] pages[i])
        == mapped(doc.page_roots(selected[i]), m) by {
        lemma_page_roots_mapped(doc, selected, version, i);
    }
    lemma_roots_mapped(doc, out, m, selected, pages);
    lemma_renaming(doc, selected);
    assert(h.len() == found.len() + 3);
    closure_is_closed(g, roots);
    lemma_roots_bounded(doc, selected);
    assert forall|i: int| 0 <= i < roots.len() implies dom.contains(#[trigger] roots[i]) by {
        assert(roots.contains(roots[i]));
    }
    let none = Seq::<usize>::empty();
    assert(mapped(none, m) =~= none);
    lemma_add_new_mapped(m, dom, h.len() as nat, none, roots);
    lemma_add_new(g.len() as nat, none, roots);
    assert forall|x: usize| #[trigger] dom.contains(x) implies agrees(
        g,
        h,
        m,
        x,
        mapped(base, m),
    ) by {
        lemma_all_agree(doc, selected, version, x);
    }
    lemma_bfs_mapped(g, h, m, dom, mapped(base, m), base, 0);
}

/// Whether the numbers from 3 up to `top` are settled in `out`: each is
/// the number of an object, and `table` leaves it as it is.
pub open spec fn stable(out: DocumentView, table: Seq<u32>, top: nat) -> bool {
    forall|t: u32|
        3 <= t <= top ==> out.resolve(#[trigger] new_id(t)) is Some && t < table.len()
            && table[t as int] == t
}

/// Rewriting a rewritten value once more, where the new numbers are
/// settled, changes nothing.
pub proof fn lemma_rewrite_again(
    doc: DocumentView,
    table: Seq<u32>,
    out: DocumentView,
    again: Seq<u32>,
    top: nat,
    v: Value,
    depth: nat,
)
    requires
        well_formed(v, depth),
        table_within(table, top),
        stable(out, again, top),
    ensures
        rewrite(out, again, rewrite(doc, table, v)) == rewrite(doc, table, v),
    decreases v,
{
    match v {
        Value::Array(items) => {
            let once = rewrite_items(doc, table, items);
            assert(rewrite_items(out, again, once) =~= once) by {
                assert forall|i: int| 0 <= i < once.len() implies rewrite(out, again, once[i])
                    == once[i] by {
                    lemma_rewrite_again(doc, table, out, again, top, items[i], (depth - 1) as nat);
                }
            }
        },
        Value::Dictionary(entries) => {
            let once = rewrite_entries(doc, table, entries);
            assert(rewrite_entries(out, again, once) =~= once) by {
                assert forall|i: int| 0 <= i < once.len() implies rewrite(out, again, once[i].1)
                    == once[i].1 by {
                    lemma_rewrite_again(
                        doc,
                        table,
                        out,
                        again,
                        top,
                        entries[i].1,
                        (depth - 1) as nat,
                    );
                }
            }
        },
        Value::Reference(id) => {
            if carried(doc, table, id) {
                let t = table[id.number as int];
                assert(3 <= t <= top);
                assert(out.resolve(new_id(t)) is Some);
            }
        },
        _ => {},
    }
}

/// Rewriting rewritten entries once more, where the new numbers are
/// settled, changes nothing.
pub proof fn lemma_entries_again(
    doc: DocumentView,
    table: Seq<u32>,
    out: DocumentView,
    again: Seq<u32>,
    top: nat,
    entries: Seq<(Seq<u8>, Value)>,
    depth: nat,
)
    requires
        entries_well_formed(entries, depth),
        table_within(table, top),
        stable(out, again, top),
    ensures
        rewrite_entries(out, again, rewrite_entries(doc, table, entries)) == rewrite_entries(
            doc,
            table,
            entries,
        ),
{
    let once = rewrite_entries(doc, table, entries);
    assert(rewrite_entries(out, again, once) =~= once) by {
        assert forall|i: int| 0 <= i < once.len() implies rewrite(out, again, once[i].1)
            == once[i].1 by {
            lemma_rewrite_again(doc, table, out, again, top, entries[i].1, depth);
        }
    }
}

/// Entries of which none stands under a key are all left where the
/// entries under that key are left out.
pub proof fn lemma_without_nothing(entries: Seq<(Seq<u8>, Value)>, key: Seq<u8>)
    requires
        no_key(entries, key),
    ensures
        without_key(entries, key) == entries,
    decreases entries.len(),
{
    if entries.len() == 0 {
        assert(entries =~= Seq::empty());
    } else {
        let init = entries.drop_last();
        assert forall|i: int| 0 <= i < init.len() implies (#[trigger] init[i]).0 != key by {
            assert(init[i] == entries[i]);
        }
        lemma_without_nothing(init, key);
        assert(entries.last() == entries[entries.len() - 1]);
        assert(init.push(entries.last()) =~= entries);
    }
}

/// Leaving out the entries of a key and rewriting the references can be
/// done in either order.
pub proof fn lemma_without_rewritten(
    doc: DocumentView,
    table: Seq<u32>,
    entries: Seq<(Seq<u8>, Value)>,
    key: Seq<u8>,
)
    ensures
        without_key(rewrite_entries(doc, table, entries), key) == rewrite_entries(
            doc,
            table,
            without_key(entries, key),
        ),
    decreases entries.len(),
{
    let once = rewrite_entries(doc, table, entries);
    if entries.len() == 0 {
        assert(rewrite_entries(doc, table, without_key(entries, key)) =~= Seq::empty());
    } else {
        let init = entries.drop_last();
        lemma_without_rewritten(doc, table, init, key);
        assert(once.drop_last() =~= rewrite_entries(doc, table, init));
        assert(once.last() == (entries.last().0, rewrite(doc, table, entries.last().1)));
        if entries.last().0 != key {
            let kept = without_key(init, key);
            assert(rewrite_entries(doc, table, kept.push(entries.last())) =~= rewrite_entries(
                doc,
                table,
                kept,
            ).push(once.last()));
        }
    }
}

/// Rewriting a rewritten object once more, where the new numbers are
/// settled, changes nothing.
pub proof fn lemma_object_again(
    doc: DocumentView,
    table: Seq<u32>,
    out: DocumentView,
    again: Seq<u32>,
    top: nat,
    v: Value,
)
    requires
        source_well_formed(v),
        table_within(table, top),
        stable(out, again, top),
    ensures
        rewrite(out, again, rewrite(doc, table, v)) == rewrite(doc, table, v),
{
    let depth = (MAX_DEPTH - 1) as nat;
    match v {
        Value::Stream(entries, data) => {
            let key = text("Length");
            let last = (key, Value::Integer(stream_length(data.len())));
            let rest = without_key(entries, key);
            let kept = rewrite_entries(doc, table, rest);
            let once = kept.push(last);
            lemma_without_rewritten(doc, table, entries, key);
            lemma_without_key(entries, key, depth);
            lemma_entries_again(doc, table, out, again, top, rest, depth);
            assert(rewrite(doc, table, v) == Value::Stream(once, data));
            assert(rewrite_entries(out, again, once) =~= once) by {
                assert forall|i: int| 0 <= i < once.len() implies rewrite_entries(
                    out,
                    again,
                    once,
                )[i] == once[i] by {
                    if i < kept.len() {
                        assert(once[i] == kept[i]);
                        assert(rewrite_entries(out, again, kept)[i] == kept[i]);
                    }
                }
            }
            assert(no_key(kept, key)) by {
                assert forall|i: int| 0 <= i < kept.len() implies (#[trigger] kept[i]).0 != key by {
                    assert(kept[i].0 == rest[i].0);
                }
            }
            lemma_without_nothing(kept, key);
            assert(once.drop_last() =~= kept);
            assert(once.last() == last);
            assert(without_key(once, key) == kept);
        },
        _ => {
            lemma_rewrite_again(doc, table, out, again, top, v, MAX_DEPTH as nat);
        },
    }
}

/// Leaving out the entries of a key in entries that stand one behind the
/// other.
pub proof fn lemma_without_concat(a: Seq<(Seq<u8>, Value)>, b: Seq<(Seq<u8>, Value)>, key: Seq<u8>)
    ensures
        without_key(a + b, key) == without_key(a, key) + without_key(b, key),
    decreases b.len(),
{
    if b.len() == 0 {
        assert(a + b =~= a);
        assert(without_key(a, key) + without_key(b, key) =~= without_key(a, key));
    } else {
        lemma_without_concat(a, b.drop_last(), key);
        assert((a + b).drop_last() =~= a + b.drop_last());
        assert((a + b).last() == b.last());
        if b.last().0 != key {
            assert((without_key(a, key) + without_key(b.drop_last(), key)).push(b.last())
                =~= without_key(a, key) + without_key(b.drop_last(), key).push(b.last()));
        }
    }
}

/// What the new numbers of a subset are, and that they are settled in the
/// document of the subset under the numbers of a second subset.
pub proof fn lemma_stable(doc: DocumentView, selected: Seq<Page>, version: Seq<u8>)
    requires
        fits(selected, doc.extract(selected)),
    ensures
        table_within(
            numbering(doc.extract(selected), doc.objects.len()),
            doc.extract(selected).len() + 2,
        ),
        stable(
            written_subset(doc, selected, version),
            numbering(from_three(doc.extract(selected).len()), doc.extract(selected).len() + 3),
            doc.extract(selected).len() + 2,
        ),
        numbering(
            from_three(doc.extract(selected).len()),
            doc.extract(selected).len() + 3,
        ).len() == doc.extract(selected).len() + 3,
{
    let found = doc.extract(selected);
    let count = found.len();
    let values = output_values(doc, selected, found);
    let out = written_subset(doc, selected, version);
    let second = from_three(count);
    let again = numbering(second, count + 3);
    lemma_numbering_within(found, doc.objects.len());
    lemma_numbering_len(second, count + 3);
    numbering_follows_order(second, count + 3);
    assert(values.len() == count + 2);
    assert forall|t: u32| 3 <= t <= count + 2 implies out.resolve(#[trigger] new_id(t)) is Some
        && t < again.len() && again[t as int] == t by {
        lemma_written_resolve(version, values, t);
        assert(again[second[t - 3] as int] == (t - 3) + 3);
    }
}

/// The page that the walk of the new document makes of a page of a subset
/// stands in a second new document as the page stands in the first.
pub proof fn lemma_page_again(doc: DocumentView, selected: Seq<Page>, version: Seq<u8>, at: int)
    requires
        as_read(doc),
        well_formed_pages(doc, selected),
        fits(selected, doc.extract(selected)),
        0 <= at < selected.len(),
    ensures
        page_value(
            written_subset(doc, selected, version),
            numbering(from_three(doc.extract(selected).len()), doc.extract(selected).len() + 3),
            leaf_page(
                written_subset(doc, selected, version),
                node_of(doc, selected, at),
                nothing_inherited(),
            ),
        ) == page_value(
            doc,
            numbering(doc.extract(selected), doc.objects.len()),
            selected[at],
        ),
{
    let found = doc.extract(selected);
    let count = found.len();
    let table = numbering(found, doc.objects.len());
    let again = numbering(from_three(count), count + 3);
    let values = output_values(doc, selected, found);
    let out = written_subset(doc, selected, version);
    let page = selected[at];
    let node = node_of(doc, selected, at);
    let written = leaf_page(out, node, nothing_inherited());
    let key = text("Parent");
    let parent = seq![(key, reference_to(PAGES_NUMBER))];
    let own = doc.resolve(page.id)->0->Dictionary_0;
    let before = page_entries(doc, page, own);
    let after = rewrite_entries(doc, table, before);
    let entries = parent + after;
    assert(well_formed_page(doc, page));
    lemma_names();
    lemma_stable(doc, selected, version);
    lemma_page_written(doc, selected, at);
    lemma_written_resolve(version, values, node);
    lemma_page_entries(doc, page);
    lemma_written_attribute(doc, table, page, page.resources, text("Resources"));
    assert(out.resolve(written.id) == Some(Value::Dictionary(entries)));
    assert(out.objects[node as int] == Some(Value::Dictionary(entries)));
    assert(entries_of(Value::Dictionary(entries)) == entries);
    // Nothing is handed to the page: what it has is its own.
    let first = inherited_entry(out, written, written.resources, text("Resources"));
    let second = inherited_entry(out, written, Some(written.media_box), text("MediaBox"));
    let third = inherited_entry(out, written, written.rotate, text("Rotate"));
    lemma_page_value(doc, table, page);
    assert(first =~= Seq::empty());
    assert(second =~= Seq::empty());
    assert(third =~= Seq::empty());
    // Its entries but for the parent are those that were rewritten.
    lemma_without_concat(parent, after, key);
    assert(without_key(parent, key) =~= Seq::empty()) by {
        assert(parent.last().0 == key);
        assert(parent.drop_last() =~= Seq::empty());
        assert(without_key(parent.drop_last(), key) =~= Seq::empty());
    }
    assert(no_key(after, key)) by {
        assert forall|i: int| 0 <= i < after.len() implies (#[trigger] after[i]).0 != key by {
            assert(after[i].0 == before[i].0);
        }
    }
    lemma_without_nothing(after, key);
    assert(page_entries(out, written, entries) =~= after);
    lemma_entries_again(doc, table, out, again, count + 2, before, (MAX_DEPTH - 1) as nat);
}

/// The pages that the walk of the document of a subset makes of the pages
/// of the subset.
pub open spec fn written_pages(doc: DocumentView, selected: Seq<Page>, version: Seq<u8>) -> Seq<
    Page,
> {
    Seq::new(
        selected.len(),
        |i: int|
            leaf_page(
                written_subset(doc, selected, version),
                node_of(doc, selected, i),
                nothing_inherited(),
            ),
    )
}

/// The numbers of a second subset.
pub open spec fn second_numbering(doc: DocumentView, selected: Seq<Page>) -> Seq<u32> {
    numbering(from_three(doc.extract(selected).len()), doc.extract(selected).len() + 3)
}

/// The pages of the document of a subset are found under their numbers,
/// and no other object is.
pub proof fn lemma_written_selection(doc: DocumentView, selected: Seq<Page>, version: Seq<u8>)
    requires
        well_formed_pages(doc, selected),
        fits(selected, doc.extract(selected)),
    ensures
        selection(written_pages(doc, selected, version), doc.extract(selected).len() + 3).len()
            == doc.extract(selected).len() + 3,
        forall|i: int|
            0 <= i < selected.len() ==> selection(
                written_pages(doc, selected, version),
                doc.extract(selected).len() + 3,
            )[#[trigger] node_of(doc, selected, i) as int] == Some(
                written_pages(doc, selected, version)[i],
            ),
        forall|k: int|
            0 <= k < doc.extract(selected).len() && selection(
                written_pages(doc, selected, version),
                doc.extract(selected).len() + 3,
            )[k + 3] is Some ==> selection(selected, doc.objects.len())[(
            #[trigger] doc.extract(selected)[k]) as int] is Some,
{
    let found = doc.extract(selected);
    let count = found.len();
    let limit = doc.objects.len();
    let pages = written_pages(doc, selected, version);
    let marked = selection(pages, count + 3);
    let chosen = selection(selected, limit);
    assert forall|i: int| 0 <= i < pages.len() implies (#[trigger] pages[i]).id.number < count
        + 3 by {
        lemma_node(doc, selected, i);
    }
    assert forall|i: int, j: int| 0 <= i < j < pages.len() implies (#[trigger] pages[i]).id.number
        != (#[trigger] pages[j]).id.number by {
        lemma_node(doc, selected, i);
        lemma_node(doc, selected, j);
        assert(selected[i].id.number != selected[j].id.number);
    }
    selection_holds_pages(pages, (count + 3) as nat);
    assert forall|i: int| 0 <= i < selected.len() implies (#[trigger] selected[i]).id.number
        < limit by {
        assert(well_formed_page(doc, selected[i]));
    }
    selection_holds_pages(selected, limit);
    assert forall|i: int| 0 <= i < selected.len() implies marked[#[trigger] node_of(
        doc,
        selected,
        i,
    ) as int] == Some(pages[i]) by {
        assert(pages[i].id.number == node_of(doc, selected, i));
    }
    assert forall|k: int| 0 <= k < count && marked[k + 3] is Some implies chosen[(
    #[trigger] found[k]) as int] is Some by {
        let i = choose|i: int| 0 <= i < pages.len() && (#[trigger] pages[i]).id.number == k + 3;
        lemma_node(doc, selected, i);
        assert(found[k] == selected[i].id.number);
        assert(chosen[selected[i].id.number as int] == Some(selected[i]));
    }
}

/// A page of the document of a subset stands in a second new document as
/// it stands in the first.
pub proof fn lemma_value_page(
    doc: DocumentView,
    selected: Seq<Page>,
    version: Seq<u8>,
    k: int,
    i: int,
)
    requires
        as_read(doc),
        well_formed_pages(doc, selected),
        fits(selected, doc.extract(selected)),
        0 <= k < doc.extract(selected).len(),
        0 <= i < selected.len(),
        doc.extract(selected)[k] == selected[i].id.number,
    ensures
        output_value(
            written_subset(doc, selected, version),
            second_numbering(doc, selected),
            selection(written_pages(doc, selected, version), doc.extract(selected).len() + 3),
            (k + 3) as usize,
        ) == page_value(doc, numbering(doc.extract(selected), doc.objects.len()), selected[i]),
{
    let found = doc.extract(selected);
    let pages = written_pages(doc, selected, version);
    let marked = selection(pages, found.len() + 3);
    lemma_written_selection(doc, selected, version);
    closure_is_closed(doc.graph(), doc.roots(selected));
    lemma_node(doc, selected, i);
    assert(node_of(doc, selected, i) - 3 == k);
    assert(marked[node_of(doc, selected, i) as int] == Some(pages[i]));
    assert(marked[k + 3] == Some(pages[i]));
    assert(pages[i] == leaf_page(
        written_subset(doc, selected, version),
        node_of(doc, selected, i),
        nothing_inherited(),
    ));
    lemma_page_again(doc, selected, version, i);
}

/// An object of the document of a subset that is no page of it stands in a
/// second new document as it stands in the first.
pub proof fn lemma_value_plain(doc: DocumentView, selected: Seq<Page>, version: Seq<u8>, k: int)
    requires
        as_read(doc),
        well_formed_pages(doc, selected),
        fits(selected, doc.extract(selected)),
        0 <= k < doc.extract(selected).len(),
        doc.extract(selected)[k] < doc.objects.len(),
        selection(selected, doc.objects.len())[doc.extract(selected)[k] as int] is None,
    ensures
        output_value(
            written_subset(doc, selected, version),
            second_numbering(doc, selected),
            selection(written_pages(doc, selected, version), doc.extract(selected).len() + 3),
            (k + 3) as usize,
        ) == output_value(
            doc,
            numbering(doc.extract(selected), doc.objects.len()),
            selection(selected, doc.objects.len()),
            doc.extract(selected)[k],
        ),
{
    let found = doc.extract(selected);
    let count = found.len();
    let table = numbering(found, doc.objects.len());
    let chosen = selection(selected, doc.objects.len());
    let values = output_values(doc, selected, found);
    let out = written_subset(doc, selected, version);
    let again = second_numbering(doc, selected);
    let marked = selection(written_pages(doc, selected, version), count + 3);
    let x = found[k];
    lemma_stable(doc, selected, version);
    lemma_written_selection(doc, selected, version);
    assert(marked[k + 3] is None);
    assert(values[k + 2] == output_value(doc, table, chosen, x));
    assert(out.objects[k + 3] == Some(values[k + 2]));
    if doc.objects[x as int] is Some {
        lemma_object_again(doc, table, out, again, count + 2, doc.objects[x as int]->0);
    }
}

/// An object of the document of a subset stands in a second new document
/// as it stands in the first.
pub proof fn lemma_value_again(doc: DocumentView, selected: Seq<Page>, version: Seq<u8>, k: int)
    requires
        as_read(doc),
        well_formed_pages(doc, selected),
        fits(selected, doc.extract(selected)),
        0 <= k < doc.extract(selected).len(),
    ensures
        output_value(
            written_subset(doc, selected, version),
            second_numbering(doc, selected),
            selection(written_pages(doc, selected, version), doc.extract(selected).len() + 3),
            (k + 3) as usize,
        ) == output_values(doc, selected, doc.extract(selected))[k + 2],
{
    let found = doc.extract(selected);
    let limit = doc.objects.len();
    let table = numbering(found, limit);
    let chosen = selection(selected, limit);
    let values = output_values(doc, selected, found);
    let x = found[k];
    closure_is_closed(doc.graph(), doc.roots(selected));
    assert(values[k + 2] == output_value(doc, table, chosen, x));
    assert forall|i: int| 0 <= i < selected.len() implies (#[trigger] selected[i]).id.number
        < limit by {
        assert(well_formed_page(doc, selected[i]));
    }
    selection_holds_pages(selected, limit);
    if chosen[x as int] is Some {
        let i = choose|i: int| 0 <= i < selected.len() && (#[trigger] selected[i]).id.number == x;
        assert(chosen[x as int] == Some(selected[i]));
        lemma_value_page(doc, selected, version, k, i);
    } else {
        lemma_value_plain(doc, selected, version, k);
    }
}

/// The page tree node of a second new document has the children of the
/// first.
pub proof fn lemma_node_again(doc: DocumentView, selected: Seq<Page>, version: Seq<u8>)
    requires
        well_formed_pages(doc, selected),
        fits(selected, doc.extract(selected)),
    ensures
        pages_value(second_numbering(doc, selected), written_pages(doc, selected, version))
            == pages_value(numbering(doc.extract(selected), doc.objects.len()), selected),
{
    let found = doc.extract(selected);
    let table = numbering(found, doc.objects.len());
    let again = second_numbering(doc, selected);
    let pages = written_pages(doc, selected, version);
    lemma_stable(doc, selected, version);
    lemma_numbering_len(found, doc.objects.len());
    assert(kids(again, pages) =~= kids(table, selected)) by {
        assert forall|i: int| 0 <= i < pages.len() implies kids(again, pages)[i] == kids(
            table,
            selected,
        )[i] by {
            lemma_node(doc, selected, i);
            let node = node_of(doc, selected, i);
            assert(pages[i].id == new_id(node));
            assert(again[node as int] == node);
        }
    }
}

/// The document of a subset is a fixed point. The objects that are written
/// for all pages of the document of a subset are the objects of that
/// document: the same values, in the same order.
pub proof fn written_is_fixed(doc: DocumentView, selected: Seq<Page>, version: Seq<u8>)
    requires
        as_read(doc),
        well_formed_pages(doc, selected),
        selected.len() >= 1,
        fits(selected, doc.extract(selected)),
    ensures
        written_subset(doc, selected, version).pages() is Ok,
        written_subset(doc, selected, version).pages()->Ok_0.len() == selected.len(),
        written_subset(doc, selected, version).extract(
            written_subset(doc, selected, version).pages()->Ok_0,
        ).len() == doc.extract(selected).len(),
        output_values(
            written_subset(doc, selected, version),
            written_subset(doc, selected, version).pages()->Ok_0,
            written_subset(doc, selected, version).extract(
                written_subset(doc, selected, version).pages()->Ok_0,
            ),
        ) == output_values(doc, selected, doc.extract(selected)),
{
    let found = doc.extract(selected);
    let count = found.len();
    let values = output_values(doc, selected, found);
    let out = written_subset(doc, selected, version);
    written_order(doc, selected, version);
    subset_is_sound(doc, selected, version);
    let pages = out.pages()->Ok_0;
    assert(pages =~= written_pages(doc, selected, version));
    let second = out.extract(pages);
    assert(second == from_three(count));
    assert(out.objects.len() == count + 3);
    let again = second_numbering(doc, selected);
    let marked = selection(pages, count + 3);
    lemma_node_again(doc, selected, version);
    let values2 = seq![catalog_value(), pages_value(again, pages)] + Seq::new(
        count,
        |k: int| output_value(out, again, marked, second[k]),
    );
    assert(output_values(out, pages, second) == values2);
    assert(values2 =~= values) by {
        assert forall|j: int| 0 <= j < values.len() implies values2[j] == values[j] by {
            if j >= 2 {
                lemma_value_again(doc, selected, version, j - 2);
                assert(second[j - 2] == ((j - 2) + 3) as usize);
            }
        }
    }
}

} // verus!
