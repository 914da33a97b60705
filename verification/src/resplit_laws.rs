//! What holds of the document of a subset when it is split again.
//!
//! Its objects refer to each other only, so a second subset holds no
//! object that the first did not hold. And what an object of the first
//! subset led to, it still leads to in the written document: every object
//! of the document is reached from its catalog, and the second subset
//! holds every object of the first.

use crate::closure::{
    bounded, closed, closure, closure_is_closed, closure_is_least, lemma_pigeonhole, successors,
};
use crate::document::DocumentView;
use crate::entries_laws::{lemma_lookup_rewrite, lemma_position};
use crate::extract::{is_page, lemma_roots_hold, links, links_but};
use crate::lexer::text;
use crate::names::lemma_names;
use crate::object::{
    entries_of, key_position, lookup, refs, refs_of_entries, refs_of_items, ObjectId, Value,
};
use crate::output_laws::{
    lemma_node, lemma_page_value, lemma_written_resolve, new_id, node_of, selection_holds_pages,
    subset_is_sound, written_document,
};
use crate::pages::Page;
use crate::parse_laws::{as_read, source_well_formed};
use crate::reference_laws::{
    carried, lemma_entry_holds, lemma_entry_kept, lemma_item_holds, lemma_link_found,
    lemma_link_holds, lemma_rewrite_keeps, lemma_root_found, lemma_target_found,
    lemma_target_holds, moved,
};
use crate::rewrite::{
    catalog_value, fits, inherited_entry, kids, lemma_numbering_len, numbering,
    numbering_follows_order, output_value, output_values, page_entries, page_value, pages_value,
    reference_to, rewrite, rewrite_entries, rewrite_items, selection, stream_length, without_key,
    PAGES_NUMBER,
};
use crate::subset_laws::{lemma_lookup_well_formed, lemma_source_entries};
use crate::syntax::MAX_DEPTH;
use crate::tree_laws::{pages_well_formed, well_formed_page, well_formed_pages};
use crate::value_laws::well_formed;
use vstd::prelude::*;
use vstd::set_lib::*;

verus! {

/// Whether every reference names an object from number 3 up to `top`, in
/// its first generation.
pub open spec fn within(ids: Seq<ObjectId>, top: nat) -> bool {
    forall|i: int|
        0 <= i < ids.len() ==> 3 <= (#[trigger] ids[i]).number <= top && ids[i].generation == 0
}

/// Whether every reference in the values of the entries is within.
pub open spec fn entries_within(entries: Seq<(Seq<u8>, Value)>, top: nat) -> bool {
    forall|i: int| 0 <= i < entries.len() ==> within(refs((#[trigger] entries[i]).1), top)
}

/// Whether every reference in the values of the entries is within, but for
/// the entries under `Parent`.
pub open spec fn page_entries_within(entries: Seq<(Seq<u8>, Value)>, top: nat) -> bool {
    forall|i: int|
        0 <= i < entries.len() && (#[trigger] entries[i]).0 != text("Parent") ==> within(
            refs(entries[i].1),
            top,
        )
}

/// Whether every new number of the table is a number from 3 up to `top`.
pub open spec fn table_within(table: Seq<u32>, top: nat) -> bool {
    forall|i: int| 0 <= i < table.len() ==> (#[trigger] table[i]) == 0 || 3 <= table[i] <= top
}

/// The new numbers run from 3 up to two more than there are objects.
pub proof fn lemma_numbering_within(found: Seq<usize>, limit: nat)
    requires
        found.len() + 2 <= u32::MAX,
    ensures
        table_within(numbering(found, limit), found.len() + 2),
    decreases found.len(),
{
    if found.len() > 0 {
        lemma_numbering_within(found.drop_last(), limit);
    }
}

/// Items whose references are within hold no other references.
pub proof fn lemma_items_within(items: Seq<Value>, top: nat)
    requires
        forall|i: int| 0 <= i < items.len() ==> within(refs(#[trigger] items[i]), top),
    ensures
        within(refs_of_items(items), top),
    decreases items.len(),
{
    if items.len() > 0 {
        let init = items.drop_last();
        assert forall|i: int| 0 <= i < init.len() implies within(refs(#[trigger] init[i]), top) by {
            assert(init[i] == items[i]);
        }
        lemma_items_within(init, top);
        assert(items.last() == items[items.len() - 1]);
    }
}

/// Entries whose references are within hold no other references.
pub proof fn lemma_entries_within(entries: Seq<(Seq<u8>, Value)>, top: nat)
    requires
        entries_within(entries, top),
    ensures
        within(refs_of_entries(entries), top),
    decreases entries.len(),
{
    if entries.len() > 0 {
        let init = entries.drop_last();
        assert forall|i: int| 0 <= i < init.len() implies within(
            refs((#[trigger] init[i]).1),
            top,
        ) by {
            assert(init[i] == entries[i]);
        }
        lemma_entries_within(init, top);
        assert(entries.last() == entries[entries.len() - 1]);
    }
}

/// Entries whose references are within, but for the entries under `key`,
/// lead to no other objects where those entries are left out.
pub proof fn lemma_links_but_within(entries: Seq<(Seq<u8>, Value)>, key: Seq<u8>, top: nat)
    requires
        forall|i: int|
            0 <= i < entries.len() && (#[trigger] entries[i]).0 != key ==> within(
                refs(entries[i].1),
                top,
            ),
    ensures
        within(links_but(entries, key), top),
    decreases entries.len(),
{
    if entries.len() > 0 {
        let init = entries.drop_last();
        assert forall|i: int| 0 <= i < init.len() && (#[trigger] init[i]).0 != key implies within(
            refs(init[i].1),
            top,
        ) by {
            assert(init[i] == entries[i]);
        }
        lemma_links_but_within(init, key, top);
        assert(entries.last() == entries[entries.len() - 1]);
    }
}

/// Leaving out the entries of a key leaves the references within.
pub proof fn lemma_without_within(entries: Seq<(Seq<u8>, Value)>, key: Seq<u8>, top: nat)
    requires
        entries_within(entries, top),
    ensures
        entries_within(without_key(entries, key), top),
    decreases entries.len(),
{
    if entries.len() > 0 {
        let init = entries.drop_last();
        assert forall|i: int| 0 <= i < init.len() implies within(
            refs((#[trigger] init[i]).1),
            top,
        ) by {
            assert(init[i] == entries[i]);
        }
        lemma_without_within(init, key, top);
        let kept = without_key(init, key);
        let last = entries.last();
        assert(last == entries[entries.len() - 1]);
        if last.0 != key {
            assert forall|i: int| 0 <= i < kept.push(last).len() implies within(
                refs((#[trigger] kept.push(last)[i]).1),
                top,
            ) by {
                if i < kept.len() {
                    assert(kept.push(last)[i] == kept[i]);
                }
            }
        }
    }
}

/// A value whose references were rewritten refers to new numbers only.
pub proof fn lemma_rewrite_within(doc: DocumentView, table: Seq<u32>, v: Value, top: nat)
    requires
        table_within(table, top),
    ensures
        within(refs(rewrite(doc, table, v)), top),
    decreases v,
{
    match v {
        Value::Array(items) => {
            let after = rewrite_items(doc, table, items);
            assert forall|i: int| 0 <= i < after.len() implies within(
                refs(#[trigger] after[i]),
                top,
            ) by {
                lemma_rewrite_within(doc, table, items[i], top);
            }
            lemma_items_within(after, top);
        },
        Value::Dictionary(entries) => {
            let after = rewrite_entries(doc, table, entries);
            assert forall|i: int| 0 <= i < after.len() implies within(
                refs((#[trigger] after[i]).1),
                top,
            ) by {
                lemma_rewrite_within(doc, table, entries[i].1, top);
            }
            lemma_entries_within(after, top);
        },
        Value::Stream(entries, data) => {
            let after = rewrite_entries(doc, table, entries);
            assert forall|i: int| 0 <= i < after.len() implies within(
                refs((#[trigger] after[i]).1),
                top,
            ) by {
                lemma_rewrite_within(doc, table, entries[i].1, top);
            }
            lemma_stream_within(after, data.len(), top);
            lemma_entries_within(stream_entries(after, data.len()), top);
        },
        Value::Reference(id) => {
            if doc.resolve(id) is Some && id.number < table.len() && table[id.number as int] != 0 {
                assert(3 <= table[id.number as int] <= top);
            }
        },
        _ => {},
    }
}

/// The entries of a rewritten stream: those that were rewritten, but for
/// the length, and the length of the payload behind them.
pub open spec fn stream_entries(after: Seq<(Seq<u8>, Value)>, size: nat) -> Seq<(Seq<u8>, Value)> {
    without_key(after, text("Length")).push((text("Length"), Value::Integer(stream_length(size))))
}

/// The entries of a rewritten stream refer to new numbers only.
pub proof fn lemma_stream_within(after: Seq<(Seq<u8>, Value)>, size: nat, top: nat)
    requires
        entries_within(after, top),
    ensures
        entries_within(stream_entries(after, size), top),
{
    let kept = without_key(after, text("Length"));
    let last = (text("Length"), Value::Integer(stream_length(size)));
    lemma_without_within(after, text("Length"), top);
    assert forall|i: int| 0 <= i < kept.push(last).len() implies within(
        refs((#[trigger] kept.push(last)[i]).1),
        top,
    ) by {
        if i < kept.len() {
            assert(kept.push(last)[i] == kept[i]);
        }
    }
}

/// The entries of a value whose references were rewritten refer to new
/// numbers only.
pub proof fn lemma_rewrite_entries_within(
    doc: DocumentView,
    table: Seq<u32>,
    entries: Seq<(Seq<u8>, Value)>,
    top: nat,
)
    requires
        table_within(table, top),
    ensures
        entries_within(rewrite_entries(doc, table, entries), top),
{
    let after = rewrite_entries(doc, table, entries);
    assert forall|i: int| 0 <= i < after.len() implies within(refs((#[trigger] after[i]).1), top) by {
        lemma_rewrite_within(doc, table, entries[i].1, top);
    }
}

/// What leads on from a dictionary whose entries refer to new numbers
/// only.
pub proof fn lemma_links_within(entries: Seq<(Seq<u8>, Value)>, top: nat)
    requires
        entries_within(entries, top),
    ensures
        within(links(Value::Dictionary(entries)), top),
{
    if is_page(entries) {
        lemma_links_but_within(entries, text("Parent"), top);
    } else {
        lemma_entries_within(entries, top);
    }
}

/// The references that resolve in a document, where all are within, give
/// numbers from 3 up to `top`.
pub proof fn lemma_resolved_within(doc: DocumentView, ids: Seq<ObjectId>, top: nat)
    requires
        within(ids, top),
    ensures
        forall|j: int|
            0 <= j < doc.resolved(ids).len() ==> 3 <= (#[trigger] doc.resolved(ids)[j]) <= top,
    decreases ids.len(),
{
    if ids.len() > 0 {
        let init = ids.drop_last();
        assert forall|i: int| 0 <= i < init.len() implies 3 <= (#[trigger] init[i]).number <= top
            && init[i].generation == 0 by {
            assert(init[i] == ids[i]);
        }
        lemma_resolved_within(doc, init, top);
        assert(ids.last() == ids[ids.len() - 1]);
        let before = doc.resolved(init);
        assert forall|j: int| 0 <= j < doc.resolved(ids).len() implies 3 <= (
        #[trigger] doc.resolved(ids)[j]) <= top by {
            if j < before.len() {
                assert(doc.resolved(ids)[j] == before[j]);
            }
        }
    }
}

/// Whether an object of a written subset refers to objects of the subset
/// only: what leads on from it does, and so does every entry of it, but
/// for the parent of a page.
pub open spec fn object_within(v: Value, top: nat) -> bool {
    within(links(v), top) && page_entries_within(entries_of(v), top)
}

/// What is found under a key other than `Parent` refers to new numbers
/// only, where the entries do.
pub proof fn lemma_attribute_within(entries: Seq<(Seq<u8>, Value)>, key: Seq<u8>, top: nat)
    requires
        page_entries_within(entries, top),
        key != text("Parent"),
        lookup(entries, key) is Some,
    ensures
        within(refs(lookup(entries, key)->0), top),
{
    lemma_position(entries, key, 0);
    let at = key_position(entries, key, 0);
    assert(entries[at].0 != text("Parent"));
}

/// An object whose references were rewritten refers to objects of the
/// subset only.
pub proof fn lemma_rewritten_object(doc: DocumentView, table: Seq<u32>, v: Value, top: nat)
    requires
        table_within(table, top),
    ensures
        object_within(rewrite(doc, table, v), top),
{
    lemma_rewrite_within(doc, table, v, top);
    match v {
        Value::Dictionary(entries) => {
            lemma_rewrite_entries_within(doc, table, entries, top);
            lemma_links_within(rewrite_entries(doc, table, entries), top);
        },
        Value::Stream(entries, data) => {
            let after = rewrite_entries(doc, table, entries);
            lemma_rewrite_entries_within(doc, table, entries, top);
            lemma_stream_within(after, data.len(), top);
            lemma_links_but_within(stream_entries(after, data.len()), text("Length"), top);
        },
        Value::Reference(id) => {},
        _ => {},
    }
}

/// A page of a subset refers, in the new document, to objects of the
/// subset only.
pub proof fn lemma_page_object(doc: DocumentView, table: Seq<u32>, page: Page, top: nat)
    requires
        table_within(table, top),
        well_formed_page(doc, page),
    ensures
        object_within(page_value(doc, table, page), top),
{
    lemma_page_value(doc, table, page);
    let own = doc.resolve(page.id)->0->Dictionary_0;
    let parent = seq![(text("Parent"), reference_to(PAGES_NUMBER))];
    let after = rewrite_entries(doc, table, page_entries(doc, page, own));
    let entries = parent + after;
    assert(page_value(doc, table, page) == Value::Dictionary(entries));
    lemma_rewrite_entries_within(doc, table, page_entries(doc, page, own), top);
    assert forall|i: int|
        0 <= i < entries.len() && (#[trigger] entries[i]).0 != text("Parent") implies within(
        refs(entries[i].1),
        top,
    ) by {
        if i == 0 {
            assert(entries[0] == parent[0]);
        } else {
            assert(entries[i] == after[i - 1]);
        }
    }
    lemma_links_but_within(entries, text("Parent"), top);
}

/// Every object of a written subset, from the third on, refers to objects
/// of the subset only.
pub proof fn lemma_output_within(doc: DocumentView, selected: Seq<Page>, k: int)
    requires
        well_formed_pages(doc, selected),
        fits(selected, doc.extract(selected)),
        0 <= k < doc.extract(selected).len(),
    ensures
        output_values(doc, selected, doc.extract(selected)).len() == doc.extract(selected).len()
            + 2,
        object_within(
            output_values(doc, selected, doc.extract(selected))[k + 2],
            doc.extract(selected).len() + 2,
        ),
{
    let found = doc.extract(selected);
    let limit = doc.objects.len();
    let table = numbering(found, limit);
    let chosen = selection(selected, limit);
    let top = found.len() + 2;
    let x = found[k];
    lemma_numbering_within(found, limit);
    assert(output_values(doc, selected, found)[k + 2] == output_value(doc, table, chosen, x));
    assert forall|i: int| 0 <= i < selected.len() implies (#[trigger] selected[i]).id.number
        < limit by {
        assert(well_formed_page(doc, selected[i]));
    }
    selection_holds_pages(selected, limit);
    if x < chosen.len() && chosen[x as int] is Some {
        let i = choose|i: int| 0 <= i < selected.len() && (#[trigger] selected[i]).id.number == x;
        assert(chosen[x as int] == Some(selected[i]));
        assert(well_formed_page(doc, selected[i]));
        lemma_page_object(doc, table, selected[i], top);
    } else if x < doc.objects.len() && doc.objects[x as int] is Some {
        lemma_rewritten_object(doc, table, doc.objects[x as int]->0, top);
    } else {
        assert(refs(Value::Null) =~= Seq::empty());
    }
}

/// The numbers from 3 up to `top`.
pub open spec fn span(top: nat) -> Set<usize> {
    Set::new(|x: usize| 3 <= x <= top)
}

/// The document that is written for a subset.
pub open spec fn written_subset(doc: DocumentView, selected: Seq<Page>, version: Seq<u8>) -> DocumentView {
    written_document(version, output_values(doc, selected, doc.extract(selected)))
}

/// In the document of a subset, the objects from the third on lead to each
/// other only.
pub proof fn lemma_written_closed(doc: DocumentView, selected: Seq<Page>, version: Seq<u8>)
    requires
        well_formed_pages(doc, selected),
        fits(selected, doc.extract(selected)),
    ensures
        closed(
            written_subset(doc, selected, version).graph(),
            span(doc.extract(selected).len() + 2),
        ),
{
    let found = doc.extract(selected);
    let values = output_values(doc, selected, found);
    let out = written_subset(doc, selected, version);
    let g = out.graph();
    let top = found.len() + 2;
    assert forall|x: usize, j: int|
        span(top).contains(x) && 0 <= j < successors(g, x).len() && successors(g, x)[j]
            < g.len() implies span(top).contains(#[trigger] successors(g, x)[j]) by {
        lemma_output_within(doc, selected, x - 3);
        assert(out.objects[x as int] == Some(values[x - 1]));
        assert(successors(g, x) == out.resolved(links(values[x - 1])));
        lemma_resolved_within(out, links(values[x - 1]), top);
    }
}

/// In the document of a subset, what an attribute of a page leads to is an
/// object from the third on.
pub proof fn lemma_attribute_roots(
    doc: DocumentView,
    selected: Seq<Page>,
    version: Seq<u8>,
    source: Option<u32>,
    key: Seq<u8>,
)
    requires
        well_formed_pages(doc, selected),
        fits(selected, doc.extract(selected)),
        key == text("Resources") || key == text("MediaBox") || key == text("Rotate"),
    ensures
        forall|j: int|
            0 <= j < written_subset(doc, selected, version).attribute_roots(source, key).len()
                ==> span(doc.extract(selected).len() + 2).contains(
                #[trigger] written_subset(doc, selected, version).attribute_roots(source, key)[j],
            ),
{
    let found = doc.extract(selected);
    let values = output_values(doc, selected, found);
    let out = written_subset(doc, selected, version);
    let top = found.len() + 2;
    lemma_names();
    if source is Some && out.attribute(source->0, key) is Some {
        let n = source->0;
        let x = out.attribute(n, key)->0;
        assert(1 <= n <= top);
        assert(out.objects[n as int] == Some(values[n - 1]));
        if n == 1 {
            let catalog = catalog_value()->Dictionary_0;
            assert(catalog[0].0 == text("Type"));
            assert(catalog[1].0 == text("Pages"));
            assert(key_position(catalog, key, 2) == 2);
            assert(key_position(catalog, key, 1) == 2);
            assert(false);
        } else if n == 2 {
            let table = numbering(found, doc.objects.len());
            let node = pages_value(table, selected)->Dictionary_0;
            assert(node[0].0 == text("Type"));
            assert(node[1].0 == text("Kids"));
            assert(node[2].0 == text("Count"));
            assert(key_position(node, key, 3) == 3);
            assert(key_position(node, key, 2) == 3);
            assert(key_position(node, key, 1) == 3);
            assert(false);
        } else {
            lemma_output_within(doc, selected, n - 3);
            lemma_attribute_within(entries_of(values[n - 1]), key, top);
            lemma_resolved_within(out, refs(x), top);
        }
    }
}

/// In the document of a subset, a page is an object from the third on, and
/// so is everything that the page is reached from.
pub proof fn lemma_page_roots(doc: DocumentView, selected: Seq<Page>, version: Seq<u8>, page: Page)
    requires
        well_formed_pages(doc, selected),
        fits(selected, doc.extract(selected)),
        well_formed_page(written_subset(doc, selected, version), page),
    ensures
        page_rooted(written_subset(doc, selected, version), page, doc.extract(selected).len() + 2),
{
    let found = doc.extract(selected);
    let values = output_values(doc, selected, found);
    let out = written_subset(doc, selected, version);
    let top = found.len() + 2;
    let table = numbering(found, doc.objects.len());
    lemma_names();
    let n = page.id.number;
    assert(1 <= n <= top);
    assert(out.objects[n as int] == Some(values[n - 1]));
    assert(n >= 3) by {
        let catalog = catalog_value()->Dictionary_0;
        assert(catalog[0] == (text("Type"), Value::Name(text("Catalog"))));
        assert(key_position(catalog, text("Type"), 0) == 0);
        let node = pages_value(table, selected)->Dictionary_0;
        assert(node[0] == (text("Type"), Value::Name(text("Pages"))));
        assert(key_position(node, text("Type"), 0) == 0);
        assert(text("Catalog") != text("Page"));
        assert(text("Pages") != text("Page"));
    }
    let own = seq![page.id];
    assert(own.last() == page.id);
    assert(own.drop_last() =~= Seq::empty());
    assert(out.resolved(own.drop_last()) =~= Seq::empty());
    assert(out.resolved(own) =~= seq![n as usize]);
    lemma_attribute_roots(doc, selected, version, page.resources, text("Resources"));
    lemma_attribute_roots(doc, selected, version, Some(page.media_box), text("MediaBox"));
    lemma_attribute_roots(doc, selected, version, page.rotate, text("Rotate"));
}

/// Whether a page is reached from objects from the third up to `top`
/// only.
pub open spec fn page_rooted(out: DocumentView, page: Page, top: nat) -> bool {
    forall|j: int|
        0 <= j < out.page_roots(page).len() ==> span(top).contains(
            #[trigger] out.page_roots(page)[j],
        )
}

/// Pages that are each reached from objects from the third up to `top`
/// are together reached from such objects.
pub proof fn lemma_roots_within(out: DocumentView, pages: Seq<Page>, top: nat)
    requires
        forall|i: int| 0 <= i < pages.len() ==> page_rooted(out, #[trigger] pages[i], top),
    ensures
        forall|j: int|
            0 <= j < out.roots(pages).len() ==> span(top).contains(#[trigger] out.roots(pages)[j]),
    decreases pages.len(),
{
    if pages.len() > 0 {
        let init = pages.drop_last();
        assert forall|i: int| 0 <= i < init.len() implies page_rooted(
            out,
            #[trigger] init[i],
            top,
        ) by {
            assert(init[i] == pages[i]);
        }
        lemma_roots_within(out, init, top);
        assert(page_rooted(out, pages[pages.len() - 1], top));
        let before = out.roots(init);
        let last = out.page_roots(pages.last());
        assert forall|j: int| 0 <= j < out.roots(pages).len() implies span(top).contains(
            #[trigger] out.roots(pages)[j],
        ) by {
            if j < before.len() {
                assert(out.roots(pages)[j] == before[j]);
            } else {
                assert(out.roots(pages)[j] == last[j - before.len()]);
            }
        }
    }
}

/// A second subset, taken from the document of a subset, holds no more
/// objects than the first. Whatever pages of the written document it is
/// made for, it holds only objects from the third on, each once.
pub proof fn second_subset_is_no_larger(
    doc: DocumentView,
    selected: Seq<Page>,
    version: Seq<u8>,
    pages: Seq<Page>,
)
    requires
        well_formed_pages(doc, selected),
        fits(selected, doc.extract(selected)),
        well_formed_pages(written_subset(doc, selected, version), pages),
    ensures
        written_subset(doc, selected, version).extract(pages).len() <= doc.extract(
            selected,
        ).len(),
{
    let found = doc.extract(selected);
    let out = written_subset(doc, selected, version);
    let top = found.len() + 2;
    let g = out.graph();
    let roots = out.roots(pages);
    let second = out.extract(pages);
    lemma_written_closed(doc, selected, version);
    assert forall|i: int| 0 <= i < pages.len() implies page_rooted(
        out,
        #[trigger] pages[i],
        top,
    ) by {
        assert(well_formed_page(out, pages[i]));
        lemma_page_roots(doc, selected, version, pages[i]);
    }
    lemma_roots_within(out, pages, top);
    assert forall|r: usize| roots.contains(r) && r < g.len() implies span(top).contains(r) by {
        let j = choose|j: int| 0 <= j < roots.len() && roots[j] == r;
        assert(span(top).contains(roots[j]));
    }
    closure_is_least(g, roots, span(top));
    closure_is_closed(g, roots);
    let moved = Seq::new(second.len(), |i: int| (second[i] - 3) as usize);
    assert forall|i: int| 0 <= i < second.len() implies 3 <= #[trigger] second[i] <= top by {
        assert(second.to_set().contains(second[i]));
        assert(span(top).contains(second[i]));
    }
    assert forall|i: int, j: int| 0 <= i < j < moved.len() implies moved[i] != moved[j] by {
        assert(second[i] != second[j]);
    }
    assert(bounded(moved, found.len())) by {
        assert forall|k: int| 0 <= k < moved.len() implies #[trigger] moved[k] < found.len() by {
            assert(3 <= second[k] <= top);
        }
    }
    lemma_pigeonhole(moved, found.len());
}

/// Rewriting the references of entries leaves a page a page, and makes
/// nothing else a page.
pub proof fn lemma_page_stays(doc: DocumentView, table: Seq<u32>, entries: Seq<(Seq<u8>, Value)>)
    ensures
        is_page(rewrite_entries(doc, table, entries)) == is_page(entries),
{
    lemma_lookup_rewrite(doc, table, entries, text("Type"));
}

/// A reference that leads on from an object and is carried over leads on,
/// with the new number of its target, from the object whose references
/// were rewritten.
pub proof fn lemma_rewritten_link(doc: DocumentView, table: Seq<u32>, v: Value, id: ObjectId)
    requires
        source_well_formed(v),
        links(v).contains(id),
        carried(doc, table, id),
    ensures
        links(rewrite(doc, table, v)).contains(moved(table, id)),
{
    let depth = (MAX_DEPTH - 1) as nat;
    match v {
        Value::Dictionary(entries) => {
            let after = rewrite_entries(doc, table, entries);
            lemma_page_stays(doc, table, entries);
            if is_page(entries) {
                let at = lemma_link_found(entries, text("Parent"), id);
                lemma_rewrite_keeps(doc, table, entries[at].1, id, depth);
                lemma_link_holds(after, text("Parent"), at, moved(table, id));
            } else {
                lemma_rewrite_keeps(doc, table, v, id, MAX_DEPTH as nat);
            }
        },
        Value::Stream(entries, data) => {
            let after = rewrite_entries(doc, table, entries);
            let at = lemma_link_found(entries, text("Length"), id);
            lemma_rewrite_keeps(doc, table, entries[at].1, id, depth);
            let to = lemma_entry_kept(after, text("Length"), at);
            assert(stream_entries(after, data.len())[to] == after[at]);
            lemma_link_holds(
                stream_entries(after, data.len()),
                text("Length"),
                to,
                moved(table, id),
            );
        },
        _ => {
            lemma_rewrite_keeps(doc, table, v, id, MAX_DEPTH as nat);
        },
    }
}

/// The entries of a page of a subset, once its references are rewritten,
/// stand behind the parent in the new document; what one of them refers to
/// leads on from the page.
pub proof fn lemma_page_entry_link(
    doc: DocumentView,
    table: Seq<u32>,
    page: Page,
    at: int,
    id: ObjectId,
)
    requires
        well_formed_page(doc, page),
        0 <= at < page_entries(doc, page, doc.resolve(page.id)->0->Dictionary_0).len(),
        page_entries(doc, page, doc.resolve(page.id)->0->Dictionary_0)[at].0 != text("Parent"),
        well_formed(
            page_entries(doc, page, doc.resolve(page.id)->0->Dictionary_0)[at].1,
            (MAX_DEPTH - 1) as nat,
        ),
        refs(page_entries(doc, page, doc.resolve(page.id)->0->Dictionary_0)[at].1).contains(id),
        carried(doc, table, id),
    ensures
        links(page_value(doc, table, page)).contains(moved(table, id)),
{
    let own = doc.resolve(page.id)->0->Dictionary_0;
    let before = page_entries(doc, page, own);
    let after = rewrite_entries(doc, table, before);
    let parent = seq![(text("Parent"), reference_to(PAGES_NUMBER))];
    let entries = parent + after;
    lemma_page_value(doc, table, page);
    assert(page_value(doc, table, page) == Value::Dictionary(entries));
    lemma_rewrite_keeps(doc, table, before[at].1, id, (MAX_DEPTH - 1) as nat);
    assert(entries[1 + at] == after[at]);
    lemma_link_holds(entries, text("Parent"), 1 + at, moved(table, id));
}

/// A reference that leads on from a page of a subset and is carried over
/// leads on, with the new number of its target, from the page as it
/// stands in the new document.
pub proof fn lemma_page_link(doc: DocumentView, table: Seq<u32>, page: Page, id: ObjectId)
    requires
        as_read(doc),
        well_formed_page(doc, page),
        links_but(doc.resolve(page.id)->0->Dictionary_0, text("Parent")).contains(id),
        carried(doc, table, id),
    ensures
        links(page_value(doc, table, page)).contains(moved(table, id)),
{
    let own = doc.resolve(page.id)->0->Dictionary_0;
    let object = doc.objects[page.id.number as int]->0;
    assert(object == Value::Dictionary(own));
    lemma_source_entries(object);
    let at = lemma_link_found(own, text("Parent"), id);
    let to = lemma_entry_kept(own, text("Parent"), at);
    let before = page_entries(doc, page, own);
    assert(before[to] == own[at]);
    lemma_page_entry_link(doc, table, page, to, id);
}

/// Whether `source` and `key` are an attribute of the page and the object
/// that defines it.
pub open spec fn attribute_of(page: Page, source: Option<u32>, key: Seq<u8>) -> bool {
    ||| key == text("Resources") && source == page.resources
    ||| key == text("MediaBox") && source == Some(page.media_box)
    ||| key == text("Rotate") && source == page.rotate
}

/// A reference in an attribute of a page of a subset that is carried over
/// leads on, with the new number of its target, from the page as it
/// stands in the new document.
pub proof fn lemma_page_attribute(
    doc: DocumentView,
    table: Seq<u32>,
    page: Page,
    source: Option<u32>,
    key: Seq<u8>,
    id: ObjectId,
)
    requires
        as_read(doc),
        well_formed_page(doc, page),
        attribute_of(page, source, key),
        source is Some,
        doc.attribute(source->0, key) is Some,
        refs(doc.attribute(source->0, key)->0).contains(id),
        carried(doc, table, id),
    ensures
        links(page_value(doc, table, page)).contains(moved(table, id)),
{
    lemma_names();
    let depth = (MAX_DEPTH - 1) as nat;
    let n = source->0;
    let a = doc.attribute(n, key)->0;
    let holder = doc.objects[n as int]->0;
    let own = doc.resolve(page.id)->0->Dictionary_0;
    let before = page_entries(doc, page, own);
    lemma_source_entries(holder);
    lemma_lookup_well_formed(entries_of(holder), key, depth);
    if n == page.id.number {
        assert(holder == Value::Dictionary(own));
        lemma_position(own, key, 0);
        let at = key_position(own, key, 0);
        let to = lemma_entry_kept(own, text("Parent"), at);
        assert(before[to] == own[at]);
        lemma_page_entry_link(doc, table, page, to, id);
    } else {
        let kept = without_key(own, text("Parent"));
        let first = inherited_entry(doc, page, page.resources, text("Resources"));
        let second = inherited_entry(doc, page, Some(page.media_box), text("MediaBox"));
        let third = inherited_entry(doc, page, page.rotate, text("Rotate"));
        assert(before == kept + first + second + third);
        let to = if key == text("Resources") {
            kept.len() as int
        } else if key == text("MediaBox") {
            (kept.len() + first.len()) as int
        } else {
            (kept.len() + first.len() + second.len()) as int
        };
        assert(before[to] == (key, a));
        lemma_page_entry_link(doc, table, page, to, id);
    }
}

/// In a written document, a reference that leads on from an object leads
/// to its target.
pub proof fn lemma_written_link(version: Seq<u8>, values: Seq<Value>, node: usize, target: u32)
    requires
        1 <= node <= values.len(),
        1 <= target <= values.len(),
        links(values[node - 1]).contains(new_id(target)),
    ensures
        successors(written_document(version, values).graph(), node).contains(target as usize),
{
    let out = written_document(version, values);
    let ids = links(values[node - 1]);
    let at = choose|at: int| 0 <= at < ids.len() && ids[at] == new_id(target);
    lemma_written_resolve(version, values, target);
    lemma_target_holds(out, ids, at);
    assert(out.objects[node as int] == Some(values[node - 1]));
    assert(out.node_successors(node as int) == out.resolved(ids));
    assert(out.graph()[node as int] == out.node_successors(node as int));
}

/// In the document of a subset, a reference that leads on from an object
/// leads to its target.
pub proof fn lemma_written_successor(
    doc: DocumentView,
    selected: Seq<Page>,
    version: Seq<u8>,
    j: int,
    target: u32,
)
    requires
        fits(selected, doc.extract(selected)),
        0 <= j < doc.extract(selected).len(),
        3 <= target <= doc.extract(selected).len() + 2,
        links(output_values(doc, selected, doc.extract(selected))[j + 2]).contains(new_id(target)),
    ensures
        successors(written_subset(doc, selected, version).graph(), (j + 3) as usize).contains(
            target as usize,
        ),
{
    let found = doc.extract(selected);
    let values = output_values(doc, selected, found);
    assert(values.len() == found.len() + 2);
    lemma_written_link(version, values, (j + 3) as usize, target);
}

/// What an object of a subset leads to is part of the subset, and the
/// object leads to it in the new document as well.
pub proof fn lemma_successor_carried(
    doc: DocumentView,
    selected: Seq<Page>,
    version: Seq<u8>,
    j: int,
    y: usize,
)
    requires
        as_read(doc),
        well_formed_pages(doc, selected),
        fits(selected, doc.extract(selected)),
        0 <= j < doc.extract(selected).len(),
        successors(doc.graph(), doc.extract(selected)[j]).contains(y),
    ensures
        doc.extract(selected).contains(y),
        y < doc.objects.len(),
        3 <= numbering(doc.extract(selected), doc.objects.len())[y as int]
            <= doc.extract(selected).len() + 2,
        successors(written_subset(doc, selected, version).graph(), (j + 3) as usize).contains(
            numbering(doc.extract(selected), doc.objects.len())[y as int] as usize,
        ),
{
    let found = doc.extract(selected);
    let limit = doc.objects.len();
    let table = numbering(found, limit);
    let chosen = selection(selected, limit);
    let g = doc.graph();
    let x = found[j];
    closure_is_closed(g, doc.roots(selected));
    numbering_follows_order(found, limit);
    lemma_numbering_len(found, limit);
    assert(x < limit);
    let v = doc.objects[x as int]->0;
    assert(successors(g, x) == doc.node_successors(x as int));
    let at = lemma_target_found(doc, links(v), y);
    let id = links(v)[at];
    assert(found.contains(y)) by {
        let jj = choose|jj: int| 0 <= jj < successors(g, x).len() && successors(g, x)[jj] == y;
        assert(found.to_set().contains(x));
        assert(found.to_set().contains(successors(g, x)[jj]));
    }
    let k = choose|k: int| 0 <= k < found.len() && found[k] == y;
    assert(table[found[k] as int] == k + 3);
    assert(carried(doc, table, id));
    assert(moved(table, id) == new_id(table[y as int]));
    assert(output_values(doc, selected, found)[j + 2] == output_value(doc, table, chosen, x));
    assert forall|i: int| 0 <= i < selected.len() implies (#[trigger] selected[i]).id.number
        < limit by {
        assert(well_formed_page(doc, selected[i]));
    }
    selection_holds_pages(selected, limit);
    if chosen[x as int] is Some {
        let i = choose|i: int| 0 <= i < selected.len() && (#[trigger] selected[i]).id.number == x;
        assert(chosen[x as int] == Some(selected[i]));
        assert(well_formed_page(doc, selected[i]));
        lemma_page_link(doc, table, selected[i], id);
    } else {
        lemma_rewritten_link(doc, table, v, id);
    }
    lemma_written_successor(doc, selected, version, j, table[y as int]);
}

/// The pages of the document of a subset are part of every subset that is
/// made for all of them.
pub proof fn lemma_page_reached(doc: DocumentView, selected: Seq<Page>, version: Seq<u8>, at: int)
    requires
        well_formed_pages(doc, selected),
        selected.len() >= 1,
        fits(selected, doc.extract(selected)),
        0 <= at < selected.len(),
    ensures
        written_subset(doc, selected, version).pages() is Ok,
        written_subset(doc, selected, version).extract(
            written_subset(doc, selected, version).pages()->Ok_0,
        ).contains(node_of(doc, selected, at) as usize),
{
    let found = doc.extract(selected);
    let values = output_values(doc, selected, found);
    let out = written_subset(doc, selected, version);
    subset_is_sound(doc, selected, version);
    let pages = out.pages()->Ok_0;
    let node = node_of(doc, selected, at);
    let page = pages[at];
    lemma_node(doc, selected, at);
    assert(page.id == new_id(node));
    lemma_written_resolve(version, values, node);
    let own = seq![page.id];
    assert(own.last() == page.id);
    assert(own.drop_last() =~= Seq::empty());
    assert(out.resolved(own.drop_last()) =~= Seq::empty());
    assert(out.resolved(own) =~= seq![node as usize]);
    assert(out.page_roots(page)[0] == node as usize);
    assert(out.page_roots(page).contains(node as usize));
    assert(pages.contains(page));
    lemma_roots_hold(out, pages, page);
    closure_is_closed(out.graph(), out.roots(pages));
}

/// The document of a subset holds the objects of the subset, the catalog,
/// the page tree node and the free entry, and it names its version.
pub proof fn lemma_written_count(doc: DocumentView, selected: Seq<Page>, version: Seq<u8>)
    ensures
        written_subset(doc, selected, version).objects.len() == doc.extract(selected).len() + 3,
        written_subset(doc, selected, version).version == Some(version),
{
}

/// The second subset: what the document of a subset needs for all of its
/// pages.
pub open spec fn second_subset(doc: DocumentView, selected: Seq<Page>, version: Seq<u8>) -> Seq<usize> {
    written_subset(doc, selected, version).extract(
        written_subset(doc, selected, version).pages()->Ok_0,
    )
}

/// What a node of the closure leads to is part of the closure.
pub proof fn lemma_successor_reached(g: Seq<Seq<usize>>, roots: Seq<usize>, x: usize, y: usize)
    requires
        closure(g, roots).contains(x),
        successors(g, x).contains(y),
        y < g.len(),
    ensures
        closure(g, roots).contains(y),
{
    closure_is_closed(g, roots);
    let j = choose|j: int| 0 <= j < successors(g, x).len() && successors(g, x)[j] == y;
    assert(closure(g, roots).to_set().contains(x));
    assert(closure(g, roots).to_set().contains(successors(g, x)[j]));
}

/// A page of a subset stands in the new document under its new number.
pub proof fn lemma_page_written(doc: DocumentView, selected: Seq<Page>, at: int)
    requires
        well_formed_pages(doc, selected),
        fits(selected, doc.extract(selected)),
        0 <= at < selected.len(),
    ensures
        3 <= node_of(doc, selected, at) <= doc.extract(selected).len() + 2,
        output_values(doc, selected, doc.extract(selected))[node_of(doc, selected, at) - 1]
            == page_value(
            doc,
            numbering(doc.extract(selected), doc.objects.len()),
            selected[at],
        ),
{
    let found = doc.extract(selected);
    let limit = doc.objects.len();
    let table = numbering(found, limit);
    let chosen = selection(selected, limit);
    let values = output_values(doc, selected, found);
    let page = selected[at];
    let node = node_of(doc, selected, at);
    lemma_node(doc, selected, at);
    assert forall|i: int| 0 <= i < selected.len() implies (#[trigger] selected[i]).id.number
        < limit by {
        assert(well_formed_page(doc, selected[i]));
    }
    selection_holds_pages(selected, limit);
    assert(chosen[page.id.number as int] == Some(page));
    assert(values[node - 1] == output_value(doc, table, chosen, found[node - 3]));
}

/// What an attribute of a page of a subset leads to has a new number, and
/// the page leads to it in the new document.
pub proof fn lemma_attribute_carried(
    doc: DocumentView,
    selected: Seq<Page>,
    version: Seq<u8>,
    at: int,
    source: Option<u32>,
    key: Seq<u8>,
    r: usize,
)
    requires
        as_read(doc),
        well_formed_pages(doc, selected),
        fits(selected, doc.extract(selected)),
        0 <= at < selected.len(),
        attribute_of(selected[at], source, key),
        doc.attribute_roots(source, key).contains(r),
        doc.extract(selected).contains(r),
    ensures
        r < doc.objects.len(),
        3 <= node_of(doc, selected, at) <= doc.extract(selected).len() + 2,
        3 <= numbering(doc.extract(selected), doc.objects.len())[r as int]
            <= doc.extract(selected).len() + 2,
        successors(
            written_subset(doc, selected, version).graph(),
            node_of(doc, selected, at) as usize,
        ).contains(numbering(doc.extract(selected), doc.objects.len())[r as int] as usize),
{
    let found = doc.extract(selected);
    let limit = doc.objects.len();
    let table = numbering(found, limit);
    let page = selected[at];
    let node = node_of(doc, selected, at);
    let a = doc.attribute(source->0, key)->0;
    let idx = lemma_target_found(doc, refs(a), r);
    let id = refs(a)[idx];
    closure_is_closed(doc.graph(), doc.roots(selected));
    numbering_follows_order(found, limit);
    lemma_numbering_len(found, limit);
    let k = choose|k: int| 0 <= k < found.len() && found[k] == r;
    assert(table[found[k] as int] == k + 3);
    assert(carried(doc, table, id));
    assert(moved(table, id) == new_id(table[r as int]));
    assert(well_formed_page(doc, page));
    lemma_page_attribute(doc, table, page, source, key, id);
    lemma_page_written(doc, selected, at);
    lemma_written_successor(doc, selected, version, node - 3, table[r as int]);
}

/// The objects of the document of a subset that are reached from `from`.
pub open spec fn reached(
    doc: DocumentView,
    selected: Seq<Page>,
    version: Seq<u8>,
    from: Seq<usize>,
) -> Seq<usize> {
    closure(written_subset(doc, selected, version).graph(), from)
}

/// Whether every page of the document of a subset is reached from `from`.
pub open spec fn pages_reached(
    doc: DocumentView,
    selected: Seq<Page>,
    version: Seq<u8>,
    from: Seq<usize>,
) -> bool {
    forall|at: int|
        0 <= at < selected.len() ==> reached(doc, selected, version, from).contains(
            #[trigger] node_of(doc, selected, at) as usize,
        )
}

/// What an attribute of a page of a subset leads to is reached, under its
/// new number, from where the pages are reached.
pub proof fn lemma_attribute_reached(
    doc: DocumentView,
    selected: Seq<Page>,
    version: Seq<u8>,
    from: Seq<usize>,
    at: int,
    source: Option<u32>,
    key: Seq<u8>,
    r: usize,
)
    requires
        as_read(doc),
        well_formed_pages(doc, selected),
        fits(selected, doc.extract(selected)),
        pages_reached(doc, selected, version, from),
        0 <= at < selected.len(),
        attribute_of(selected[at], source, key),
        doc.attribute_roots(source, key).contains(r),
        doc.extract(selected).contains(r),
    ensures
        r < doc.objects.len(),
        reached(doc, selected, version, from).contains(
            numbering(doc.extract(selected), doc.objects.len())[r as int] as usize,
        ),
{
    let found = doc.extract(selected);
    let table = numbering(found, doc.objects.len());
    let out = written_subset(doc, selected, version);
    let node = node_of(doc, selected, at);
    lemma_attribute_carried(doc, selected, version, at, source, key, r);
    assert(reached(doc, selected, version, from).contains(node_of(doc, selected, at) as usize));
    assert(out.graph().len() == output_values(doc, selected, found).len() + 1);
    lemma_successor_reached(out.graph(), from, node as usize, table[r as int] as usize);
}

/// Every object from which a subset is reached is reached, under its new
/// number, from where the pages are reached.
pub proof fn lemma_root_reached(
    doc: DocumentView,
    selected: Seq<Page>,
    version: Seq<u8>,
    from: Seq<usize>,
    r: usize,
)
    requires
        as_read(doc),
        well_formed_pages(doc, selected),
        fits(selected, doc.extract(selected)),
        pages_reached(doc, selected, version, from),
        doc.roots(selected).contains(r),
        r < doc.objects.len(),
    ensures
        doc.extract(selected).contains(r),
        reached(doc, selected, version, from).contains(
            numbering(doc.extract(selected), doc.objects.len())[r as int] as usize,
        ),
{
    let found = doc.extract(selected);
    let at = lemma_root_found(doc, selected, r);
    let page = selected[at];
    closure_is_closed(doc.graph(), doc.roots(selected));
    let own = doc.resolved(seq![page.id]);
    let first = doc.attribute_roots(page.resources, text("Resources"));
    let second = doc.attribute_roots(Some(page.media_box), text("MediaBox"));
    let third = doc.attribute_roots(page.rotate, text("Rotate"));
    let all = doc.page_roots(page);
    assert(all == own + first + second + third);
    let i = choose|i: int| 0 <= i < all.len() && all[i] == r;
    if i < own.len() {
        assert(own[i] == r);
        let x = lemma_target_found(doc, seq![page.id], r);
        assert(page.id.number == r);
        assert(reached(doc, selected, version, from).contains(
            node_of(doc, selected, at) as usize,
        ));
    } else if i < own.len() + first.len() {
        assert(first[i - own.len()] == r);
        lemma_attribute_reached(
            doc,
            selected,
            version,
            from,
            at,
            page.resources,
            text("Resources"),
            r,
        );
    } else if i < own.len() + first.len() + second.len() {
        assert(second[i - own.len() - first.len()] == r);
        lemma_attribute_reached(
            doc,
            selected,
            version,
            from,
            at,
            Some(page.media_box),
            text("MediaBox"),
            r,
        );
    } else {
        assert(third[i - own.len() - first.len() - second.len()] == r);
        lemma_attribute_reached(doc, selected, version, from, at, page.rotate, text("Rotate"), r);
    }
}

/// Whether an object is part of the subset and, under its new number,
/// reached from `from` in the document of the subset.
pub open spec fn in_both(
    doc: DocumentView,
    selected: Seq<Page>,
    version: Seq<u8>,
    from: Seq<usize>,
    x: usize,
) -> bool {
    doc.extract(selected).contains(x) && x < doc.objects.len() && reached(
        doc,
        selected,
        version,
        from,
    ).contains(numbering(doc.extract(selected), doc.objects.len())[x as int] as usize)
}

/// Every object of a subset is reached, under its new number, from where
/// the pages are reached in the document of the subset.
pub proof fn lemma_all_reached(
    doc: DocumentView,
    selected: Seq<Page>,
    version: Seq<u8>,
    from: Seq<usize>,
)
    requires
        as_read(doc),
        well_formed_pages(doc, selected),
        selected.len() >= 1,
        fits(selected, doc.extract(selected)),
        pages_reached(doc, selected, version, from),
    ensures
        forall|k: int|
            0 <= k < doc.extract(selected).len() ==> in_both(
                doc,
                selected,
                version,
                from,
                #[trigger] doc.extract(selected)[k],
            ),
{
    let found = doc.extract(selected);
    let limit = doc.objects.len();
    let table = numbering(found, limit);
    let out = written_subset(doc, selected, version);
    let second = reached(doc, selected, version, from);
    let g = doc.graph();
    let h = out.graph();
    let both = Set::new(|x: usize| in_both(doc, selected, version, from, x));
    closure_is_closed(g, doc.roots(selected));
    closure_is_closed(h, from);
    numbering_follows_order(found, limit);
    assert forall|x: usize, j: int|
        both.contains(x) && 0 <= j < successors(g, x).len() && successors(g, x)[j]
            < g.len() implies both.contains(#[trigger] successors(g, x)[j]) by {
        let y = successors(g, x)[j];
        let k = choose|k: int| 0 <= k < found.len() && found[k] == x;
        assert(table[found[k] as int] == k + 3);
        assert(successors(g, x).contains(y));
        lemma_successor_carried(doc, selected, version, k, y);
        let succ = successors(h, (k + 3) as usize);
        let jj = choose|jj: int| 0 <= jj < succ.len() && succ[jj] == table[y as int] as usize;
        assert(second.to_set().contains((k + 3) as usize));
        assert(second.to_set().contains(successors(h, (k + 3) as usize)[jj]));
    }
    assert forall|r: usize| doc.roots(selected).contains(r) && r < g.len() implies both.contains(
        r,
    ) by {
        lemma_root_reached(doc, selected, version, from, r);
    }
    closure_is_least(g, doc.roots(selected), both);
    assert forall|k: int| 0 <= k < found.len() implies in_both(
        doc,
        selected,
        version,
        from,
        #[trigger] found[k],
    ) by {
        assert(found.to_set().contains(found[k]));
        assert(both.contains(found[k]));
    }
}

/// Splitting what was split loses nothing. The document that is written
/// for a subset needs, for all of its pages, every object that was written
/// but the catalog and the page tree node, which are made anew: the second
/// subset holds as many objects as the first.
pub proof fn second_subset_is_as_large(doc: DocumentView, selected: Seq<Page>, version: Seq<u8>)
    requires
        as_read(doc),
        well_formed_pages(doc, selected),
        selected.len() >= 1,
        fits(selected, doc.extract(selected)),
    ensures
        written_subset(doc, selected, version).pages() is Ok,
        written_subset(doc, selected, version).pages()->Ok_0.len() == selected.len(),
        second_subset(doc, selected, version).len() == doc.extract(selected).len(),
{
    let found = doc.extract(selected);
    let out = written_subset(doc, selected, version);
    let second = second_subset(doc, selected, version);
    subset_is_sound(doc, selected, version);
    pages_well_formed(out);
    let from = out.roots(out.pages()->Ok_0);
    assert(second == reached(doc, selected, version, from));
    second_subset_is_no_larger(doc, selected, version, out.pages()->Ok_0);
    assert forall|at: int| 0 <= at < selected.len() implies reached(
        doc,
        selected,
        version,
        from,
    ).contains(#[trigger] node_of(doc, selected, at) as usize) by {
        lemma_page_reached(doc, selected, version, at);
    }
    lemma_all_reached(doc, selected, version, from);
    closure_is_closed(doc.graph(), doc.roots(selected));
    closure_is_closed(out.graph(), from);
    numbering_follows_order(found, doc.objects.len());
    let table = numbering(found, doc.objects.len());
    let all = Seq::new(found.len(), |k: int| (k + 3) as usize);
    assert(all.no_duplicates());
    assert forall|x: usize| all.to_set().contains(x) implies second.to_set().contains(x) by {
        let k = choose|k: int| 0 <= k < all.len() && all[k] == x;
        assert(in_both(doc, selected, version, from, found[k]));
        assert(table[found[k] as int] == k + 3);
    }
    all.unique_seq_to_set();
    second.unique_seq_to_set();
    lemma_len_subset(all.to_set(), second.to_set());
}

/// In the document of a subset, every page is reached from the catalog.
pub proof fn lemma_pages_from_catalog(doc: DocumentView, selected: Seq<Page>, version: Seq<u8>)
    requires
        well_formed_pages(doc, selected),
        fits(selected, doc.extract(selected)),
    ensures
        reached(doc, selected, version, seq![1usize]).contains(1),
        reached(doc, selected, version, seq![1usize]).contains(2),
        pages_reached(doc, selected, version, seq![1usize]),
{
    let found = doc.extract(selected);
    let table = numbering(found, doc.objects.len());
    let values = output_values(doc, selected, found);
    let out = written_subset(doc, selected, version);
    let g = out.graph();
    let from = seq![1usize];
    lemma_names();
    assert(values.len() == found.len() + 2);
    assert(g.len() == found.len() + 3);
    closure_is_closed(g, from);
    assert(from[0] == 1usize);
    assert(from.contains(1usize));
    // The catalog leads to the page tree node.
    let catalog = catalog_value()->Dictionary_0;
    assert(values[0] == catalog_value());
    assert(catalog[0] == (text("Type"), Value::Name(text("Catalog"))));
    assert(catalog[1] == (text("Pages"), reference_to(PAGES_NUMBER)));
    assert(key_position(catalog, text("Type"), 0) == 0);
    assert(text("Catalog") != text("Page"));
    assert(!is_page(catalog));
    assert(refs(catalog[1].1)[0] == new_id(2));
    lemma_entry_holds(catalog, 1, new_id(2));
    lemma_written_link(version, values, 1, 2);
    lemma_successor_reached(g, from, 1, 2);
    // The page tree node leads to every page.
    let node = pages_value(table, selected)->Dictionary_0;
    assert(values[1] == pages_value(table, selected));
    assert(node[0] == (text("Type"), Value::Name(text("Pages"))));
    assert(node[1] == (text("Kids"), Value::Array(kids(table, selected))));
    assert(key_position(node, text("Type"), 0) == 0);
    assert(text("Pages") != text("Page"));
    assert(!is_page(node));
    assert forall|at: int| 0 <= at < selected.len() implies reached(
        doc,
        selected,
        version,
        from,
    ).contains(#[trigger] node_of(doc, selected, at) as usize) by {
        let target = node_of(doc, selected, at);
        lemma_node(doc, selected, at);
        lemma_numbering_len(found, doc.objects.len());
        assert(kids(table, selected)[at] == reference_to(target));
        assert(refs(kids(table, selected)[at])[0] == new_id(target));
        lemma_item_holds(kids(table, selected), at, new_id(target));
        lemma_entry_holds(node, 1, new_id(target));
        lemma_written_link(version, values, 2, target);
        lemma_successor_reached(g, from, 2, target as usize);
    }
}

/// Every object of the document of a subset is reached from its catalog:
/// the document holds no object that nothing in it leads to.
pub proof fn written_subset_is_reached(doc: DocumentView, selected: Seq<Page>, version: Seq<u8>)
    requires
        as_read(doc),
        well_formed_pages(doc, selected),
        selected.len() >= 1,
        fits(selected, doc.extract(selected)),
    ensures
        forall|n: usize|
            1 <= n < written_subset(doc, selected, version).objects.len() ==> closure(
                written_subset(doc, selected, version).graph(),
                seq![1usize],
            ).contains(n),
{
    let found = doc.extract(selected);
    let out = written_subset(doc, selected, version);
    let from = seq![1usize];
    lemma_written_count(doc, selected, version);
    lemma_pages_from_catalog(doc, selected, version);
    lemma_all_reached(doc, selected, version, from);
    closure_is_closed(doc.graph(), doc.roots(selected));
    numbering_follows_order(found, doc.objects.len());
    let table = numbering(found, doc.objects.len());
    assert forall|n: usize| 1 <= n < out.objects.len() implies reached(
        doc,
        selected,
        version,
        from,
    ).contains(n) by {
        if n >= 3 {
            assert(in_both(doc, selected, version, from, found[n - 3]));
            assert(table[found[n - 3] as int] == (n - 3) + 3);
        }
    }
}

} // verus!
