//! What holds of the document that is written for a subset.
//!
//! `written_document` is the document that `document_bytes` describes:
//! object `k + 1` has the value at position `k`, every object is in use
//! with generation 0, and the trailer names object 1 as the root. The laws
//! below are about this document.

use crate::closure::{closure_is_closed, lemma_pigeonhole};
use crate::document::DocumentView;
use crate::entries_laws::{lemma_lookup_concat, lemma_lookup_rewrite, lemma_lookup_without};
use crate::extract::lemma_roots_hold;
use crate::lexer::text;
use crate::names::lemma_names;
use crate::object::{entries_of, key_position, lookup, ObjectId, Value};
use crate::pages::{inherit, kid_frames, nothing_inherited, Frame, Inherited, Page};
use crate::rewrite::{
    catalog_value, fits, inherited_entry, kids, numbering_follows_order, lemma_numbering_len, numbering,
    output_value, output_values, page_entries, page_value, pages_value, reference_to,
    rewrite_entries, selection, without_key,
};
use crate::table::XrefEntry;
use crate::tree_laws::{well_formed_page, well_formed_pages};
use crate::writer::{body, header};
use crate::xref::Trailer;
use vstd::prelude::*;

verus! {

/// The identity of an object of a written document.
pub open spec fn new_id(number: u32) -> ObjectId {
    ObjectId { number, generation: 0 }
}

/// The document that is written for these values.
pub open spec fn written_document(version: Seq<u8>, values: Seq<Value>) -> DocumentView {
    DocumentView {
        version: Some(version),
        xref: Seq::new(
            values.len() + 1,
            |i: int|
                if i == 0 {
                    XrefEntry::Free
                } else {
                    XrefEntry::InUse {
                        offset: (header(version).len() + body(values.take(i - 1)).len()) as usize,
                        generation: 0,
                    }
                },
        ),
        objects: Seq::new(
            values.len() + 1,
            |i: int|
                if i == 0 {
                    None
                } else {
                    Some(values[i - 1])
                },
        ),
        trailer: Trailer {
            root: Some(new_id(1)),
            size: (values.len() + 1) as u32,
            prev: None,
            info: None,
        },
        recovered: false,
    }
}

/// In a written document the reference to object `number` resolves to the
/// value at position `number - 1`.
pub proof fn lemma_written_resolve(version: Seq<u8>, values: Seq<Value>, number: u32)
    requires
        1 <= number <= values.len(),
    ensures
        written_document(version, values).resolve(new_id(number)) == Some(values[number - 1]),
{
}

/// The table of a written document has nothing wrong with it.
pub proof fn lemma_written_table(version: Seq<u8>, values: Seq<Value>, upto: int)
    requires
        0 <= upto <= values.len() + 1,
    ensures
        written_document(version, values).xref_violations(upto) =~= Seq::empty(),
    decreases upto,
{
    if upto > 0 {
        lemma_written_table(version, values, upto - 1);
    }
}

/// Whether the object is a page with a media box of its own.
pub open spec fn is_leaf(out: DocumentView, node: u32) -> bool {
    out.resolve(new_id(node)) matches Some(Value::Dictionary(entries)) && lookup(
        entries,
        text("Type"),
    ) == Some(Value::Name(text("Page"))) && lookup(entries, text("MediaBox")) is Some
}

/// The page that the walk makes of the object `node`, a page, under what
/// is handed down to it.
pub open spec fn leaf_page(out: DocumentView, node: u32, inherited: Inherited) -> Page {
    let handed = inherit(inherited, out.resolve(new_id(node))->0->Dictionary_0, node);
    Page {
        id: new_id(node),
        resources: handed.resources,
        media_box: handed.media_box->0,
        rotate: handed.rotate,
    }
}

/// References to the objects of the given numbers.
pub open spec fn references(nodes: Seq<u32>) -> Seq<Value> {
    Seq::new(nodes.len(), |i: int| reference_to(nodes[i]))
}

/// Walking children that are all pages, each with a media box of its own
/// and none of them walked before, yields one page for each child.
pub proof fn lemma_walk_leaves(
    out: DocumentView,
    nodes: Seq<u32>,
    inherited: Inherited,
    visited: Seq<bool>,
    acc: Seq<Page>,
    fuel: nat,
)
    requires
        forall|i: int|
            0 <= i < nodes.len() ==> is_leaf(out, #[trigger] nodes[i]) && nodes[i] < visited.len()
                && !visited[nodes[i] as int],
        forall|i: int, j: int| 0 <= i < j < nodes.len() ==> nodes[i] != nodes[j],
        fuel >= nodes.len(),
    ensures
        kid_frames(references(nodes), inherited) is Some,
        out.walk(kid_frames(references(nodes), inherited)->0, visited, acc, fuel) is Ok,
        out.walk(kid_frames(references(nodes), inherited)->0, visited, acc, fuel)->Ok_0.len()
            == acc.len() + nodes.len(),
        forall|i: int|
            0 <= i < acc.len() ==> out.walk(
                kid_frames(references(nodes), inherited)->0,
                visited,
                acc,
                fuel,
            )->Ok_0[i] == #[trigger] acc[i],
        forall|i: int|
            0 <= i < nodes.len() ==> out.walk(
                kid_frames(references(nodes), inherited)->0,
                visited,
                acc,
                fuel,
            )->Ok_0[acc.len() + i] == leaf_page(out, #[trigger] nodes[i], inherited),
    decreases nodes.len(),
{
    if nodes.len() > 0 {
        lemma_names();
        let rest = nodes.drop_first();
        let first = nodes[0];
        assert(references(nodes).drop_first() =~= references(rest));
        assert(references(nodes).first() == reference_to(first));
        assert(is_leaf(out, first));
        let frame = Frame { node: new_id(first), inherited };
        let entries = out.resolve(new_id(first))->0->Dictionary_0;
        let handed = inherit(inherited, entries, first);
        let page = Page {
            id: new_id(first),
            resources: handed.resources,
            media_box: handed.media_box->0,
            rotate: handed.rotate,
        };
        let marked = visited.update(first as int, true);
        assert forall|i: int| 0 <= i < rest.len() implies is_leaf(out, #[trigger] rest[i])
            && rest[i] < marked.len() && !marked[rest[i] as int] by {
            assert(rest[i] == nodes[i + 1]);
            assert(nodes[0] != nodes[i + 1]);
        }
        assert forall|i: int, j: int| 0 <= i < j < rest.len() implies rest[i] != rest[j] by {
            assert(rest[i] == nodes[i + 1] && rest[j] == nodes[j + 1]);
        }
        lemma_walk_leaves(out, rest, inherited, marked, acc.push(page), (fuel - 1) as nat);
        let below = kid_frames(references(rest), inherited)->0;
        let stack = kid_frames(references(nodes), inherited)->0;
        assert(stack == below.push(frame));
        assert(stack.last() == frame);
        assert(stack.drop_last() =~= below);
        assert(text("Page") != text("Pages"));
        let pages = out.walk(stack, visited, acc, fuel)->Ok_0;
        assert(pages == out.walk(below, marked, acc.push(page), (fuel - 1) as nat)->Ok_0);
        assert forall|i: int| 0 <= i < acc.len() implies pages[i] == #[trigger] acc[i] by {
            assert(acc.push(page)[i] == acc[i]);
        }
        assert forall|i: int| 0 <= i < nodes.len() implies pages[acc.len() + i] == leaf_page(
            out,
            #[trigger] nodes[i],
            inherited,
        ) by {
            if i == 0 {
                assert(acc.push(page)[acc.len() as int] == page);
            } else {
                assert(rest[i - 1] == nodes[i]);
            }
        }
    }
}

/// A well-formed page stands in the new document as a page with a media
/// box of its own.
pub proof fn lemma_page_value(doc: DocumentView, table: Seq<u32>, page: Page)
    requires
        well_formed_page(doc, page),
    ensures
        page_value(doc, table, page) is Dictionary,
        lookup(page_value(doc, table, page)->Dictionary_0, text("Type")) == Some(
            Value::Name(text("Page")),
        ),
        lookup(page_value(doc, table, page)->Dictionary_0, text("MediaBox")) is Some,
{
    lemma_names();
    let own = doc.resolve(page.id)->0->Dictionary_0;
    let parent = seq![(text("Parent"), reference_to(2))];
    let kept = without_key(own, text("Parent"));
    let first = inherited_entry(doc, page, page.resources, text("Resources"));
    let second = inherited_entry(doc, page, Some(page.media_box), text("MediaBox"));
    let third = inherited_entry(doc, page, page.rotate, text("Rotate"));
    let before = page_entries(doc, page, own);
    let after = rewrite_entries(doc, table, before);
    assert(before == kept + first + second + third);
    assert(parent[0] == (text("Parent"), reference_to(2)));
    assert(text("Parent") != text("Type"));
    assert(text("Parent") != text("MediaBox"));
    assert(key_position(parent, text("Type"), 1) == 1);
    assert(key_position(parent, text("MediaBox"), 1) == 1);
    lemma_lookup_concat(parent, after, text("Type"));
    lemma_lookup_concat(parent, after, text("MediaBox"));
    lemma_lookup_rewrite(doc, table, before, text("Type"));
    lemma_lookup_rewrite(doc, table, before, text("MediaBox"));
    lemma_lookup_without(own, text("Parent"), text("Type"));
    lemma_lookup_without(own, text("Parent"), text("MediaBox"));
    lemma_lookup_concat(kept, first, text("Type"));
    lemma_lookup_concat(kept + first, second, text("Type"));
    lemma_lookup_concat(kept + first + second, third, text("Type"));
    lemma_lookup_concat(kept, first, text("MediaBox"));
    lemma_lookup_concat(kept + first, second, text("MediaBox"));
    lemma_lookup_concat(kept + first + second, third, text("MediaBox"));
    if lookup(own, text("MediaBox")) is None {
        assert(doc.objects[page.id.number as int] == Some(Value::Dictionary(own)));
        assert(entries_of(Value::Dictionary(own)) == own);
        assert(page.media_box != page.id.number);
        let v = doc.attribute(page.media_box, text("MediaBox"))->0;
        assert(second == seq![(text("MediaBox"), v)]);
        assert(second[0].0 == text("MediaBox"));
        assert(key_position(second, text("MediaBox"), 0) == 0);
        assert(lookup(second, text("MediaBox")) is Some);
    }
}

/// Pages of different objects are each found in the table of the pages.
pub proof fn selection_holds_pages(pages: Seq<Page>, limit: nat)
    requires
        forall|i: int| 0 <= i < pages.len() ==> (#[trigger] pages[i]).id.number < limit,
        forall|i: int, j: int|
            0 <= i < j < pages.len() ==> (#[trigger] pages[i]).id.number != (
            #[trigger] pages[j]).id.number,
    ensures
        selection(pages, limit).len() == limit,
        forall|i: int|
            0 <= i < pages.len() ==> selection(pages, limit)[(#[trigger] pages[i]).id.number as int]
                == Some(pages[i]),
        forall|x: int|
            0 <= x < limit && selection(pages, limit)[x] is Some ==> exists|i: int|
                0 <= i < pages.len() && (#[trigger] pages[i]).id.number == x,
    decreases pages.len(),
{
    if pages.len() > 0 {
        let init = pages.drop_last();
        let last = pages.last();
        assert forall|i: int| 0 <= i < init.len() implies (#[trigger] init[i]).id.number
            < limit by {
            assert(init[i] == pages[i]);
        }
        assert forall|i: int, j: int| 0 <= i < j < init.len() implies (#[trigger] init[i]).id.number
            != (#[trigger] init[j]).id.number by {
            assert(init[i] == pages[i] && init[j] == pages[j]);
        }
        selection_holds_pages(init, limit);
        let before = selection(init, limit);
        assert(pages[pages.len() - 1] == last);
        assert(before[last.id.number as int] is None) by {
            if before[last.id.number as int] is Some {
                let i = choose|i: int|
                    0 <= i < init.len() && (#[trigger] init[i]).id.number == last.id.number;
                assert(init[i] == pages[i]);
            }
        }
        assert forall|i: int| 0 <= i < pages.len() implies selection(
            pages,
            limit,
        )[(#[trigger] pages[i]).id.number as int] == Some(pages[i]) by {
            if i < init.len() {
                assert(init[i] == pages[i]);
            }
        }
        assert forall|x: int|
            0 <= x < limit && selection(pages, limit)[x] is Some implies exists|i: int|
            0 <= i < pages.len() && (#[trigger] pages[i]).id.number == x by {
            if x == last.id.number {
                assert(pages[pages.len() - 1].id.number == x);
            } else {
                let i = choose|i: int| 0 <= i < init.len() && (#[trigger] init[i]).id.number == x;
                assert(init[i] == pages[i]);
            }
        }
    }
}

/// The new number of the page at position `at`.
pub open spec fn node_of(doc: DocumentView, selected: Seq<Page>, at: int) -> u32 {
    numbering(doc.extract(selected), doc.objects.len())[selected[at].id.number as int]
}

/// Every page of a subset is part of it: it has a new number, from 3 on,
/// and the object of that number is the page.
pub proof fn lemma_node(doc: DocumentView, selected: Seq<Page>, at: int)
    requires
        well_formed_pages(doc, selected),
        fits(selected, doc.extract(selected)),
        0 <= at < selected.len(),
    ensures
        3 <= node_of(doc, selected, at) <= doc.extract(selected).len() + 2,
        doc.extract(selected)[node_of(doc, selected, at) - 3] == selected[at].id.number,
        selected[at].id.number < doc.objects.len(),
{
    let found = doc.extract(selected);
    let page = selected[at];
    let x = page.id.number as usize;
    closure_is_closed(doc.graph(), doc.roots(selected));
    numbering_follows_order(found, doc.objects.len());
    assert(well_formed_page(doc, page));
    assert(page.id.number < doc.objects.len());
    assert(doc.roots(selected).contains(x)) by {
        let own = seq![page.id];
        assert(own.last() == page.id);
        assert(own.drop_last() =~= Seq::empty());
        assert(doc.resolved(own.drop_last()) =~= Seq::empty());
        assert(doc.resolved(own) =~= seq![x]);
        assert(doc.page_roots(page)[0] == x);
        assert(doc.page_roots(page).contains(x));
        assert(selected.contains(page));
        lemma_roots_hold(doc, selected, page);
    }
    assert(found.contains(x));
    let k = choose|k: int| 0 <= k < found.len() && found[k] == x;
    assert(numbering(found, doc.objects.len())[found[k] as int] == k + 3);
}

/// The page at position `at` of a subset stands in the written document as
/// a page with a media box of its own.
pub proof fn lemma_leaf(doc: DocumentView, selected: Seq<Page>, version: Seq<u8>, at: int)
    requires
        well_formed_pages(doc, selected),
        fits(selected, doc.extract(selected)),
        0 <= at < selected.len(),
    ensures
        is_leaf(
            written_document(version, output_values(doc, selected, doc.extract(selected))),
            node_of(doc, selected, at),
        ),
{
    let found = doc.extract(selected);
    let table = numbering(found, doc.objects.len());
    let chosen = selection(selected, doc.objects.len());
    let values = output_values(doc, selected, found);
    let node = node_of(doc, selected, at);
    let page = selected[at];
    lemma_node(doc, selected, at);
    assert forall|i: int| 0 <= i < selected.len() implies (#[trigger] selected[i]).id.number
        < doc.objects.len() by {
        assert(well_formed_page(doc, selected[i]));
    }
    selection_holds_pages(selected, doc.objects.len());
    assert(chosen[page.id.number as int] == Some(page));
    assert(values[node - 1] == output_value(doc, table, chosen, found[node - 3]));
    assert(values[node - 1] == page_value(doc, table, page));
    lemma_written_resolve(version, values, node);
    lemma_page_value(doc, table, page);
}

/// The document that is written for a subset has nothing wrong with it,
/// and it has as many pages as the subset was made for.
pub proof fn subset_is_sound(doc: DocumentView, selected: Seq<Page>, version: Seq<u8>)
    requires
        well_formed_pages(doc, selected),
        selected.len() >= 1,
        fits(selected, doc.extract(selected)),
    ensures
        written_document(
            version,
            output_values(doc, selected, doc.extract(selected)),
        ).pages() is Ok,
        written_document(
            version,
            output_values(doc, selected, doc.extract(selected)),
        ).pages()->Ok_0.len() == selected.len(),
        written_document(
            version,
            output_values(doc, selected, doc.extract(selected)),
        ).violations() =~= Seq::empty(),
        forall|i: int|
            0 <= i < selected.len() ==> (#[trigger] written_document(
                version,
                output_values(doc, selected, doc.extract(selected)),
            ).pages()->Ok_0[i]) == leaf_page(
                written_document(version, output_values(doc, selected, doc.extract(selected))),
                node_of(doc, selected, i),
                nothing_inherited(),
            ),
{
    let found = doc.extract(selected);
    let table = numbering(found, doc.objects.len());
    let values = output_values(doc, selected, found);
    let out = written_document(version, values);
    let nodes = Seq::new(selected.len(), |i: int| node_of(doc, selected, i));
    lemma_names();
    closure_is_closed(doc.graph(), doc.roots(selected));
    assert forall|i: int| 0 <= i < nodes.len() implies is_leaf(out, #[trigger] nodes[i])
        && 3 <= nodes[i] <= found.len() + 2 && found[nodes[i] - 3] == selected[i].id.number by {
        lemma_node(doc, selected, i);
        lemma_leaf(doc, selected, version, i);
    }
    assert forall|i: int, j: int| 0 <= i < j < nodes.len() implies nodes[i] != nodes[j] by {
        assert(found[nodes[i] - 3] == selected[i].id.number);
        assert(found[nodes[j] - 3] == selected[j].id.number);
        assert(selected[i].id.number != selected[j].id.number);
    }
    // There are at most as many pages as objects in the subset.
    let shifted = Seq::new(nodes.len(), |i: int| (nodes[i] - 3) as usize);
    assert(shifted.no_duplicates()) by {
        assert forall|i: int, j: int|
            0 <= i < shifted.len() && 0 <= j < shifted.len() && i != j implies shifted[i]
            != shifted[j] by {
            if i < j {
                assert(nodes[i] != nodes[j]);
            } else {
                assert(nodes[j] != nodes[i]);
            }
        }
    }
    lemma_pigeonhole(shifted, found.len());
    // The catalog leads to the page tree node.
    let catalog = catalog_value()->Dictionary_0;
    assert(values[0] == catalog_value());
    lemma_written_resolve(version, values, 1);
    assert(catalog[0].0 == text("Type"));
    assert(catalog[1] == (text("Pages"), reference_to(2)));
    assert(key_position(catalog, text("Pages"), 1) == 1);
    assert(out.page_root() == Ok::<ObjectId, crate::pages::StructuralError>(new_id(2)));
    // The page tree node has the pages as its children.
    let node = pages_value(table, selected)->Dictionary_0;
    assert(values[1] == pages_value(table, selected));
    lemma_written_resolve(version, values, 2);
    assert(node[0] == (text("Type"), Value::Name(text("Pages"))));
    assert(node[1] == (text("Kids"), Value::Array(kids(table, selected))));
    assert(node[2].0 == text("Count"));
    assert(key_position(node, text("Kids"), 1) == 1);
    assert(lookup(node, text("Type")) == Some(Value::Name(text("Pages"))));
    assert(lookup(node, text("Kids")) == Some(Value::Array(kids(table, selected))));
    assert(kids(table, selected) =~= references(nodes)) by {
        assert forall|i: int| 0 <= i < selected.len() implies kids(table, selected)[i]
            == references(nodes)[i] by {
            lemma_node(doc, selected, i);
            lemma_numbering_len(found, doc.objects.len());
            assert(nodes[i] == table[selected[i].id.number as int]);
        }
    }
    let root = Frame { node: new_id(2), inherited: nothing_inherited() };
    let stack = seq![root];
    let fresh = Seq::new(out.objects.len(), |i: int| false);
    let marked = fresh.update(2, true);
    let handed = inherit(nothing_inherited(), node, 2);
    assert(stack.last() == root);
    assert forall|i: int|
        0 <= i < nodes.len() implies is_leaf(out, #[trigger] nodes[i]) && nodes[i] < marked.len()
        && !marked[nodes[i] as int] by {
        assert(3 <= nodes[i] <= found.len() + 2);
    }
    lemma_walk_leaves(out, nodes, handed, marked, Seq::empty(), (out.objects.len() - 1) as nat);
    let frames = kid_frames(references(nodes), handed)->0;
    assert(stack.drop_last() + frames =~= frames);
    assert(out.kids_of(node) == Some(kids(table, selected)));
    assert(out.pages() == out.walk(stack, fresh, Seq::empty(), out.objects.len()));
    assert(out.walk(stack, fresh, Seq::empty(), out.objects.len()) == out.walk(
        frames,
        marked,
        Seq::empty(),
        (out.objects.len() - 1) as nat,
    ));
    lemma_written_table(version, values, (values.len() + 1) as int);
    let pages = out.walk(frames, marked, Seq::empty(), (out.objects.len() - 1) as nat)->Ok_0;
    assert(handed == nothing_inherited()) by {
        assert(key_position(node, text("Resources"), 3) == 3);
        assert(key_position(node, text("Resources"), 2) == 3);
        assert(key_position(node, text("Resources"), 1) == 3);
        assert(key_position(node, text("MediaBox"), 3) == 3);
        assert(key_position(node, text("MediaBox"), 2) == 3);
        assert(key_position(node, text("MediaBox"), 1) == 3);
        assert(key_position(node, text("Rotate"), 3) == 3);
        assert(key_position(node, text("Rotate"), 2) == 3);
        assert(key_position(node, text("Rotate"), 1) == 3);
    }
    assert forall|i: int| 0 <= i < selected.len() implies (#[trigger] pages[i]) == leaf_page(
        out,
        node_of(doc, selected, i),
        nothing_inherited(),
    ) by {
        assert(nodes[i] == node_of(doc, selected, i));
        assert(pages[Seq::<Page>::empty().len() + i] == leaf_page(out, nodes[i], handed));
    }
}

} // verus!
