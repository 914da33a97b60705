//! What holds of the values that are written for a subset: they are read
//! back from what is written for them.

use crate::document::{fault_of, DocumentView};
use crate::document_laws::readable;
use crate::entries_laws::{
    lemma_lookup_concat, lemma_lookup_rewrite, lemma_lookup_without, lemma_position,
};
use crate::lexer::text;
use crate::lexer_laws::all_regular;
use crate::names::{lemma_names, lemma_trailer_names};
use crate::object::{entries_of, key_position, lookup, Value};
use crate::object_laws::{no_key, object_well_formed, settled};
use crate::output_laws::selection_holds_pages;
use crate::pages::Page;
use crate::parse_laws::{as_read, source_well_formed};
use crate::rewrite::{
    catalog_value, fits, inherited_entry, kid, kids, numbering, output_value, output_values,
    page_entries, page_value, pages_value, reference_to, rewrite, rewrite_entries, rewrite_items,
    selection, stream_length, without_key,
};
use crate::syntax::MAX_DEPTH;
use crate::table::MAX_OBJECT_NUMBER;
use crate::tree_laws::well_formed_pages;
use crate::tree_laws::well_formed_page;
use crate::value_laws::{entries_well_formed, well_formed};
use crate::writer::{body, document_bytes, object_bytes, serialize, writable};
use vstd::prelude::*;

verus! {

/// Every new number is one that a document may use.
pub open spec fn table_bounded(table: Seq<u32>) -> bool {
    forall|i: int| 0 <= i < table.len() ==> (#[trigger] table[i]) <= MAX_OBJECT_NUMBER
}

/// The new numbers are at most two more than there are objects in the
/// subset.
pub proof fn lemma_numbering_bound(found: Seq<usize>, limit: nat)
    requires
        found.len() + 2 <= MAX_OBJECT_NUMBER,
    ensures
        numbering(found, limit).len() == limit,
        table_bounded(numbering(found, limit)),
    decreases found.len(),
{
    if found.len() > 0 {
        lemma_numbering_bound(found.drop_last(), limit);
    }
}

/// Well-formed entries stay well formed where they stand behind each
/// other.
pub proof fn lemma_concat_well_formed(
    a: Seq<(Seq<u8>, Value)>,
    b: Seq<(Seq<u8>, Value)>,
    depth: nat,
)
    requires
        entries_well_formed(a, depth),
        entries_well_formed(b, depth),
    ensures
        entries_well_formed(a + b, depth),
{
    assert forall|i: int| 0 <= i < (a + b).len() implies well_formed(
        (#[trigger] (a + b)[i]).1,
        depth,
    ) by {
        if i < a.len() {
            assert((a + b)[i] == a[i]);
        } else {
            assert((a + b)[i] == b[i - a.len()]);
        }
    }
}

/// Leaving out the entries of a key leaves well-formed entries well
/// formed, and none with that key.
pub proof fn lemma_without_key(entries: Seq<(Seq<u8>, Value)>, key: Seq<u8>, depth: nat)
    requires
        entries_well_formed(entries, depth),
    ensures
        entries_well_formed(without_key(entries, key), depth),
        no_key(without_key(entries, key), key),
    decreases entries.len(),
{
    if entries.len() > 0 {
        let init = entries.drop_last();
        assert forall|i: int| 0 <= i < init.len() implies well_formed(
            (#[trigger] init[i]).1,
            depth,
        ) by {
            assert(init[i] == entries[i]);
        }
        lemma_without_key(init, key, depth);
        let kept = without_key(init, key);
        let last = entries.last();
        assert(last == entries[entries.len() - 1]);
        if last.0 != key {
            assert forall|i: int| 0 <= i < kept.push(last).len() implies well_formed(
                (#[trigger] kept.push(last)[i]).1,
                depth,
            ) && kept.push(last)[i].0 != key by {
                if i < kept.len() {
                    assert(kept.push(last)[i] == kept[i]);
                }
            }
        }
    }
}

/// What is found under a key of well-formed entries is well formed.
pub proof fn lemma_lookup_well_formed(entries: Seq<(Seq<u8>, Value)>, key: Seq<u8>, depth: nat)
    requires
        entries_well_formed(entries, depth),
        lookup(entries, key) is Some,
    ensures
        well_formed(lookup(entries, key)->0, depth),
{
    lemma_position(entries, key, 0);
    let at = key_position(entries, key, 0);
    assert(well_formed(entries[at].1, depth));
}

/// Rewriting the references of a well-formed value leaves it well formed.
pub proof fn lemma_rewrite_well_formed(doc: DocumentView, table: Seq<u32>, v: Value, depth: nat)
    requires
        well_formed(v, depth),
        table_bounded(table),
    ensures
        well_formed(rewrite(doc, table, v), depth),
    decreases v,
{
    match v {
        Value::Array(items) => {
            let after = rewrite_items(doc, table, items);
            assert forall|i: int| 0 <= i < after.len() implies well_formed(
                #[trigger] after[i],
                (depth - 1) as nat,
            ) by {
                lemma_rewrite_well_formed(doc, table, items[i], (depth - 1) as nat);
            }
        },
        Value::Dictionary(entries) => {
            let after = rewrite_entries(doc, table, entries);
            assert forall|i: int| 0 <= i < after.len() implies well_formed(
                (#[trigger] after[i]).1,
                (depth - 1) as nat,
            ) by {
                lemma_rewrite_well_formed(doc, table, entries[i].1, (depth - 1) as nat);
            }
        },
        Value::Reference(id) => {
            if doc.resolve(id) is Some && id.number < table.len() && table[id.number as int] != 0 {
                assert(table[id.number as int] <= MAX_OBJECT_NUMBER);
            }
        },
        _ => {},
    }
}

/// Rewriting the references in well-formed entries leaves them well
/// formed.
pub proof fn lemma_rewrite_entries_well_formed(
    doc: DocumentView,
    table: Seq<u32>,
    entries: Seq<(Seq<u8>, Value)>,
    depth: nat,
)
    requires
        entries_well_formed(entries, depth),
        table_bounded(table),
    ensures
        entries_well_formed(rewrite_entries(doc, table, entries), depth),
{
    let after = rewrite_entries(doc, table, entries);
    assert forall|i: int| 0 <= i < after.len() implies well_formed(
        (#[trigger] after[i]).1,
        depth,
    ) by {
        lemma_rewrite_well_formed(doc, table, entries[i].1, depth);
    }
}

/// A stream whose references were rewritten is settled.
pub proof fn lemma_rewrite_settled(doc: DocumentView, table: Seq<u32>, v: Value)
    requires
        v is Stream,
        entries_well_formed(v->Stream_0, (MAX_DEPTH - 1) as nat),
        v->Stream_1.len() <= i64::MAX,
        table_bounded(table),
    ensures
        settled(rewrite(doc, table, v)),
{
    reveal(settled);
    let entries = v->Stream_0;
    let data = v->Stream_1;
    let depth = (MAX_DEPTH - 1) as nat;
    let rewritten = rewrite_entries(doc, table, entries);
    let kept = without_key(rewritten, text("Length"));
    let last = (text("Length"), Value::Integer(stream_length(data.len())));
    lemma_rewrite_entries_well_formed(doc, table, entries, depth);
    lemma_without_key(rewritten, text("Length"), depth);
    assert(kept.push(last).drop_last() =~= kept);
}

/// The value of an object as it is read becomes, with its references
/// rewritten, a value that is read back from what is written for it.
pub proof fn lemma_rewrite_object(doc: DocumentView, table: Seq<u32>, v: Value)
    requires
        source_well_formed(v),
        table_bounded(table),
        v matches Value::Stream(_, data) ==> data.len() <= i64::MAX,
    ensures
        object_well_formed(rewrite(doc, table, v)),
{
    if well_formed(v, MAX_DEPTH as nat) {
        lemma_rewrite_well_formed(doc, table, v, MAX_DEPTH as nat);
    } else {
        lemma_rewrite_settled(doc, table, v);
    }
}

/// The entries of an object as it is read are well formed.
pub proof fn lemma_source_entries(v: Value)
    requires
        source_well_formed(v),
    ensures
        entries_well_formed(entries_of(v), (MAX_DEPTH - 1) as nat),
{
}

/// The entry that hands an inherited attribute to a page is well formed.
pub proof fn lemma_inherited_well_formed(
    doc: DocumentView,
    page: Page,
    source: Option<u32>,
    key: Seq<u8>,
)
    requires
        as_read(doc),
    ensures
        entries_well_formed(inherited_entry(doc, page, source, key), (MAX_DEPTH - 1) as nat),
{
    let entry = inherited_entry(doc, page, source, key);
    if entry.len() > 0 {
        let n = source->0;
        let object = doc.objects[n as int]->0;
        assert(source_well_formed(object));
        lemma_source_entries(object);
        lemma_lookup_well_formed(entries_of(object), key, (MAX_DEPTH - 1) as nat);
        assert(entry[0].1 == lookup(entries_of(object), key)->0);
    }
}

/// A page of a subset stands in the new document as a well-formed value.
pub proof fn lemma_page_well_formed(doc: DocumentView, table: Seq<u32>, page: Page)
    requires
        as_read(doc),
        well_formed_page(doc, page),
        table_bounded(table),
    ensures
        well_formed(page_value(doc, table, page), MAX_DEPTH as nat),
{
    let depth = (MAX_DEPTH - 1) as nat;
    let own = doc.resolve(page.id)->0->Dictionary_0;
    let object = doc.objects[page.id.number as int]->0;
    assert(object == Value::Dictionary(own));
    assert(source_well_formed(object));
    assert(entries_well_formed(own, depth));
    let kept = without_key(own, text("Parent"));
    let first = inherited_entry(doc, page, page.resources, text("Resources"));
    let second = inherited_entry(doc, page, Some(page.media_box), text("MediaBox"));
    let third = inherited_entry(doc, page, page.rotate, text("Rotate"));
    lemma_without_key(own, text("Parent"), depth);
    lemma_inherited_well_formed(doc, page, page.resources, text("Resources"));
    lemma_inherited_well_formed(doc, page, Some(page.media_box), text("MediaBox"));
    lemma_inherited_well_formed(doc, page, page.rotate, text("Rotate"));
    lemma_concat_well_formed(kept, first, depth);
    lemma_concat_well_formed(kept + first, second, depth);
    lemma_concat_well_formed(kept + first + second, third, depth);
    let before = page_entries(doc, page, own);
    assert(before == kept + first + second + third);
    lemma_rewrite_entries_well_formed(doc, table, before, depth);
    let parent = seq![(text("Parent"), reference_to(2))];
    assert(entries_well_formed(parent, depth)) by {
        assert forall|i: int| 0 <= i < parent.len() implies well_formed(
            (#[trigger] parent[i]).1,
            depth,
        ) by {}
    }
    lemma_concat_well_formed(parent, rewrite_entries(doc, table, before), depth);
}

/// The new catalog and the new page tree node are well-formed values.
pub proof fn lemma_nodes_well_formed(table: Seq<u32>, pages: Seq<Page>)
    requires
        table_bounded(table),
        pages.len() <= MAX_OBJECT_NUMBER,
    ensures
        well_formed(catalog_value(), MAX_DEPTH as nat),
        well_formed(pages_value(table, pages), MAX_DEPTH as nat),
{
    let depth = (MAX_DEPTH - 1) as nat;
    let catalog = catalog_value()->Dictionary_0;
    assert forall|i: int| 0 <= i < catalog.len() implies well_formed(
        (#[trigger] catalog[i]).1,
        depth,
    ) by {}
    let children = kids(table, pages);
    assert forall|i: int| 0 <= i < children.len() implies well_formed(
        #[trigger] children[i],
        (depth - 1) as nat,
    ) by {
        assert(children[i] == kid(table, pages[i]));
    }
    assert(well_formed(Value::Array(children), depth));
    let node = pages_value(table, pages)->Dictionary_0;
    assert forall|i: int| 0 <= i < node.len() implies well_formed((#[trigger] node[i]).1, depth) by {}
}

/// Rewriting the references of a value that is no sign of an unsupported
/// layout does not make it one.
pub proof fn lemma_rewrite_faultless(doc: DocumentView, table: Seq<u32>, v: Value)
    requires
        fault_of(v) is None,
    ensures
        fault_of(rewrite(doc, table, v)) is None,
{
    lemma_trailer_names();
    match v {
        Value::Dictionary(entries) => {
            lemma_lookup_rewrite(doc, table, entries, text("Linearized"));
        },
        Value::Stream(entries, data) => {
            let rewritten = rewrite_entries(doc, table, entries);
            let kept = without_key(rewritten, text("Length"));
            let last = (text("Length"), Value::Integer(stream_length(data.len())));
            assert(text("Type") != text("Length"));
            lemma_lookup_rewrite(doc, table, entries, text("Type"));
            lemma_lookup_without(rewritten, text("Length"), text("Type"));
            lemma_lookup_concat(kept, seq![last], text("Type"));
            assert(kept + seq![last] =~= kept.push(last));
            assert(seq![last][0] == last);
            assert(key_position(seq![last], text("Type"), 1) == 1);
            assert(lookup(seq![last], text("Type")) is None);
        },
        _ => {},
    }
}

/// A key is not found in the entry that hands an inherited attribute to a
/// page, unless it is the key of that attribute.
pub proof fn lemma_inherited_lookup(
    doc: DocumentView,
    page: Page,
    source: Option<u32>,
    key: Seq<u8>,
    other: Seq<u8>,
)
    requires
        key != other,
    ensures
        lookup(inherited_entry(doc, page, source, key), other) is None,
{
    let entry = inherited_entry(doc, page, source, key);
    if entry.len() > 0 {
        assert(entry[0].0 == key);
        assert(key_position(entry, other, 1) == 1);
    }
}

/// A page of a subset stands in the new document as a value that is no
/// sign of an unsupported layout.
pub proof fn lemma_page_faultless(doc: DocumentView, table: Seq<u32>, page: Page)
    requires
        as_read(doc),
        well_formed_page(doc, page),
    ensures
        fault_of(page_value(doc, table, page)) is None,
{
    lemma_names();
    lemma_trailer_names();
    let sign = text("Linearized");
    let own = doc.resolve(page.id)->0->Dictionary_0;
    let object = doc.objects[page.id.number as int]->0;
    assert(object == Value::Dictionary(own));
    assert(fault_of(object) is None);
    assert(lookup(own, sign) is None);
    let kept = without_key(own, text("Parent"));
    let first = inherited_entry(doc, page, page.resources, text("Resources"));
    let second = inherited_entry(doc, page, Some(page.media_box), text("MediaBox"));
    let third = inherited_entry(doc, page, page.rotate, text("Rotate"));
    let before = page_entries(doc, page, own);
    assert(before == kept + first + second + third);
    lemma_lookup_without(own, text("Parent"), sign);
    lemma_inherited_lookup(doc, page, page.resources, text("Resources"), sign);
    lemma_inherited_lookup(doc, page, Some(page.media_box), text("MediaBox"), sign);
    lemma_inherited_lookup(doc, page, page.rotate, text("Rotate"), sign);
    lemma_lookup_concat(kept, first, sign);
    lemma_lookup_concat(kept + first, second, sign);
    lemma_lookup_concat(kept + first + second, third, sign);
    lemma_lookup_rewrite(doc, table, before, sign);
    let parent = seq![(text("Parent"), reference_to(2))];
    assert(parent[0].0 == text("Parent"));
    assert(key_position(parent, sign, 1) == 1);
    lemma_lookup_concat(parent, rewrite_entries(doc, table, before), sign);
}

/// The new catalog and the new page tree node are no signs of an
/// unsupported layout.
pub proof fn lemma_nodes_faultless(table: Seq<u32>, pages: Seq<Page>)
    ensures
        fault_of(catalog_value()) is None,
        fault_of(pages_value(table, pages)) is None,
{
    lemma_names();
    lemma_trailer_names();
    let sign = text("Linearized");
    let catalog = catalog_value()->Dictionary_0;
    assert(catalog[0].0 == text("Type"));
    assert(catalog[1].0 == text("Pages"));
    assert(key_position(catalog, sign, 2) == 2);
    assert(key_position(catalog, sign, 1) == 2);
    let node = pages_value(table, pages)->Dictionary_0;
    assert(node[0].0 == text("Type"));
    assert(node[1].0 == text("Kids"));
    assert(node[2].0 == text("Count"));
    assert(key_position(node, sign, 3) == 3);
    assert(key_position(node, sign, 2) == 3);
    assert(key_position(node, sign, 1) == 3);
}

/// The objects written first take no more bytes than all objects.
pub proof fn lemma_body_grows(values: Seq<Value>, k: int)
    requires
        0 <= k <= values.len(),
    ensures
        body(values.take(k)).len() <= body(values).len(),
    decreases values.len() - k,
{
    if k == values.len() {
        assert(values.take(k) =~= values);
    } else {
        lemma_body_grows(values, k + 1);
        assert(values.take(k + 1).drop_last() =~= values.take(k));
    }
}

/// The payload of a stream takes no more bytes than all objects.
pub proof fn lemma_stream_size(values: Seq<Value>, k: int)
    requires
        0 <= k < values.len(),
        values[k] is Stream,
    ensures
        values[k]->Stream_1.len() <= body(values).len(),
{
    lemma_body_grows(values, k + 1);
    let more = values.take(k + 1);
    assert(more.drop_last() =~= values.take(k));
    assert(more.last() == values[k]);
    assert(body(more).len() >= object_bytes(more.len(), values[k]).len());
    assert(object_bytes(more.len(), values[k]).len() >= serialize(values[k]).len());
}

/// One object of a subset stands in the new document as a value that is
/// read back from what is written for it.
pub proof fn lemma_output_value(doc: DocumentView, selected: Seq<Page>, found: Seq<usize>, k: int)
    requires
        as_read(doc),
        well_formed_pages(doc, selected),
        fits(selected, found),
        0 <= k < found.len(),
        output_value(
            doc,
            numbering(found, doc.objects.len()),
            selection(selected, doc.objects.len()),
            found[k],
        ) matches Value::Stream(_, data) ==> data.len() <= i64::MAX,
    ensures
        object_well_formed(
            output_value(
                doc,
                numbering(found, doc.objects.len()),
                selection(selected, doc.objects.len()),
                found[k],
            ),
        ),
        fault_of(
            output_value(
                doc,
                numbering(found, doc.objects.len()),
                selection(selected, doc.objects.len()),
                found[k],
            ),
        ) is None,
{
    let table = numbering(found, doc.objects.len());
    let chosen = selection(selected, doc.objects.len());
    let x = found[k];
    lemma_numbering_bound(found, doc.objects.len());
    assert forall|i: int| 0 <= i < selected.len() implies (#[trigger] selected[i]).id.number
        < doc.objects.len() by {
        assert(well_formed_page(doc, selected[i]));
    }
    selection_holds_pages(selected, doc.objects.len());
    if x < chosen.len() && chosen[x as int] is Some {
        let i = choose|i: int| 0 <= i < selected.len() && (#[trigger] selected[i]).id.number == x;
        assert(chosen[selected[i].id.number as int] == Some(selected[i]));
        assert(well_formed_page(doc, selected[i]));
        lemma_page_well_formed(doc, table, selected[i]);
        lemma_page_faultless(doc, table, selected[i]);
    } else if x < doc.objects.len() && doc.objects[x as int] is Some {
        let v = doc.objects[x as int]->0;
        lemma_rewrite_object(doc, table, v);
        lemma_rewrite_faultless(doc, table, v);
    }
}

/// An object of a subset is written as a value that is read back from
/// what is written for it.
pub proof fn lemma_output_object(doc: DocumentView, selected: Seq<Page>, version: Seq<u8>, i: int)
    requires
        as_read(doc),
        well_formed_pages(doc, selected),
        fits(selected, doc.extract(selected)),
        writable(version, output_values(doc, selected, doc.extract(selected))),
        2 <= i < output_values(doc, selected, doc.extract(selected)).len(),
    ensures
        object_well_formed(output_values(doc, selected, doc.extract(selected))[i]),
        fault_of(output_values(doc, selected, doc.extract(selected))[i]) is None,
{
    let found = doc.extract(selected);
    let values = output_values(doc, selected, found);
    if values[i] is Stream {
        lemma_stream_size(values, i);
    }
    lemma_output_value(doc, selected, found, i - 2);
}

/// The values that are written for a subset of a document as it is read
/// are read back from what is written for them.
pub proof fn lemma_output_readable(doc: DocumentView, selected: Seq<Page>, version: Seq<u8>)
    requires
        as_read(doc),
        well_formed_pages(doc, selected),
        fits(selected, doc.extract(selected)),
        all_regular(version),
        writable(version, output_values(doc, selected, doc.extract(selected))),
        document_bytes(version, output_values(doc, selected, doc.extract(selected))).len()
            <= usize::MAX,
    ensures
        readable(version, output_values(doc, selected, doc.extract(selected))),
{
    let found = doc.extract(selected);
    let table = numbering(found, doc.objects.len());
    let values = output_values(doc, selected, found);
    lemma_numbering_bound(found, doc.objects.len());
    lemma_nodes_well_formed(table, selected);
    lemma_nodes_faultless(table, selected);
    assert forall|i: int| 0 <= i < values.len() implies object_well_formed(#[trigger] values[i])
        && fault_of(values[i]) is None by {
        if i >= 2 {
            lemma_output_object(doc, selected, version, i);
        }
    }
}

} // verus!
