//! Where the references of a value are found, and what becomes of them
//! when the value is rewritten for a subset.

use crate::document::DocumentView;
use crate::extract::links_but;
use crate::order_laws::mapped;
use crate::object::{refs, refs_of_entries, refs_of_items, ObjectId, Value};
use crate::pages::Page;
use crate::rewrite::{rewrite, rewrite_entries, rewrite_items, without_key};
use crate::value_laws::well_formed;
use vstd::prelude::*;

verus! {

/// A reference among those of the items stands in one of the items.
pub proof fn lemma_item_found(items: Seq<Value>, id: ObjectId) -> (at: int)
    requires
        refs_of_items(items).contains(id),
    ensures
        0 <= at < items.len(),
        refs(items[at]).contains(id),
    decreases items.len(),
{
    let init = items.drop_last();
    let before = refs_of_items(init);
    let i = choose|i: int| 0 <= i < refs_of_items(items).len() && refs_of_items(items)[i] == id;
    if i < before.len() {
        assert(before[i] == id);
        lemma_item_found(init, id)
    } else {
        assert(refs(items.last())[i - before.len()] == id);
        items.len() - 1
    }
}

/// A reference in one of the items is among those of the items.
pub proof fn lemma_item_holds(items: Seq<Value>, at: int, id: ObjectId)
    requires
        0 <= at < items.len(),
        refs(items[at]).contains(id),
    ensures
        refs_of_items(items).contains(id),
    decreases items.len(),
{
    let init = items.drop_last();
    let before = refs_of_items(init);
    let all = refs_of_items(items);
    if at == items.len() - 1 {
        let i = choose|i: int| 0 <= i < refs(items[at]).len() && refs(items[at])[i] == id;
        assert(all[before.len() + i] == id);
    } else {
        assert(init[at] == items[at]);
        lemma_item_holds(init, at, id);
        let i = choose|i: int| 0 <= i < before.len() && before[i] == id;
        assert(all[i] == id);
    }
}

/// A reference among those of the entries stands in the value of one of
/// the entries.
pub proof fn lemma_entry_found(entries: Seq<(Seq<u8>, Value)>, id: ObjectId) -> (at: int)
    requires
        refs_of_entries(entries).contains(id),
    ensures
        0 <= at < entries.len(),
        refs(entries[at].1).contains(id),
    decreases entries.len(),
{
    let init = entries.drop_last();
    let before = refs_of_entries(init);
    let i = choose|i: int|
        0 <= i < refs_of_entries(entries).len() && refs_of_entries(entries)[i] == id;
    if i < before.len() {
        assert(before[i] == id);
        lemma_entry_found(init, id)
    } else {
        assert(refs(entries.last().1)[i - before.len()] == id);
        entries.len() - 1
    }
}

/// A reference in the value of one of the entries is among those of the
/// entries.
pub proof fn lemma_entry_holds(entries: Seq<(Seq<u8>, Value)>, at: int, id: ObjectId)
    requires
        0 <= at < entries.len(),
        refs(entries[at].1).contains(id),
    ensures
        refs_of_entries(entries).contains(id),
    decreases entries.len(),
{
    let init = entries.drop_last();
    let before = refs_of_entries(init);
    let all = refs_of_entries(entries);
    if at == entries.len() - 1 {
        let i = choose|i: int| 0 <= i < refs(entries[at].1).len() && refs(entries[at].1)[i] == id;
        assert(all[before.len() + i] == id);
    } else {
        assert(init[at] == entries[at]);
        lemma_entry_holds(init, at, id);
        let i = choose|i: int| 0 <= i < before.len() && before[i] == id;
        assert(all[i] == id);
    }
}

/// A reference among those of the entries, but for the entries under
/// `key`, stands in the value of one of the entries under another key.
pub proof fn lemma_link_found(entries: Seq<(Seq<u8>, Value)>, key: Seq<u8>, id: ObjectId) -> (at:
    int)
    requires
        links_but(entries, key).contains(id),
    ensures
        0 <= at < entries.len(),
        entries[at].0 != key,
        refs(entries[at].1).contains(id),
    decreases entries.len(),
{
    let init = entries.drop_last();
    let before = links_but(init, key);
    let i = choose|i: int|
        0 <= i < links_but(entries, key).len() && links_but(entries, key)[i] == id;
    if entries.last().0 == key {
        lemma_link_found(init, key, id)
    } else if i < before.len() {
        assert(before[i] == id);
        lemma_link_found(init, key, id)
    } else {
        assert(refs(entries.last().1)[i - before.len()] == id);
        entries.len() - 1
    }
}

/// A reference in the value of an entry under another key than `key` is
/// among those of the entries, but for the entries under `key`.
pub proof fn lemma_link_holds(entries: Seq<(Seq<u8>, Value)>, key: Seq<u8>, at: int, id: ObjectId)
    requires
        0 <= at < entries.len(),
        entries[at].0 != key,
        refs(entries[at].1).contains(id),
    ensures
        links_but(entries, key).contains(id),
    decreases entries.len(),
{
    let init = entries.drop_last();
    let before = links_but(init, key);
    let all = links_but(entries, key);
    if at == entries.len() - 1 {
        let i = choose|i: int| 0 <= i < refs(entries[at].1).len() && refs(entries[at].1)[i] == id;
        assert(all[before.len() + i] == id);
    } else {
        assert(init[at] == entries[at]);
        lemma_link_holds(init, key, at, id);
        let i = choose|i: int| 0 <= i < before.len() && before[i] == id;
        if entries.last().0 != key {
            assert(all[i] == id);
        }
    }
}

/// An entry under another key than the one that is left out is still
/// there.
pub proof fn lemma_entry_kept(entries: Seq<(Seq<u8>, Value)>, key: Seq<u8>, at: int) -> (to: int)
    requires
        0 <= at < entries.len(),
        entries[at].0 != key,
    ensures
        0 <= to < without_key(entries, key).len(),
        without_key(entries, key)[to] == entries[at],
    decreases entries.len(),
{
    let init = entries.drop_last();
    let kept = without_key(init, key);
    if at == entries.len() - 1 {
        assert(without_key(entries, key) == kept.push(entries.last()));
        kept.len() as int
    } else {
        assert(init[at] == entries[at]);
        let to = lemma_entry_kept(init, key, at);
        if entries.last().0 != key {
            assert(without_key(entries, key)[to] == kept[to]);
        }
        to
    }
}

/// A number among those that references resolve to is the number of one
/// of them that resolves.
pub proof fn lemma_target_found(doc: DocumentView, ids: Seq<ObjectId>, y: usize) -> (at: int)
    requires
        doc.resolved(ids).contains(y),
    ensures
        0 <= at < ids.len(),
        doc.resolve(ids[at]) is Some,
        ids[at].number == y,
    decreases ids.len(),
{
    let init = ids.drop_last();
    let before = doc.resolved(init);
    let i = choose|i: int| 0 <= i < doc.resolved(ids).len() && doc.resolved(ids)[i] == y;
    if i < before.len() {
        assert(before[i] == y);
        lemma_target_found(doc, init, y)
    } else {
        ids.len() - 1
    }
}

/// The number of a reference that resolves is among those that the
/// references resolve to.
pub proof fn lemma_target_holds(doc: DocumentView, ids: Seq<ObjectId>, at: int)
    requires
        0 <= at < ids.len(),
        doc.resolve(ids[at]) is Some,
    ensures
        doc.resolved(ids).contains(ids[at].number as usize),
    decreases ids.len(),
{
    let init = ids.drop_last();
    let before = doc.resolved(init);
    let all = doc.resolved(ids);
    if at == ids.len() - 1 {
        assert(all == before.push(ids[at].number as usize));
        assert(all[before.len() as int] == ids[at].number as usize);
    } else {
        assert(init[at] == ids[at]);
        lemma_target_holds(doc, init, at);
        let i = choose|i: int| 0 <= i < before.len() && before[i] == ids[at].number as usize;
        assert(all[i] == before[i]);
    }
}

/// A root of a sequence of pages is a root of one of the pages.
pub proof fn lemma_root_found(doc: DocumentView, pages: Seq<Page>, r: usize) -> (at: int)
    requires
        doc.roots(pages).contains(r),
    ensures
        0 <= at < pages.len(),
        doc.page_roots(pages[at]).contains(r),
    decreases pages.len(),
{
    let init = pages.drop_last();
    let before = doc.roots(init);
    let i = choose|i: int| 0 <= i < doc.roots(pages).len() && doc.roots(pages)[i] == r;
    if i < before.len() {
        assert(before[i] == r);
        lemma_root_found(doc, init, r)
    } else {
        assert(doc.page_roots(pages.last())[i - before.len()] == r);
        pages.len() - 1
    }
}

/// Whether a reference is carried over to a subset: it resolves, and its
/// target has a new number.
pub open spec fn carried(doc: DocumentView, table: Seq<u32>, id: ObjectId) -> bool {
    doc.resolve(id) is Some && id.number < table.len() && table[id.number as int] != 0
}

/// The reference to the new number of the target of `id`.
pub open spec fn moved(table: Seq<u32>, id: ObjectId) -> ObjectId {
    ObjectId { number: table[id.number as int], generation: 0 }
}

/// A reference that is carried over stands, with the new number of its
/// target, in the value whose references were rewritten.
pub proof fn lemma_rewrite_keeps(
    doc: DocumentView,
    table: Seq<u32>,
    v: Value,
    id: ObjectId,
    depth: nat,
)
    requires
        well_formed(v, depth),
        refs(v).contains(id),
        carried(doc, table, id),
    ensures
        refs(rewrite(doc, table, v)).contains(moved(table, id)),
    decreases v,
{
    match v {
        Value::Array(items) => {
            let at = lemma_item_found(items, id);
            lemma_rewrite_keeps(doc, table, items[at], id, (depth - 1) as nat);
            lemma_item_holds(rewrite_items(doc, table, items), at, moved(table, id));
        },
        Value::Dictionary(entries) => {
            let at = lemma_entry_found(entries, id);
            lemma_rewrite_keeps(doc, table, entries[at].1, id, (depth - 1) as nat);
            lemma_entry_holds(rewrite_entries(doc, table, entries), at, moved(table, id));
        },
        Value::Reference(x) => {
            assert(refs(v)[0] == x);
            assert(x == id);
            assert(refs(rewrite(doc, table, v))[0] == moved(table, id));
        },
        _ => {
            assert(refs(v) =~= Seq::empty());
        },
    }
}

/// The references as they stand once they are rewritten: those that are
/// carried over, with the new numbers of their targets. The others become
/// `null` and leave no reference.
pub open spec fn moved_refs(doc: DocumentView, table: Seq<u32>, ids: Seq<ObjectId>) -> Seq<ObjectId>
    decreases ids.len(),
{
    if ids.len() == 0 {
        Seq::empty()
    } else if carried(doc, table, ids.last()) {
        moved_refs(doc, table, ids.drop_last()).push(moved(table, ids.last()))
    } else {
        moved_refs(doc, table, ids.drop_last())
    }
}

/// References that stand one behind the other are rewritten one behind the
/// other.
pub proof fn lemma_moved_concat(doc: DocumentView, table: Seq<u32>, a: Seq<ObjectId>, b: Seq<ObjectId>)
    ensures
        moved_refs(doc, table, a + b) == moved_refs(doc, table, a) + moved_refs(doc, table, b),
    decreases b.len(),
{
    if b.len() == 0 {
        assert(a + b =~= a);
        assert(moved_refs(doc, table, a) + moved_refs(doc, table, b) =~= moved_refs(doc, table, a));
    } else {
        lemma_moved_concat(doc, table, a, b.drop_last());
        assert((a + b).drop_last() =~= a + b.drop_last());
        assert((a + b).last() == b.last());
        let front = moved_refs(doc, table, a);
        let back = moved_refs(doc, table, b.drop_last());
        if carried(doc, table, b.last()) {
            assert((front + back).push(moved(table, b.last())) =~= front + back.push(
                moved(table, b.last()),
            ));
        }
    }
}

/// The references of rewritten items are the rewritten references of the
/// items, where that holds of each item.
pub proof fn lemma_items_moved(doc: DocumentView, table: Seq<u32>, items: Seq<Value>)
    requires
        forall|i: int|
            0 <= i < items.len() ==> refs(rewrite(doc, table, #[trigger] items[i])) == moved_refs(
                doc,
                table,
                refs(items[i]),
            ),
    ensures
        refs_of_items(rewrite_items(doc, table, items)) == moved_refs(
            doc,
            table,
            refs_of_items(items),
        ),
    decreases items.len(),
{
    if items.len() > 0 {
        let init = items.drop_last();
        assert forall|i: int| 0 <= i < init.len() implies refs(
            rewrite(doc, table, #[trigger] init[i]),
        ) == moved_refs(doc, table, refs(init[i])) by {
            assert(init[i] == items[i]);
        }
        lemma_items_moved(doc, table, init);
        let after = rewrite_items(doc, table, items);
        assert(after.drop_last() =~= rewrite_items(doc, table, init));
        assert(after.last() == rewrite(doc, table, items[items.len() - 1]));
        lemma_moved_concat(doc, table, refs_of_items(init), refs(items.last()));
    }
}

/// The references of rewritten entries are the rewritten references of
/// the entries, where that holds of each entry.
pub proof fn lemma_entries_moved(doc: DocumentView, table: Seq<u32>, entries: Seq<(Seq<u8>, Value)>)
    requires
        forall|i: int|
            0 <= i < entries.len() ==> refs(rewrite(doc, table, (#[trigger] entries[i]).1))
                == moved_refs(doc, table, refs(entries[i].1)),
    ensures
        refs_of_entries(rewrite_entries(doc, table, entries)) == moved_refs(
            doc,
            table,
            refs_of_entries(entries),
        ),
    decreases entries.len(),
{
    if entries.len() > 0 {
        let init = entries.drop_last();
        assert forall|i: int| 0 <= i < init.len() implies refs(
            rewrite(doc, table, (#[trigger] init[i]).1),
        ) == moved_refs(doc, table, refs(init[i].1)) by {
            assert(init[i] == entries[i]);
        }
        lemma_entries_moved(doc, table, init);
        let after = rewrite_entries(doc, table, entries);
        assert(after.drop_last() =~= rewrite_entries(doc, table, init));
        assert(after.last() == (
            entries[entries.len() - 1].0,
            rewrite(doc, table, entries[entries.len() - 1].1),
        ));
        lemma_moved_concat(doc, table, refs_of_entries(init), refs(entries.last().1));
    }
}

/// The references of rewritten entries, but for those under `key`, are
/// the rewritten references of the entries, but for those under `key`.
pub proof fn lemma_links_moved(
    doc: DocumentView,
    table: Seq<u32>,
    entries: Seq<(Seq<u8>, Value)>,
    key: Seq<u8>,
)
    requires
        forall|i: int|
            0 <= i < entries.len() ==> refs(rewrite(doc, table, (#[trigger] entries[i]).1))
                == moved_refs(doc, table, refs(entries[i].1)),
    ensures
        links_but(rewrite_entries(doc, table, entries), key) == moved_refs(
            doc,
            table,
            links_but(entries, key),
        ),
    decreases entries.len(),
{
    if entries.len() > 0 {
        let init = entries.drop_last();
        assert forall|i: int| 0 <= i < init.len() implies refs(
            rewrite(doc, table, (#[trigger] init[i]).1),
        ) == moved_refs(doc, table, refs(init[i].1)) by {
            assert(init[i] == entries[i]);
        }
        lemma_links_moved(doc, table, init, key);
        let after = rewrite_entries(doc, table, entries);
        assert(after.drop_last() =~= rewrite_entries(doc, table, init));
        assert(after.last() == (
            entries[entries.len() - 1].0,
            rewrite(doc, table, entries[entries.len() - 1].1),
        ));
        lemma_moved_concat(doc, table, links_but(init, key), refs(entries.last().1));
    }
}

/// The references of a rewritten value are the rewritten references of
/// the value.
pub proof fn lemma_rewrite_refs(doc: DocumentView, table: Seq<u32>, v: Value, depth: nat)
    requires
        well_formed(v, depth),
    ensures
        refs(rewrite(doc, table, v)) == moved_refs(doc, table, refs(v)),
    decreases v,
{
    match v {
        Value::Array(items) => {
            assert forall|i: int| 0 <= i < items.len() implies refs(
                rewrite(doc, table, #[trigger] items[i]),
            ) == moved_refs(doc, table, refs(items[i])) by {
                lemma_rewrite_refs(doc, table, items[i], (depth - 1) as nat);
            }
            lemma_items_moved(doc, table, items);
        },
        Value::Dictionary(entries) => {
            assert forall|i: int| 0 <= i < entries.len() implies refs(
                rewrite(doc, table, (#[trigger] entries[i]).1),
            ) == moved_refs(doc, table, refs(entries[i].1)) by {
                lemma_rewrite_refs(doc, table, entries[i].1, (depth - 1) as nat);
            }
            lemma_entries_moved(doc, table, entries);
        },
        Value::Reference(id) => {
            let one = seq![id];
            assert(one.last() == id);
            assert(one.drop_last() =~= Seq::empty());
            assert(moved_refs(doc, table, one.drop_last()) =~= Seq::empty());
            if carried(doc, table, id) {
                assert(refs(rewrite(doc, table, v)) =~= seq![moved(table, id)]);
                assert(moved_refs(doc, table, one) =~= seq![moved(table, id)]);
            } else {
                assert(refs(rewrite(doc, table, v)) =~= Seq::empty());
                assert(moved_refs(doc, table, one) =~= Seq::empty());
            }
        },
        _ => {
            assert(refs(v) =~= Seq::empty());
            assert(refs(rewrite(doc, table, v)) =~= Seq::empty());
        },
    }
}

/// Leaving out the entries of a key does not change the references of the
/// other entries.
pub proof fn lemma_links_without(entries: Seq<(Seq<u8>, Value)>, key: Seq<u8>)
    ensures
        links_but(without_key(entries, key), key) == links_but(entries, key),
    decreases entries.len(),
{
    if entries.len() > 0 {
        let init = entries.drop_last();
        lemma_links_without(init, key);
        if entries.last().0 != key {
            let kept = without_key(init, key).push(entries.last());
            assert(kept.drop_last() =~= without_key(init, key));
            assert(kept.last() == entries.last());
        }
    }
}

/// The references of entries that stand one behind the other.
pub proof fn lemma_links_concat(a: Seq<(Seq<u8>, Value)>, b: Seq<(Seq<u8>, Value)>, key: Seq<u8>)
    ensures
        links_but(a + b, key) == links_but(a, key) + links_but(b, key),
    decreases b.len(),
{
    if b.len() == 0 {
        assert(a + b =~= a);
        assert(links_but(a, key) + links_but(b, key) =~= links_but(a, key));
    } else {
        lemma_links_concat(a, b.drop_last(), key);
        assert((a + b).drop_last() =~= a + b.drop_last());
        assert((a + b).last() == b.last());
        if b.last().0 != key {
            assert((links_but(a, key) + links_but(b.drop_last(), key)) + refs(b.last().1)
                =~= links_but(a, key) + (links_but(b.drop_last(), key) + refs(b.last().1)));
        }
    }
}

/// What references that stand one behind the other resolve to.
pub proof fn lemma_resolved_concat(doc: DocumentView, a: Seq<ObjectId>, b: Seq<ObjectId>)
    ensures
        doc.resolved(a + b) == doc.resolved(a) + doc.resolved(b),
    decreases b.len(),
{
    if b.len() == 0 {
        assert(a + b =~= a);
        assert(doc.resolved(a) + doc.resolved(b) =~= doc.resolved(a));
    } else {
        lemma_resolved_concat(doc, a, b.drop_last());
        assert((a + b).drop_last() =~= a + b.drop_last());
        assert((a + b).last() == b.last());
        if doc.resolve(b.last()) is Some {
            assert((doc.resolved(a) + doc.resolved(b.drop_last())).push(
                b.last().number as usize,
            ) =~= doc.resolved(a) + doc.resolved(b.drop_last()).push(b.last().number as usize));
        }
    }
}

/// The new numbers of the objects, as names of nodes.
pub open spec fn names(table: Seq<u32>) -> Seq<usize> {
    Seq::new(table.len(), |x: int| table[x] as usize)
}

/// Whether every reference that resolves is carried over to a reference
/// that resolves in `out`.
pub open spec fn all_carried(
    doc: DocumentView,
    out: DocumentView,
    table: Seq<u32>,
    ids: Seq<ObjectId>,
) -> bool {
    forall|i: int|
        0 <= i < ids.len() && doc.resolve(#[trigger] ids[i]) is Some ==> carried(
            doc,
            table,
            ids[i],
        ) && out.resolve(moved(table, ids[i])) is Some
}

/// What rewritten references resolve to in the new document: the new
/// numbers of what the references resolved to, in their order.
pub proof fn lemma_resolved_moved(
    doc: DocumentView,
    out: DocumentView,
    table: Seq<u32>,
    ids: Seq<ObjectId>,
)
    requires
        all_carried(doc, out, table, ids),
    ensures
        out.resolved(moved_refs(doc, table, ids)) == mapped(doc.resolved(ids), names(table)),
    decreases ids.len(),
{
    if ids.len() == 0 {
        assert(out.resolved(moved_refs(doc, table, ids)) =~= Seq::empty());
        assert(mapped(doc.resolved(ids), names(table)) =~= Seq::empty());
    } else {
        let init = ids.drop_last();
        let last = ids.last();
        assert(last == ids[ids.len() - 1]);
        assert forall|i: int| 0 <= i < init.len() && doc.resolve(
            #[trigger] init[i],
        ) is Some implies carried(doc, table, init[i]) && out.resolve(
            moved(table, init[i]),
        ) is Some by {
            assert(init[i] == ids[i]);
        }
        lemma_resolved_moved(doc, out, table, init);
        if doc.resolve(last) is Some {
            let before = moved_refs(doc, table, init);
            let after = before.push(moved(table, last));
            assert(after.drop_last() =~= before);
            assert(after.last() == moved(table, last));
            assert(mapped(doc.resolved(init).push(last.number as usize), names(table))
                =~= mapped(doc.resolved(init), names(table)).push(
                table[last.number as int] as usize,
            ));
        }
    }
}

} // verus!
