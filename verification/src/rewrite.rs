//! New identities for the objects of a subset.
//!
//! The new document has its catalog as object 1 and its page tree node as
//! object 2. The objects of the subset follow from 3 on, in the order in
//! which they were found. Every reference is rewritten to the new number of
//! its target; a reference whose target is not part of the subset becomes
//! `null`.

use crate::document::{Document, DocumentView};
use crate::lexer::text;
use crate::object::{bytes_equal, entries_view, get, items_view, Object, ObjectId, Value};
use crate::pages::Page;
use crate::table::MAX_OBJECT_NUMBER;
use vstd::prelude::*;
use vstd::slice::slice_to_vec;

verus! {

/// The number of the new page tree node.
pub const PAGES_NUMBER: u32 = 2;

/// The new number of each old number, as a table indexed by the old one; 0
/// where the object is not part of the subset. The object at position `k`
/// of `found` gets the number `k + 3`.
pub open spec fn numbering(found: Seq<usize>, limit: nat) -> Seq<u32>
    decreases found.len(),
{
    if found.len() == 0 {
        Seq::new(limit, |i: int| 0u32)
    } else {
        let before = numbering(found.drop_last(), limit);
        if found.last() < before.len() && before[found.last() as int] == 0 {
            before.update(found.last() as int, (found.len() + 2) as u32)
        } else {
            before
        }
    }
}

/// The table has the length it was made for.
pub proof fn lemma_numbering_len(found: Seq<usize>, limit: nat)
    ensures
        numbering(found, limit).len() == limit,
    decreases found.len(),
{
    if found.len() > 0 {
        lemma_numbering_len(found.drop_last(), limit);
    }
}

/// Where `found` holds different numbers below `limit`, the object at
/// position `k` has the new number `k + 3`, and no other object has a
/// number.
pub proof fn numbering_follows_order(found: Seq<usize>, limit: nat)
    requires
        found.no_duplicates(),
        forall|k: int| 0 <= k < found.len() ==> #[trigger] found[k] < limit,
        found.len() + 2 <= u32::MAX,
    ensures
        forall|k: int|
            0 <= k < found.len() ==> numbering(found, limit)[#[trigger] found[k] as int] == k + 3,
        forall|x: int|
            0 <= x < limit && !found.contains(x as usize) ==> #[trigger] numbering(
                found,
                limit,
            )[x] == 0,
    decreases found.len(),
{
    lemma_numbering_len(found, limit);
    if found.len() > 0 {
        let init = found.drop_last();
        let last = found.last();
        numbering_follows_order(init, limit);
        lemma_numbering_len(init, limit);
        assert(!init.contains(last)) by {
            if init.contains(last) {
                let i = choose|i: int| 0 <= i < init.len() && init[i] == last;
                assert(found[i] == found[found.len() - 1]);
            }
        }
        assert forall|k: int| 0 <= k < found.len() implies numbering(found, limit)[#[trigger] found[k] as int]
            == k + 3 by {
            if k < init.len() {
                assert(init[k] == found[k]);
            }
        }
        assert forall|x: int| 0 <= x < limit && !found.contains(x as usize) implies #[trigger] numbering(
            found,
            limit,
        )[x] == 0 by {
            if init.contains(x as usize) {
                let i = choose|i: int| 0 <= i < init.len() && init[i] == x as usize;
                assert(found[i] == x as usize);
            }
            assert(found[found.len() - 1] == last);
        }
    }
}

/// Builds the table of new numbers.
pub fn build_numbering(found: &Vec<usize>, limit: usize) -> (r: Vec<u32>)
    requires
        found.len() + 2 <= u32::MAX,
    ensures
        r@ == numbering(found@, limit as nat),
{
    let mut table: Vec<u32> = Vec::new();
    while table.len() < limit
        invariant
            table.len() <= limit,
            forall|i: int| 0 <= i < table.len() ==> table@[i] == 0u32,
        decreases limit - table.len(),
    {
        table.push(0);
    }
    assert(found@.take(0) =~= Seq::empty());
    assert(table@ =~= numbering(found@.take(0), limit as nat));
    let mut k: usize = 0;
    while k < found.len()
        invariant
            k <= found.len(),
            found.len() + 2 <= u32::MAX,
            table@ == numbering(found@.take(k as int), limit as nat),
        decreases found.len() - k,
    {
        proof {
            assert(found@.take(k + 1).drop_last() =~= found@.take(k as int));
            assert(found@.take(k + 1).last() == found@[k as int]);
        }
        let x = found[k];
        if x < table.len() && table[x] == 0 {
            table.set(x, (k + 3) as u32);
        }
        k += 1;
    }
    assert(found@.take(found.len() as int) =~= found@);
    table
}

/// The pages of the subset, as a table indexed by object number.
pub open spec fn selection(pages: Seq<Page>, limit: nat) -> Seq<Option<Page>>
    decreases pages.len(),
{
    if pages.len() == 0 {
        Seq::new(limit, |i: int| None::<Page>)
    } else {
        let before = selection(pages.drop_last(), limit);
        let number = pages.last().id.number as int;
        if number < before.len() && before[number] is None {
            before.update(number, Some(pages.last()))
        } else {
            before
        }
    }
}

/// Builds the table of the pages of the subset.
pub fn build_selection(pages: &Vec<Page>, limit: usize) -> (r: Vec<Option<Page>>)
    ensures
        r@ == selection(pages@, limit as nat),
{
    let mut table: Vec<Option<Page>> = Vec::new();
    while table.len() < limit
        invariant
            table.len() <= limit,
            forall|i: int| 0 <= i < table.len() ==> table@[i] is None,
        decreases limit - table.len(),
    {
        table.push(None);
    }
    assert(pages@.take(0) =~= Seq::empty());
    assert(table@ =~= selection(pages@.take(0), limit as nat));
    let mut k: usize = 0;
    while k < pages.len()
        invariant
            k <= pages.len(),
            table@ == selection(pages@.take(k as int), limit as nat),
        decreases pages.len() - k,
    {
        proof {
            assert(pages@.take(k + 1).drop_last() =~= pages@.take(k as int));
            assert(pages@.take(k + 1).last() == pages@[k as int]);
        }
        let number = pages[k].id.number as usize;
        if number < table.len() && table[number].is_none() {
            table.set(number, Some(pages[k]));
        }
        k += 1;
    }
    assert(pages@.take(pages.len() as int) =~= pages@);
    table
}

/// A reference to the new object of the given number.
pub open spec fn reference_to(number: u32) -> Value {
    Value::Reference(ObjectId { number, generation: 0 })
}

/// What a reference to `id` becomes: a reference to the new number of its
/// target, or `null` where it has no target in the subset.
///
/// A reference that resolves to nothing in the source stands for `null`
/// there, and so it is written as `null`: it is no fault of the chapter,
/// and the chapter is written. A reference that resolves to nothing fails
/// a document only where the page tree needs it, as a
/// `DanglingReference` of the walk.
pub open spec fn retarget(doc: DocumentView, table: Seq<u32>, id: ObjectId) -> Value {
    if doc.resolve(id) is Some && id.number < table.len() && table[id.number as int] != 0 {
        reference_to(table[id.number as int])
    } else {
        Value::Null
    }
}

/// The items with every reference rewritten.
pub open spec fn rewrite_items(doc: DocumentView, table: Seq<u32>, items: Seq<Value>) -> Seq<
    Value,
>
    decreases items,
{
    Seq::new(
        items.len(),
        |i: int|
            if 0 <= i < items.len() {
                rewrite(doc, table, items[i])
            } else {
                Value::Null
            },
    )
}

/// The entries with every reference in their values rewritten.
pub open spec fn rewrite_entries(
    doc: DocumentView,
    table: Seq<u32>,
    entries: Seq<(Seq<u8>, Value)>,
) -> Seq<(Seq<u8>, Value)>
    decreases entries,
{
    Seq::new(
        entries.len(),
        |i: int|
            if 0 <= i < entries.len() {
                (entries[i].0, rewrite(doc, table, entries[i].1))
            } else {
                (Seq::empty(), Value::Null)
            },
    )
}

/// The value with every reference inside it rewritten. The dictionary of a
/// stream names the length of its payload once, as its last entry.
pub open spec fn rewrite(doc: DocumentView, table: Seq<u32>, v: Value) -> Value
    decreases v,
{
    match v {
        Value::Reference(id) => retarget(doc, table, id),
        Value::Array(items) => Value::Array(rewrite_items(doc, table, items)),
        Value::Dictionary(entries) => Value::Dictionary(rewrite_entries(doc, table, entries)),
        Value::Stream(entries, data) => Value::Stream(
            without_key(rewrite_entries(doc, table, entries), text("Length")).push(
                (text("Length"), Value::Integer(stream_length(data.len()))),
            ),
            data,
        ),
        _ => v,
    }
}

/// The length that the dictionary of a stream names for a payload of `n`
/// bytes.
pub open spec fn stream_length(n: nat) -> int {
    if n <= i64::MAX {
        n as int
    } else {
        i64::MAX as int
    }
}

/// A copy of `o` with every reference inside it rewritten.
pub fn rewrite_object(doc: &Document, table: &Vec<u32>, o: &Object) -> (r: Object)
    ensures
        r@ == rewrite(doc@, table@, o@),
    decreases *o,
{
    match o {
        Object::Null => Object::Null,
        Object::Boolean(b) => Object::Boolean(*b),
        Object::Integer(n) => Object::Integer(*n),
        Object::Real(d) => Object::Real(d.clone()),
        Object::String(s) => Object::String(s.clone()),
        Object::Name(s) => Object::Name(s.clone()),
        Object::Reference(id) => {
            let number = id.number as usize;
            if doc.resolve(*id).is_some() && number < table.len() && table[number] != 0 {
                Object::Reference(ObjectId { number: table[number], generation: 0 })
            } else {
                Object::Null
            }
        },
        Object::Array(items) => {
            let mut out: Vec<Object> = Vec::new();
            let mut i: usize = 0;
            while i < items.len()
                invariant
                    o is Array,
                    o->Array_0 == *items,
                    i <= items.len(),
                    out.len() == i,
                    forall|j: int|
                        0 <= j < i ==> (#[trigger] out[j])@ == rewrite(doc@, table@, items[j]@),
                decreases items.len() - i,
            {
                proof {
                    assert(decreases_to!(*o => o->Array_0));
                    assert(decreases_to!(*items => items[i as int]));
                }
                let c = rewrite_object(doc, table, &items[i]);
                out.push(c);
                i += 1;
            }
            assert(items_view(out@) =~= rewrite_items(doc@, table@, items_view(items@)));
            Object::Array(out)
        },
        Object::Dictionary(entries) => {
            proof {
                assert(decreases_to!(*o => o->Dictionary_0));
            }
            Object::Dictionary(rewrite_object_entries(doc, table, entries))
        },
        Object::Stream(entries, data) => {
            proof {
                assert(decreases_to!(*o => o->Stream_0));
            }
            Object::Stream(rewrite_stream_entries(doc, table, entries, data.len()), data.clone())
        },
    }
}

/// A copy of the entries of a stream with every reference in their values
/// rewritten, and with the length of the payload as the one entry under
/// `Length`.
pub fn rewrite_stream_entries(
    doc: &Document,
    table: &Vec<u32>,
    entries: &Vec<(Vec<u8>, Object)>,
    length: usize,
) -> (r: Vec<(Vec<u8>, Object)>)
    ensures
        entries_view(r@) == without_key(
            rewrite_entries(doc@, table@, entries_view(entries@)),
            text("Length"),
        ).push((text("Length"), Value::Integer(stream_length(length as nat)))),
    decreases *entries,
{
    let ghost view = entries_view(entries@);
    let ghost rewritten = rewrite_entries(doc@, table@, view);
    let mut out: Vec<(Vec<u8>, Object)> = Vec::new();
    let mut i: usize = 0;
    assert(rewritten.take(0) =~= Seq::empty());
    assert(entries_view(out@) =~= without_key(rewritten.take(0), text("Length")));
    while i < entries.len()
        invariant
            i <= entries.len(),
            view == entries_view(entries@),
            rewritten == rewrite_entries(doc@, table@, view),
            entries_view(out@) == without_key(rewritten.take(i as int), text("Length")),
        decreases entries.len() - i,
    {
        proof {
            assert(decreases_to!(*entries => entries[i as int]));
            assert(decreases_to!(entries[i as int] => entries[i as int].1));
            assert(rewritten.take(i + 1).drop_last() =~= rewritten.take(i as int));
            assert(rewritten.take(i + 1).last() == rewritten[i as int]);
        }
        if !bytes_equal(entries[i].0.as_slice(), "Length".as_bytes()) {
            let ghost before = entries_view(out@);
            let value = rewrite_object(doc, table, &entries[i].1);
            out.push((entries[i].0.clone(), value));
            assert(entries_view(out@) =~= before.push(rewritten[i as int]));
        }
        i += 1;
    }
    assert(rewritten.take(entries.len() as int) =~= rewritten);
    let ghost kept = entries_view(out@);
    let named: i64 = if length as u64 <= i64::MAX as u64 {
        length as i64
    } else {
        i64::MAX
    };
    out.push((key("Length"), Object::Integer(named)));
    assert(entries_view(out@) =~= kept.push(
        (text("Length"), Value::Integer(stream_length(length as nat))),
    ));
    out
}

/// A copy of `entries` with every reference in their values rewritten.
pub fn rewrite_object_entries(
    doc: &Document,
    table: &Vec<u32>,
    entries: &Vec<(Vec<u8>, Object)>,
) -> (r: Vec<(Vec<u8>, Object)>)
    ensures
        entries_view(r@) == rewrite_entries(doc@, table@, entries_view(entries@)),
    decreases *entries,
{
    let mut out: Vec<(Vec<u8>, Object)> = Vec::new();
    let mut i: usize = 0;
    while i < entries.len()
        invariant
            i <= entries.len(),
            out.len() == i,
            forall|j: int|
                0 <= j < i ==> (#[trigger] out[j]).0@ == entries[j].0@ && out[j].1@ == rewrite(
                    doc@,
                    table@,
                    entries[j].1@,
                ),
        decreases entries.len() - i,
    {
        proof {
            assert(decreases_to!(*entries => entries[i as int]));
            assert(decreases_to!(entries[i as int] => entries[i as int].1));
        }
        let value = rewrite_object(doc, table, &entries[i].1);
        out.push((entries[i].0.clone(), value));
        i += 1;
    }
    assert(entries_view(out@) =~= rewrite_entries(doc@, table@, entries_view(entries@)));
    out
}

/// The entries but for those under `key`.
pub open spec fn without_key(entries: Seq<(Seq<u8>, Value)>, key: Seq<u8>) -> Seq<
    (Seq<u8>, Value),
>
    decreases entries.len(),
{
    if entries.len() == 0 {
        Seq::empty()
    } else if entries.last().0 == key {
        without_key(entries.drop_last(), key)
    } else {
        without_key(entries.drop_last(), key).push(entries.last())
    }
}

/// The entry that hands an inherited attribute to a page: what the node
/// `source` defines under `key`, where that node is not the page itself.
pub open spec fn inherited_entry(doc: DocumentView, page: Page, source: Option<u32>, key: Seq<u8>) -> Seq<
    (Seq<u8>, Value),
> {
    match source {
        Some(n) => match doc.attribute(n, key) {
            Some(v) => if n != page.id.number {
                seq![(key, v)]
            } else {
                Seq::empty()
            },
            None => Seq::empty(),
        },
        None => Seq::empty(),
    }
}

/// The entries of a page of the subset before its references are
/// rewritten: its own but for `Parent`, then the attributes it inherits.
pub open spec fn page_entries(doc: DocumentView, page: Page, own: Seq<(Seq<u8>, Value)>) -> Seq<
    (Seq<u8>, Value),
> {
    without_key(own, text("Parent")) + inherited_entry(
        doc,
        page,
        page.resources,
        text("Resources"),
    ) + inherited_entry(doc, page, Some(page.media_box), text("MediaBox")) + inherited_entry(
        doc,
        page,
        page.rotate,
        text("Rotate"),
    )
}

/// A page of the subset as it stands in the new document: its parent is
/// the new page tree node, the attributes it inherited are its own, and
/// its references are rewritten. `null` where the page is no dictionary.
pub open spec fn page_value(doc: DocumentView, table: Seq<u32>, page: Page) -> Value {
    match doc.resolve(page.id) {
        Some(Value::Dictionary(own)) => Value::Dictionary(
            seq![(text("Parent"), reference_to(PAGES_NUMBER))] + rewrite_entries(
                doc,
                table,
                page_entries(doc, page, own),
            ),
        ),
        _ => Value::Null,
    }
}

impl Document {
    /// Appends the entry that hands an inherited attribute to a page, with
    /// its references rewritten.
    pub fn push_inherited(
        &self,
        table: &Vec<u32>,
        page: &Page,
        source: Option<u32>,
        key: &[u8],
        out: &mut Vec<(Vec<u8>, Object)>,
    )
        ensures
            entries_view(final(out)@) == entries_view(old(out)@) + rewrite_entries(
                self@,
                table@,
                inherited_entry(self@, *page, source, key@),
            ),
    {
        let mut value: Option<&Object> = None;
        match source {
            Some(n) => {
                if (n as usize) < self.objects.len() {
                    match &self.objects[n as usize] {
                        Some(Object::Dictionary(entries)) => {
                            value = get(entries, key);
                        },
                        Some(Object::Stream(entries, _)) => {
                            value = get(entries, key);
                        },
                        _ => {},
                    }
                }
                if n == page.id.number {
                    value = None;
                }
            },
            None => {},
        }
        match value {
            Some(v) => {
                let ghost before = entries_view(out@);
                let rewritten = rewrite_object(self, table, v);
                out.push((slice_to_vec(key), rewritten));
                assert(entries_view(out@) =~= before + rewrite_entries(
                    self@,
                    table@,
                    inherited_entry(self@, *page, source, key@),
                ));
            },
            None => {
                assert(entries_view(out@) =~= entries_view(old(out)@) + rewrite_entries(
                    self@,
                    table@,
                    inherited_entry(self@, *page, source, key@),
                ));
            },
        }
    }

    /// Builds a page of the subset as it stands in the new document.
    pub fn build_page(&self, table: &Vec<u32>, page: &Page) -> (r: Object)
        ensures
            r@ == page_value(self@, table@, *page),
    {
        let own = match self.resolve(page.id) {
            Some(Object::Dictionary(own)) => own,
            _ => {
                return Object::Null;
            },
        };
        let ghost view = entries_view(own@);
        let ghost parent = seq![(text("Parent"), reference_to(PAGES_NUMBER))];
        let mut out: Vec<(Vec<u8>, Object)> = Vec::new();
        out.push(
            (key("Parent"), Object::Reference(ObjectId { number: PAGES_NUMBER, generation: 0 })),
        );
        assert(view.take(0) =~= Seq::empty());
        assert(entries_view(out@) =~= parent + rewrite_entries(
            self@,
            table@,
            without_key(view.take(0), text("Parent")),
        ));
        let mut i: usize = 0;
        while i < own.len()
            invariant
                i <= own.len(),
                view == entries_view(own@),
                parent == seq![(text("Parent"), reference_to(PAGES_NUMBER))],
                entries_view(out@) == parent + rewrite_entries(
                    self@,
                    table@,
                    without_key(view.take(i as int), text("Parent")),
                ),
            decreases own.len() - i,
        {
            proof {
                assert(view.take(i + 1).drop_last() =~= view.take(i as int));
                assert(view.take(i + 1).last() == view[i as int]);
            }
            if !bytes_equal(own[i].0.as_slice(), "Parent".as_bytes()) {
                let ghost before = entries_view(out@);
                let value = rewrite_object(self, table, &own[i].1);
                out.push((own[i].0.clone(), value));
                assert(entries_view(out@) =~= before.push(
                    (view[i as int].0, rewrite(self@, table@, view[i as int].1)),
                ));
                assert(entries_view(out@) =~= parent + rewrite_entries(
                    self@,
                    table@,
                    without_key(view.take(i + 1), text("Parent")),
                ));
            }
            i += 1;
        }
        assert(view.take(own.len() as int) =~= view);
        let ghost kept = without_key(view, text("Parent"));
        let ghost first = inherited_entry(self@, *page, page.resources, text("Resources"));
        let ghost second = inherited_entry(self@, *page, Some(page.media_box), text("MediaBox"));
        let ghost third = inherited_entry(self@, *page, page.rotate, text("Rotate"));
        self.push_inherited(table, page, page.resources, "Resources".as_bytes(), &mut out);
        self.push_inherited(table, page, Some(page.media_box), "MediaBox".as_bytes(), &mut out);
        self.push_inherited(table, page, page.rotate, "Rotate".as_bytes(), &mut out);
        assert(entries_view(out@) =~= parent + rewrite_entries(
            self@,
            table@,
            kept + first + second + third,
        ));
        Object::Dictionary(out)
    }
}

/// The new catalog.
pub open spec fn catalog_value() -> Value {
    Value::Dictionary(
        seq![
            (text("Type"), Value::Name(text("Catalog"))),
            (text("Pages"), reference_to(PAGES_NUMBER)),
        ],
    )
}

/// What stands for a page among the children of the new page tree node: a
/// reference to its new number.
pub open spec fn kid(table: Seq<u32>, page: Page) -> Value {
    if page.id.number < table.len() && table[page.id.number as int] != 0 {
        reference_to(table[page.id.number as int])
    } else {
        Value::Null
    }
}

/// The children of the new page tree node: the pages, in order.
pub open spec fn kids(table: Seq<u32>, pages: Seq<Page>) -> Seq<Value> {
    Seq::new(pages.len(), |i: int| kid(table, pages[i]))
}

/// The new page tree node: its children are exactly the pages.
pub open spec fn pages_value(table: Seq<u32>, pages: Seq<Page>) -> Value {
    Value::Dictionary(
        seq![
            (text("Type"), Value::Name(text("Pages"))),
            (text("Kids"), Value::Array(kids(table, pages))),
            (text("Count"), Value::Integer(pages.len() as int)),
        ],
    )
}

/// The object of old number `x` as it stands in the new document.
pub open spec fn output_value(
    doc: DocumentView,
    table: Seq<u32>,
    chosen: Seq<Option<Page>>,
    x: usize,
) -> Value {
    if x < chosen.len() && chosen[x as int] is Some {
        page_value(doc, table, chosen[x as int]->0)
    } else if x < doc.objects.len() && doc.objects[x as int] is Some {
        rewrite(doc, table, doc.objects[x as int]->0)
    } else {
        Value::Null
    }
}

/// The values of the objects of the new document: object `k + 1` is at
/// position `k`. The catalog comes first, then the page tree node, then the
/// objects of the subset in the order of `found`.
pub open spec fn output_values(doc: DocumentView, pages: Seq<Page>, found: Seq<usize>) -> Seq<
    Value,
> {
    let table = numbering(found, doc.objects.len());
    let chosen = selection(pages, doc.objects.len());
    seq![catalog_value(), pages_value(table, pages)] + Seq::new(
        found.len(),
        |k: int| output_value(doc, table, chosen, found[k]),
    )
}

/// Whether the new document can number its objects: the subset and the
/// two new objects, and the pages among them.
pub open spec fn fits(pages: Seq<Page>, found: Seq<usize>) -> bool {
    found.len() + 2 <= MAX_OBJECT_NUMBER && pages.len() <= MAX_OBJECT_NUMBER
}

/// A name object.
pub fn name_object(word: &str) -> (r: Object)
    ensures
        r@ == Value::Name(text(word)),
{
    Object::Name(slice_to_vec(word.as_bytes()))
}

/// A dictionary key.
pub fn key(word: &str) -> (r: Vec<u8>)
    ensures
        r@ == text(word),
{
    slice_to_vec(word.as_bytes())
}

impl Document {
    /// Builds the objects of the new document for the pages and the subset
    /// `found`. `None` where the subset has more objects than a document
    /// may number.
    pub fn build_output(&self, pages: &Vec<Page>, found: &Vec<usize>) -> (r: Option<Vec<Object>>)
        ensures
            match r {
                Some(objects) => items_view(objects@) == output_values(self@, pages@, found@)
                    && fits(pages@, found@),
                None => !fits(pages@, found@),
            },
    {
        if found.len() > MAX_OBJECT_NUMBER as usize - 2 || pages.len() > MAX_OBJECT_NUMBER as usize {
            return None;
        }
        let limit = self.objects.len();
        let table = build_numbering(found, limit);
        let chosen = build_selection(pages, limit);
        let mut out: Vec<Object> = Vec::new();
        let mut catalog: Vec<(Vec<u8>, Object)> = Vec::new();
        catalog.push((key("Type"), name_object("Catalog")));
        catalog.push(
            (key("Pages"), Object::Reference(ObjectId { number: PAGES_NUMBER, generation: 0 })),
        );
        assert(entries_view(catalog@) =~= catalog_value()->Dictionary_0);
        out.push(Object::Dictionary(catalog));
        let mut children: Vec<Object> = Vec::new();
        let mut i: usize = 0;
        while i < pages.len()
            invariant
                i <= pages.len(),
                pages.len() <= MAX_OBJECT_NUMBER,
                children.len() == i,
                forall|j: int| 0 <= j < i ==> (#[trigger] children[j])@ == kid(table@, pages[j]),
            decreases pages.len() - i,
        {
            let number = pages[i].id.number as usize;
            if number < table.len() && table[number] != 0 {
                children.push(Object::Reference(ObjectId { number: table[number], generation: 0 }));
            } else {
                children.push(Object::Null);
            }
            i += 1;
        }
        assert(items_view(children@) =~= kids(table@, pages@));
        let mut node: Vec<(Vec<u8>, Object)> = Vec::new();
        node.push((key("Type"), name_object("Pages")));
        node.push((key("Kids"), Object::Array(children)));
        node.push((key("Count"), Object::Integer(pages.len() as i64)));
        assert(entries_view(node@) =~= pages_value(table@, pages@)->Dictionary_0);
        out.push(Object::Dictionary(node));
        let mut k: usize = 0;
        while k < found.len()
            invariant
                k <= found.len(),
                limit == self.objects.len(),
                out.len() == k + 2,
                out[0]@ == catalog_value(),
                out[1]@ == pages_value(table@, pages@),
                forall|j: int|
                    0 <= j < k ==> (#[trigger] out[j + 2])@ == output_value(
                        self@,
                        table@,
                        chosen@,
                        found[j],
                    ),
            decreases found.len() - k,
        {
            let x = found[k];
            let object = if x < chosen.len() && chosen[x].is_some() {
                let page = chosen[x].unwrap();
                self.build_page(&table, &page)
            } else if x < self.objects.len() {
                match &self.objects[x] {
                    Some(o) => rewrite_object(self, &table, o),
                    None => Object::Null,
                }
            } else {
                Object::Null
            };
            out.push(object);
            k += 1;
        }
        proof {
            let expected = output_values(self@, pages@, found@);
            assert(expected.len() == out.len());
            assert forall|j: int| 0 <= j < out.len() implies items_view(out@)[j] == expected[j] by {
                if j >= 2 {
                    assert(out[(j - 2) + 2]@ == output_value(
                        self@,
                        table@,
                        chosen@,
                        found[j - 2],
                    ));
                }
            }
        }
        assert(items_view(out@) =~= output_values(self@, pages@, found@));
        Some(out)
    }
}

} // verus!
