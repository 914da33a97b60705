//! The value kinds a document is made of, and their mathematical model.
//!
//! `Object` is the tagged union held in memory; `Value` is what an `Object`
//! denotes, with sequences in place of vectors. Contracts elsewhere in the
//! crate speak of `Value`s.

use vstd::prelude::*;

verus! {

/// Identity of an indirect object: its number and its generation.
#[derive(Clone, Copy, Debug, PartialEq, Eq, Structural)]
pub struct ObjectId {
    pub number: u32,
    pub generation: u16,
}

/// A value as it is held in memory.
///
/// Strings and names hold their decoded bytes. A real number holds the
/// characters it was written with, so that it is reproduced exactly.
/// Dictionary entries keep the order in which they were written.
#[derive(Debug, PartialEq, Eq)]
pub enum Object {
    Null,
    Boolean(bool),
    Integer(i64),
    Real(Vec<u8>),
    String(Vec<u8>),
    Name(Vec<u8>),
    Array(Vec<Object>),
    Dictionary(Vec<(Vec<u8>, Object)>),
    Stream(Vec<(Vec<u8>, Object)>, Vec<u8>),
    Reference(ObjectId),
}

/// The mathematical value that an `Object` stands for.
pub enum Value {
    Null,
    Boolean(bool),
    Integer(int),
    Real(Seq<u8>),
    String(Seq<u8>),
    Name(Seq<u8>),
    Array(Seq<Value>),
    Dictionary(Seq<(Seq<u8>, Value)>),
    Stream(Seq<(Seq<u8>, Value)>, Seq<u8>),
    Reference(ObjectId),
}

/// The values of a sequence of objects, in order.
pub open spec fn items_view(items: Seq<Object>) -> Seq<Value>
    decreases items,
{
    Seq::new(
        items.len(),
        |i: int| if 0 <= i < items.len() { value_of(items[i]) } else { Value::Null },
    )
}

/// The keys and values of a sequence of dictionary entries, in order.
pub open spec fn entries_view(entries: Seq<(Vec<u8>, Object)>) -> Seq<(Seq<u8>, Value)>
    decreases entries,
{
    Seq::new(
        entries.len(),
        |i: int|
            if 0 <= i < entries.len() {
                (entries[i].0@, value_of(entries[i].1))
            } else {
                (Seq::empty(), Value::Null)
            },
    )
}

/// The value of an object.
pub open spec fn value_of(o: Object) -> Value
    decreases o,
{
    match o {
        Object::Null => Value::Null,
        Object::Boolean(b) => Value::Boolean(b),
        Object::Integer(n) => Value::Integer(n as int),
        Object::Real(d) => Value::Real(d@),
        Object::String(s) => Value::String(s@),
        Object::Name(s) => Value::Name(s@),
        Object::Array(items) => Value::Array(items_view(items@)),
        Object::Dictionary(entries) => Value::Dictionary(entries_view(entries@)),
        Object::Stream(entries, data) => Value::Stream(entries_view(entries@), data@),
        Object::Reference(id) => Value::Reference(id),
    }
}

impl View for Object {
    type V = Value;

    open spec fn view(&self) -> Value {
        value_of(*self)
    }
}

/// The entries of a dictionary or of a stream's dictionary; empty for every
/// other kind.
pub open spec fn entries_of(v: Value) -> Seq<(Seq<u8>, Value)> {
    match v {
        Value::Dictionary(entries) => entries,
        Value::Stream(entries, _) => entries,
        _ => Seq::empty(),
    }
}

/// The first position at or after `from` whose key is `key`, or the length
/// of `entries` where there is none.
pub open spec fn key_position(entries: Seq<(Seq<u8>, Value)>, key: Seq<u8>, from: int) -> int
    decreases entries.len() - from,
{
    if from < 0 || from >= entries.len() {
        entries.len() as int
    } else if entries[from].0 == key {
        from
    } else {
        key_position(entries, key, from + 1)
    }
}

/// The value stored under `key`: that of the first entry with this key.
pub open spec fn lookup(entries: Seq<(Seq<u8>, Value)>, key: Seq<u8>) -> Option<Value> {
    let at = key_position(entries, key, 0);
    if at < entries.len() {
        Some(entries[at].1)
    } else {
        None
    }
}

/// Every reference inside `v`, in the order in which a reader meets them.
pub open spec fn refs(v: Value) -> Seq<ObjectId>
    decreases v,
{
    match v {
        Value::Reference(id) => seq![id],
        Value::Array(items) => refs_of_items(items),
        Value::Dictionary(entries) => refs_of_entries(entries),
        Value::Stream(entries, _) => refs_of_entries(entries),
        _ => Seq::empty(),
    }
}

/// The references inside each item, item after item.
pub open spec fn refs_of_items(items: Seq<Value>) -> Seq<ObjectId>
    decreases items,
{
    if items.len() == 0 {
        Seq::empty()
    } else {
        refs_of_items(items.drop_last()) + refs(items.last())
    }
}

/// The references inside each entry's value, entry after entry.
pub open spec fn refs_of_entries(entries: Seq<(Seq<u8>, Value)>) -> Seq<ObjectId>
    decreases entries,
{
    if entries.len() == 0 {
        Seq::empty()
    } else {
        refs_of_entries(entries.drop_last()) + refs(entries.last().1)
    }
}

/// Whether two byte strings hold the same bytes.
pub fn bytes_equal(a: &[u8], b: &[u8]) -> (r: bool)
    ensures
        r == (a@ == b@),
{
    if a.len() != b.len() {
        return false;
    }
    let mut i: usize = 0;
    while i < a.len()
        invariant
            a.len() == b.len(),
            i <= a.len(),
            forall|j: int| 0 <= j < i ==> a@[j] == b@[j],
        decreases a.len() - i,
    {
        if a[i] != b[i] {
            return false;
        }
        i += 1;
    }
    assert(a@ =~= b@);
    true
}

/// The value stored under `key` in `entries`, if there is one.
pub fn get<'a>(entries: &'a Vec<(Vec<u8>, Object)>, key: &[u8]) -> (r: Option<&'a Object>)
    ensures
        match r {
            Some(o) => lookup(entries_view(entries@), key@) == Some(o@),
            None => lookup(entries_view(entries@), key@) is None,
        },
{
    let ghost view = entries_view(entries@);
    let mut i: usize = 0;
    while i < entries.len()
        invariant
            i <= entries.len(),
            view == entries_view(entries@),
            key_position(view, key@, 0) == key_position(view, key@, i as int),
        decreases entries.len() - i,
    {
        if bytes_equal(entries[i].0.as_slice(), key) {
            return Some(&entries[i].1);
        }
        i += 1;
    }
    None
}

impl Object {
    /// A copy of this object with the same value.
    pub fn deep_copy(&self) -> (r: Object)
        ensures
            r@ == self@,
        decreases *self,
    {
        match self {
            Object::Null => Object::Null,
            Object::Boolean(b) => Object::Boolean(*b),
            Object::Integer(n) => Object::Integer(*n),
            Object::Real(d) => Object::Real(d.clone()),
            Object::String(s) => Object::String(s.clone()),
            Object::Name(s) => Object::Name(s.clone()),
            Object::Array(items) => {
                let mut out: Vec<Object> = Vec::new();
                let mut i: usize = 0;
                while i < items.len()
                    invariant
                        self is Array,
                        self->Array_0 == *items,
                        i <= items.len(),
                        out.len() == i,
                        forall|j: int| 0 <= j < i ==> (#[trigger] out[j])@ == items[j]@,
                    decreases items.len() - i,
                {
                    proof {
                        assert(decreases_to!(*self => self->Array_0));
                        assert(decreases_to!(*items => items[i as int]));
                    }
                    let c = items[i].deep_copy();
                    out.push(c);
                    i += 1;
                }
                assert(items_view(out@) =~= items_view(items@));
                Object::Array(out)
            },
            Object::Dictionary(entries) => {
                proof {
                    assert(decreases_to!(*self => self->Dictionary_0));
                }
                Object::Dictionary(copy_entries(entries))
            },
            Object::Stream(entries, data) => {
                proof {
                    assert(decreases_to!(*self => self->Stream_0));
                }
                Object::Stream(copy_entries(entries), data.clone())
            },
            Object::Reference(id) => Object::Reference(*id),
        }
    }
}

/// A copy of `entries` with the same keys and values.
pub fn copy_entries(entries: &Vec<(Vec<u8>, Object)>) -> (r: Vec<(Vec<u8>, Object)>)
    ensures
        entries_view(r@) == entries_view(entries@),
    decreases *entries,
{
    let mut out: Vec<(Vec<u8>, Object)> = Vec::new();
    let mut i: usize = 0;
    while i < entries.len()
        invariant
            i <= entries.len(),
            out.len() == i,
            forall|j: int|
                0 <= j < i ==> (#[trigger] out[j]).0@ == entries[j].0@ && out[j].1@ == entries[j].1@,
        decreases entries.len() - i,
    {
        proof {
            assert(decreases_to!(*entries => entries[i as int]));
            assert(decreases_to!(entries[i as int] => entries[i as int].1));
        }
        let value = entries[i].1.deep_copy();
        out.push((entries[i].0.clone(), value));
        i += 1;
    }
    assert(entries_view(out@) =~= entries_view(entries@));
    out
}

/// Appends to `out` every reference inside `o`, in reading order.
pub fn collect_refs(o: &Object, out: &mut Vec<ObjectId>)
    ensures
        final(out)@ == old(out)@ + refs(o@),
    decreases *o,
{
    match o {
        Object::Reference(id) => {
            out.push(*id);
            assert(out@ =~= old(out)@ + refs(o@));
        },
        Object::Array(items) => {
            let ghost view = items_view(items@);
            let mut i: usize = 0;
            assert(view.take(0) =~= Seq::empty());
            while i < items.len()
                invariant
                    o is Array,
                    o->Array_0 == *items,
                    view == items_view(items@),
                    i <= items.len(),
                    out@ == old(out)@ + refs_of_items(view.take(i as int)),
                decreases items.len() - i,
            {
                proof {
                    assert(decreases_to!(*o => o->Array_0));
                    assert(decreases_to!(*items => items[i as int]));
                    assert(view.take(i + 1).drop_last() =~= view.take(i as int));
                    assert(view.take(i + 1).last() == items[i as int]@);
                }
                collect_refs(&items[i], out);
                i += 1;
                assert(out@ =~= old(out)@ + refs_of_items(view.take(i as int)));
            }
            assert(view.take(items.len() as int) =~= view);
        },
        Object::Dictionary(entries) => {
            proof {
                assert(decreases_to!(*o => o->Dictionary_0));
            }
            collect_entry_refs(entries, out);
        },
        Object::Stream(entries, _) => {
            proof {
                assert(decreases_to!(*o => o->Stream_0));
            }
            collect_entry_refs(entries, out);
        },
        _ => {
            assert(out@ =~= old(out)@ + refs(o@));
        },
    }
}

/// Appends to `out` every reference inside the values of `entries`, in
/// reading order.
pub fn collect_entry_refs(entries: &Vec<(Vec<u8>, Object)>, out: &mut Vec<ObjectId>)
    ensures
        final(out)@ == old(out)@ + refs_of_entries(entries_view(entries@)),
    decreases *entries,
{
    let ghost view = entries_view(entries@);
    let mut i: usize = 0;
    assert(view.take(0) =~= Seq::empty());
    while i < entries.len()
        invariant
            view == entries_view(entries@),
            i <= entries.len(),
            out@ == old(out)@ + refs_of_entries(view.take(i as int)),
        decreases entries.len() - i,
    {
        proof {
            assert(decreases_to!(*entries => entries[i as int]));
            assert(decreases_to!(entries[i as int] => entries[i as int].1));
            assert(view.take(i + 1).drop_last() =~= view.take(i as int));
            assert(view.take(i + 1).last().1 == entries[i as int].1@);
        }
        collect_refs(&entries[i].1, out);
        i += 1;
        assert(out@ =~= old(out)@ + refs_of_entries(view.take(i as int)));
    }
    assert(view.take(entries.len() as int) =~= view);
}

} // verus!
