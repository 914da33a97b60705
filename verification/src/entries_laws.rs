//! What holds of looking up a key in the entries of a dictionary.

use crate::document::DocumentView;
use crate::object::{key_position, lookup, Value};
use crate::rewrite::{rewrite, rewrite_entries, without_key};
use vstd::prelude::*;

verus! {

/// The position of a key lies between where the search starts and the end,
/// and where it lies before the end, the key is found there.
pub proof fn lemma_position(entries: Seq<(Seq<u8>, Value)>, key: Seq<u8>, from: int)
    requires
        0 <= from <= entries.len(),
    ensures
        from <= key_position(entries, key, from) <= entries.len(),
        key_position(entries, key, from) < entries.len() ==> entries[key_position(
            entries,
            key,
            from,
        )].0 == key,
    decreases entries.len() - from,
{
    if from < entries.len() && entries[from].0 != key {
        lemma_position(entries, key, from + 1);
    }
}

/// Searching two sequences of entries, one behind the other, from a
/// position in the second.
pub proof fn lemma_position_right(
    a: Seq<(Seq<u8>, Value)>,
    b: Seq<(Seq<u8>, Value)>,
    key: Seq<u8>,
    from: int,
)
    requires
        0 <= from <= b.len(),
    ensures
        key_position(a + b, key, a.len() + from) == a.len() + key_position(b, key, from),
    decreases b.len() - from,
{
    if from < b.len() {
        assert((a + b)[a.len() + from] == b[from]);
        if b[from].0 != key {
            lemma_position_right(a, b, key, from + 1);
        }
    }
}

/// Searching two sequences of entries, one behind the other, from a
/// position in the first.
pub proof fn lemma_position_left(
    a: Seq<(Seq<u8>, Value)>,
    b: Seq<(Seq<u8>, Value)>,
    key: Seq<u8>,
    from: int,
)
    requires
        0 <= from <= a.len(),
    ensures
        key_position(a + b, key, from) == if key_position(a, key, from) < a.len() {
            key_position(a, key, from)
        } else {
            a.len() + key_position(b, key, 0)
        },
    decreases a.len() - from,
{
    if from < a.len() {
        assert((a + b)[from] == a[from]);
        if a[from].0 != key {
            lemma_position_left(a, b, key, from + 1);
        }
    } else {
        lemma_position_right(a, b, key, 0);
    }
}

/// A key is looked up in the first of two sequences of entries, and in the
/// second where the first does not hold it.
pub proof fn lemma_lookup_concat(a: Seq<(Seq<u8>, Value)>, b: Seq<(Seq<u8>, Value)>, key: Seq<u8>)
    ensures
        lookup(a + b, key) == if lookup(a, key) is Some {
            lookup(a, key)
        } else {
            lookup(b, key)
        },
{
    lemma_position_left(a, b, key, 0);
    lemma_position(a, key, 0);
    lemma_position(b, key, 0);
    let at = key_position(a + b, key, 0);
    if key_position(a, key, 0) < a.len() {
        assert((a + b)[at] == a[at]);
    } else if key_position(b, key, 0) < b.len() {
        assert((a + b)[at] == b[at - a.len()]);
    }
}

/// Rewriting the references leaves every key where it is.
pub proof fn lemma_position_rewrite(
    doc: DocumentView,
    table: Seq<u32>,
    entries: Seq<(Seq<u8>, Value)>,
    key: Seq<u8>,
    from: int,
)
    requires
        0 <= from <= entries.len(),
    ensures
        key_position(rewrite_entries(doc, table, entries), key, from) == key_position(
            entries,
            key,
            from,
        ),
    decreases entries.len() - from,
{
    if from < entries.len() {
        assert(rewrite_entries(doc, table, entries)[from].0 == entries[from].0);
        if entries[from].0 != key {
            lemma_position_rewrite(doc, table, entries, key, from + 1);
        }
    }
}

/// What is found under a key after the references were rewritten is what
/// was found there before, with its references rewritten.
pub proof fn lemma_lookup_rewrite(
    doc: DocumentView,
    table: Seq<u32>,
    entries: Seq<(Seq<u8>, Value)>,
    key: Seq<u8>,
)
    ensures
        lookup(rewrite_entries(doc, table, entries), key) == match lookup(entries, key) {
            Some(v) => Some(rewrite(doc, table, v)),
            None => None,
        },
{
    lemma_position_rewrite(doc, table, entries, key, 0);
    lemma_position(entries, key, 0);
}

/// Leaving out the entries of one key does not change what is found under
/// another.
pub proof fn lemma_lookup_without(entries: Seq<(Seq<u8>, Value)>, left_out: Seq<u8>, key: Seq<u8>)
    requires
        key != left_out,
    ensures
        lookup(without_key(entries, left_out), key) == lookup(entries, key),
    decreases entries.len(),
{
    if entries.len() > 0 {
        let init = entries.drop_last();
        let last = entries.last();
        lemma_lookup_without(init, left_out, key);
        assert(entries =~= init + seq![last]);
        lemma_lookup_concat(init, seq![last], key);
        if last.0 != left_out {
            assert(without_key(entries, left_out) =~= without_key(init, left_out) + seq![last]);
            lemma_lookup_concat(without_key(init, left_out), seq![last], key);
        } else {
            assert(seq![last][0] == last);
            assert(key_position(seq![last], key, 1) == 1);
            assert(lookup(seq![last], key) is None);
        }
    }
}

} // verus!
