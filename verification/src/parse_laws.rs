//! What holds of what is read: the values of a document that was read are
//! well formed.

use crate::document::{fault_of, first_fault, object_at, parse_document, DocumentView};
use crate::indirect::{object_header, parse_indirect};
use crate::lexer::{digits_end, has_sign, name_scan, skip_space, spec_is_regular, word_end};
use crate::lexer_laws::{all_regular, at};
use crate::names::lemma_end_words;
use crate::object::Value;
use crate::syntax::{parse_entries, parse_items, parse_value, parse_word, MAX_DEPTH};
use crate::table::{entry_at, XrefEntry};
use crate::value_laws::{
    entries_well_formed, items_well_formed, lemma_digits_end_bounds, lemma_digits_transfer,
    lemma_word_grows, well_formed,
};
use vstd::prelude::*;

verus! {

/// What was read, where something was read.
pub open spec fn read<T>(r: Option<(T, int)>) -> T {
    match r {
        Some((v, _)) => v,
        None => arbitrary(),
    }
}

/// Where reading ended, where something was read.
pub open spec fn read_end<T>(r: Option<(T, int)>) -> int {
    match r {
        Some((_, end)) => end,
        None => 0,
    }
}

/// The value of the numbered object that was read.
pub open spec fn read_object(r: Option<(crate::object::ObjectId, Value, int)>) -> Value {
    match r {
        Some((_, v, _)) => v,
        None => Value::Null,
    }
}

/// A word that is read as a value is read as a well-formed value.
pub proof fn lemma_parsed_word(b: Seq<u8>, pos: int, end: int, depth: nat)
    requires
        0 <= pos <= end <= b.len(),
        parse_word(b, pos, end) is Some,
    ensures
        well_formed(read(parse_word(b, pos, end)), depth),
{
    let v = read(parse_word(b, pos, end));
    let word = b.subrange(pos, end);
    match v {
        Value::Real(d) => {
            assert(d == word);
            assert(at(b, pos, word));
            let to = word.len() as int;
            let start = if has_sign(word, 0, to) { 1int } else { 0int };
            assert(has_sign(b, pos, end) == has_sign(word, 0, to));
            lemma_digits_transfer(b, pos, word, start, to);
            lemma_digits_end_bounds(word, start, to);
            let point = digits_end(word, start, to);
            assert(point < to);
            assert(b[pos + point] == word[point]);
            lemma_digits_transfer(b, pos, word, point + 1, to);
        },
        _ => {},
    }
}

/// A value that is read is well formed.
pub proof fn lemma_parsed_value(b: Seq<u8>, pos: int, depth: nat)
    requires
        parse_value(b, pos, depth) is Some,
    ensures
        well_formed(read(parse_value(b, pos, depth)), depth),
    decreases depth, b.len() - pos, 0nat,
{
    if b[pos] == 47 || b[pos] == 40 {
    } else if b[pos] == 60 {
        if pos + 1 < b.len() && b[pos + 1] == 60 {
            lemma_parsed_entries(b, pos + 2, (depth - 1) as nat, Seq::empty());
        }
    } else if b[pos] == 91 {
        lemma_parsed_items(b, pos + 1, (depth - 1) as nat, Seq::empty());
    } else {
        lemma_word_grows(b, pos);
        lemma_parsed_word(b, pos, word_end(b, pos), depth);
    }
}

/// The items of an array that are read are well formed.
pub proof fn lemma_parsed_items(b: Seq<u8>, pos: int, depth: nat, acc: Seq<Value>)
    requires
        items_well_formed(acc, depth),
        parse_items(b, pos, depth, acc) is Some,
    ensures
        items_well_formed(read(parse_items(b, pos, depth, acc)), depth),
    decreases depth, b.len() - pos, 1nat,
{
    let p = skip_space(b, pos, false);
    if b[p] != 93 {
        lemma_parsed_value(b, p, depth);
        let v = read(parse_value(b, p, depth));
        let end = read_end(parse_value(b, p, depth));
        assert forall|i: int| 0 <= i < acc.push(v).len() implies well_formed(
            #[trigger] acc.push(v)[i],
            depth,
        ) by {
            if i < acc.len() {
                assert(acc.push(v)[i] == acc[i]);
            }
        }
        lemma_parsed_items(b, end, depth, acc.push(v));
    }
}

/// The entries of a dictionary that are read are well formed.
pub proof fn lemma_parsed_entries(
    b: Seq<u8>,
    pos: int,
    depth: nat,
    acc: Seq<(Seq<u8>, Value)>,
)
    requires
        entries_well_formed(acc, depth),
        parse_entries(b, pos, depth, acc) is Some,
    ensures
        entries_well_formed(read(parse_entries(b, pos, depth, acc)), depth),
    decreases depth, b.len() - pos, 1nat,
{
    let p = skip_space(b, pos, false);
    if b[p] == 47 {
        let (key, key_end) = name_scan(b, p + 1, Seq::empty());
        let v_start = skip_space(b, key_end, false);
        lemma_parsed_value(b, v_start, depth);
        let v = read(parse_value(b, v_start, depth));
        let end = read_end(parse_value(b, v_start, depth));
        assert forall|i: int| 0 <= i < acc.push((key, v)).len() implies well_formed(
            (#[trigger] acc.push((key, v))[i]).1,
            depth,
        ) by {
            if i < acc.len() {
                assert(acc.push((key, v))[i] == acc[i]);
            }
        }
        lemma_parsed_entries(b, end, depth, acc.push((key, v)));
    }
}

/// Whether the value of a numbered object is as it is read: well formed,
/// or a stream whose dictionary is well formed.
pub open spec fn source_well_formed(v: Value) -> bool {
    well_formed(v, MAX_DEPTH as nat) || (v matches Value::Stream(entries, _)
        && entries_well_formed(entries, (MAX_DEPTH - 1) as nat))
}

/// A numbered object that is read has a value as it is read.
pub proof fn lemma_parsed_object(b: Seq<u8>, pos: int, table: Seq<XrefEntry>)
    requires
        parse_indirect(b, pos, table) is Some,
    ensures
        source_well_formed(read_object(parse_indirect(b, pos, table))),
{
    let h_end = read_end(object_header(b, pos));
    let start = skip_space(b, h_end, false);
    lemma_parsed_value(b, start, MAX_DEPTH as nat);
}

/// Whether a document is as it is read: the values of its objects are as
/// they are read, none of them is a sign of a layout that is not
/// supported, and the version is a word.
pub open spec fn as_read(doc: DocumentView) -> bool {
    &&& forall|i: int|
        0 <= i < doc.objects.len() ==> ((#[trigger] doc.objects[i]) matches Some(v)
            ==> source_well_formed(v) && fault_of(v) is None)
    &&& doc.version matches Some(version) ==> all_regular(version)
}

/// Where no object has a fault from `from` on, none of them has one.
pub proof fn lemma_faults(objects: Seq<Option<Value>>, from: int)
    requires
        0 <= from,
        first_fault(objects, from) is None,
    ensures
        forall|i: int|
            from <= i < objects.len() ==> ((#[trigger] objects[i]) matches Some(v) ==> fault_of(v)
                is None),
    decreases objects.len() - from,
{
    if from < objects.len() {
        lemma_faults(objects, from + 1);
    }
}

/// A run of regular bytes is made of regular bytes.
pub proof fn lemma_word_regular(b: Seq<u8>, pos: int)
    requires
        0 <= pos <= b.len(),
    ensures
        pos <= word_end(b, pos) <= b.len(),
        all_regular(b.subrange(pos, word_end(b, pos))),
    decreases b.len() - pos,
{
    lemma_word_grows(b, pos);
    if pos < b.len() && spec_is_regular(b[pos]) {
        lemma_word_regular(b, pos + 1);
        lemma_word_grows(b, pos + 1);
        let whole = b.subrange(pos, word_end(b, pos));
        let rest = b.subrange(pos + 1, word_end(b, pos + 1));
        assert forall|i: int| 0 <= i < whole.len() implies spec_is_regular(
            #[trigger] whole[i],
        ) by {
            if i > 0 {
                assert(whole[i] == rest[i - 1]);
            }
        }
    }
}

/// A document that is read is as it is read.
pub proof fn parsed_is_as_read(b: Seq<u8>)
    requires
        parse_document(b) is Ok,
    ensures
        as_read(parse_document(b)->Ok_0),
{
    let doc = parse_document(b)->Ok_0;
    let table = doc.xref;
    lemma_faults(doc.objects, 0);
    assert forall|i: int| 0 <= i < doc.objects.len() implies ((
    #[trigger] doc.objects[i]) matches Some(v) ==> source_well_formed(v)) by {
        if doc.objects[i] is Some {
            assert(doc.objects[i] == object_at(b, table, i));
            let offset = entry_at(table, i)->InUse_offset;
            lemma_parsed_object(b, offset as int, table);
        }
    }
    if doc.version is Some {
        lemma_end_words();
        lemma_word_regular(b, 5);
    }
}

} // verus!
