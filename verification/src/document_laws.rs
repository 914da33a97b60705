//! What is written is read back: whole documents.
//!
//! The bytes that are written for well-formed values are read as the
//! document that `written_document` describes.

use crate::document::{
    chained_tables, fault_of, find_last, first_fault, header_version, loaded, object_at,
    parse_chain, parse_document, start_offset, tables, DocumentView,
};
use crate::indirect::object_header;
use crate::lexer::{skip_space, spec_is_digit, text, word_end};
use crate::lexer_laws::{
    all_regular, at, lemma_at_concat, lemma_at_subrange, lemma_decimal_digits, lemma_skip_one,
    lemma_unsigned, lemma_word, stops,
};
use crate::names::{lemma_end_words, lemma_table_words, lemma_trailer_names};
use crate::object::{key_position, lookup, ObjectId, Value};
use crate::object_laws::{object_is_read_back, object_well_formed};
use crate::output_laws::written_document;
use crate::syntax::{parse_value, MAX_DEPTH};
use crate::table::{XrefEntry, MAX_OBJECT_NUMBER};
use crate::table_laws::{
    in_use, lemma_section_entries, lemma_section_start, lemma_skip_two, offset_limit, rows_text,
    section_text, table_of,
};
use crate::value_laws::{lemma_first_byte, value_is_read_back, well_formed};
use crate::writer::{
    body, decimal, document_bytes, header, object_bytes, serialize, tail, trailer_value,
    writable, xref_rows,
};
use crate::xref::{
    parse_section, parse_subsections, trailer_of, ParseError, Trailer, MAX_REVISIONS,
};
use vstd::prelude::*;

verus! {

/// The offsets are such that a table can hold them.
pub open spec fn offsets_fit(offsets: Seq<nat>) -> bool {
    forall|i: int|
        0 <= i < offsets.len() ==> (#[trigger] offsets[i]) < offset_limit() && offsets[i]
            <= usize::MAX
}

/// The subsections of a section that was written are read back, up to the
/// word `trailer`.
pub proof fn lemma_subsections(b: Seq<u8>, pos: int, offsets: Seq<nat>)
    requires
        at(b, pos, section_text(offsets)),
        stops(b, pos + section_text(offsets).len()),
        offsets.len() <= MAX_OBJECT_NUMBER,
        offsets_fit(offsets),
    ensures
        skip_space(b, pos, false) == pos,
        word_end(b, pos) == pos + 4,
        b.subrange(pos, pos + 4) == text("xref"),
        object_header(b, pos) is None,
        parse_subsections(b, pos + 4, Seq::empty()) == Some(
            (table_of(offsets), pos + section_text(offsets).len()),
        ),
{
    lemma_table_words();
    let head = text("xref\n0 ");
    let count = decimal(offsets.len() + 1);
    let free = text("\n0000000000 65535 f \n");
    let rows = rows_text(offsets);
    let word = text("trailer");
    let rest = count + free + rows + word;
    assert(section_text(offsets) =~= head + rest);
    lemma_section_start(b, pos, rest);
    lemma_at_concat(b, pos, head, rest);
    lemma_section_entries(b, pos + 7, offsets);
    lemma_decimal_digits(offsets.len() + 1);
    assert(b[pos + 7 + 0] == rest[0]);
    assert(rest[0] == count[0]);
    assert(spec_is_digit(count[0]));
    lemma_skip_one(b, pos + 6);
    let c_end = pos + 7 + count.len();
    let fin = c_end + 19 + rows.len();
    assert(b[fin + 2 + 0] == word[0]);
    lemma_skip_two(b, fin);
    assert(all_regular(word));
    lemma_word(b, fin + 2, word);
    lemma_at_subrange(b, fin + 2, word);
    assert(parse_subsections(b, fin, table_of(offsets)) == Some((table_of(offsets), fin + 9)));
}

/// The trailer that is written for a document with `count` objects.
pub open spec fn written_trailer(count: nat) -> Trailer {
    Trailer {
        root: Some(ObjectId { number: 1, generation: 0 }),
        size: (count + 1) as u32,
        prev: None,
        info: None,
    }
}

/// The trailer dictionary that was written is read back, and it describes
/// the trailer that was written.
pub proof fn lemma_trailer(b: Seq<u8>, pos: int, count: nat)
    requires
        at(b, pos, seq![10u8] + serialize(trailer_value(count))),
        count <= MAX_OBJECT_NUMBER,
    ensures
        skip_space(b, pos, false) == pos + 1,
        parse_value(b, pos + 1, MAX_DEPTH as nat) == Some(
            (trailer_value(count), pos + 1 + serialize(trailer_value(count)).len()),
        ),
        trailer_of(trailer_value(count)->Dictionary_0) == written_trailer(count),
        lookup(trailer_value(count)->Dictionary_0, text("Encrypt")) is None,
{
    lemma_trailer_names();
    let v = trailer_value(count);
    let entries = v->Dictionary_0;
    let written = serialize(v);
    lemma_at_concat(b, pos, seq![10u8], written);
    assert(b[pos + 0] == seq![10u8][0]);
    assert(well_formed(v, MAX_DEPTH as nat)) by {
        assert forall|i: int| 0 <= i < entries.len() implies well_formed(
            (#[trigger] entries[i]).1,
            (MAX_DEPTH - 1) as nat,
        ) by {}
    }
    lemma_first_byte(v, MAX_DEPTH as nat);
    assert(b[pos + 1 + 0] == written[0]);
    lemma_skip_one(b, pos);
    value_is_read_back(b, pos + 1, v, MAX_DEPTH as nat);
    assert(entries[0].0 == text("Size"));
    assert(entries[1].0 == text("Root"));
    assert(key_position(entries, text("Root"), 1) == 1);
    assert(key_position(entries, text("Prev"), 2) == 2);
    assert(key_position(entries, text("Prev"), 1) == 2);
    assert(key_position(entries, text("Info"), 2) == 2);
    assert(key_position(entries, text("Info"), 1) == 2);
    assert(key_position(entries, text("Encrypt"), 2) == 2);
    assert(key_position(entries, text("Encrypt"), 1) == 2);
}

/// The chain of sections of a document that was written is its one
/// section.
pub proof fn lemma_chain(b: Seq<u8>, pos: int, offsets: Seq<nat>)
    requires
        at(
            b,
            pos,
            section_text(offsets) + seq![10u8] + serialize(trailer_value(offsets.len())),
        ),
        0 <= pos <= b.len(),
        offsets.len() <= MAX_OBJECT_NUMBER,
        offsets_fit(offsets),
    ensures
        parse_chain(b, pos, Seq::empty(), None, MAX_REVISIONS as nat) == Ok::<
            (Seq<XrefEntry>, Trailer),
            ParseError,
        >((table_of(offsets), written_trailer(offsets.len()))),
{
    let section = section_text(offsets);
    let line = seq![10u8];
    let dictionary = serialize(trailer_value(offsets.len()));
    lemma_at_concat(b, pos, section + line, dictionary);
    lemma_at_concat(b, pos, section, line);
    let t_pos = pos + section.len();
    lemma_at_concat(b, t_pos, line, dictionary);
    assert(b[t_pos + 0] == line[0]);
    lemma_subsections(b, pos, offsets);
    lemma_trailer(b, t_pos, offsets.len());
    assert(parse_section(b, pos, Seq::empty()) == Some(
        (table_of(offsets), written_trailer(offsets.len()), false),
    ));
}

/// A word is not found last where its first byte does not stand.
pub proof fn lemma_find_last_skip(b: Seq<u8>, pos: int, word: Seq<u8>, lo: int)
    requires
        -1 <= lo <= pos,
        word.len() >= 1,
        forall|p: int|
            lo < p <= pos ==> p + word.len() > b.len() || (#[trigger] b[p]) != word[0],
    ensures
        find_last(b, pos, word) == find_last(b, lo, word),
    decreases pos - lo,
{
    if lo < pos {
        if pos + word.len() <= b.len() {
            assert(b[pos] != word[0]);
            assert(b.subrange(pos, pos + word.len())[0] == b[pos]);
        }
        lemma_find_last_skip(b, pos - 1, word, lo);
    }
}

/// What is written at the end of a document: where the table starts.
pub open spec fn end_text(offset: nat) -> Seq<u8> {
    text("\nstartxref\n") + decimal(offset) + text("\n%%EOF\n")
}

/// The offset of the table that was written at the end of a document is
/// read back.
pub proof fn lemma_start_offset(b: Seq<u8>, pos: int, offset: nat)
    requires
        at(b, pos, end_text(offset)),
        pos + end_text(offset).len() == b.len(),
        offset <= usize::MAX,
    ensures
        start_offset(b) == Some(offset as int),
{
    lemma_end_words();
    let head = text("\nstartxref\n");
    let digits = decimal(offset);
    let last = text("\n%%EOF\n");
    let word = text("startxref");
    lemma_decimal_digits(offset);
    lemma_at_concat(b, pos, head + digits, last);
    lemma_at_concat(b, pos, head, digits);
    let ks = pos + 1;
    let ds = pos + 11;
    let de = ds + digits.len();
    assert forall|i: int| 0 <= i < 11 implies b[pos + i] == head[i] by {}
    assert forall|i: int| 0 <= i < 7 implies b[de + i] == last[i] by {}
    assert forall|p: int| ks < p <= b.len() implies p + word.len() > b.len() || (#[trigger] b[p])
        != word[0] by {
        if p < ds {
            assert(b[pos + (p - pos)] == head[p - pos]);
        } else if p < de {
            assert(b[ds + (p - ds)] == digits[p - ds]);
            assert(spec_is_digit(digits[p - ds]));
        } else if p < b.len() {
            assert(b[de + (p - de)] == last[p - de]);
        }
    }
    lemma_find_last_skip(b, b.len() as int, word, ks);
    assert forall|i: int| 0 <= i < word.len() implies b[ks + i] == #[trigger] word[i] by {
        assert(b[pos + (i + 1)] == head[i + 1]);
    }
    lemma_at_subrange(b, ks, word);
    assert(find_last(b, ks, word) == ks);
    assert(b[pos + 10] == head[10]);
    assert(b[ds + 0] == digits[0]);
    assert(spec_is_digit(digits[0]));
    lemma_skip_one(b, ks + 9);
    assert(b[de + 0] == last[0]);
    lemma_unsigned(b, ds, offset, usize::MAX as nat);
}

/// The version that the header of a written document names is read back.
pub proof fn lemma_header_version(b: Seq<u8>, version: Seq<u8>)
    requires
        at(b, 0, header(version)),
        all_regular(version),
    ensures
        header_version(b) == Some(version),
{
    lemma_end_words();
    let marker = text("%PDF-");
    lemma_at_concat(b, 0, marker + version, seq![10u8]);
    lemma_at_concat(b, 0, marker, version);
    lemma_at_subrange(b, 0, marker);
    assert(b[5int + version.len() + 0] == seq![10u8][0]);
    lemma_word(b, 5, version);
    lemma_at_subrange(b, 5, version);
}

/// Where the objects of a document start, given where the first starts.
pub open spec fn offsets_of(start: nat, values: Seq<Value>) -> Seq<nat> {
    Seq::new(values.len(), |i: int| start + body(values.take(i)).len())
}

/// The rows that are written for the objects are the rows for their
/// offsets.
pub proof fn lemma_rows_text(start: nat, values: Seq<Value>)
    ensures
        xref_rows(start, values) == rows_text(offsets_of(start, values)),
    decreases values.len(),
{
    let offsets = offsets_of(start, values);
    if values.len() == 0 {
        assert(xref_rows(start, values) =~= rows_text(offsets));
    } else {
        let init = values.drop_last();
        lemma_rows_text(start, init);
        assert(offsets.drop_last() =~= offsets_of(start, init)) by {
            assert forall|i: int| 0 <= i < init.len() implies offsets.drop_last()[i]
                == offsets_of(start, init)[i] by {
                assert(values.take(i) =~= init.take(i));
            }
        }
        assert(values.take(values.len() - 1) =~= init);
        assert(offsets.last() == start + body(init).len());
    }
}

/// The objects written first are written where all objects are written.
pub proof fn lemma_body_take(b: Seq<u8>, pos: int, values: Seq<Value>, k: int)
    requires
        at(b, pos, body(values)),
        0 <= k <= values.len(),
    ensures
        at(b, pos, body(values.take(k))),
        body(values.take(k)).len() <= body(values).len(),
    decreases values.len() - k,
{
    if k == values.len() {
        assert(values.take(k) =~= values);
    } else {
        lemma_body_take(b, pos, values, k + 1);
        let more = values.take(k + 1);
        assert(more.drop_last() =~= values.take(k));
        lemma_at_concat(b, pos, body(values.take(k)), object_bytes(more.len(), more.last()));
    }
}

/// Each object is written at its offset.
pub proof fn lemma_body_at(b: Seq<u8>, pos: int, values: Seq<Value>, k: int)
    requires
        at(b, pos, body(values)),
        0 <= k < values.len(),
    ensures
        at(b, pos + body(values.take(k)).len(), object_bytes((k + 1) as nat, values[k])),
        body(values.take(k)).len() < body(values).len(),
{
    lemma_body_take(b, pos, values, k + 1);
    let more = values.take(k + 1);
    assert(more.drop_last() =~= values.take(k));
    assert(more.last() == values[k]);
    lemma_at_concat(b, pos, body(values.take(k)), object_bytes(more.len(), more.last()));
    lemma_decimal_digits((k + 1) as nat);
}

/// No value is a sign of a layout that is not supported.
pub open spec fn faultless(values: Seq<Value>) -> bool {
    forall|i: int| 0 <= i < values.len() ==> fault_of(#[trigger] values[i]) is None
}

/// Whether a document with these values is read back from what is written
/// for it: the version is a word, the values are well formed and not more
/// than a document may number, and the bytes are not more than the table
/// and the machine can address.
pub open spec fn readable(version: Seq<u8>, values: Seq<Value>) -> bool {
    &&& all_regular(version)
    &&& values.len() <= MAX_OBJECT_NUMBER
    &&& forall|i: int| 0 <= i < values.len() ==> object_well_formed(#[trigger] values[i])
    &&& faultless(values)
    &&& writable(version, values)
    &&& document_bytes(version, values).len() <= usize::MAX
}

/// The parts of a document that was written: its header, its objects, its
/// table with the trailer, and its end.
pub proof fn lemma_layout(version: Seq<u8>, values: Seq<Value>)
    ensures
        ({
            let b = document_bytes(version, values);
            let start = header(version).len();
            let end = start + body(values).len();
            let offsets = offsets_of(start, values);
            let table = section_text(offsets) + seq![10u8] + serialize(
                trailer_value(values.len()),
            );
            &&& at(b, 0, header(version))
            &&& at(b, start as int, body(values))
            &&& at(b, end as int, table)
            &&& at(b, (end + table.len()) as int, end_text(end))
            &&& end + table.len() + end_text(end).len() == b.len()
        }),
{
    lemma_table_words();
    lemma_end_words();
    let b = document_bytes(version, values);
    let start = header(version).len();
    let end = start + body(values).len();
    let offsets = offsets_of(start, values);
    let table = section_text(offsets) + seq![10u8] + serialize(trailer_value(values.len()));
    lemma_rows_text(start, values);
    assert(text("trailer\n") =~= text("trailer") + seq![10u8]);
    assert(tail(start, end, values) =~= table + end_text(end));
    assert(b =~= header(version) + body(values) + (table + end_text(end)));
    assert(at(b, 0, b));
    lemma_at_concat(b, 0, header(version) + body(values), table + end_text(end));
    lemma_at_concat(b, 0, header(version), body(values));
    lemma_at_concat(b, end as int, table, end_text(end));
}

/// The offsets of the objects of a document that can be written fit into
/// its table.
pub proof fn lemma_offsets_fit(version: Seq<u8>, values: Seq<Value>)
    requires
        writable(version, values),
        document_bytes(version, values).len() <= usize::MAX,
    ensures
        offsets_fit(offsets_of(header(version).len(), values)),
        header(version).len() + body(values).len() <= usize::MAX,
{
    let b = document_bytes(version, values);
    let start = header(version).len();
    let offsets = offsets_of(start, values);
    lemma_layout(version, values);
    assert forall|i: int| 0 <= i < offsets.len() implies (#[trigger] offsets[i]) < offset_limit()
        && offsets[i] <= usize::MAX by {
        lemma_body_take(b, start as int, values, i);
    }
}

/// The table and the trailer of a document that was written are read
/// back through its one section.
pub proof fn lemma_tables(version: Seq<u8>, values: Seq<Value>)
    requires
        values.len() <= MAX_OBJECT_NUMBER,
        writable(version, values),
        document_bytes(version, values).len() <= usize::MAX,
    ensures
        tables(document_bytes(version, values)) == Ok::<
            (Seq<XrefEntry>, Trailer, bool),
            ParseError,
        >(
            (
                table_of(offsets_of(header(version).len(), values)),
                written_trailer(values.len()),
                false,
            ),
        ),
{
    let b = document_bytes(version, values);
    let start = header(version).len();
    let end = start + body(values).len();
    let offsets = offsets_of(start, values);
    let table = section_text(offsets) + seq![10u8] + serialize(trailer_value(values.len()));
    reveal(tables);
    lemma_layout(version, values);
    lemma_offsets_fit(version, values);
    lemma_chain(b, end as int, offsets);
    lemma_start_offset(b, (end + table.len()) as int, end);
    assert(chained_tables(b) == Ok::<(Seq<XrefEntry>, Trailer), ParseError>(
        (table_of(offsets), written_trailer(values.len())),
    ));
}

/// The objects of a document that was written are read back at their
/// offsets.
pub proof fn lemma_loaded(version: Seq<u8>, values: Seq<Value>, number: int)
    requires
        readable(version, values),
        1 <= number <= values.len(),
    ensures
        object_at(
            document_bytes(version, values),
            table_of(offsets_of(header(version).len(), values)),
            number,
        ) == Some(values[number - 1]),
{
    let b = document_bytes(version, values);
    let start = header(version).len();
    let offsets = offsets_of(start, values);
    let table = table_of(offsets);
    lemma_layout(version, values);
    lemma_offsets_fit(version, values);
    lemma_body_at(b, start as int, values, number - 1);
    assert(offsets[number - 1] == start + body(values.take(number - 1)).len());
    assert(table[number] == in_use(offsets[number - 1]));
    object_is_read_back(b, offsets[number - 1] as int, number as nat, values[number - 1], table);
}

/// Values without a fault have no first fault.
pub proof fn lemma_no_fault(objects: Seq<Option<Value>>, from: int)
    requires
        0 <= from,
        forall|i: int|
            0 <= i < objects.len() ==> ((#[trigger] objects[i]) matches Some(v) ==> fault_of(v)
                is None),
    ensures
        first_fault(objects, from) is None,
    decreases objects.len() - from,
{
    if from < objects.len() {
        lemma_no_fault(objects, from + 1);
    }
}

/// What is written for a document is read back as that document.
pub proof fn written_is_read(version: Seq<u8>, values: Seq<Value>)
    requires
        readable(version, values),
    ensures
        parse_document(document_bytes(version, values)) == Ok::<DocumentView, ParseError>(
            written_document(version, values),
        ),
{
    let b = document_bytes(version, values);
    let start = header(version).len();
    let offsets = offsets_of(start, values);
    let table = table_of(offsets);
    let written = written_document(version, values);
    lemma_tables(version, values);
    lemma_layout(version, values);
    lemma_header_version(b, version);
    assert(table =~= written.xref);
    assert(loaded(b, table) =~= written.objects) by {
        assert forall|i: int| 0 <= i < table.len() implies loaded(b, table)[i]
            == written.objects[i] by {
            if i >= 1 {
                lemma_loaded(version, values, i);
            }
        }
    }
    assert forall|i: int| 0 <= i < written.objects.len() implies ((
    #[trigger] written.objects[i]) matches Some(v) ==> fault_of(v) is None) by {
        if i >= 1 {
            assert(fault_of(values[i - 1]) is None);
        }
    }
    lemma_no_fault(written.objects, 0);
    assert(written_trailer(values.len()) == written.trailer);
}

} // verus!
