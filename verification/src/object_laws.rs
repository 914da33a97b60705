//! What is written is read back: numbered objects.

use crate::entries_laws::lemma_lookup_concat;
use crate::indirect::{
    declared_extent, declared_length, object_header, parse_indirect, stream_extent, stream_start,
    with_stream,
};
use crate::lexer::{skip_space, text, word_end};
use crate::lexer_laws::{
    all_regular, at, lemma_at_concat, lemma_at_subrange, lemma_decimal_digits, lemma_name,
    lemma_skip_nothing, lemma_skip_one, lemma_unsigned, lemma_word,
};
use crate::names::{lemma_object_words, lemma_stream_words, lemma_words};
use crate::object::{key_position, ObjectId, Value};
use crate::syntax::{parse_entries, parse_value, reference_tail, MAX_DEPTH};
use crate::table::{XrefEntry, MAX_OBJECT_NUMBER};
use crate::value_laws::{
    entries_well_formed, lemma_calm_no_number, entries_are_read_back, lemma_first_byte, value_is_read_back,
    well_formed,
};
use crate::writer::{
    decimal, name_text, object_bytes, serialize, serialize_entries, spec_is_plain,
};
use vstd::prelude::*;

verus! {

/// No entry has the key.
pub open spec fn no_key(entries: Seq<(Seq<u8>, Value)>, key: Seq<u8>) -> bool {
    forall|i: int| 0 <= i < entries.len() ==> (#[trigger] entries[i]).0 != key
}

/// Whether a stream names the length of its payload once, as the last
/// entry of its dictionary, and is well formed otherwise.
#[verifier::opaque]
pub open spec fn settled(v: Value) -> bool {
    &&& v matches Value::Stream(entries, data)
    &&& entries.len() >= 1
    &&& entries.last() == (text("Length"), Value::Integer(data.len() as int))
    &&& data.len() <= i64::MAX
    &&& no_key(entries.drop_last(), text("Length"))
    &&& entries_well_formed(entries.drop_last(), (MAX_DEPTH - 1) as nat)
}

/// Whether the value of a numbered object can be read back from what is
/// written for it.
pub open spec fn object_well_formed(v: Value) -> bool {
    well_formed(v, MAX_DEPTH as nat) || settled(v)
}

/// Entries without the key that is left out are written in full.
pub proof fn lemma_nothing_left_out(entries: Seq<(Seq<u8>, Value)>, key: Seq<u8>)
    requires
        no_key(entries, key),
    ensures
        serialize_entries(entries, Some(key)) == serialize_entries(entries, None),
    decreases entries.len(),
{
    if entries.len() > 0 {
        let init = entries.drop_last();
        assert forall|i: int| 0 <= i < init.len() implies (#[trigger] init[i]).0 != key by {
            assert(init[i] == entries[i]);
        }
        lemma_nothing_left_out(init, key);
        assert(entries.last() == entries[entries.len() - 1]);
    }
}

/// A name of plain bytes is written as it is.
pub proof fn lemma_plain_name(s: Seq<u8>)
    requires
        forall|i: int| 0 <= i < s.len() ==> spec_is_plain(#[trigger] s[i]),
    ensures
        name_text(s) == s,
    decreases s.len(),
{
    if s.len() > 0 {
        let init = s.drop_last();
        assert forall|i: int| 0 <= i < init.len() implies spec_is_plain(#[trigger] init[i]) by {
            assert(init[i] == s[i]);
        }
        lemma_plain_name(init);
        assert(s.last() == s[s.len() - 1]);
        assert(init.push(s.last()) =~= s);
    } else {
        assert(name_text(s) =~= s);
    }
}

/// The header of a numbered object that was written is read back.
pub proof fn lemma_header(b: Seq<u8>, pos: int, number: nat)
    requires
        number <= MAX_OBJECT_NUMBER,
        at(b, pos, decimal(number) + text(" 0 obj\n")),
    ensures
        object_header(b, pos) == Some(
            (
                ObjectId { number: number as u32, generation: 0 },
                pos + decimal(number).len() + 6,
            ),
        ),
{
    lemma_object_words();
    let digits = decimal(number);
    let frame = text(" 0 obj\n");
    lemma_decimal_digits(number);
    lemma_at_concat(b, pos, digits, frame);
    let n_end = pos + digits.len();
    assert(b[n_end + 0] == frame[0]);
    assert(b[n_end + 1] == frame[1]);
    assert(b[n_end + 2] == frame[2]);
    assert(b[n_end + 3] == frame[3]);
    assert(b[n_end + 4] == frame[4]);
    assert(b[n_end + 5] == frame[5]);
    assert(b[n_end + 6] == frame[6]);
    lemma_unsigned(b, pos, number, MAX_OBJECT_NUMBER as nat);
    lemma_skip_one(b, n_end);
    let zero = decimal(0);
    assert(zero =~= seq![48u8]);
    assert(at(b, n_end + 1, zero));
    lemma_unsigned(b, n_end + 1, 0, 0xffff);
    lemma_skip_one(b, n_end + 2);
    assert(at(b, n_end + 3, text("obj")));
    assert(all_regular(text("obj")));
    lemma_word(b, n_end + 3, text("obj"));
    lemma_at_subrange(b, n_end + 3, text("obj"));
}

/// The word `endobj` behind a line end is found.
pub proof fn lemma_endobj(b: Seq<u8>, pos: int)
    requires
        at(b, pos, text("\nendobj\n")),
    ensures
        skip_space(b, pos, false) == pos + 1,
        word_end(b, pos + 1) == pos + 7,
        b.subrange(pos + 1, pos + 7) == text("endobj"),
        b.subrange(pos + 1, pos + 7) != text("stream"),
        reference_tail(b, pos) is None,
{
    lemma_object_words();
    let frame = text("\nendobj\n");
    assert(b[pos + 0] == frame[0]);
    assert(b[pos + 1] == frame[1]);
    assert(b[pos + 2] == frame[2]);
    assert(b[pos + 3] == frame[3]);
    assert(b[pos + 4] == frame[4]);
    assert(b[pos + 5] == frame[5]);
    assert(b[pos + 6] == frame[6]);
    assert(b[pos + 7] == frame[7]);
    lemma_skip_one(b, pos);
    assert(at(b, pos + 1, text("endobj")));
    assert(all_regular(text("endobj")));
    lemma_word(b, pos + 1, text("endobj"));
    lemma_at_subrange(b, pos + 1, text("endobj"));
    lemma_calm_no_number(b, pos, pos + 1);
}

/// A key that no entry has is not found.
pub proof fn lemma_no_key(entries: Seq<(Seq<u8>, Value)>, key: Seq<u8>, from: int)
    requires
        no_key(entries, key),
        0 <= from <= entries.len(),
    ensures
        key_position(entries, key, from) == entries.len(),
    decreases entries.len() - from,
{
    if from < entries.len() {
        assert(entries[from].0 != key);
        lemma_no_key(entries, key, from + 1);
    }
}

/// A numbered object with a well-formed value that was written is read
/// back.
pub proof fn lemma_plain_object(
    b: Seq<u8>,
    pos: int,
    number: nat,
    v: Value,
    table: Seq<XrefEntry>,
)
    requires
        number <= MAX_OBJECT_NUMBER,
        well_formed(v, MAX_DEPTH as nat),
        at(b, pos, object_bytes(number, v)),
    ensures
        parse_indirect(b, pos, table) == Some(
            (
                ObjectId { number: number as u32, generation: 0 },
                v,
                pos + object_bytes(number, v).len() - 1,
            ),
        ),
{
    lemma_object_words();
    let digits = decimal(number);
    let frame = text(" 0 obj\n");
    let written = serialize(v);
    let close = text("\nendobj\n");
    lemma_at_concat(b, pos, digits + frame + written, close);
    lemma_at_concat(b, pos, digits + frame, written);
    lemma_header(b, pos, number);
    let h_end = pos + digits.len() + 6;
    let v_start = h_end + 1;
    let v_end = v_start + written.len();
    lemma_at_concat(b, pos, digits, frame);
    assert(b[pos + digits.len() + 6] == frame[6]);
    lemma_first_byte(v, MAX_DEPTH as nat);
    assert(b[v_start + 0] == written[0]);
    lemma_skip_one(b, h_end);
    lemma_endobj(b, v_end);
    assert(b[v_end + 0] == close[0]);
    value_is_read_back(b, v_start, v, MAX_DEPTH as nat);
    assert(with_stream(b, table, v, v_end) == Some((v, v_end)));
}

/// The dictionary of a settled stream that was written is read back.
pub proof fn lemma_stream_dictionary(b: Seq<u8>, start: int, v: Value)
    requires
        settled(v),
        at(b, start, stream_dictionary_text(v)),
    ensures
        parse_value(b, start, MAX_DEPTH as nat) == Some(
            (Value::Dictionary(v->Stream_0), start + stream_dictionary_text(v).len()),
        ),
{
    reveal(settled);
    lemma_object_words();
    lemma_words();
    let entries = v->Stream_0;
    let kept = entries.drop_last();
    let last = entries.last();
    let length = text("Length");
    let n = v->Stream_1.len();
    let depth = (MAX_DEPTH - 1) as nat;
    let open = text("<<");
    let inner = serialize_entries(kept, None);
    let key = text("/Length ");
    let count = decimal(n);
    let close = text(">>");
    lemma_at_concat(b, start, open + inner + key + count, close);
    lemma_at_concat(b, start, open + inner + key, count);
    lemma_at_concat(b, start, open + inner, key);
    lemma_at_concat(b, start, open, inner);
    let inner_at = start + 2;
    let key_at = inner_at + inner.len();
    let count_at = key_at + 8;
    let close_at = count_at + count.len();
    assert(b[start + 0] == open[0]);
    assert(b[start + 1] == open[1]);
    assert(b[key_at + 0] == key[0]);
    assert(b[key_at + 7] == key[7]);
    assert forall|i: int| 0 <= i < length.len() implies b[key_at + 1 + i] == #[trigger] length[i] by {
        assert(b[key_at + (i + 1)] == key[i + 1]);
    }
    assert(at(b, key_at + 1, length));
    assert forall|i: int| 0 <= i < length.len() implies spec_is_plain(#[trigger] length[i]) by {}
    lemma_plain_name(length);
    lemma_name(b, key_at + 1, length, Seq::empty());
    assert(Seq::<u8>::empty() + length =~= length);
    lemma_decimal_digits(n);
    assert(b[count_at + 0] == count[0]);
    lemma_skip_one(b, key_at + 7);
    lemma_skip_nothing(b, key_at);
    assert(b[close_at + 0] == close[0]);
    assert(b[close_at + 1] == close[1]);
    lemma_skip_nothing(b, close_at);
    lemma_calm_no_number(b, close_at, close_at);
    value_is_read_back(b, count_at, Value::Integer(n as int), depth);
    entries_are_read_back(b, inner_at, kept, depth, Seq::empty());
    assert(Seq::<(Seq<u8>, Value)>::empty() + kept =~= kept);
    assert(kept.push(last) =~= entries);
    assert(parse_entries(b, close_at, depth, entries) == Some((entries, close_at + 2)));
    assert(parse_entries(b, key_at, depth, kept) == Some((entries, close_at + 2)));
}

/// The payload of a stream that was written is found by the length that
/// the dictionary names.
pub proof fn lemma_stream_payload(b: Seq<u8>, pos: int, data: Seq<u8>)
    requires
        at(b, pos, text("\nstream\n") + data + text("\nendstream") + text("\nendobj\n")),
    ensures
        stream_start(b, pos) == Some(pos + text("\nstream\n").len()),
        declared_extent(b, pos + text("\nstream\n").len(), Some(data.len() as int)) == Some(
            (
                pos + text("\nstream\n").len() + data.len(),
                pos + stream_payload_text(data).len(),
            ),
        ),
        b.subrange(
            pos + text("\nstream\n").len(),
            pos + text("\nstream\n").len() + data.len(),
        ) == data,
{
    lemma_object_words();
    lemma_stream_words();
    let head = text("\nstream\n");
    let tail = text("\nendstream");
    let close = text("\nendobj\n");
    lemma_at_concat(b, pos, head + data + tail, close);
    lemma_at_concat(b, pos, head + data, tail);
    lemma_at_concat(b, pos, head, data);
    let data_at = pos + 8;
    let data_end = data_at + data.len();
    let object_end = data_end + 10;
    assert(b[pos + 0] == head[0]);
    assert(b[pos + 1] == head[1]);
    assert(b[pos + 7] == head[7]);
    lemma_skip_one(b, pos);
    assert forall|i: int| 0 <= i < text("stream").len() implies b[pos + 1 + i] == #[trigger] text(
        "stream",
    )[i] by {
        assert(b[pos + (i + 1)] == head[i + 1]);
    }
    assert(at(b, pos + 1, text("stream")));
    assert(all_regular(text("stream")));
    lemma_word(b, pos + 1, text("stream"));
    lemma_at_subrange(b, pos + 1, text("stream"));
    assert(b[data_end + 0] == tail[0]);
    assert(b[data_end + 1] == tail[1]);
    assert forall|i: int| 0 <= i < text("endstream").len() implies b[data_end + 1 + i]
        == #[trigger] text("endstream")[i] by {
        assert(b[data_end + (i + 1)] == tail[i + 1]);
    }
    assert(at(b, data_end + 1, text("endstream")));
    assert(all_regular(text("endstream")));
    assert(b[object_end + 0] == close[0]);
    lemma_skip_one(b, data_end);
    lemma_word(b, data_end + 1, text("endstream"));
    lemma_at_subrange(b, data_end + 1, text("endstream"));
    lemma_at_subrange(b, data_at, data);
}

/// The dictionary of a settled stream names the length of its payload.
pub proof fn lemma_stream_length(b: Seq<u8>, table: Seq<XrefEntry>, v: Value)
    requires
        settled(v),
    ensures
        declared_length(b, table, v->Stream_0) == Some(v->Stream_1.len() as int),
{
    reveal(settled);
    let entries = v->Stream_0;
    let kept = entries.drop_last();
    let last = entries.last();
    let length = text("Length");
    lemma_no_key(kept, length, 0);
    lemma_lookup_concat(kept, seq![last], length);
    assert(kept + seq![last] =~= entries);
    assert(seq![last][0] == last);
    assert(key_position(seq![last], length, 0) == 0);
}

/// What is written for the dictionary of a settled stream.
pub open spec fn stream_dictionary_text(v: Value) -> Seq<u8> {
    text("<<") + serialize_entries(v->Stream_0.drop_last(), None) + text("/Length ") + decimal(
        v->Stream_1.len(),
    ) + text(">>")
}

/// What is written for the payload of a stream.
pub open spec fn stream_payload_text(data: Seq<u8>) -> Seq<u8> {
    text("\nstream\n") + data + text("\nendstream")
}

/// What is written for a settled stream: its dictionary and its payload.
pub proof fn lemma_stream_text(v: Value)
    requires
        settled(v),
    ensures
        v is Stream,
        serialize(v) == stream_dictionary_text(v) + stream_payload_text(v->Stream_1),
        stream_dictionary_text(v).len() >= 1,
        stream_dictionary_text(v)[0] == 60,
{
    reveal(settled);
    lemma_object_words();
    lemma_stream_words();
    lemma_words();
    let entries = v->Stream_0;
    let kept = entries.drop_last();
    let length = text("Length");
    assert(entries.last() == entries[entries.len() - 1]);
    lemma_nothing_left_out(kept, length);
    assert(serialize_entries(entries, Some(length)) == serialize_entries(kept, None));
    assert(text(">>\nstream\n") =~= text(">>") + text("\nstream\n"));
    assert(serialize(v) =~= stream_dictionary_text(v) + stream_payload_text(v->Stream_1));
    assert(stream_dictionary_text(v)[0] == text("<<")[0]);
}

/// A settled stream that was written is read back: first its dictionary,
/// then its payload.
pub proof fn lemma_stream_body(b: Seq<u8>, start: int, v: Value, table: Seq<XrefEntry>)
    requires
        settled(v),
        at(b, start, serialize(v) + text("\nendobj\n")),
    ensures
        parse_value(b, start, MAX_DEPTH as nat) == Some(
            (Value::Dictionary(v->Stream_0), start + stream_dictionary_text(v).len()),
        ),
        with_stream(
            b,
            table,
            Value::Dictionary(v->Stream_0),
            start + stream_dictionary_text(v).len(),
        ) == Some((v, start + serialize(v).len())),
{
    let data = v->Stream_1;
    let dictionary = stream_dictionary_text(v);
    let payload = stream_payload_text(data);
    let close = text("\nendobj\n");
    lemma_stream_text(v);
    lemma_at_concat(b, start, dictionary + payload, close);
    lemma_at_concat(b, start, dictionary, payload);
    let d_end = start + dictionary.len();
    lemma_at_concat(b, d_end, payload, close);
    lemma_stream_dictionary(b, start, v);
    lemma_stream_payload(b, d_end, data);
    lemma_stream_length(b, table, v);
    let p_start = d_end + text("\nstream\n").len();
    let p_end = p_start + data.len();
    let after = d_end + payload.len();
    assert(stream_extent(b, p_start, Some(data.len() as int)) == Some((p_end, after)));
    assert(v == Value::Stream(v->Stream_0, data));
}

/// The parts of a numbered object that was written: its header, and its
/// value with the word that closes the object.
pub proof fn lemma_frame_parts(b: Seq<u8>, pos: int, number: nat, written: Seq<u8>)
    requires
        at(b, pos, decimal(number) + text(" 0 obj\n") + written + text("\nendobj\n")),
    ensures
        at(b, pos, decimal(number) + text(" 0 obj\n")),
        at(b, pos + decimal(number).len() + 7, written + text("\nendobj\n")),
        at(b, pos + decimal(number).len() + 7 + written.len(), text("\nendobj\n")),
        b[pos + decimal(number).len() + 6] == 10,
        (decimal(number) + text(" 0 obj\n") + written + text("\nendobj\n")).len() == decimal(
            number,
        ).len() + written.len() + 15,
{
    lemma_object_words();
    let digits = decimal(number);
    let frame = text(" 0 obj\n");
    let close = text("\nendobj\n");
    lemma_at_concat(b, pos, digits + frame + written, close);
    lemma_at_concat(b, pos, digits + frame, written);
    lemma_at_concat(b, pos, digits, frame);
    lemma_at_concat(b, pos + digits.len() + 7, written, close);
    assert(b[pos + digits.len() + 6] == frame[6]);
}

/// A numbered object is read where its header, its value and the word
/// that closes it are read.
pub proof fn lemma_framed(
    b: Seq<u8>,
    pos: int,
    number: nat,
    first: Value,
    first_end: int,
    v: Value,
    v_end: int,
    table: Seq<XrefEntry>,
)
    requires
        number <= MAX_OBJECT_NUMBER,
        at(b, pos, decimal(number) + text(" 0 obj\n")),
        skip_space(b, pos + decimal(number).len() + 6, false) == pos + decimal(number).len() + 7,
        parse_value(b, pos + decimal(number).len() + 7, MAX_DEPTH as nat) == Some(
            (first, first_end),
        ),
        with_stream(b, table, first, first_end) == Some((v, v_end)),
        at(b, v_end, text("\nendobj\n")),
    ensures
        parse_indirect(b, pos, table) == Some(
            (ObjectId { number: number as u32, generation: 0 }, v, v_end + 7),
        ),
{
    lemma_header(b, pos, number);
    lemma_endobj(b, v_end);
}

/// A numbered object that is a settled stream and was written is read
/// back.
pub proof fn lemma_stream_object(
    b: Seq<u8>,
    pos: int,
    number: nat,
    v: Value,
    table: Seq<XrefEntry>,
)
    requires
        number <= MAX_OBJECT_NUMBER,
        settled(v),
        at(b, pos, object_bytes(number, v)),
    ensures
        parse_indirect(b, pos, table) == Some(
            (
                ObjectId { number: number as u32, generation: 0 },
                v,
                pos + object_bytes(number, v).len() - 1,
            ),
        ),
{
    let written = serialize(v);
    let h_end = pos + decimal(number).len() + 6;
    let v_start = h_end + 1;
    lemma_frame_parts(b, pos, number, written);
    lemma_stream_text(v);
    lemma_stream_body(b, v_start, v, table);
    assert(skip_space(b, h_end, false) == v_start) by {
        let close = text("\nendobj\n");
        assert(b[v_start + 0] == (written + close)[0]);
        assert((written + close)[0] == stream_dictionary_text(v)[0]);
        lemma_skip_one(b, h_end);
    }
    lemma_framed(
        b,
        pos,
        number,
        Value::Dictionary(v->Stream_0),
        v_start + stream_dictionary_text(v).len(),
        v,
        v_start + written.len(),
        table,
    );
}

/// A numbered object that was written is read back.
pub proof fn object_is_read_back(b: Seq<u8>, pos: int, number: nat, v: Value, table: Seq<XrefEntry>)
    requires
        number <= MAX_OBJECT_NUMBER,
        object_well_formed(v),
        at(b, pos, object_bytes(number, v)),
    ensures
        parse_indirect(b, pos, table) == Some(
            (
                ObjectId { number: number as u32, generation: 0 },
                v,
                pos + object_bytes(number, v).len() - 1,
            ),
        ),
{
    if well_formed(v, MAX_DEPTH as nat) {
        lemma_plain_object(b, pos, number, v, table);
    } else {
        lemma_stream_object(b, pos, number, v, table);
    }
}

} // verus!
