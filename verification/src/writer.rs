//! How values and whole documents are written as bytes.
//!
//! `serialize` and `document_bytes` say which bytes stand for a value and
//! for a document; the writers are proved to produce exactly those. What
//! is written depends on the values alone, so writing the same document
//! twice gives the same bytes.

use crate::lexer::{is_regular, spec_is_regular, text};
use crate::object::{bytes_equal, entries_view, items_view, Object, ObjectId, Value};
use vstd::prelude::*;
use vstd::slice::slice_to_vec;

verus! {

/// The digits of a number.
pub open spec fn decimal(n: nat) -> Seq<u8>
    decreases n,
{
    if n < 10 {
        seq![(48 + n) as u8]
    } else {
        decimal(n / 10).push((48 + n % 10) as u8)
    }
}

/// The digits of an integer, behind a minus sign where it is negative.
pub open spec fn signed_decimal(n: int) -> Seq<u8> {
    if n < 0 {
        seq![45u8] + decimal((-n) as nat)
    } else {
        decimal(n as nat)
    }
}

/// The last `width` digits of a number, with leading zeros.
pub open spec fn padded(n: nat, width: nat) -> Seq<u8>
    decreases width,
{
    if width == 0 {
        Seq::empty()
    } else {
        padded(n / 10, (width - 1) as nat).push((48 + n % 10) as u8)
    }
}

/// The hexadecimal digit for a value below 16.
pub open spec fn spec_hex_digit(d: u8) -> u8 {
    if d < 10 {
        (48 + d) as u8
    } else {
        (55 + d) as u8
    }
}

#[verifier::when_used_as_spec(spec_hex_digit)]
pub fn hex_digit(d: u8) -> (r: u8)
    requires
        d < 16,
    ensures
        r == spec_hex_digit(d),
{
    if d < 10 {
        48 + d
    } else {
        55 + d
    }
}

/// Two hexadecimal digits for each byte.
pub open spec fn hex_text(s: Seq<u8>) -> Seq<u8>
    decreases s.len(),
{
    if s.len() == 0 {
        Seq::empty()
    } else {
        hex_text(s.drop_last()).push(spec_hex_digit(s.last() / 16)).push(
            spec_hex_digit(s.last() % 16),
        )
    }
}

/// Whether a byte of a name is written as it is: a regular, printable byte
/// other than `#`.
pub open spec fn spec_is_plain(c: u8) -> bool {
    spec_is_regular(c) && c != 35 && 33 <= c <= 126
}

#[verifier::when_used_as_spec(spec_is_plain)]
pub fn is_plain(c: u8) -> (r: bool)
    ensures
        r == spec_is_plain(c),
{
    is_regular(c) && c != 35 && 33 <= c && c <= 126
}

/// The text of a name: a byte that is not plain is written as `#` and two
/// hexadecimal digits.
pub open spec fn name_text(s: Seq<u8>) -> Seq<u8>
    decreases s.len(),
{
    if s.len() == 0 {
        Seq::empty()
    } else if spec_is_plain(s.last()) {
        name_text(s.drop_last()).push(s.last())
    } else {
        name_text(s.drop_last()).push(35u8).push(spec_hex_digit(s.last() / 16)).push(
            spec_hex_digit(s.last() % 16),
        )
    }
}

/// The bytes that stand for a value.
///
/// Strings are written in hexadecimal. A stream's dictionary is written
/// without its `Length` entries and with the length of its payload instead.
pub open spec fn serialize(v: Value) -> Seq<u8>
    decreases v,
{
    match v {
        Value::Null => text("null"),
        Value::Boolean(b) => if b {
            text("true")
        } else {
            text("false")
        },
        Value::Integer(n) => signed_decimal(n),
        Value::Real(d) => d,
        Value::String(s) => seq![60u8] + hex_text(s) + seq![62u8],
        Value::Name(n) => seq![47u8] + name_text(n),
        Value::Array(items) => seq![91u8] + serialize_items(items) + seq![93u8],
        Value::Dictionary(entries) => text("<<") + serialize_entries(entries, None) + text(">>"),
        Value::Stream(entries, data) => text("<<") + serialize_entries(
            entries,
            Some(text("Length")),
        ) + text("/Length ") + decimal(data.len()) + text(">>\nstream\n") + data + text(
            "\nendstream",
        ),
        Value::Reference(id) => decimal(id.number as nat) + seq![32u8] + decimal(
            id.generation as nat,
        ) + text(" R"),
    }
}

/// The bytes of the items of an array, each followed by a space.
pub open spec fn serialize_items(items: Seq<Value>) -> Seq<u8>
    decreases items,
{
    if items.len() == 0 {
        Seq::empty()
    } else {
        serialize_items(items.drop_last()) + serialize(items.last()) + seq![32u8]
    }
}

/// The bytes of the entries of a dictionary, but for those under the key
/// `skip`.
pub open spec fn serialize_entries(entries: Seq<(Seq<u8>, Value)>, skip: Option<Seq<u8>>) -> Seq<
    u8,
>
    decreases entries,
{
    if entries.len() == 0 {
        Seq::empty()
    } else if skip == Some(entries.last().0) {
        serialize_entries(entries.drop_last(), skip)
    } else {
        serialize_entries(entries.drop_last(), skip) + seq![47u8] + name_text(entries.last().0)
            + seq![32u8] + serialize(entries.last().1) + seq![32u8]
    }
}

/// Appends the bytes of a word.
pub fn write_text(word: &str, out: &mut Vec<u8>)
    ensures
        final(out)@ == old(out)@ + text(word),
{
    out.extend_from_slice(word.as_bytes());
}

/// Appends the digits of a number.
pub fn write_decimal(n: u64, out: &mut Vec<u8>)
    ensures
        final(out)@ == old(out)@ + decimal(n as nat),
    decreases n,
{
    if n >= 10 {
        write_decimal(n / 10, out);
    }
    out.push(48 + (n % 10) as u8);
    assert(out@ =~= old(out)@ + decimal(n as nat));
}

/// Appends the last `width` digits of a number, with leading zeros.
pub fn write_padded(n: u64, width: usize, out: &mut Vec<u8>)
    ensures
        final(out)@ == old(out)@ + padded(n as nat, width as nat),
    decreases width,
{
    if width > 0 {
        write_padded(n / 10, width - 1, out);
        out.push(48 + (n % 10) as u8);
    }
    assert(out@ =~= old(out)@ + padded(n as nat, width as nat));
}

/// Appends the digits of an integer.
pub fn write_integer(n: i64, out: &mut Vec<u8>)
    ensures
        final(out)@ == old(out)@ + signed_decimal(n as int),
{
    if n < 0 {
        out.push(45);
        let magnitude: u64 = if n == i64::MIN {
            0x8000_0000_0000_0000
        } else {
            (-n) as u64
        };
        write_decimal(magnitude, out);
        assert(out@ =~= old(out)@ + signed_decimal(n as int));
    } else {
        write_decimal(n as u64, out);
    }
}

/// Appends two hexadecimal digits for each byte.
pub fn write_hex(s: &Vec<u8>, out: &mut Vec<u8>)
    ensures
        final(out)@ == old(out)@ + hex_text(s@),
{
    let mut i: usize = 0;
    assert(s@.take(0) =~= Seq::empty());
    assert(out@ =~= old(out)@ + hex_text(s@.take(0)));
    while i < s.len()
        invariant
            i <= s.len(),
            out@ == old(out)@ + hex_text(s@.take(i as int)),
        decreases s.len() - i,
    {
        proof {
            assert(s@.take(i + 1).drop_last() =~= s@.take(i as int));
            assert(s@.take(i + 1).last() == s@[i as int]);
        }
        let c = s[i];
        out.push(hex_digit(c / 16));
        out.push(hex_digit(c % 16));
        i += 1;
        assert(out@ =~= old(out)@ + hex_text(s@.take(i as int)));
    }
    assert(s@.take(s.len() as int) =~= s@);
}

/// Appends the text of a name.
pub fn write_name(s: &Vec<u8>, out: &mut Vec<u8>)
    ensures
        final(out)@ == old(out)@ + name_text(s@),
{
    let mut i: usize = 0;
    assert(s@.take(0) =~= Seq::empty());
    assert(out@ =~= old(out)@ + name_text(s@.take(0)));
    while i < s.len()
        invariant
            i <= s.len(),
            out@ == old(out)@ + name_text(s@.take(i as int)),
        decreases s.len() - i,
    {
        proof {
            assert(s@.take(i + 1).drop_last() =~= s@.take(i as int));
            assert(s@.take(i + 1).last() == s@[i as int]);
        }
        let c = s[i];
        if is_plain(c) {
            out.push(c);
        } else {
            out.push(35);
            out.push(hex_digit(c / 16));
            out.push(hex_digit(c % 16));
        }
        i += 1;
        assert(out@ =~= old(out)@ + name_text(s@.take(i as int)));
    }
    assert(s@.take(s.len() as int) =~= s@);
}

/// Appends the bytes that stand for `o`.
pub fn write_value(o: &Object, out: &mut Vec<u8>)
    ensures
        final(out)@ == old(out)@ + serialize(o@),
    decreases *o,
{
    match o {
        Object::Null => {
            write_text("null", out);
        },
        Object::Boolean(b) => {
            if *b {
                write_text("true", out);
            } else {
                write_text("false", out);
            }
        },
        Object::Integer(n) => {
            write_integer(*n, out);
        },
        Object::Real(d) => {
            out.extend_from_slice(d.as_slice());
        },
        Object::String(s) => {
            out.push(60);
            write_hex(s, out);
            out.push(62);
            assert(out@ =~= old(out)@ + serialize(o@));
        },
        Object::Name(n) => {
            out.push(47);
            write_name(n, out);
            assert(out@ =~= old(out)@ + serialize(o@));
        },
        Object::Array(items) => {
            out.push(91);
            let ghost view = items_view(items@);
            let ghost start = out@;
            let mut i: usize = 0;
            assert(view.take(0) =~= Seq::empty());
            assert(out@ =~= start + serialize_items(view.take(0)));
            while i < items.len()
                invariant
                    o is Array,
                    o->Array_0 == *items,
                    view == items_view(items@),
                    i <= items.len(),
                    out@ == start + serialize_items(view.take(i as int)),
                decreases items.len() - i,
            {
                proof {
                    assert(decreases_to!(*o => o->Array_0));
                    assert(decreases_to!(*items => items[i as int]));
                    assert(view.take(i + 1).drop_last() =~= view.take(i as int));
                    assert(view.take(i + 1).last() == items[i as int]@);
                }
                write_value(&items[i], out);
                out.push(32);
                i += 1;
                assert(out@ =~= start + serialize_items(view.take(i as int)));
            }
            assert(view.take(items.len() as int) =~= view);
            out.push(93);
            assert(out@ =~= old(out)@ + serialize(o@));
        },
        Object::Dictionary(entries) => {
            write_text("<<", out);
            proof {
                assert(decreases_to!(*o => o->Dictionary_0));
            }
            write_entries(entries, None, out);
            write_text(">>", out);
            assert(out@ =~= old(out)@ + serialize(o@));
        },
        Object::Stream(entries, data) => {
            write_text("<<", out);
            proof {
                assert(decreases_to!(*o => o->Stream_0));
            }
            write_entries(entries, Some("Length".as_bytes()), out);
            write_text("/Length ", out);
            write_decimal(data.len() as u64, out);
            write_text(">>\nstream\n", out);
            out.extend_from_slice(data.as_slice());
            write_text("\nendstream", out);
            assert(out@ =~= old(out)@ + serialize(o@));
        },
        Object::Reference(id) => {
            write_decimal(id.number as u64, out);
            out.push(32);
            write_decimal(id.generation as u64, out);
            write_text(" R", out);
            assert(out@ =~= old(out)@ + serialize(o@));
        },
    }
}

/// The key to leave out, as a sequence.
pub open spec fn skip_view(skip: Option<&[u8]>) -> Option<Seq<u8>> {
    match skip {
        Some(key) => Some(key@),
        None => None,
    }
}

/// Appends the bytes of the entries of a dictionary, but for those under
/// the key `skip`.
pub fn write_entries(entries: &Vec<(Vec<u8>, Object)>, skip: Option<&[u8]>, out: &mut Vec<u8>)
    ensures
        final(out)@ == old(out)@ + serialize_entries(entries_view(entries@), skip_view(skip)),
    decreases *entries,
{
    let ghost view = entries_view(entries@);
    let ghost left_out = skip_view(skip);
    let mut i: usize = 0;
    assert(view.take(0) =~= Seq::empty());
    assert(out@ =~= old(out)@ + serialize_entries(view.take(0), left_out));
    while i < entries.len()
        invariant
            view == entries_view(entries@),
            left_out == skip_view(skip),
            i <= entries.len(),
            out@ == old(out)@ + serialize_entries(view.take(i as int), left_out),
        decreases entries.len() - i,
    {
        proof {
            assert(decreases_to!(*entries => entries[i as int]));
            assert(decreases_to!(entries[i as int] => entries[i as int].1));
            assert(view.take(i + 1).drop_last() =~= view.take(i as int));
            assert(view.take(i + 1).last() == view[i as int]);
        }
        let left = match skip {
            Some(key) => bytes_equal(entries[i].0.as_slice(), key),
            None => false,
        };
        if !left {
            out.push(47);
            write_name(&entries[i].0, out);
            out.push(32);
            write_value(&entries[i].1, out);
            out.push(32);
        }
        i += 1;
        assert(out@ =~= old(out)@ + serialize_entries(view.take(i as int), left_out));
    }
    assert(view.take(entries.len() as int) =~= view);
}

/// The bytes of the object with this number and value.
pub open spec fn object_bytes(number: nat, v: Value) -> Seq<u8> {
    decimal(number) + text(" 0 obj\n") + serialize(v) + text("\nendobj\n")
}

/// The bytes of the objects, numbered from 1 on.
pub open spec fn body(values: Seq<Value>) -> Seq<u8>
    decreases values.len(),
{
    if values.len() == 0 {
        Seq::empty()
    } else {
        body(values.drop_last()) + object_bytes(values.len(), values.last())
    }
}

/// The objects take at least one byte each.
pub proof fn lemma_body_len(values: Seq<Value>)
    ensures
        body(values).len() >= values.len(),
    decreases values.len(),
{
    if values.len() > 0 {
        lemma_body_len(values.drop_last());
        assert(decimal(values.len()).len() >= 1);
    }
}

/// The header of a document of this version.
pub open spec fn header(version: Seq<u8>) -> Seq<u8> {
    text("%PDF-") + version + seq![10u8]
}

/// The rows of the cross-reference table for the objects: the offset of
/// each, where the first object starts at `start`.
pub open spec fn xref_rows(start: nat, values: Seq<Value>) -> Seq<u8>
    decreases values.len(),
{
    if values.len() == 0 {
        Seq::empty()
    } else {
        xref_rows(start, values.drop_last()) + padded(
            start + body(values.drop_last()).len(),
            10,
        ) + text(" 00000 n \n")
    }
}

/// The trailer dictionary of a document with `count` objects: it names the
/// size of the table and object 1 as the root, and no previous revision.
pub open spec fn trailer_value(count: nat) -> Value {
    Value::Dictionary(
        seq![
            (text("Size"), Value::Integer((count + 1) as int)),
            (text("Root"), Value::Reference(ObjectId { number: 1, generation: 0 })),
        ],
    )
}

/// The cross-reference table and the trailer of a document whose objects
/// start at `start` and end at `end`.
pub open spec fn tail(start: nat, end: nat, values: Seq<Value>) -> Seq<u8> {
    text("xref\n0 ") + decimal(values.len() + 1) + text("\n0000000000 65535 f \n") + xref_rows(
        start,
        values,
    ) + text("trailer\n") + serialize(trailer_value(values.len())) + text("\nstartxref\n")
        + decimal(end) + text("\n%%EOF\n")
}

/// The bytes of a whole document: the header, the objects, the
/// cross-reference table and the trailer.
pub open spec fn document_bytes(version: Seq<u8>, values: Seq<Value>) -> Seq<u8> {
    header(version) + body(values) + tail(
        header(version).len(),
        header(version).len() + body(values).len(),
        values,
    )
}

/// Whether a document can be written: its objects end below the largest
/// offset that a row of the cross-reference table holds.
pub open spec fn writable(version: Seq<u8>, values: Seq<Value>) -> bool {
    header(version).len() + body(values).len() < 10_000_000_000
}

/// Writes a document with these objects, numbered from 1 on. `None` where
/// the document cannot be written.
pub fn write_document(version: &[u8], objects: &Vec<Object>) -> (r: Option<Vec<u8>>)
    ensures
        match r {
            Some(bytes) => writable(version@, items_view(objects@)) && bytes@ == document_bytes(
                version@,
                items_view(objects@),
            ),
            None => !writable(version@, items_view(objects@)),
        },
{
    let ghost view = items_view(objects@);
    let mut out: Vec<u8> = Vec::new();
    write_text("%PDF-", &mut out);
    out.extend_from_slice(version);
    out.push(10);
    assert(out@ =~= header(version@));
    let start = out.len();
    let mut offsets: Vec<usize> = Vec::new();
    let mut k: usize = 0;
    assert(view.take(0) =~= Seq::empty());
    assert(out@ =~= header(version@) + body(view.take(0)));
    while k < objects.len()
        invariant
            k <= objects.len(),
            view == items_view(objects@),
            start == header(version@).len(),
            out@ == header(version@) + body(view.take(k as int)),
            offsets.len() == k,
            forall|j: int|
                0 <= j < k ==> (#[trigger] offsets[j]) == start + body(view.take(j)).len(),
        decreases objects.len() - k,
    {
        proof {
            assert(view.take(k + 1).drop_last() =~= view.take(k as int));
            assert(view.take(k + 1).last() == objects[k as int]@);
        }
        offsets.push(out.len());
        write_decimal(k as u64 + 1, &mut out);
        write_text(" 0 obj\n", &mut out);
        write_value(&objects[k], &mut out);
        write_text("\nendobj\n", &mut out);
        k += 1;
        assert(out@ =~= header(version@) + body(view.take(k as int)));
    }
    assert(view.take(objects.len() as int) =~= view);
    let end = out.len();
    if end as u64 >= 10_000_000_000 {
        return None;
    }
    proof {
        lemma_body_len(view);
    }
    let ghost objects_end = out@;
    write_text("xref\n0 ", &mut out);
    write_decimal(objects.len() as u64 + 1, &mut out);
    write_text("\n0000000000 65535 f \n", &mut out);
    let ghost rows_start = out@;
    let mut j: usize = 0;
    assert(out@ =~= rows_start + xref_rows(start as nat, view.take(0)));
    while j < objects.len()
        invariant
            j <= objects.len(),
            view == items_view(objects@),
            offsets.len() == objects.len(),
            forall|i: int|
                0 <= i < offsets.len() ==> (#[trigger] offsets[i]) == start + body(
                    view.take(i),
                ).len(),
            out@ == rows_start + xref_rows(start as nat, view.take(j as int)),
        decreases objects.len() - j,
    {
        proof {
            assert(view.take(j + 1).drop_last() =~= view.take(j as int));
        }
        write_padded(offsets[j] as u64, 10, &mut out);
        write_text(" 00000 n \n", &mut out);
        j += 1;
        assert(out@ =~= rows_start + xref_rows(start as nat, view.take(j as int)));
    }
    write_text("trailer\n", &mut out);
    let mut trailer: Vec<(Vec<u8>, Object)> = Vec::new();
    trailer.push((slice_to_vec("Size".as_bytes()), Object::Integer(objects.len() as i64 + 1)));
    trailer.push(
        (
            slice_to_vec("Root".as_bytes()),
            Object::Reference(ObjectId { number: 1, generation: 0 }),
        ),
    );
    assert(entries_view(trailer@) =~= trailer_value(view.len())->Dictionary_0);
    write_value(&Object::Dictionary(trailer), &mut out);
    write_text("\nstartxref\n", &mut out);
    write_decimal(end as u64, &mut out);
    write_text("\n%%EOF\n", &mut out);
    assert(out@ =~= document_bytes(version@, view));
    Some(out)
}

} // verus!
