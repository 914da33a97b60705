//! Numbered objects: their header, their value, and the payload of a stream.

use crate::lexer::{
    read_unsigned, scan_word, skip, skip_space, text, unsigned_word, word_end, word_is,
};
use crate::object::{entries_view, get, lookup, Object, ObjectId, Value};
use crate::syntax::{copy_range, parse_value, read_value, MAX_DEPTH};
use crate::table::{entry_at, lookup_entry, XrefEntry, MAX_OBJECT_NUMBER};
use vstd::prelude::*;

verus! {

/// The header `number generation obj` written at `pos`: the identity it
/// names and the position behind `obj`.
pub open spec fn object_header(b: Seq<u8>, pos: int) -> Option<(ObjectId, int)> {
    let n_end = word_end(b, pos);
    let g_start = skip_space(b, n_end, false);
    let g_end = word_end(b, g_start);
    let k_start = skip_space(b, g_end, false);
    let k_end = word_end(b, k_start);
    match (
        unsigned_word(b, pos, n_end, MAX_OBJECT_NUMBER as nat),
        unsigned_word(b, g_start, g_end, 0xffff),
    ) {
        (Some(n), Some(g)) => if b.subrange(k_start, k_end) == text("obj") {
            Some((ObjectId { number: n as u32, generation: g as u16 }, k_end))
        } else {
            None
        },
        _ => None,
    }
}

/// Reads the header of a numbered object at `pos`.
pub fn read_object_header(b: &[u8], pos: usize) -> (r: Option<(ObjectId, usize)>)
    ensures
        match r {
            Some((id, end)) => object_header(b@, pos as int) == Some((id, end as int)) && pos
                < end <= b.len(),
            None => object_header(b@, pos as int) is None,
        },
{
    if pos >= b.len() {
        return None;
    }
    let n_end = scan_word(b, pos);
    let g_start = skip(b, n_end);
    let g_end = scan_word(b, g_start);
    let k_start = skip(b, g_end);
    let k_end = scan_word(b, k_start);
    match read_unsigned(b, pos, n_end, MAX_OBJECT_NUMBER as u64) {
        Some(n) => match read_unsigned(b, g_start, g_end, 0xffff) {
            Some(g) => {
                if word_is(b, k_start, k_end, "obj".as_bytes()) {
                    Some((ObjectId { number: n as u32, generation: g as u16 }, k_end))
                } else {
                    None
                }
            },
            None => None,
        },
        None => None,
    }
}

/// The first position at or after `pos` where `word` is written, or the
/// length of `b` where it is written nowhere.
pub open spec fn find(b: Seq<u8>, pos: int, word: Seq<u8>) -> int
    decreases b.len() - pos,
{
    if pos < 0 || pos >= b.len() || pos + word.len() > b.len() {
        b.len() as int
    } else if b.subrange(pos, pos + word.len()) == word {
        pos
    } else {
        find(b, pos + 1, word)
    }
}

/// Finds where `word` is written first, from `pos` on.
pub fn find_word(b: &[u8], pos: usize, word: &[u8]) -> (r: usize)
    ensures
        r == find(b@, pos as int, word@),
        r <= b.len(),
        r < b.len() ==> pos <= r && r + word.len() <= b.len(),
{
    if pos > b.len() {
        return b.len();
    }
    let mut i: usize = pos;
    while i < b.len() && b.len() - i >= word.len()
        invariant
            pos <= i <= b.len(),
            find(b@, pos as int, word@) == find(b@, i as int, word@),
        decreases b.len() - i,
    {
        if word_is(b, i, i + word.len(), word) {
            return i;
        }
        i += 1;
    }
    b.len()
}

/// Where the payload of a stream starts, given the position behind its
/// dictionary: behind the word `stream` and the line end that follows it.
/// `None` where no stream follows.
pub open spec fn stream_start(b: Seq<u8>, pos: int) -> Option<int> {
    let k = skip_space(b, pos, false);
    let k_end = word_end(b, k);
    if b.subrange(k, k_end) == text("stream") {
        if k_end + 1 < b.len() && b[k_end] == 13 && b[k_end + 1] == 10 {
            Some(k_end + 2)
        } else if k_end < b.len() && (b[k_end] == 10 || b[k_end] == 13) {
            Some(k_end + 1)
        } else {
            Some(k_end)
        }
    } else {
        None
    }
}

/// Finds where the payload of a stream starts.
pub fn read_stream_start(b: &[u8], pos: usize) -> (r: Option<usize>)
    requires
        pos <= b.len(),
    ensures
        match r {
            Some(start) => stream_start(b@, pos as int) == Some(start as int) && pos <= start
                <= b.len(),
            None => stream_start(b@, pos as int) is None,
        },
{
    let k = skip(b, pos);
    let k_end = scan_word(b, k);
    if word_is(b, k, k_end, "stream".as_bytes()) {
        if b.len() - k_end > 1 && b[k_end] == 13 && b[k_end + 1] == 10 {
            Some(k_end + 2)
        } else if k_end < b.len() && (b[k_end] == 10 || b[k_end] == 13) {
            Some(k_end + 1)
        } else {
            Some(k_end)
        }
    } else {
        None
    }
}

/// The integer that the object `id` holds, where the table places an object
/// of that identity whose value is an integer.
pub open spec fn integer_object(b: Seq<u8>, table: Seq<XrefEntry>, id: ObjectId) -> Option<int> {
    match entry_at(table, id.number as int) {
        XrefEntry::InUse { offset, generation } => match object_header(b, offset as int) {
            Some((found, h_end)) => match parse_value(b, skip_space(b, h_end, false), 0) {
                Some((Value::Integer(n), _)) => if found == id && generation == id.generation {
                    Some(n)
                } else {
                    None
                },
                _ => None,
            },
            None => None,
        },
        _ => None,
    }
}

/// Reads the integer that the object `id` holds.
pub fn read_integer_object(b: &[u8], table: &Vec<XrefEntry>, id: ObjectId) -> (r: Option<i64>)
    ensures
        match r {
            Some(n) => integer_object(b@, table@, id) == Some(n as int),
            None => integer_object(b@, table@, id) is None,
        },
{
    match lookup_entry(table, id.number as usize) {
        XrefEntry::InUse { offset, generation } => match read_object_header(b, offset) {
            Some((found, h_end)) => match read_value(b, skip(b, h_end), 0) {
                Some((Object::Integer(n), _)) => {
                    if found == id && generation == id.generation {
                        Some(n)
                    } else {
                        None
                    }
                },
                _ => None,
            },
            None => None,
        },
        _ => None,
    }
}

/// The length that a stream's dictionary declares: the integer under
/// `Length`, or the integer held by the object that `Length` refers to.
pub open spec fn declared_length(
    b: Seq<u8>,
    table: Seq<XrefEntry>,
    entries: Seq<(Seq<u8>, Value)>,
) -> Option<int> {
    match lookup(entries, text("Length")) {
        Some(Value::Integer(n)) => Some(n),
        Some(Value::Reference(id)) => integer_object(b, table, id),
        _ => None,
    }
}

/// Reads the length that a stream's dictionary declares.
pub fn read_declared_length(
    b: &[u8],
    table: &Vec<XrefEntry>,
    entries: &Vec<(Vec<u8>, Object)>,
) -> (r: Option<i64>)
    ensures
        match r {
            Some(n) => declared_length(b@, table@, entries_view(entries@)) == Some(n as int),
            None => declared_length(b@, table@, entries_view(entries@)) is None,
        },
{
    match get(entries, "Length".as_bytes()) {
        Some(Object::Integer(n)) => Some(*n),
        Some(Object::Reference(id)) => read_integer_object(b, table, *id),
        _ => None,
    }
}

/// The end of a payload of the declared length and the position behind the
/// `endstream` that closes it; `None` where no length is declared or none
/// that is followed by `endstream`.
pub open spec fn declared_extent(b: Seq<u8>, start: int, declared: Option<int>) -> Option<
    (int, int),
> {
    match declared {
        Some(n) => {
            let k = skip_space(b, start + n, false);
            let k_end = word_end(b, k);
            if 0 <= n && start + n <= b.len() && b.subrange(k, k_end) == text("endstream") {
                Some((start + n, k_end))
            } else {
                None
            }
        },
        None => None,
    }
}

/// The position `k` without the line end that stands just before it, as far
/// as that line end lies at or behind `start`.
pub open spec fn trim_line_end(b: Seq<u8>, start: int, k: int) -> int {
    if k - 2 >= start && b[k - 2] == 13 && b[k - 1] == 10 {
        k - 2
    } else if k - 1 >= start && (b[k - 1] == 10 || b[k - 1] == 13) {
        k - 1
    } else {
        k
    }
}

/// The end of a payload that is closed by the first `endstream` behind
/// `start`, without the line end before that word, and the position behind
/// the word.
pub open spec fn scanned_extent(b: Seq<u8>, start: int) -> Option<(int, int)> {
    let k = find(b, start, text("endstream"));
    if k >= b.len() {
        None
    } else {
        Some((trim_line_end(b, start, k), k + text("endstream").len()))
    }
}

/// Where the payload that starts at `start` ends, and the position behind
/// its `endstream`: by the declared length where that leads to `endstream`,
/// otherwise by looking for the word.
pub open spec fn stream_extent(b: Seq<u8>, start: int, declared: Option<int>) -> Option<
    (int, int),
> {
    match declared_extent(b, start, declared) {
        Some(extent) => Some(extent),
        None => scanned_extent(b, start),
    }
}

/// Finds where the payload that starts at `start` ends.
pub fn read_stream_extent(b: &[u8], start: usize, declared: Option<i64>) -> (r: Option<
    (usize, usize),
>)
    requires
        start <= b.len(),
    ensures
        match r {
            Some((data_end, after)) => stream_extent(
                b@,
                start as int,
                match declared {
                    Some(n) => Some(n as int),
                    None => None,
                },
            ) == Some((data_end as int, after as int)) && start <= data_end <= after <= b.len(),
            None => stream_extent(
                b@,
                start as int,
                match declared {
                    Some(n) => Some(n as int),
                    None => None,
                },
            ) is None,
        },
{
    let word = "endstream".as_bytes();
    match declared {
        Some(n) => {
            if 0 <= n && n as u64 <= (b.len() - start) as u64 {
                let data_end = start + n as usize;
                let k = skip(b, data_end);
                let k_end = scan_word(b, k);
                if word_is(b, k, k_end, word) {
                    return Some((data_end, k_end));
                }
            }
        },
        None => {},
    }
    let k = find_word(b, start, word);
    if k >= b.len() {
        None
    } else {
        let data_end = if k - start >= 2 && b[k - 2] == 13 && b[k - 1] == 10 {
            k - 2
        } else if k - start >= 1 && (b[k - 1] == 10 || b[k - 1] == 13) {
            k - 1
        } else {
            k
        };
        Some((data_end, k + word.len()))
    }
}

/// The value of a numbered object, given the value `v` that was read behind
/// its header and the position behind `v`: a dictionary that is followed by
/// a stream becomes a stream with its payload.
pub open spec fn with_stream(b: Seq<u8>, table: Seq<XrefEntry>, v: Value, v_end: int) -> Option<
    (Value, int),
> {
    match v {
        Value::Dictionary(entries) => match stream_start(b, v_end) {
            Some(start) => match stream_extent(b, start, declared_length(b, table, entries)) {
                Some((data_end, after)) => Some(
                    (Value::Stream(entries, b.subrange(start, data_end)), after),
                ),
                None => None,
            },
            None => Some((v, v_end)),
        },
        _ => Some((v, v_end)),
    }
}

/// The numbered object written at `pos`: its identity, its value and the
/// position behind its `endobj`. `table` serves to find the length of a
/// stream where the stream's dictionary refers to it.
pub open spec fn parse_indirect(b: Seq<u8>, pos: int, table: Seq<XrefEntry>) -> Option<
    (ObjectId, Value, int),
> {
    match object_header(b, pos) {
        Some((id, h_end)) => match parse_value(
            b,
            skip_space(b, h_end, false),
            MAX_DEPTH as nat,
        ) {
            Some((v, v_end)) => match with_stream(b, table, v, v_end) {
                Some((body, body_end)) => {
                    let k = skip_space(b, body_end, false);
                    let k_end = word_end(b, k);
                    if b.subrange(k, k_end) == text("endobj") {
                        Some((id, body, k_end))
                    } else {
                        None
                    }
                },
                None => None,
            },
            None => None,
        },
        None => None,
    }
}

/// Turns a dictionary that is followed by a stream into that stream.
pub fn attach_stream(b: &[u8], table: &Vec<XrefEntry>, o: Object, v_end: usize) -> (r: Option<
    (Object, usize),
>)
    requires
        v_end <= b.len(),
    ensures
        match r {
            Some((body, end)) => with_stream(b@, table@, o@, v_end as int) == Some(
                (body@, end as int),
            ) && v_end <= end <= b.len(),
            None => with_stream(b@, table@, o@, v_end as int) is None,
        },
{
    match o {
        Object::Dictionary(entries) => {
            match read_stream_start(b, v_end) {
                Some(start) => {
                    let declared = read_declared_length(b, table, &entries);
                    match read_stream_extent(b, start, declared) {
                        Some((data_end, after)) => {
                            let data = copy_range(b, start, data_end);
                            Some((Object::Stream(entries, data), after))
                        },
                        None => None,
                    }
                },
                None => Some((Object::Dictionary(entries), v_end)),
            }
        },
        other => Some((other, v_end)),
    }
}

/// Reads the numbered object written at `pos`.
pub fn read_indirect(b: &[u8], pos: usize, table: &Vec<XrefEntry>) -> (r: Option<
    (ObjectId, Object, usize),
>)
    ensures
        match r {
            Some((id, o, end)) => parse_indirect(b@, pos as int, table@) == Some(
                (id, o@, end as int),
            ) && pos < end <= b.len(),
            None => parse_indirect(b@, pos as int, table@) is None,
        },
{
    match read_object_header(b, pos) {
        Some((id, h_end)) => match read_value(b, skip(b, h_end), MAX_DEPTH) {
            Some((v, v_end)) => match attach_stream(b, table, v, v_end) {
                Some((body, body_end)) => {
                    let k = skip(b, body_end);
                    let k_end = scan_word(b, k);
                    if word_is(b, k, k_end, "endobj".as_bytes()) {
                        Some((id, body, k_end))
                    } else {
                        None
                    }
                },
                None => None,
            },
            None => None,
        },
        None => None,
    }
}

} // verus!
