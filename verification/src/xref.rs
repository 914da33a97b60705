//! Cross-reference sections, trailers, and the chain of revisions that a
//! document's end points to.

use crate::lexer::{
    read_unsigned, scan_word, skip, skip_space, text, unsigned_word, word_end, word_is,
};
use crate::object::{entries_view, get, lookup, Object, ObjectId, Value};
use crate::syntax::{parse_value, read_value, MAX_DEPTH};
use crate::table::{record, record_entry, XrefEntry, MAX_OBJECT_NUMBER};
use vstd::prelude::*;

verus! {

/// How many revisions the chain of a document may hold.
pub const MAX_REVISIONS: usize = 1024;

/// Why the bytes of a document could not be read.
#[derive(Clone, Copy, Debug, PartialEq, Eq, Structural)]
pub enum ParseError {
    /// No `startxref` with an offset behind it was found.
    MissingStartXref,
    /// A cross-reference section or its trailer is malformed.
    MalformedXref,
    /// The chain of revisions is longer than `MAX_REVISIONS`.
    TooManyRevisions,
    /// The document is encrypted.
    Encrypted,
    /// The cross-reference data is held in a stream.
    CompressedXref,
    /// Objects are held inside an object stream.
    CompressedObjects,
    /// The document is linearized.
    Linearized,
}

/// The entry point of a document: the root catalog, the number of objects,
/// where the previous revision's section starts, and the info dictionary.
#[derive(Clone, Copy, Debug, PartialEq, Eq)]
pub struct Trailer {
    pub root: Option<ObjectId>,
    pub size: u32,
    pub prev: Option<usize>,
    pub info: Option<ObjectId>,
}

/// The trailer without any entry.
pub open spec fn empty_trailer() -> Trailer {
    Trailer { root: None, size: 0, prev: None, info: None }
}

/// The reference stored under `key`, if the value there is one.
pub open spec fn reference_under(entries: Seq<(Seq<u8>, Value)>, key: Seq<u8>) -> Option<ObjectId> {
    match lookup(entries, key) {
        Some(Value::Reference(id)) => Some(id),
        _ => None,
    }
}

/// The integer stored under `key`, if the value there is one between 0 and
/// `max`.
pub open spec fn natural_under(entries: Seq<(Seq<u8>, Value)>, key: Seq<u8>, max: int) -> Option<
    int,
> {
    match lookup(entries, key) {
        Some(Value::Integer(n)) => if 0 <= n <= max {
            Some(n)
        } else {
            None
        },
        _ => None,
    }
}

/// The largest offset that both a `usize` and an `i64` hold.
pub open spec fn spec_max_offset() -> u64 {
    if usize::MAX <= i64::MAX {
        usize::MAX as u64
    } else {
        i64::MAX as u64
    }
}

#[verifier::when_used_as_spec(spec_max_offset)]
pub fn max_offset() -> (r: u64)
    ensures
        r == spec_max_offset(),
{
    if usize::MAX as u64 <= i64::MAX as u64 {
        usize::MAX as u64
    } else {
        i64::MAX as u64
    }
}

/// The trailer that a trailer dictionary describes.
pub open spec fn trailer_of(entries: Seq<(Seq<u8>, Value)>) -> Trailer {
    Trailer {
        root: reference_under(entries, text("Root")),
        size: match natural_under(entries, text("Size"), u32::MAX as int) {
            Some(n) => n as u32,
            None => 0,
        },
        prev: match natural_under(entries, text("Prev"), spec_max_offset() as int) {
            Some(n) => Some(n as usize),
            None => None,
        },
        info: reference_under(entries, text("Info")),
    }
}

/// The reference stored under `key`.
pub fn read_reference_under(entries: &Vec<(Vec<u8>, Object)>, key: &[u8]) -> (r: Option<ObjectId>)
    ensures
        r == reference_under(entries_view(entries@), key@),
{
    match get(entries, key) {
        Some(Object::Reference(id)) => Some(*id),
        _ => None,
    }
}

/// The integer between 0 and `max` stored under `key`.
pub fn read_natural_under(entries: &Vec<(Vec<u8>, Object)>, key: &[u8], max: u64) -> (r: Option<
    u64,
>)
    requires
        max <= i64::MAX,
    ensures
        match r {
            Some(n) => natural_under(entries_view(entries@), key@, max as int) == Some(n as int),
            None => natural_under(entries_view(entries@), key@, max as int) is None,
        },
{
    match get(entries, key) {
        Some(Object::Integer(n)) => {
            if 0 <= *n && *n as u64 <= max {
                Some(*n as u64)
            } else {
                None
            }
        },
        _ => None,
    }
}

/// Builds the trailer that a trailer dictionary describes.
pub fn read_trailer(entries: &Vec<(Vec<u8>, Object)>) -> (r: Trailer)
    ensures
        r == trailer_of(entries_view(entries@)),
{
    let size = match read_natural_under(entries, "Size".as_bytes(), u32::MAX as u64) {
        Some(n) => n as u32,
        None => 0,
    };
    let prev = match read_natural_under(entries, "Prev".as_bytes(), max_offset()) {
        Some(n) => Some(n as usize),
        None => None,
    };
    Trailer {
        root: read_reference_under(entries, "Root".as_bytes()),
        size,
        prev,
        info: read_reference_under(entries, "Info".as_bytes()),
    }
}

/// The table after the `count` entries written from `pos` on were recorded
/// for the numbers from `number` on, and the position behind them. An entry
/// is an offset, a generation and the letter `n` (in use) or `f` (free).
pub open spec fn parse_subsection(
    b: Seq<u8>,
    pos: int,
    number: int,
    count: nat,
    table: Seq<XrefEntry>,
) -> Option<(Seq<XrefEntry>, int)>
    decreases count,
{
    if count == 0 {
        Some((table, pos))
    } else {
        let o_start = skip_space(b, pos, false);
        let o_end = word_end(b, o_start);
        let g_start = skip_space(b, o_end, false);
        let g_end = word_end(b, g_start);
        let k_start = skip_space(b, g_end, false);
        let k_end = word_end(b, k_start);
        let kind = b.subrange(k_start, k_end);
        match (
            unsigned_word(b, o_start, o_end, usize::MAX as nat),
            unsigned_word(b, g_start, g_end, 0xffff),
        ) {
            (Some(offset), Some(g)) => if kind == text("n") {
                parse_subsection(
                    b,
                    k_end,
                    number + 1,
                    (count - 1) as nat,
                    record(
                        table,
                        number,
                        XrefEntry::InUse { offset: offset as usize, generation: g as u16 },
                    ),
                )
            } else if kind == text("f") {
                parse_subsection(
                    b,
                    k_end,
                    number + 1,
                    (count - 1) as nat,
                    record(table, number, XrefEntry::Free),
                )
            } else {
                None
            },
            _ => None,
        }
    }
}

/// Reads the entries of one subsection into `table`.
pub fn read_subsection(
    b: &[u8],
    pos: usize,
    number: usize,
    count: usize,
    table: &mut Vec<XrefEntry>,
) -> (r: Option<usize>)
    requires
        pos <= b.len(),
        number + count <= usize::MAX,
    ensures
        match r {
            Some(end) => parse_subsection(
                b@,
                pos as int,
                number as int,
                count as nat,
                old(table)@,
            ) == Some((final(table)@, end as int)) && pos <= end <= b.len(),
            None => parse_subsection(b@, pos as int, number as int, count as nat, old(table)@)
                is None,
        },
{
    let mut at: usize = pos;
    let mut done: usize = 0;
    while done < count
        invariant
            pos <= at <= b.len(),
            done <= count,
            number + count <= usize::MAX,
            parse_subsection(b@, pos as int, number as int, count as nat, old(table)@)
                == parse_subsection(
                b@,
                at as int,
                number + done,
                (count - done) as nat,
                table@,
            ),
        decreases count - done,
    {
        let o_start = skip(b, at);
        let o_end = scan_word(b, o_start);
        let g_start = skip(b, o_end);
        let g_end = scan_word(b, g_start);
        let k_start = skip(b, g_end);
        let k_end = scan_word(b, k_start);
        match read_unsigned(b, o_start, o_end, usize::MAX as u64) {
            Some(offset) => match read_unsigned(b, g_start, g_end, 0xffff) {
                Some(g) => {
                    if word_is(b, k_start, k_end, "n".as_bytes()) {
                        record_entry(
                            table,
                            number + done,
                            XrefEntry::InUse { offset: offset as usize, generation: g as u16 },
                        );
                    } else if word_is(b, k_start, k_end, "f".as_bytes()) {
                        record_entry(table, number + done, XrefEntry::Free);
                    } else {
                        return None;
                    }
                },
                None => {
                    return None;
                },
            },
            None => {
                return None;
            },
        }
        at = k_end;
        done += 1;
    }
    Some(at)
}

/// The table after every subsection from `pos` up to the word `trailer` was
/// recorded, and the position behind that word. A subsection starts with the
/// first number it speaks of and the count of its entries.
pub open spec fn parse_subsections(b: Seq<u8>, pos: int, table: Seq<XrefEntry>) -> Option<
    (Seq<XrefEntry>, int),
>
    decreases b.len() - pos,
{
    let s_start = skip_space(b, pos, false);
    let s_end = word_end(b, s_start);
    let c_start = skip_space(b, s_end, false);
    let c_end = word_end(b, c_start);
    if b.subrange(s_start, s_end) == text("trailer") {
        Some((table, s_end))
    } else {
        match (
            unsigned_word(b, s_start, s_end, MAX_OBJECT_NUMBER as nat),
            unsigned_word(b, c_start, c_end, MAX_OBJECT_NUMBER as nat + 1),
        ) {
            (Some(first), Some(count)) => if first + count > MAX_OBJECT_NUMBER + 1 {
                None
            } else {
                match parse_subsection(b, c_end, first as int, count, table) {
                    Some((next, end)) => if !(pos < end <= b.len()) {
                        None
                    } else {
                        parse_subsections(b, end, next)
                    },
                    None => None,
                }
            },
            _ => None,
        }
    }
}

/// Reads every subsection from `pos` up to the word `trailer` into `table`.
pub fn read_subsections(b: &[u8], pos: usize, table: &mut Vec<XrefEntry>) -> (r: Option<usize>)
    requires
        pos <= b.len(),
    ensures
        match r {
            Some(end) => parse_subsections(b@, pos as int, old(table)@) == Some(
                (final(table)@, end as int),
            ) && pos <= end <= b.len(),
            None => parse_subsections(b@, pos as int, old(table)@) is None,
        },
{
    let mut at: usize = pos;
    loop
        invariant
            pos <= at <= b.len(),
            parse_subsections(b@, pos as int, old(table)@) == parse_subsections(
                b@,
                at as int,
                table@,
            ),
        decreases b.len() - at,
    {
        let s_start = skip(b, at);
        let s_end = scan_word(b, s_start);
        let c_start = skip(b, s_end);
        let c_end = scan_word(b, c_start);
        if word_is(b, s_start, s_end, "trailer".as_bytes()) {
            return Some(s_end);
        }
        match read_unsigned(b, s_start, s_end, MAX_OBJECT_NUMBER as u64) {
            Some(first) => match read_unsigned(b, c_start, c_end, MAX_OBJECT_NUMBER as u64 + 1) {
                Some(count) => {
                    if first + count > MAX_OBJECT_NUMBER as u64 + 1 {
                        return None;
                    }
                    match read_subsection(b, c_end, first as usize, count as usize, table) {
                        Some(end) => {
                            if end <= at {
                                return None;
                            }
                            at = end;
                        },
                        None => {
                            return None;
                        },
                    }
                },
                None => {
                    return None;
                },
            },
            None => {
                return None;
            },
        }
    }
}

/// One cross-reference section, written at `pos`: the table after its
/// entries were recorded, its trailer, and whether the trailer names an
/// encryption dictionary.
pub open spec fn parse_section(b: Seq<u8>, pos: int, table: Seq<XrefEntry>) -> Option<
    (Seq<XrefEntry>, Trailer, bool),
> {
    let k_start = skip_space(b, pos, false);
    let k_end = word_end(b, k_start);
    if 0 <= pos <= b.len() && b.subrange(k_start, k_end) == text("xref") {
        match parse_subsections(b, k_end, table) {
            Some((next, t_pos)) => match parse_value(
                b,
                skip_space(b, t_pos, false),
                MAX_DEPTH as nat,
            ) {
                Some((Value::Dictionary(entries), _)) => Some(
                    (next, trailer_of(entries), lookup(entries, text("Encrypt")) is Some),
                ),
                _ => None,
            },
            None => None,
        }
    } else {
        None
    }
}

/// Reads the cross-reference section written at `pos` into `table`.
pub fn read_section(b: &[u8], pos: usize, table: &mut Vec<XrefEntry>) -> (r: Option<
    (Trailer, bool),
>)
    ensures
        match r {
            Some((trailer, encrypted)) => parse_section(b@, pos as int, old(table)@) == Some(
                (final(table)@, trailer, encrypted),
            ),
            None => parse_section(b@, pos as int, old(table)@) is None,
        },
{
    if pos > b.len() {
        return None;
    }
    let k_start = skip(b, pos);
    let k_end = scan_word(b, k_start);
    if !word_is(b, k_start, k_end, "xref".as_bytes()) {
        return None;
    }
    match read_subsections(b, k_end, table) {
        Some(t_pos) => match read_value(b, skip(b, t_pos), MAX_DEPTH) {
            Some((Object::Dictionary(entries), _)) => {
                let encrypted = get(&entries, "Encrypt".as_bytes()).is_some();
                Some((read_trailer(&entries), encrypted))
            },
            _ => None,
        },
        None => None,
    }
}

} // verus!
