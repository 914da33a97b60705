//! The grammar of values and of numbered objects.
//!
//! `parse_value` and its companions say, for a byte sequence and a position,
//! which value is written there and where it ends. The readers below are
//! proved to compute exactly that.

use crate::lexer::{
    hex_scan, integer_word, is_real_word, name_scan, read_hex_string, read_integer, read_name,
    read_string, read_unsigned, real_word, scan_word, skip, skip_space, string_scan, text,
    unsigned_word, word_end, word_is,
};
use crate::object::{entries_view, items_view, Object, ObjectId, Value};
use crate::table::MAX_OBJECT_NUMBER;
use vstd::prelude::*;
use vstd::slice::*;

verus! {

/// How deeply arrays and dictionaries may nest.
pub const MAX_DEPTH: usize = 64;

/// What follows an integer that is the number of a reference: a generation
/// and the word `R`. Gives the generation and the position behind `R`.
pub open spec fn reference_tail(b: Seq<u8>, pos: int) -> Option<(nat, int)> {
    let g_start = skip_space(b, pos, false);
    let g_end = word_end(b, g_start);
    let r_start = skip_space(b, g_end, false);
    let r_end = word_end(b, r_start);
    match unsigned_word(b, g_start, g_end, 0xffff) {
        Some(g) => if b.subrange(r_start, r_end) == text("R") {
            Some((g, r_end))
        } else {
            None
        },
        None => None,
    }
}

/// The value that the word in `pos..end` denotes, together with what follows
/// it where that makes it a reference: `true`, `false`, `null`, an integer,
/// a reference or a real number.
pub open spec fn parse_word(b: Seq<u8>, pos: int, end: int) -> Option<(Value, int)> {
    let word = b.subrange(pos, end);
    if end <= pos {
        None
    } else if word == text("true") {
        Some((Value::Boolean(true), end))
    } else if word == text("false") {
        Some((Value::Boolean(false), end))
    } else if word == text("null") {
        Some((Value::Null, end))
    } else {
        match integer_word(b, pos, end) {
            Some(n) => match reference_tail(b, end) {
                Some((g, tail_end)) => if 0 <= n <= MAX_OBJECT_NUMBER {
                    Some(
                        (
                            Value::Reference(
                                ObjectId { number: n as u32, generation: g as u16 },
                            ),
                            tail_end,
                        ),
                    )
                } else {
                    Some((Value::Integer(n), end))
                },
                None => Some((Value::Integer(n), end)),
            },
            None => if real_word(b, pos, end) {
                Some((Value::Real(word), end))
            } else {
                None
            },
        }
    }
}

/// The value written at `pos` and the position behind it. `depth` is the
/// number of levels of arrays and dictionaries that may still be opened.
pub open spec fn parse_value(b: Seq<u8>, pos: int, depth: nat) -> Option<(Value, int)>
    decreases depth, b.len() - pos, 0nat,
{
    if pos < 0 || pos >= b.len() {
        None
    } else if b[pos] == 47 {
        let (name, end) = name_scan(b, pos + 1, Seq::empty());
        Some((Value::Name(name), end))
    } else if b[pos] == 40 {
        match string_scan(b, pos + 1, 1, Seq::empty()) {
            Some((bytes, end)) => Some((Value::String(bytes), end)),
            None => None,
        }
    } else if b[pos] == 60 {
        if pos + 1 < b.len() && b[pos + 1] == 60 {
            if depth == 0 {
                None
            } else {
                match parse_entries(b, pos + 2, (depth - 1) as nat, Seq::empty()) {
                    Some((entries, end)) => Some((Value::Dictionary(entries), end)),
                    None => None,
                }
            }
        } else {
            match hex_scan(b, pos + 1, Seq::empty(), None) {
                Some((bytes, end)) => Some((Value::String(bytes), end)),
                None => None,
            }
        }
    } else if b[pos] == 91 {
        if depth == 0 {
            None
        } else {
            match parse_items(b, pos + 1, (depth - 1) as nat, Seq::empty()) {
                Some((items, end)) => Some((Value::Array(items), end)),
                None => None,
            }
        }
    } else {
        parse_word(b, pos, word_end(b, pos))
    }
}

/// The items of an array from `pos` up to its `]`, behind the items `acc`
/// that were read already, and the position behind the `]`.
pub open spec fn parse_items(b: Seq<u8>, pos: int, depth: nat, acc: Seq<Value>) -> Option<
    (Seq<Value>, int),
>
    decreases depth, b.len() - pos, 1nat,
{
    let p = skip_space(b, pos, false);
    if !(0 <= pos <= p < b.len()) {
        None
    } else if b[p] == 93 {
        Some((acc, p + 1))
    } else {
        match parse_value(b, p, depth) {
            None => None,
            Some((v, end)) => if !(p < end <= b.len()) {
                None
            } else {
                parse_items(b, end, depth, acc.push(v))
            },
        }
    }
}

/// The entries of a dictionary from `pos` up to its `>>`, behind the entries
/// `acc` that were read already, and the position behind the `>>`.
pub open spec fn parse_entries(
    b: Seq<u8>,
    pos: int,
    depth: nat,
    acc: Seq<(Seq<u8>, Value)>,
) -> Option<(Seq<(Seq<u8>, Value)>, int)>
    decreases depth, b.len() - pos, 1nat,
{
    let p = skip_space(b, pos, false);
    if !(0 <= pos <= p < b.len()) {
        None
    } else if b[p] == 62 {
        if p + 1 < b.len() && b[p + 1] == 62 {
            Some((acc, p + 2))
        } else {
            None
        }
    } else if b[p] == 47 {
        let (key, key_end) = name_scan(b, p + 1, Seq::empty());
        let v_start = skip_space(b, key_end, false);
        if !(p < v_start < b.len()) {
            None
        } else {
            match parse_value(b, v_start, depth) {
                None => None,
                Some((v, end)) => if !(p < end <= b.len()) {
                    None
                } else {
                    parse_entries(b, end, depth, acc.push((key, v)))
                },
            }
        }
    } else {
        None
    }
}

/// A copy of the bytes in `from..to`.
pub fn copy_range(b: &[u8], from: usize, to: usize) -> (r: Vec<u8>)
    requires
        from <= to <= b.len(),
    ensures
        r@ == b@.subrange(from as int, to as int),
{
    slice_to_vec(slice_subrange(b, from, to))
}

/// Reads what follows the number of a reference.
pub fn read_reference_tail(b: &[u8], pos: usize) -> (r: Option<(u16, usize)>)
    requires
        pos <= b.len(),
    ensures
        match r {
            Some((g, end)) => reference_tail(b@, pos as int) == Some((g as nat, end as int))
                && pos <= end <= b.len(),
            None => reference_tail(b@, pos as int) is None,
        },
{
    let g_start = skip(b, pos);
    let g_end = scan_word(b, g_start);
    let r_start = skip(b, g_end);
    let r_end = scan_word(b, r_start);
    match read_unsigned(b, g_start, g_end, 0xffff) {
        Some(g) => {
            if word_is(b, r_start, r_end, "R".as_bytes()) {
                Some((g as u16, r_end))
            } else {
                None
            }
        },
        None => None,
    }
}

/// Reads the word in `pos..end` as a value.
pub fn read_word(b: &[u8], pos: usize, end: usize) -> (r: Option<(Object, usize)>)
    requires
        pos <= end <= b.len(),
    ensures
        match r {
            Some((o, e)) => parse_word(b@, pos as int, end as int) == Some((o@, e as int)) && pos
                < e <= b.len(),
            None => parse_word(b@, pos as int, end as int) is None,
        },
{
    if end <= pos {
        None
    } else if word_is(b, pos, end, "true".as_bytes()) {
        Some((Object::Boolean(true), end))
    } else if word_is(b, pos, end, "false".as_bytes()) {
        Some((Object::Boolean(false), end))
    } else if word_is(b, pos, end, "null".as_bytes()) {
        Some((Object::Null, end))
    } else {
        match read_integer(b, pos, end) {
            Some(n) => {
                match read_reference_tail(b, end) {
                    Some((g, tail_end)) => {
                        if 0 <= n && n <= MAX_OBJECT_NUMBER as i64 {
                            Some(
                                (
                                    Object::Reference(
                                        ObjectId { number: n as u32, generation: g },
                                    ),
                                    tail_end,
                                ),
                            )
                        } else {
                            Some((Object::Integer(n), end))
                        }
                    },
                    None => Some((Object::Integer(n), end)),
                }
            },
            None => {
                if is_real_word(b, pos, end) {
                    Some((Object::Real(copy_range(b, pos, end)), end))
                } else {
                    None
                }
            },
        }
    }
}

/// Reads the value written at `pos`.
pub fn read_value(b: &[u8], pos: usize, depth: usize) -> (r: Option<(Object, usize)>)
    ensures
        match r {
            Some((o, end)) => parse_value(b@, pos as int, depth as nat) == Some((o@, end as int))
                && pos < end <= b.len(),
            None => parse_value(b@, pos as int, depth as nat) is None,
        },
    decreases depth, 0nat,
{
    if pos >= b.len() {
        return None;
    }
    let c = b[pos];
    if c == 47 {
        let (name, end) = read_name(b, pos + 1);
        Some((Object::Name(name), end))
    } else if c == 40 {
        match read_string(b, pos + 1) {
            Some((bytes, end)) => Some((Object::String(bytes), end)),
            None => None,
        }
    } else if c == 60 {
        if b.len() - pos > 1 && b[pos + 1] == 60 {
            if depth == 0 {
                None
            } else {
                match read_entries(b, pos + 2, depth - 1) {
                    Some((entries, end)) => Some((Object::Dictionary(entries), end)),
                    None => None,
                }
            }
        } else {
            match read_hex_string(b, pos + 1) {
                Some((bytes, end)) => Some((Object::String(bytes), end)),
                None => None,
            }
        }
    } else if c == 91 {
        if depth == 0 {
            None
        } else {
            match read_items(b, pos + 1, depth - 1) {
                Some((items, end)) => Some((Object::Array(items), end)),
                None => None,
            }
        }
    } else {
        let end = scan_word(b, pos);
        read_word(b, pos, end)
    }
}

/// Reads the items of an array up to its `]`.
pub fn read_items(b: &[u8], pos: usize, depth: usize) -> (r: Option<(Vec<Object>, usize)>)
    requires
        pos <= b.len(),
    ensures
        match r {
            Some((items, end)) => parse_items(b@, pos as int, depth as nat, Seq::empty()) == Some(
                (items_view(items@), end as int),
            ) && pos < end <= b.len(),
            None => parse_items(b@, pos as int, depth as nat, Seq::empty()) is None,
        },
    decreases depth, 1nat,
{
    let mut out: Vec<Object> = Vec::new();
    let mut i: usize = pos;
    assert(items_view(out@) =~= Seq::empty());
    loop
        invariant
            pos <= i <= b.len(),
            parse_items(b@, pos as int, depth as nat, Seq::empty()) == parse_items(
                b@,
                i as int,
                depth as nat,
                items_view(out@),
            ),
        decreases b.len() - i,
    {
        let p = skip(b, i);
        if p >= b.len() {
            return None;
        }
        if b[p] == 93 {
            return Some((out, p + 1));
        }
        match read_value(b, p, depth) {
            None => {
                return None;
            },
            Some((o, end)) => {
                let ghost before = items_view(out@);
                out.push(o);
                assert(items_view(out@) =~= before.push(o@));
                i = end;
            },
        }
    }
}

/// Reads the entries of a dictionary up to its `>>`.
pub fn read_entries(b: &[u8], pos: usize, depth: usize) -> (r: Option<
    (Vec<(Vec<u8>, Object)>, usize),
>)
    requires
        pos <= b.len(),
    ensures
        match r {
            Some((entries, end)) => parse_entries(b@, pos as int, depth as nat, Seq::empty())
                == Some((entries_view(entries@), end as int)) && pos < end <= b.len(),
            None => parse_entries(b@, pos as int, depth as nat, Seq::empty()) is None,
        },
    decreases depth, 1nat,
{
    let mut out: Vec<(Vec<u8>, Object)> = Vec::new();
    let mut i: usize = pos;
    assert(entries_view(out@) =~= Seq::empty());
    loop
        invariant
            pos <= i <= b.len(),
            parse_entries(b@, pos as int, depth as nat, Seq::empty()) == parse_entries(
                b@,
                i as int,
                depth as nat,
                entries_view(out@),
            ),
        decreases b.len() - i,
    {
        let p = skip(b, i);
        if p >= b.len() {
            return None;
        }
        if b[p] == 62 {
            if b.len() - p > 1 && b[p + 1] == 62 {
                return Some((out, p + 2));
            }
            return None;
        }
        if b[p] != 47 {
            return None;
        }
        let (key, key_end) = read_name(b, p + 1);
        let v_start = skip(b, key_end);
        match read_value(b, v_start, depth) {
            None => {
                return None;
            },
            Some((o, end)) => {
                let ghost before = entries_view(out@);
                let ghost k = key@;
                out.push((key, o));
                assert(entries_view(out@) =~= before.push((k, o@)));
                i = end;
            },
        }
    }
}

} // verus!
