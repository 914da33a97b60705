//! What is written is read back: values.
//!
//! A well-formed value that stands written in a byte sequence is read there
//! as the same value, whatever stands around it, as long as a word is
//! followed by something that ends it.

use crate::lexer::{
    digits_end, has_sign, integer_word, lemma_skip_space_bounds, real_word, skip_space,
    spec_is_digit, spec_is_regular, spec_is_white, text, unsigned_word, word_end,
};
use crate::lexer_laws::{
    all_regular, at, lemma_at_concat, lemma_at_subrange, lemma_decimal_digits, lemma_hex_digit,
    lemma_hex_string, lemma_hex_text_front, lemma_integer, lemma_name, lemma_skip_nothing,
    lemma_skip_one, lemma_unsigned, lemma_word, stops,
};
use crate::names::lemma_words;
use crate::object::Value;
use crate::syntax::{parse_entries, parse_items, parse_value, reference_tail};
use crate::table::MAX_OBJECT_NUMBER;
use crate::writer::{
    decimal, hex_text, name_text, serialize, serialize_entries, serialize_items, signed_decimal,
};
use vstd::prelude::*;

verus! {

/// Whether a value can be read back from what is written for it: its
/// integers fit in 64 bits, its real numbers are written as real numbers,
/// its references name numbers that a document may use, it holds no stream,
/// and it nests no deeper than `depth`.
pub open spec fn well_formed(v: Value, depth: nat) -> bool
    decreases v,
{
    match v {
        Value::Integer(n) => i64::MIN <= n <= i64::MAX,
        Value::Real(d) => real_word(d, 0, d.len() as int),
        Value::Array(items) => depth > 0 && forall|i: int|
            0 <= i < items.len() ==> well_formed(#[trigger] items[i], (depth - 1) as nat),
        Value::Dictionary(entries) => depth > 0 && forall|i: int|
            0 <= i < entries.len() ==> well_formed((#[trigger] entries[i]).1, (depth - 1) as nat),
        Value::Stream(_, _) => false,
        Value::Reference(id) => id.number <= MAX_OBJECT_NUMBER,
        _ => true,
    }
}

/// Whether all items are well formed.
pub open spec fn items_well_formed(items: Seq<Value>, depth: nat) -> bool {
    forall|i: int| 0 <= i < items.len() ==> well_formed(#[trigger] items[i], depth)
}

/// Whether the values of all entries are well formed.
pub open spec fn entries_well_formed(entries: Seq<(Seq<u8>, Value)>, depth: nat) -> bool {
    forall|i: int| 0 <= i < entries.len() ==> well_formed((#[trigger] entries[i]).1, depth)
}

/// The bytes with which what is written for a value may start.
pub open spec fn opens(c: u8) -> bool {
    c == 110 || c == 116 || c == 102 || c == 45 || c == 43 || c == 46 || spec_is_digit(c) || c
        == 60 || c == 47 || c == 91
}

/// Where a text stands in `b`, a run of digits in it ends at the same
/// place in both.
pub proof fn lemma_digits_transfer(b: Seq<u8>, pos: int, d: Seq<u8>, from: int, to: int)
    requires
        at(b, pos, d),
        0 <= from <= to <= d.len(),
    ensures
        digits_end(b, pos + from, pos + to) == pos + digits_end(d, from, to),
    decreases to - from,
{
    if from < to {
        assert(b[pos + from] == d[from]);
        if spec_is_digit(d[from]) {
            lemma_digits_transfer(b, pos, d, from + 1, to);
        }
    }
}

/// A run of digits ends within its bounds, behind digits only, and before
/// a byte that is no digit.
pub proof fn lemma_digits_end_bounds(d: Seq<u8>, from: int, to: int)
    requires
        0 <= from <= to <= d.len(),
    ensures
        from <= digits_end(d, from, to) <= to,
        forall|i: int| from <= i < digits_end(d, from, to) ==> spec_is_digit(#[trigger] d[i]),
        digits_end(d, from, to) < to ==> !spec_is_digit(d[digits_end(d, from, to)]),
    decreases to - from,
{
    if from < to && spec_is_digit(d[from]) {
        lemma_digits_end_bounds(d, from + 1, to);
    }
}

/// What a real number is written with: at least two bytes, all of them
/// regular, the first of them a sign, a digit or a point, and not digits
/// alone.
pub proof fn lemma_real(d: Seq<u8>)
    requires
        real_word(d, 0, d.len() as int),
    ensures
        d.len() >= 2,
        all_regular(d),
        opens(d[0]),
        d[0] != 110 && d[0] != 116 && d[0] != 102,
        digits_end(d, if has_sign(d, 0, d.len() as int) { 1int } else { 0int }, d.len() as int)
            < d.len(),
{
    let to = d.len() as int;
    let start = if has_sign(d, 0, to) { 1int } else { 0int };
    let point = digits_end(d, start, to);
    lemma_digits_end_bounds(d, start, to);
    lemma_digits_end_bounds(d, point + 1, to);
    assert forall|i: int| 0 <= i < d.len() implies spec_is_regular(#[trigger] d[i]) by {
        if i < start {
        } else if i < point {
            assert(spec_is_digit(d[i]));
        } else if i == point {
        } else {
            assert(spec_is_digit(d[i]));
        }
    }
    if start == 0 && point > 0 {
        assert(spec_is_digit(d[0]));
    }
}

/// What is written for a well-formed value is not empty, and it starts
/// with one of a few bytes.
pub proof fn lemma_first_byte(v: Value, depth: nat)
    requires
        well_formed(v, depth),
    ensures
        serialize(v).len() >= 1,
        opens(serialize(v)[0]),
{
    lemma_words();
    match v {
        Value::Integer(n) => {
            if n < 0 {
                assert(serialize(v)[0] == 45);
            } else {
                lemma_decimal_digits(n as nat);
                assert(spec_is_digit(decimal(n as nat)[0]));
            }
        },
        Value::Real(d) => {
            lemma_real(d);
        },
        Value::String(s) => {
            assert(serialize(v)[0] == 60);
        },
        Value::Name(n) => {
            assert(serialize(v)[0] == 47);
        },
        Value::Array(items) => {
            assert(serialize(v)[0] == 91);
        },
        Value::Dictionary(entries) => {
            assert(serialize(v)[0] == 60);
        },
        Value::Reference(id) => {
            lemma_decimal_digits(id.number as nat);
            assert(serialize(v)[0] == decimal(id.number as nat)[0]);
            assert(spec_is_digit(decimal(id.number as nat)[0]));
        },
        _ => {},
    }
}

/// What is written for the items of an array, item by item from the front.
pub proof fn lemma_items_front(items: Seq<Value>)
    requires
        items.len() > 0,
    ensures
        serialize_items(items) == serialize(items[0]) + seq![32u8] + serialize_items(
            items.drop_first(),
        ),
    decreases items.len(),
{
    let head = serialize(items[0]) + seq![32u8];
    if items.len() == 1 {
        assert(items.drop_first() =~= Seq::empty());
        assert(items.drop_last() =~= Seq::empty());
        assert(serialize_items(Seq::<Value>::empty()) =~= Seq::<u8>::empty());
        assert(serialize_items(items) =~= head + serialize_items(items.drop_first()));
    } else {
        let init = items.drop_last();
        lemma_items_front(init);
        assert(init[0] == items[0]);
        assert(init.drop_first() =~= items.drop_first().drop_last());
        assert(items.drop_first().last() == items.last());
        let middle = serialize_items(items.drop_first().drop_last());
        assert((head + middle) + serialize(items.last()) + seq![32u8] =~= head + (middle
            + serialize(items.last()) + seq![32u8]));
    }
}

/// What is written for one entry: its key, a space, its value and a space.
pub open spec fn entry_text(entry: (Seq<u8>, Value)) -> Seq<u8> {
    seq![47u8] + name_text(entry.0) + seq![32u8] + serialize(entry.1) + seq![32u8]
}

/// What is written for the entries of a dictionary, entry by entry from
/// the front.
pub proof fn lemma_entries_front(entries: Seq<(Seq<u8>, Value)>)
    requires
        entries.len() > 0,
    ensures
        serialize_entries(entries, None) == entry_text(entries[0]) + serialize_entries(
            entries.drop_first(),
            None,
        ),
    decreases entries.len(),
{
    let head = entry_text(entries[0]);
    if entries.len() == 1 {
        assert(entries.drop_first() =~= Seq::empty());
        assert(entries.drop_last() =~= Seq::empty());
        assert(serialize_entries(Seq::<(Seq<u8>, Value)>::empty(), None) =~= Seq::<u8>::empty());
        assert(entries.last() == entries[0]);
        assert(serialize_entries(entries, None) =~= head + serialize_entries(
            entries.drop_first(),
            None,
        ));
    } else {
        let init = entries.drop_last();
        lemma_entries_front(init);
        assert(init[0] == entries[0]);
        assert(init.drop_first() =~= entries.drop_first().drop_last());
        assert(entries.drop_first().last() == entries.last());
        let middle = serialize_entries(entries.drop_first().drop_last(), None);
        let last = entries.last();
        assert((head + middle) + seq![47u8] + name_text(last.0) + seq![32u8] + serialize(last.1)
            + seq![32u8] =~= head + (middle + seq![47u8] + name_text(last.0) + seq![32u8]
            + serialize(last.1) + seq![32u8]));
    }
}

/// No generation and `R` follow where the next thing is no number.
pub proof fn lemma_calm_no_number(b: Seq<u8>, pos: int, start: int)
    requires
        skip_space(b, pos, false) == start,
        start >= b.len() || !spec_is_digit(b[start]),
    ensures
        reference_tail(b, pos) is None,
{
    if 0 <= start < b.len() && spec_is_regular(b[start]) {
        assert(word_end(b, start) == word_end(b, start + 1));
        lemma_skip_space_bounds(b, start + 1, false);
        lemma_word_grows(b, start + 1);
    }
}

/// A word ends between where it starts and the end of the bytes.
pub proof fn lemma_word_grows(b: Seq<u8>, pos: int)
    ensures
        pos <= word_end(b, pos),
        pos <= b.len() ==> word_end(b, pos) <= b.len(),
    decreases b.len() - pos,
{
    if 0 <= pos < b.len() && spec_is_regular(b[pos]) {
        lemma_word_grows(b, pos + 1);
    }
}

/// No generation and `R` follow where a number is followed by something
/// that does not start with `R`.
pub proof fn lemma_calm_not_r(b: Seq<u8>, pos: int, start: int, end: int)
    requires
        skip_space(b, pos, false) == start,
        word_end(b, start) == end,
        0 <= end < b.len(),
        b[end] == 32,
        end + 1 >= b.len() || (!spec_is_white(b[end + 1]) && b[end + 1] != 37 && b[end + 1]
            != 82),
    ensures
        reference_tail(b, pos) is None,
{
    lemma_words();
    lemma_skip_one(b, end);
    let r_start = end + 1;
    let r_end = word_end(b, r_start);
    lemma_word_grows(b, r_start);
    if r_start < b.len() && spec_is_regular(b[r_start]) {
        lemma_word_grows(b, r_start + 1);
        assert(r_end == word_end(b, r_start + 1));
        assert(b.subrange(r_start, r_end)[0] == b[r_start]);
    } else {
        assert(r_end == r_start);
        assert(b.subrange(r_start, r_end).len() == 0);
    }
}

/// No generation and `R` follow a space behind which a well-formed value
/// stands that is followed by a space and the start of another value or a
/// closing bracket.
pub proof fn lemma_calm_value(b: Seq<u8>, pos: int, w: Value, depth: nat)
    requires
        0 <= pos < b.len(),
        b[pos] == 32,
        well_formed(w, depth),
        at(b, pos + 1, serialize(w)),
        pos + 1 + serialize(w).len() < b.len(),
        b[pos + 1 + serialize(w).len()] == 32,
        pos + 2 + serialize(w).len() >= b.len() || opens(b[pos + 2 + serialize(w).len()])
            || b[pos + 2 + serialize(w).len()] == 93,
    ensures
        reference_tail(b, pos) is None,
{
    let written = serialize(w);
    let start = pos + 1;
    let end = start + written.len();
    lemma_words();
    lemma_first_byte(w, depth);
    assert(b[start + 0] == written[0]);
    lemma_skip_one(b, pos);
    if !spec_is_digit(written[0]) {
        lemma_calm_no_number(b, pos, start);
    } else {
        match w {
            Value::Integer(n) => {
                lemma_decimal_digits(n as nat);
                lemma_integer(b, start, n);
                lemma_calm_not_r(b, pos, start, end);
            },
            Value::Reference(id) => {
                let number = decimal(id.number as nat);
                let generation = decimal(id.generation as nat);
                lemma_decimal_digits(id.number as nat);
                lemma_decimal_digits(id.generation as nat);
                lemma_words();
                assert(written == number + seq![32u8] + generation + text(" R"));
                lemma_at_concat(
                    b,
                    start,
                    number + seq![32u8] + generation,
                    text(" R"),
                );
                lemma_at_concat(b, start, number + seq![32u8], generation);
                lemma_at_concat(b, start, number, seq![32u8]);
                assert(b[start + number.len() + 0] == seq![32u8][0]);
                assert(b[start + number.len() + 1 + 0] == generation[0]);
                assert(spec_is_digit(generation[0]));
                lemma_unsigned(b, start, id.number as nat, id.number as nat);
                lemma_calm_not_r(b, pos, start, start + number.len());
            },
            Value::Real(d) => {
                lemma_real(d);
                lemma_word(b, start, d);
                lemma_digits_transfer(b, start, d, 0, d.len() as int);
                assert(!has_sign(d, 0, d.len() as int));
                assert(unsigned_word(b, start, end, 0xffff) is None);
            },
            Value::Null => {
                assert(written[0] == 110);
            },
            Value::Boolean(flag) => {
                assert(written[0] == 116 || written[0] == 102);
            },
            Value::String(_) => {
                assert(written[0] == 60);
            },
            Value::Name(_) => {
                assert(written[0] == 47);
            },
            Value::Array(_) => {
                assert(written[0] == 91);
            },
            Value::Dictionary(_) => {
                assert(written[0] == 60);
            },
            Value::Stream(_, _) => {},
        }
    }
}

/// What must follow what is written for a value so that the value is read
/// back: a word must end there, and an integer that could be the number of
/// a reference must not be followed by a generation and `R`.
pub open spec fn closed(b: Seq<u8>, end: int, v: Value) -> bool {
    &&& (v is Null || v is Boolean || v is Integer || v is Real || v is Name || v is Reference)
        ==> stops(b, end)
    &&& (v matches Value::Integer(n) && 0 <= n <= MAX_OBJECT_NUMBER) ==> reference_tail(b, end)
        is None
}

/// No generation and `R` follow a space behind which the rest of the items
/// of an array and its closing bracket stand.
pub proof fn lemma_calm_items(b: Seq<u8>, pos: int, rest: Seq<Value>, depth: nat)
    requires
        0 <= pos < b.len(),
        b[pos] == 32,
        items_well_formed(rest, depth),
        at(b, pos + 1, serialize_items(rest) + seq![93u8]),
    ensures
        reference_tail(b, pos) is None,
{
    let closing = seq![93u8];
    lemma_at_concat(b, pos + 1, serialize_items(rest), closing);
    if rest.len() == 0 {
        assert(b[pos + 1 + 0] == closing[0]);
        lemma_skip_one(b, pos);
        lemma_calm_no_number(b, pos, pos + 1);
    } else {
        let w = rest[0];
        let more = rest.drop_first();
        let head = serialize(w);
        lemma_items_front(rest);
        lemma_at_concat(b, pos + 1, head + seq![32u8], serialize_items(more));
        lemma_at_concat(b, pos + 1, head, seq![32u8]);
        assert(b[pos + 1 + head.len() + 0] == seq![32u8][0]);
        let after = pos + 2 + head.len();
        if more.len() == 0 {
            assert(serialize_items(more) =~= Seq::<u8>::empty());
            assert(b[after + 0] == closing[0]);
        } else {
            lemma_items_front(more);
            assert(well_formed(more[0], depth)) by {
                assert(more[0] == rest[1]);
            }
            lemma_first_byte(more[0], depth);
            lemma_at_concat(
                b,
                after,
                serialize(more[0]) + seq![32u8],
                serialize_items(more.drop_first()),
            );
            lemma_at_concat(b, after, serialize(more[0]), seq![32u8]);
            assert(b[after + 0] == serialize(more[0])[0]);
        }
        lemma_calm_value(b, pos, w, depth);
    }
}

/// A well-formed value that was written is read back.
pub proof fn value_is_read_back(b: Seq<u8>, pos: int, v: Value, depth: nat)
    requires
        well_formed(v, depth),
        at(b, pos, serialize(v)),
        closed(b, pos + serialize(v).len(), v),
    ensures
        parse_value(b, pos, depth) == Some((v, pos + serialize(v).len())),
    decreases v,
{
    let written = serialize(v);
    let end = pos + written.len();
    lemma_words();
    lemma_first_byte(v, depth);
    assert(b[pos + 0] == written[0]);
    match v {
        Value::Null => {
            assert(all_regular(written));
            lemma_word(b, pos, written);
            lemma_at_subrange(b, pos, written);
        },
        Value::Boolean(flag) => {
            assert(all_regular(written));
            lemma_word(b, pos, written);
            lemma_at_subrange(b, pos, written);
        },
        Value::Integer(n) => {
            lemma_integer(b, pos, n);
            lemma_at_subrange(b, pos, written);
            assert(written[0] == 45 || spec_is_digit(written[0])) by {
                if n >= 0 {
                    lemma_decimal_digits(n as nat);
                }
            }
        },
        Value::Real(d) => {
            lemma_real(d);
            lemma_word(b, pos, d);
            lemma_at_subrange(b, pos, d);
            let to = d.len() as int;
            let start = if has_sign(d, 0, to) { 1int } else { 0int };
            assert(has_sign(b, pos, end) == has_sign(d, 0, to));
            lemma_digits_transfer(b, pos, d, start, to);
            let point = digits_end(d, start, to);
            lemma_digits_end_bounds(d, start, to);
            lemma_digits_transfer(b, pos, d, point + 1, to);
            assert(b[pos + point] == d[point]);
            assert(unsigned_word(b, pos + start, end, 0x8000_0000_0000_0000) is None);
            assert(integer_word(b, pos, end) is None);
            assert(real_word(b, pos, end));
        },
        Value::String(s) => {
            let open = seq![60u8];
            lemma_at_concat(b, pos, open + hex_text(s), seq![62u8]);
            lemma_at_concat(b, pos, open, hex_text(s));
            lemma_at_concat(b, pos + 1, hex_text(s), seq![62u8]);
            lemma_hex_string(b, pos + 1, s, Seq::empty());
            assert(Seq::<u8>::empty() + s =~= s);
            if s.len() == 0 {
                assert(b[pos + 1 + 0] == seq![62u8][0]);
            } else {
                lemma_hex_text_front(s);
                assert(b[pos + 1 + 0] == hex_text(s)[0]);
                lemma_hex_digit(s[0] / 16);
            }
        },
        Value::Name(n) => {
            lemma_at_concat(b, pos, seq![47u8], name_text(n));
            lemma_name(b, pos + 1, n, Seq::empty());
            assert(Seq::<u8>::empty() + n =~= n);
        },
        Value::Array(items) => {
            let open = seq![91u8];
            let inner = serialize_items(items);
            lemma_at_concat(b, pos, open + inner, seq![93u8]);
            lemma_at_concat(b, pos, open, inner);
            lemma_at_concat(b, pos + 1, inner, seq![93u8]);
            items_are_read_back(b, pos + 1, items, (depth - 1) as nat, Seq::empty());
            assert(Seq::<Value>::empty() + items =~= items);
        },
        Value::Dictionary(entries) => {
            let open = text("<<");
            let close = text(">>");
            let inner = serialize_entries(entries, None);
            lemma_at_concat(b, pos, open + inner, close);
            lemma_at_concat(b, pos, open, inner);
            assert(b[pos + 1] == open[1]);
            let after = pos + 2 + inner.len();
            assert(b[after + 0] == close[0]);
            assert(b[after + 1] == close[1]);
            entries_are_read_back(b, pos + 2, entries, (depth - 1) as nat, Seq::empty());
            assert(Seq::<(Seq<u8>, Value)>::empty() + entries =~= entries);
            lemma_skip_nothing(b, after);
        },
        Value::Reference(id) => {
            let number = decimal(id.number as nat);
            let generation = decimal(id.generation as nat);
            let mark = text(" R");
            lemma_decimal_digits(id.number as nat);
            lemma_decimal_digits(id.generation as nat);
            assert(written == number + seq![32u8] + generation + mark);
            lemma_at_concat(b, pos, number + seq![32u8] + generation, mark);
            lemma_at_concat(b, pos, number + seq![32u8], generation);
            lemma_at_concat(b, pos, number, seq![32u8]);
            let first_end = pos + number.len();
            let second = first_end + 1;
            let second_end = second + generation.len();
            assert(b[first_end + 0] == seq![32u8][0]);
            assert(b[second + 0] == generation[0]);
            assert(spec_is_digit(generation[0]));
            assert(b[second_end + 0] == mark[0]);
            assert(b[second_end + 1] == mark[1]);
            assert(signed_decimal(id.number as int) == number);
            lemma_integer(b, pos, id.number as int);
            lemma_at_subrange(b, pos, number);
            assert(spec_is_digit(number[0]));
            lemma_skip_one(b, first_end);
            lemma_unsigned(b, second, id.generation as nat, 0xffff);
            lemma_skip_one(b, second_end);
            let r_start = second_end + 1;
            assert(at(b, r_start, text("R")));
            assert(all_regular(text("R")));
            lemma_word(b, r_start, text("R"));
            lemma_at_subrange(b, r_start, text("R"));
            assert(reference_tail(b, first_end) == Some((id.generation as nat, end)));
        },
        Value::Stream(_, _) => {},
    }
}

/// The well-formed items of an array that were written are read back.
pub proof fn items_are_read_back(b: Seq<u8>, pos: int, items: Seq<Value>, depth: nat, acc: Seq<Value>)
    requires
        items_well_formed(items, depth),
        at(b, pos, serialize_items(items) + seq![93u8]),
    ensures
        parse_items(b, pos, depth, acc) == Some(
            (acc + items, pos + serialize_items(items).len() + 1),
        ),
    decreases items,
{
    let closing = seq![93u8];
    lemma_at_concat(b, pos, serialize_items(items), closing);
    if items.len() == 0 {
        assert(b[pos + 0] == closing[0]);
        lemma_skip_nothing(b, pos);
        assert(acc + items =~= acc);
    } else {
        let first = items[0];
        let rest = items.drop_first();
        let head = serialize(first);
        lemma_items_front(items);
        lemma_at_concat(b, pos, head + seq![32u8], serialize_items(rest));
        lemma_at_concat(b, pos, head, seq![32u8]);
        lemma_first_byte(first, depth);
        assert(b[pos + 0] == head[0]);
        lemma_skip_nothing(b, pos);
        let end = pos + head.len();
        assert(b[end + 0] == seq![32u8][0]);
        assert forall|i: int| 0 <= i < rest.len() implies well_formed(#[trigger] rest[i], depth) by {
            assert(rest[i] == items[i + 1]);
        }
        lemma_at_concat(b, end + 1, serialize_items(rest), closing);
        if first is Integer {
            lemma_calm_items(b, end, rest, depth);
        }
        value_is_read_back(b, pos, first, depth);
        // Behind the space the next item or the closing bracket starts.
        if rest.len() == 0 {
            assert(serialize_items(rest) =~= Seq::<u8>::empty());
            assert(b[end + 1 + 0] == closing[0]);
        } else {
            lemma_items_front(rest);
            lemma_first_byte(rest[0], depth);
            lemma_at_concat(
                b,
                end + 1,
                serialize(rest[0]) + seq![32u8],
                serialize_items(rest.drop_first()),
            );
            lemma_at_concat(b, end + 1, serialize(rest[0]), seq![32u8]);
            assert(b[end + 1 + 0] == serialize(rest[0])[0]);
        }
        lemma_skip_one(b, end);
        lemma_skip_nothing(b, end + 1);
        items_are_read_back(b, end + 1, rest, depth, acc.push(first));
        assert(acc.push(first) + rest =~= acc + items);
        assert(parse_items(b, end, depth, acc.push(first)) == parse_items(
            b,
            end + 1,
            depth,
            acc.push(first),
        ));
    }
}

/// The well-formed entries of a dictionary that were written are read, up
/// to where the next key or the end of the dictionary stands.
pub proof fn entries_are_read_back(
    b: Seq<u8>,
    pos: int,
    entries: Seq<(Seq<u8>, Value)>,
    depth: nat,
    acc: Seq<(Seq<u8>, Value)>,
)
    requires
        entries_well_formed(entries, depth),
        at(b, pos, serialize_entries(entries, None)),
        pos + serialize_entries(entries, None).len() < b.len(),
        b[pos + serialize_entries(entries, None).len()] == 47 || b[pos + serialize_entries(
            entries,
            None,
        ).len()] == 62,
    ensures
        parse_entries(b, pos, depth, acc) == parse_entries(
            b,
            pos + serialize_entries(entries, None).len(),
            depth,
            acc + entries,
        ),
    decreases entries,
{
    if entries.len() == 0 {
        assert(acc + entries =~= acc);
    } else {
        let first = entries[0];
        let rest = entries.drop_first();
        let key = name_text(first.0);
        let value = serialize(first.1);
        let tail = serialize_entries(rest, None);
        lemma_entries_front(entries);
        assert(entry_text(first) == seq![47u8] + key + seq![32u8] + value + seq![32u8]);
        lemma_at_concat(b, pos, entry_text(first), tail);
        lemma_at_concat(b, pos, seq![47u8] + key + seq![32u8] + value, seq![32u8]);
        lemma_at_concat(b, pos, seq![47u8] + key + seq![32u8], value);
        lemma_at_concat(b, pos, seq![47u8] + key, seq![32u8]);
        lemma_at_concat(b, pos, seq![47u8], key);
        assert(b[pos + 0] == seq![47u8][0]);
        lemma_skip_nothing(b, pos);
        let key_end = pos + 1 + key.len();
        assert(b[key_end + 0] == seq![32u8][0]);
        lemma_name(b, pos + 1, first.0, Seq::empty());
        assert(Seq::<u8>::empty() + first.0 =~= first.0);
        let value_start = key_end + 1;
        assert(well_formed(first.1, depth));
        lemma_first_byte(first.1, depth);
        assert(b[value_start + 0] == value[0]);
        lemma_skip_one(b, key_end);
        let end = value_start + value.len();
        assert(b[end + 0] == seq![32u8][0]);
        // Behind the space the next key or the end of the dictionary starts.
        let next = end + 1;
        assert(next == pos + entry_text(first).len());
        if rest.len() == 0 {
            assert(tail =~= Seq::<u8>::empty());
        } else {
            lemma_entries_front(rest);
            assert(entry_text(rest[0])[0] == 47);
            assert(b[next + 0] == tail[0]);
        }
        assert(b[next] == 47 || b[next] == 62);
        lemma_skip_one(b, end);
        lemma_skip_nothing(b, next);
        lemma_calm_no_number(b, end, next);
        value_is_read_back(b, value_start, first.1, depth);
        assert forall|i: int| 0 <= i < rest.len() implies well_formed(
            (#[trigger] rest[i]).1,
            depth,
        ) by {
            assert(rest[i] == entries[i + 1]);
        }
        entries_are_read_back(b, next, rest, depth, acc.push(first));
        assert(acc.push(first) + rest =~= acc + entries);
        assert(parse_entries(b, end, depth, acc.push(first)) == parse_entries(
            b,
            next,
            depth,
            acc.push(first),
        ));
    }
}

} // verus!
