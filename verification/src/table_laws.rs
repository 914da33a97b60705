//! What is written is read back: the cross-reference table.

use crate::indirect::object_header;
use crate::lexer::{skip_space, spec_is_digit, spec_is_white, text, unsigned_word, word_end};
use crate::lexer_laws::{
    all_regular, at, lemma_at_concat, lemma_at_subrange, lemma_decimal_digits, lemma_padded,
    lemma_padded_digits, lemma_skip_nothing, lemma_skip_one, lemma_unsigned, lemma_word,
    power_of_ten,
};
use crate::names::lemma_table_words;
use crate::table::{record, XrefEntry, MAX_OBJECT_NUMBER};
use crate::writer::{decimal, padded};
use crate::xref::parse_subsection;
use vstd::prelude::*;

verus! {

/// The rows of the table for objects at the given offsets.
pub open spec fn rows_text(offsets: Seq<nat>) -> Seq<u8>
    decreases offsets.len(),
{
    if offsets.len() == 0 {
        Seq::empty()
    } else {
        rows_text(offsets.drop_last()) + padded(offsets.last(), 10) + text(" 00000 n \n")
    }
}

/// The entry of an object in use at the given offset.
pub open spec fn in_use(offset: nat) -> XrefEntry {
    XrefEntry::InUse { offset: offset as usize, generation: 0 }
}

/// The table for objects at the given offsets: number 0 is free.
pub open spec fn table_of(offsets: Seq<nat>) -> Seq<XrefEntry> {
    Seq::new(
        offsets.len() + 1,
        |i: int|
            if i == 0 {
                XrefEntry::Free
            } else {
                in_use(offsets[i - 1])
            },
    )
}

/// The largest offset that a row holds, plus one.
pub open spec fn offset_limit() -> nat {
    10_000_000_000
}

/// Ten digits hold every offset below the limit.
pub proof fn lemma_offset_limit()
    ensures
        power_of_ten(10) == offset_limit(),
{
    reveal_with_fuel(power_of_ten, 11);
}

/// Two bytes of white space are skipped where neither white space nor a
/// comment follows them.
pub proof fn lemma_skip_two(b: Seq<u8>, pos: int)
    requires
        0 <= pos,
        pos + 1 < b.len(),
        spec_is_white(b[pos]),
        spec_is_white(b[pos + 1]),
        pos + 2 >= b.len() || (!spec_is_white(b[pos + 2]) && b[pos + 2] != 37),
    ensures
        skip_space(b, pos, false) == pos + 2,
{
    lemma_skip_one(b, pos + 1);
}

/// The rows of the first objects stand where the rows of all objects
/// stand.
pub proof fn lemma_rows_take(b: Seq<u8>, pos: int, offsets: Seq<nat>, k: int)
    requires
        at(b, pos, rows_text(offsets)),
        0 <= k <= offsets.len(),
    ensures
        at(b, pos, rows_text(offsets.take(k))),
    decreases offsets.len() - k,
{
    if k == offsets.len() {
        assert(offsets.take(k) =~= offsets);
    } else {
        lemma_rows_take(b, pos, offsets, k + 1);
        let more = offsets.take(k + 1);
        assert(more.drop_last() =~= offsets.take(k));
        lemma_at_concat(
            b,
            pos,
            rows_text(offsets.take(k)) + padded(more.last(), 10),
            text(" 00000 n \n"),
        );
        lemma_at_concat(b, pos, rows_text(offsets.take(k)), padded(more.last(), 10));
    }
}

/// The row of one object stands behind the rows of the objects before it.
pub proof fn lemma_row_at(b: Seq<u8>, pos: int, offsets: Seq<nat>, k: int)
    requires
        at(b, pos, rows_text(offsets)),
        0 <= k < offsets.len(),
    ensures
        at(
            b,
            pos + rows_text(offsets.take(k)).len(),
            padded(offsets[k], 10) + text(" 00000 n \n"),
        ),
        rows_text(offsets.take(k + 1)).len() == rows_text(offsets.take(k)).len() + 20,
{
    lemma_table_words();
    lemma_padded_digits(offsets[k], 10);
    lemma_rows_take(b, pos, offsets, k + 1);
    let more = offsets.take(k + 1);
    assert(more.drop_last() =~= offsets.take(k));
    assert(more.last() == offsets[k]);
    let before = rows_text(offsets.take(k));
    let row = padded(offsets[k], 10) + text(" 00000 n \n");
    assert(rows_text(more) =~= before + row);
    lemma_at_concat(b, pos, before, row);
}

/// One row that was written is read as the entry of one object.
pub proof fn lemma_row(
    b: Seq<u8>,
    from: int,
    pos: int,
    offset: nat,
    number: int,
    count: nat,
    table: Seq<XrefEntry>,
)
    requires
        skip_space(b, from, false) == pos,
        at(b, pos, padded(offset, 10) + text(" 00000 n \n")),
        offset < offset_limit(),
        offset <= usize::MAX,
        count >= 1,
    ensures
        parse_subsection(b, from, number, count, table) == parse_subsection(
            b,
            pos + 18,
            number + 1,
            (count - 1) as nat,
            record(table, number, in_use(offset)),
        ),
        pos + 19 < b.len(),
        b[pos + 18] == 32,
        b[pos + 19] == 10,
{
    lemma_table_words();
    lemma_offset_limit();
    let digits = padded(offset, 10);
    let rest = text(" 00000 n \n");
    lemma_padded_digits(offset, 10);
    lemma_at_concat(b, pos, digits, rest);
    let p = pos + 10;
    assert(b[p + 0] == rest[0]);
    assert(b[p + 1] == rest[1]);
    assert(b[p + 2] == rest[2]);
    assert(b[p + 3] == rest[3]);
    assert(b[p + 4] == rest[4]);
    assert(b[p + 5] == rest[5]);
    assert(b[p + 6] == rest[6]);
    assert(b[p + 7] == rest[7]);
    assert(b[p + 8] == rest[8]);
    assert(b[p + 9] == rest[9]);
    lemma_padded(b, pos, offset, 10, usize::MAX as nat);
    lemma_skip_one(b, p);
    let zeros = padded(0, 5);
    assert(zeros =~= seq![48u8, 48u8, 48u8, 48u8, 48u8]) by {
        reveal_with_fuel(padded, 6);
    }
    assert(at(b, p + 1, zeros));
    assert(power_of_ten(5) > 0) by {
        reveal_with_fuel(power_of_ten, 6);
    }
    lemma_padded(b, p + 1, 0, 5, 0xffff);
    lemma_skip_one(b, p + 6);
    assert(at(b, p + 7, text("n")));
    assert(all_regular(text("n")));
    lemma_word(b, p + 7, text("n"));
    lemma_at_subrange(b, p + 7, text("n"));
}

/// The entries of the objects from number `k + 1` on.
pub open spec fn entries_from(offsets: Seq<nat>, k: int) -> Seq<XrefEntry> {
    Seq::new((offsets.len() - k) as nat, |i: int| in_use(offsets[k + i]))
}

/// The rows that were written are read as the entries of the objects, in
/// order.
pub proof fn lemma_rows(
    b: Seq<u8>,
    from: int,
    pos: int,
    offsets: Seq<nat>,
    k: int,
    table: Seq<XrefEntry>,
)
    requires
        at(b, pos, rows_text(offsets)),
        0 <= k <= offsets.len(),
        k < offsets.len() ==> skip_space(b, from, false) == pos + rows_text(offsets.take(k)).len(),
        table.len() == k + 1,
        forall|i: int|
            0 <= i < offsets.len() ==> (#[trigger] offsets[i]) < offset_limit() && offsets[i]
                <= usize::MAX,
    ensures
        parse_subsection(b, from, k + 1, (offsets.len() - k) as nat, table) == Some(
            (
                table + entries_from(offsets, k),
                if k < offsets.len() {
                    pos + rows_text(offsets).len() - 2
                } else {
                    from
                },
            ),
        ),
    decreases offsets.len() - k,
{
    if k == offsets.len() {
        assert(table + entries_from(offsets, k) =~= table);
    } else {
        let row = pos + rows_text(offsets.take(k)).len();
        lemma_row_at(b, pos, offsets, k);
        lemma_row(b, from, row, offsets[k], k + 1, (offsets.len() - k) as nat, table);
        let next = record(table, k + 1, in_use(offsets[k]));
        assert(next =~= table.push(in_use(offsets[k])));
        if k + 1 < offsets.len() {
            lemma_row_at(b, pos, offsets, k + 1);
            lemma_padded_digits(offsets[k + 1], 10);
            let following = padded(offsets[k + 1], 10) + text(" 00000 n \n");
            assert(b[row + 20 + 0] == following[0]);
            assert(following[0] == padded(offsets[k + 1], 10)[0]);
            assert(spec_is_digit(padded(offsets[k + 1], 10)[0]));
            lemma_skip_two(b, row + 18);
        } else {
            assert(offsets.take(k + 1) =~= offsets);
        }
        lemma_rows(b, row + 18, pos, offsets, k + 1, next);
        assert(next + entries_from(offsets, k + 1) =~= table + entries_from(offsets, k));
    }
}

/// What is written for a cross-reference section, up to the word
/// `trailer`.
pub open spec fn section_text(offsets: Seq<nat>) -> Seq<u8> {
    text("xref\n0 ") + decimal(offsets.len() + 1) + text("\n0000000000 65535 f \n") + rows_text(
        offsets,
    ) + text("trailer")
}

/// The start of a section that was written: the word `xref`, and no
/// object header.
pub proof fn lemma_section_start(b: Seq<u8>, pos: int, rest: Seq<u8>)
    requires
        at(b, pos, text("xref\n0 ") + rest),
    ensures
        skip_space(b, pos, false) == pos,
        word_end(b, pos) == pos + 4,
        b.subrange(pos, pos + 4) == text("xref"),
        object_header(b, pos) is None,
        skip_space(b, pos + 4, false) == pos + 5,
        word_end(b, pos + 5) == pos + 6,
        unsigned_word(b, pos + 5, pos + 6, MAX_OBJECT_NUMBER as nat) == Some(0nat),
        b.subrange(pos + 5, pos + 6) != text("trailer"),
        b[pos + 6] == 32,
{
    lemma_table_words();
    let head = text("xref\n0 ");
    lemma_at_concat(b, pos, head, rest);
    assert(b[pos + 0] == head[0]);
    assert(b[pos + 1] == head[1]);
    assert(b[pos + 2] == head[2]);
    assert(b[pos + 3] == head[3]);
    assert(b[pos + 4] == head[4]);
    assert(b[pos + 5] == head[5]);
    assert(b[pos + 6] == head[6]);
    lemma_skip_nothing(b, pos);
    assert(at(b, pos, text("xref")));
    assert(all_regular(text("xref")));
    lemma_word(b, pos, text("xref"));
    lemma_at_subrange(b, pos, text("xref"));
    lemma_skip_one(b, pos + 4);
    let zero = decimal(0);
    assert(zero =~= seq![48u8]);
    assert(at(b, pos + 5, zero));
    lemma_unsigned(b, pos + 5, 0, MAX_OBJECT_NUMBER as nat);
    assert(b.subrange(pos + 5, pos + 6).len() == 1);
}

/// The entry of number 0 that was written is read as a free entry.
pub proof fn lemma_free_row(b: Seq<u8>, pos: int, count: nat)
    requires
        at(b, pos, text("\n0000000000 65535 f \n")),
        count >= 1,
    ensures
        parse_subsection(b, pos, 0, count, Seq::empty()) == parse_subsection(
            b,
            pos + 19,
            1,
            (count - 1) as nat,
            seq![XrefEntry::Free],
        ),
        b[pos] == 10,
        b[pos + 19] == 32,
        b[pos + 20] == 10,
{
    lemma_table_words();
    let row = text("\n0000000000 65535 f \n");
    assert forall|i: int| 0 <= i < 21 implies b[pos + i] == row[i] by {}
    assert(b[pos + 0] == row[0]);
    assert(b[pos + 1] == row[1]);
    assert(b[pos + 11] == row[11]);
    assert(b[pos + 12] == row[12]);
    assert(b[pos + 17] == row[17]);
    assert(b[pos + 18] == row[18]);
    assert(b[pos + 19] == row[19]);
    assert(b[pos + 20] == row[20]);
    lemma_skip_one(b, pos);
    let zeros = padded(0, 10);
    assert(zeros =~= seq![48u8, 48u8, 48u8, 48u8, 48u8, 48u8, 48u8, 48u8, 48u8, 48u8]) by {
        reveal_with_fuel(padded, 11);
    }
    assert(at(b, pos + 1, zeros)) by {
        assert forall|i: int| 0 <= i < zeros.len() implies b[pos + 1 + i] == #[trigger] zeros[i] by {
            assert(b[pos + (i + 1)] == row[i + 1]);
        }
    }
    lemma_offset_limit();
    lemma_padded(b, pos + 1, 0, 10, usize::MAX as nat);
    lemma_skip_one(b, pos + 11);
    let most = decimal(65535);
    assert(most =~= seq![54u8, 53u8, 53u8, 51u8, 53u8]) by {
        reveal_with_fuel(decimal, 6);
    }
    assert(at(b, pos + 12, most)) by {
        assert forall|i: int| 0 <= i < most.len() implies b[pos + 12 + i] == #[trigger] most[i] by {
            assert(b[pos + (i + 12)] == row[i + 12]);
        }
    }
    lemma_unsigned(b, pos + 12, 65535, 0xffff);
    lemma_skip_one(b, pos + 17);
    assert(at(b, pos + 18, text("f")));
    assert(all_regular(text("f")));
    lemma_word(b, pos + 18, text("f"));
    lemma_at_subrange(b, pos + 18, text("f"));
    assert(record(Seq::<XrefEntry>::empty(), 0, XrefEntry::Free) =~= seq![XrefEntry::Free]);
    assert(skip_space(b, pos, false) == pos + 1);
    assert(word_end(b, pos + 1) == pos + 11);
    assert(unsigned_word(b, pos + 1, pos + 11, usize::MAX as nat) == Some(0nat));
    assert(skip_space(b, pos + 11, false) == pos + 12);
    assert(word_end(b, pos + 12) == pos + 17);
    assert(unsigned_word(b, pos + 12, pos + 17, 0xffff) == Some(65535nat));
    assert(skip_space(b, pos + 17, false) == pos + 18);
    assert(word_end(b, pos + 18) == pos + 19);
    assert(b.subrange(pos + 18, pos + 19) == text("f"));
    assert(text("f") != text("n")) by {
        assert(text("f")[0] != text("n")[0]);
    }
}

/// The entries of a section that was written are read back.
pub proof fn lemma_section_entries(b: Seq<u8>, pos: int, offsets: Seq<nat>)
    requires
        at(
            b,
            pos,
            decimal(offsets.len() + 1) + text("\n0000000000 65535 f \n") + rows_text(offsets)
                + text("trailer"),
        ),
        offsets.len() <= MAX_OBJECT_NUMBER,
        forall|i: int|
            0 <= i < offsets.len() ==> (#[trigger] offsets[i]) < offset_limit() && offsets[i]
                <= usize::MAX,
    ensures
        word_end(b, pos) == pos + decimal(offsets.len() + 1).len(),
        unsigned_word(
            b,
            pos,
            pos + decimal(offsets.len() + 1).len(),
            MAX_OBJECT_NUMBER as nat + 1,
        ) == Some(offsets.len() + 1),
        parse_subsection(
            b,
            pos + decimal(offsets.len() + 1).len(),
            0,
            offsets.len() + 1,
            Seq::empty(),
        ) == Some(
            (
                table_of(offsets),
                pos + decimal(offsets.len() + 1).len() + 19 + rows_text(offsets).len(),
            ),
        ),
        at(
            b,
            pos + decimal(offsets.len() + 1).len() + 21 + rows_text(offsets).len(),
            text("trailer"),
        ),
        b[pos + decimal(offsets.len() + 1).len() + 19 + rows_text(offsets).len()] == 32,
        b[pos + decimal(offsets.len() + 1).len() + 20 + rows_text(offsets).len()] == 10,
{
    lemma_table_words();
    let count = decimal(offsets.len() + 1);
    let free = text("\n0000000000 65535 f \n");
    let rows = rows_text(offsets);
    let word = text("trailer");
    lemma_decimal_digits(offsets.len() + 1);
    lemma_at_concat(b, pos, count + free + rows, word);
    lemma_at_concat(b, pos, count + free, rows);
    lemma_at_concat(b, pos, count, free);
    let c_end = pos + count.len();
    let rs = c_end + 21;
    lemma_free_row(b, c_end, offsets.len() + 1);
    lemma_unsigned(b, pos, offsets.len() + 1, MAX_OBJECT_NUMBER as nat + 1);
    if offsets.len() > 0 {
        lemma_row_at(b, rs, offsets, 0);
        assert(offsets.take(0) =~= Seq::<nat>::empty());
        assert(rows_text(offsets.take(0)) =~= Seq::<u8>::empty());
        lemma_padded_digits(offsets[0], 10);
        let row = padded(offsets[0], 10) + text(" 00000 n \n");
        assert(b[rs + 0] == row[0]);
        assert(row[0] == padded(offsets[0], 10)[0]);
        assert(spec_is_digit(padded(offsets[0], 10)[0]));
        lemma_skip_two(b, c_end + 19);
        // The last row ends with a space and a line end.
        let k = offsets.len() - 1;
        lemma_row_at(b, rs, offsets, k);
        assert(offsets.take(k + 1) =~= offsets);
        let last = rs + rows_text(offsets.take(k)).len();
        let ending = padded(offsets[k], 10) + text(" 00000 n \n");
        lemma_padded_digits(offsets[k], 10);
        assert(b[last + 18] == ending[18]);
        assert(b[last + 19] == ending[19]);
        assert(ending[18] == text(" 00000 n \n")[8]);
        assert(ending[19] == text(" 00000 n \n")[9]);
    } else {
        assert(rows =~= Seq::<u8>::empty());
    }
    lemma_rows(b, c_end + 19, rs, offsets, 0, seq![XrefEntry::Free]);
    assert(seq![XrefEntry::Free] + entries_from(offsets, 0) =~= table_of(offsets));
}

} // verus!
