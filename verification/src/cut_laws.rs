//! What the validator finds in a written document whose end was cut off
//! within the trailer.

use crate::document::{chained_tables, find_last};
use crate::document_laws::{end_text, lemma_layout, offsets_of};
use crate::laws::cut_trailer_is_reported;
use crate::lexer::{spec_is_digit, text};
use crate::lexer_laws::{
    at, lemma_at_concat, lemma_at_subrange, lemma_decimal_digits, lemma_hex_digit,
};
use crate::names::{lemma_table_words, lemma_words};
use crate::object::{ObjectId, Value};
use crate::table_laws::section_text;
use crate::validator::{violations_of, ViolationKind};
use crate::writer::{
    body, decimal, document_bytes, header, name_text, serialize, serialize_entries, signed_decimal,
    trailer_value,
};
use vstd::prelude::*;

verus! {

/// Whether no byte of the text is a `>`.
pub open spec fn calm(s: Seq<u8>) -> bool {
    forall|i: int| 0 <= i < s.len() ==> #[trigger] s[i] != 62
}

/// The text of a name holds no `>`.
pub proof fn lemma_name_calm(s: Seq<u8>)
    ensures
        calm(name_text(s)),
    decreases s.len(),
{
    if s.len() > 0 {
        lemma_name_calm(s.drop_last());
        lemma_hex_digit(s.last() / 16);
        lemma_hex_digit(s.last() % 16);
    }
}

/// The digits of a number hold no `>`.
pub proof fn lemma_decimal_calm(n: nat)
    ensures
        calm(decimal(n)),
{
    lemma_decimal_digits(n);
    assert forall|i: int| 0 <= i < decimal(n).len() implies #[trigger] decimal(n)[i] != 62 by {
        assert(spec_is_digit(decimal(n)[i]));
    }
}

/// What is written for an entry whose value holds no `>` holds none.
pub proof fn lemma_entry_calm(before: Seq<u8>, key: Seq<u8>, value: Seq<u8>)
    requires
        calm(before),
        calm(value),
    ensures
        calm(before + seq![47u8] + name_text(key) + seq![32u8] + value + seq![32u8]),
{
    lemma_name_calm(key);
}

/// The trailer dictionary is written with a `>` as its last two bytes, and
/// nowhere else.
pub proof fn lemma_trailer_calm(count: nat)
    ensures
        serialize(trailer_value(count)).len() >= 4,
        calm(
            serialize(trailer_value(count)).subrange(
                0,
                serialize(trailer_value(count)).len() - 2,
            ),
        ),
{
    lemma_words();
    let entries = trailer_value(count)->Dictionary_0;
    let size = (text("Size"), Value::Integer((count + 1) as int));
    let root = (text("Root"), Value::Reference(ObjectId { number: 1, generation: 0 }));
    let first = seq![size];
    assert(entries.drop_last() =~= first);
    assert(entries.last() == root);
    assert(first.drop_last() =~= Seq::empty());
    assert(first.last() == size);
    let none = serialize_entries(Seq::empty(), None);
    assert(none =~= Seq::empty());
    let count_text = serialize(size.1);
    assert(count_text == signed_decimal((count + 1) as int));
    lemma_decimal_calm(count + 1);
    let one = serialize_entries(first, None);
    assert(one == none + seq![47u8] + name_text(size.0) + seq![32u8] + count_text + seq![32u8]);
    lemma_entry_calm(none, size.0, count_text);
    let root_text = serialize(root.1);
    assert(root_text == decimal(1) + seq![32u8] + decimal(0) + text(" R"));
    lemma_decimal_calm(1);
    lemma_decimal_calm(0);
    assert(calm(root_text));
    let both = serialize_entries(entries, None);
    assert(both == one + seq![47u8] + name_text(root.0) + seq![32u8] + root_text + seq![32u8]);
    lemma_entry_calm(one, root.0, root_text);
    let written = serialize(trailer_value(count));
    assert(written == text("<<") + both + text(">>"));
    assert(written.subrange(0, written.len() - 2) =~= text("<<") + both);
}

/// A word is found last at or behind every place where it is written.
pub proof fn lemma_find_last_found(b: Seq<u8>, pos: int, word: Seq<u8>, place: int)
    requires
        0 <= place <= pos,
        place + word.len() <= b.len(),
        b.subrange(place, place + word.len()) == word,
    ensures
        find_last(b, pos, word) >= place,
    decreases pos - place,
{
    if place < pos {
        if !(pos + word.len() <= b.len() && b.subrange(pos, pos + word.len()) == word) {
            lemma_find_last_found(b, pos - 1, word, place);
        }
    }
}

/// Bytes that end within a dictionary behind the word `trailer`, where the
/// dictionary holds no `>` ahead of its end, are reported.
pub proof fn lemma_cut_bytes(whole: Seq<u8>, place: int, written: Seq<u8>, cut: int)
    requires
        at(whole, place, text("trailer") + seq![10u8] + written),
        written.len() >= 2,
        calm(written.subrange(0, written.len() - 2)),
        place + 7 <= cut < place + 8 + written.len(),
        chained_tables(whole.subrange(0, cut)) is Err,
    ensures
        exists|i: int|
            0 <= i < violations_of(whole.subrange(0, cut)).len() && (#[trigger] violations_of(
                whole.subrange(0, cut),
            )[i]).kind == ViolationKind::UnresolvableRoot,
{
    let word = text("trailer");
    let b = whole.subrange(0, cut);
    let open = place + 8;
    let head = written.subrange(0, written.len() - 2);
    lemma_table_words();
    lemma_at_concat(whole, place, word + seq![10u8], written);
    lemma_at_concat(whole, place, word, seq![10u8]);
    assert(at(b, place, word)) by {
        assert forall|i: int| 0 <= i < word.len() implies b[place + i] == #[trigger] word[i] by {
            assert(b[place + i] == whole[place + i]);
        }
    }
    lemma_at_subrange(b, place, word);
    lemma_find_last_found(b, b.len() as int, word, place);
    let k = find_last(b, b.len() as int, word);
    assert forall|j: int| k <= j && j + 1 < b.len() implies !(#[trigger] b[j] == 62 && b[j + 1]
        == 62) by {
        assert(b[j] == whole[j]);
        if j < place + 7 {
            assert(whole[place + (j - place)] == word[j - place]);
        } else if j < open {
            assert(whole[place + 7 + 0] == seq![10u8][0]);
        } else {
            assert(whole[open + (j - open)] == written[j - open]);
            assert(head[j - open] == written[j - open]);
        }
    }
    cut_trailer_is_reported(b);
}

/// Where the word `trailer` stands in a written document.
pub open spec fn trailer_place(version: Seq<u8>, values: Seq<Value>) -> int {
    document_bytes(version, values).len() - end_text(
        header(version).len() + body(values).len(),
    ).len() - serialize(trailer_value(values.len())).len() - 8
}

/// The word `trailer` and the dictionary behind it stand in a written
/// document ahead of its last lines.
pub proof fn lemma_trailer_place(version: Seq<u8>, values: Seq<Value>)
    ensures
        at(
            document_bytes(version, values),
            trailer_place(version, values),
            text("trailer") + seq![10u8] + serialize(trailer_value(values.len())),
        ),
{
    let whole = document_bytes(version, values);
    let start = header(version).len();
    let end = start + body(values).len();
    let section = section_text(offsets_of(start, values));
    let written = serialize(trailer_value(values.len()));
    let word = text("trailer");
    lemma_layout(version, values);
    lemma_table_words();
    let lead = section.subrange(0, section.len() - 7);
    assert(section =~= lead + word);
    assert(section + seq![10u8] + written =~= lead + (word + seq![10u8] + written));
    lemma_at_concat(whole, end as int, lead, word + seq![10u8] + written);
}

/// A written document that was cut off within its trailer is reported.
/// Where the bytes end behind the word `trailer` and ahead of the end of
/// the dictionary that follows it, and no chain of cross-reference
/// sections is read from what is left, the validator reports that the root
/// cannot be resolved. The chain is read from the offset behind the last
/// `startxref`: none is read where what is left holds no such word.
pub proof fn written_cut_is_reported(version: Seq<u8>, values: Seq<Value>, cut: int)
    requires
        trailer_place(version, values) + 7 <= cut < trailer_place(version, values) + 8
            + serialize(trailer_value(values.len())).len(),
        chained_tables(document_bytes(version, values).subrange(0, cut)) is Err,
    ensures
        exists|i: int|
            0 <= i < violations_of(document_bytes(version, values).subrange(0, cut)).len() && (
            #[trigger] violations_of(document_bytes(version, values).subrange(0, cut))[i]).kind
                == ViolationKind::UnresolvableRoot,
{
    lemma_trailer_place(version, values);
    lemma_trailer_calm(values.len());
    lemma_cut_bytes(
        document_bytes(version, values),
        trailer_place(version, values),
        serialize(trailer_value(values.len())),
        cut,
    );
}

} // verus!
