//! What is written is read back: numbers, words, names and strings.
//!
//! The laws speak of a byte sequence in which a written text stands at a
//! given position, and say what the scanners of the lexical layer find
//! there.

use crate::lexer::{
    digits_end, digits_value, has_sign, hex_scan, integer_word, name_scan, skip_space,
    spec_hex_value, spec_is_digit, spec_is_regular, spec_is_white, unsigned_word, word_end,
};
use crate::writer::{
    decimal, hex_text, name_text, padded, signed_decimal, spec_hex_digit, spec_is_plain,
};
use vstd::prelude::*;

verus! {

/// The text `s` stands in `b` at position `pos`.
pub open spec fn at(b: Seq<u8>, pos: int, s: Seq<u8>) -> bool {
    &&& 0 <= pos
    &&& pos + s.len() <= b.len()
    &&& forall|i: int| 0 <= i < s.len() ==> b[pos + i] == #[trigger] s[i]
}

/// A word that ends before `pos` ends there: `b` ends, or the byte at
/// `pos` is not regular.
pub open spec fn stops(b: Seq<u8>, pos: int) -> bool {
    pos >= b.len() || !spec_is_regular(b[pos])
}

/// Every byte of the text is regular.
pub open spec fn all_regular(s: Seq<u8>) -> bool {
    forall|i: int| 0 <= i < s.len() ==> spec_is_regular(#[trigger] s[i])
}

/// Every byte of the text is a digit.
pub open spec fn all_digits(s: Seq<u8>) -> bool {
    forall|i: int| 0 <= i < s.len() ==> spec_is_digit(#[trigger] s[i])
}

/// A text made of two parts stands where the first part stands and the
/// second part stands behind it.
pub proof fn lemma_at_concat(b: Seq<u8>, pos: int, x: Seq<u8>, y: Seq<u8>)
    ensures
        at(b, pos, x + y) <==> at(b, pos, x) && at(b, pos + x.len(), y),
{
    if at(b, pos, x + y) {
        assert forall|i: int| 0 <= i < x.len() implies b[pos + i] == #[trigger] x[i] by {
            assert((x + y)[i] == x[i]);
        }
        assert forall|i: int| 0 <= i < y.len() implies b[pos + x.len() + i] == #[trigger] y[i] by {
            assert((x + y)[x.len() + i] == y[i]);
        }
    }
    if at(b, pos, x) && at(b, pos + x.len(), y) {
        assert forall|i: int| 0 <= i < (x + y).len() implies b[pos + i] == #[trigger] (x + y)[i] by {
            if i < x.len() {
                assert(x[i] == (x + y)[i]);
            } else {
                assert(y[i - x.len()] == (x + y)[i]);
            }
        }
    }
}

/// A text that stands in `b` is the part of `b` where it stands.
pub proof fn lemma_at_subrange(b: Seq<u8>, pos: int, s: Seq<u8>)
    requires
        at(b, pos, s),
    ensures
        b.subrange(pos, pos + s.len()) == s,
{
    assert(b.subrange(pos, pos + s.len()) =~= s);
}

/// A word of regular bytes ends where something else follows.
pub proof fn lemma_word(b: Seq<u8>, pos: int, s: Seq<u8>)
    requires
        at(b, pos, s),
        all_regular(s),
        stops(b, pos + s.len()),
    ensures
        word_end(b, pos) == pos + s.len(),
    decreases s.len(),
{
    if s.len() > 0 {
        assert(b[pos + 0] == s[0]);
        let rest = s.drop_first();
        assert forall|i: int| 0 <= i < rest.len() implies b[pos + 1 + i] == #[trigger] rest[i] by {
            assert(rest[i] == s[i + 1]);
        }
        assert forall|i: int| 0 <= i < rest.len() implies spec_is_regular(#[trigger] rest[i]) by {
            assert(rest[i] == s[i + 1]);
        }
        lemma_word(b, pos + 1, rest);
    }
}

/// Nothing is skipped where neither white space nor a comment starts.
pub proof fn lemma_skip_nothing(b: Seq<u8>, pos: int)
    requires
        pos < 0 || pos >= b.len() || (!spec_is_white(b[pos]) && b[pos] != 37),
    ensures
        skip_space(b, pos, false) == pos,
{
}

/// One byte of white space is skipped where neither white space nor a
/// comment follows it.
pub proof fn lemma_skip_one(b: Seq<u8>, pos: int)
    requires
        0 <= pos < b.len(),
        spec_is_white(b[pos]),
        pos + 1 >= b.len() || (!spec_is_white(b[pos + 1]) && b[pos + 1] != 37),
    ensures
        skip_space(b, pos, false) == pos + 1,
{
    lemma_skip_nothing(b, pos + 1);
}

/// A run of digits ends where the digits end.
pub proof fn lemma_digits_end(b: Seq<u8>, pos: int, to: int)
    requires
        0 <= pos <= to <= b.len(),
        forall|i: int| pos <= i < to ==> spec_is_digit(#[trigger] b[i]),
    ensures
        digits_end(b, pos, to) == to,
    decreases to - pos,
{
    if pos < to {
        lemma_digits_end(b, pos + 1, to);
    }
}

/// A number is written with digits, and with at least one.
pub proof fn lemma_decimal_digits(n: nat)
    ensures
        decimal(n).len() >= 1,
        all_digits(decimal(n)),
    decreases n,
{
    if n >= 10 {
        lemma_decimal_digits(n / 10);
        assert forall|i: int| 0 <= i < decimal(n).len() implies spec_is_digit(
            #[trigger] decimal(n)[i],
        ) by {
            if i < decimal(n / 10).len() {
                assert(decimal(n)[i] == decimal(n / 10)[i]);
            }
        }
    }
}

/// The digits of a number spell that number.
pub proof fn lemma_decimal_value(b: Seq<u8>, pos: int, n: nat)
    requires
        at(b, pos, decimal(n)),
    ensures
        digits_value(b, pos, pos + decimal(n).len()) == n,
    decreases n,
{
    let s = decimal(n);
    if n < 10 {
        assert(b[pos + 0] == s[0]);
        assert(digits_value(b, pos, pos) == 0);
    } else {
        let init = decimal(n / 10);
        lemma_decimal_digits(n / 10);
        assert forall|i: int| 0 <= i < init.len() implies b[pos + i] == #[trigger] init[i] by {
            assert(s[i] == init[i]);
        }
        lemma_decimal_value(b, pos, n / 10);
        assert(b[pos + init.len()] == s[init.len() as int]);
    }
}

/// A number that was written is read back as an unsigned number, where
/// something else follows it and it is not above the bound.
pub proof fn lemma_unsigned(b: Seq<u8>, pos: int, n: nat, max: nat)
    requires
        at(b, pos, decimal(n)),
        stops(b, pos + decimal(n).len()),
        n <= max,
    ensures
        word_end(b, pos) == pos + decimal(n).len(),
        unsigned_word(b, pos, pos + decimal(n).len(), max) == Some(n),
{
    let s = decimal(n);
    lemma_decimal_digits(n);
    assert(all_regular(s)) by {
        assert forall|i: int| 0 <= i < s.len() implies spec_is_regular(#[trigger] s[i]) by {
            assert(spec_is_digit(s[i]));
        }
    }
    lemma_word(b, pos, s);
    assert forall|i: int| pos <= i < pos + s.len() implies spec_is_digit(#[trigger] b[i]) by {
        assert(b[pos + (i - pos)] == s[i - pos]);
    }
    lemma_digits_end(b, pos, pos + s.len());
    lemma_decimal_value(b, pos, n);
}

/// An integer that was written is read back, where something else follows
/// it.
pub proof fn lemma_integer(b: Seq<u8>, pos: int, n: int)
    requires
        at(b, pos, signed_decimal(n)),
        stops(b, pos + signed_decimal(n).len()),
        i64::MIN <= n <= i64::MAX,
    ensures
        word_end(b, pos) == pos + signed_decimal(n).len(),
        integer_word(b, pos, pos + signed_decimal(n).len()) == Some(n),
{
    let s = signed_decimal(n);
    if n < 0 {
        let digits = decimal((-n) as nat);
        lemma_decimal_digits((-n) as nat);
        lemma_at_concat(b, pos, seq![45u8], digits);
        assert(b[pos + 0] == seq![45u8][0]);
        lemma_unsigned(b, pos + 1, (-n) as nat, 0x8000_0000_0000_0000);
        assert(has_sign(b, pos, pos + s.len()));
        assert(word_end(b, pos) == word_end(b, pos + 1));
    } else {
        lemma_decimal_digits(n as nat);
        assert(b[pos + 0] == s[0]);
        assert(spec_is_digit(s[0]));
        lemma_unsigned(b, pos, n as nat, 0x8000_0000_0000_0000);
        assert(!has_sign(b, pos, pos + s.len()));
    }
}

/// The last digits of a number are digits, as many as were asked for.
pub proof fn lemma_padded_digits(n: nat, width: nat)
    ensures
        padded(n, width).len() == width,
        all_digits(padded(n, width)),
    decreases width,
{
    if width > 0 {
        lemma_padded_digits(n / 10, (width - 1) as nat);
        assert forall|i: int| 0 <= i < padded(n, width).len() implies spec_is_digit(
            #[trigger] padded(n, width)[i],
        ) by {
            if i < width - 1 {
                assert(padded(n, width)[i] == padded(n / 10, (width - 1) as nat)[i]);
            }
        }
    }
}

/// Ten to the power of `width`.
pub open spec fn power_of_ten(width: nat) -> nat
    decreases width,
{
    if width == 0 {
        1
    } else {
        10 * power_of_ten((width - 1) as nat)
    }
}

/// The last `width` digits of a number spell the number, where it has no
/// more digits than that.
pub proof fn lemma_padded_value(b: Seq<u8>, pos: int, n: nat, width: nat)
    requires
        at(b, pos, padded(n, width)),
        n < power_of_ten(width),
    ensures
        digits_value(b, pos, pos + width) == n,
    decreases width,
{
    let s = padded(n, width);
    lemma_padded_digits(n, width);
    if width > 0 {
        let init = padded(n / 10, (width - 1) as nat);
        lemma_padded_digits(n / 10, (width - 1) as nat);
        assert forall|i: int| 0 <= i < init.len() implies b[pos + i] == #[trigger] init[i] by {
            assert(s[i] == init[i]);
        }
        lemma_padded_value(b, pos, n / 10, (width - 1) as nat);
        assert(b[pos + (width - 1)] == s[width - 1]);
    }
}

/// A padded number that was written is read back as an unsigned number,
/// where something else follows it.
pub proof fn lemma_padded(b: Seq<u8>, pos: int, n: nat, width: nat, max: nat)
    requires
        at(b, pos, padded(n, width)),
        stops(b, pos + width),
        width >= 1,
        n < power_of_ten(width),
        n <= max,
    ensures
        word_end(b, pos) == pos + width,
        unsigned_word(b, pos, pos + width, max) == Some(n),
{
    let s = padded(n, width);
    lemma_padded_digits(n, width);
    assert(all_regular(s)) by {
        assert forall|i: int| 0 <= i < s.len() implies spec_is_regular(#[trigger] s[i]) by {
            assert(spec_is_digit(s[i]));
        }
    }
    lemma_word(b, pos, s);
    assert forall|i: int| pos <= i < pos + s.len() implies spec_is_digit(#[trigger] b[i]) by {
        assert(b[pos + (i - pos)] == s[i - pos]);
    }
    lemma_digits_end(b, pos, pos + s.len());
    lemma_padded_value(b, pos, n, width);
}

/// The text of a name, byte by byte from the front.
pub proof fn lemma_name_text_front(s: Seq<u8>)
    requires
        s.len() > 0,
    ensures
        name_text(s) == name_text(seq![s[0]]) + name_text(s.drop_first()),
    decreases s.len(),
{
    if s.len() == 1 {
        assert(s.drop_first() =~= Seq::empty());
        assert(seq![s[0]] =~= s);
        assert(name_text(s) + Seq::empty() =~= name_text(s));
    } else {
        let init = s.drop_last();
        lemma_name_text_front(init);
        assert(init[0] == s[0]);
        assert(init.drop_first() =~= s.drop_first().drop_last());
        assert(s.drop_first().last() == s.last());
        let head = name_text(seq![s[0]]);
        let middle = name_text(s.drop_first().drop_last());
        if spec_is_plain(s.last()) {
            assert((head + middle).push(s.last()) =~= head + middle.push(s.last()));
        } else {
            assert((head + middle).push(35u8).push(spec_hex_digit(s.last() / 16)).push(
                spec_hex_digit(s.last() % 16),
            ) =~= head + middle.push(35u8).push(spec_hex_digit(s.last() / 16)).push(
                spec_hex_digit(s.last() % 16),
            ));
        }
    }
}

/// A hexadecimal digit that was written is read back.
pub proof fn lemma_hex_digit(d: u8)
    requires
        d < 16,
    ensures
        spec_hex_value(spec_hex_digit(d)) == Some(d),
        spec_is_regular(spec_hex_digit(d)),
        !spec_is_white(spec_hex_digit(d)),
        spec_hex_digit(d) != 62,
{
}

/// A name that was written is read back, where something else follows it.
pub proof fn lemma_name(b: Seq<u8>, pos: int, s: Seq<u8>, acc: Seq<u8>)
    requires
        at(b, pos, name_text(s)),
        stops(b, pos + name_text(s).len()),
    ensures
        name_scan(b, pos, acc) == (acc + s, pos + name_text(s).len()),
    decreases s.len(),
{
    if s.len() == 0 {
        assert(acc + s =~= acc);
    } else {
        let c = s[0];
        let rest = s.drop_first();
        let head = name_text(seq![c]);
        lemma_name_text_front(s);
        lemma_at_concat(b, pos, head, name_text(rest));
        assert(seq![c].drop_last() =~= Seq::<u8>::empty());
        assert(name_text(Seq::<u8>::empty()) =~= Seq::<u8>::empty());
        assert(name_text(seq![c].drop_last()) =~= Seq::<u8>::empty());
        assert(seq![c].last() == c);
        assert(acc.push(c) + rest =~= acc + s);
        if spec_is_plain(c) {
            assert(head =~= seq![c]);
            assert(b[pos + 0] == head[0]);
            lemma_name(b, pos + 1, rest, acc.push(c));
        } else {
            let high = spec_hex_digit(c / 16);
            let low = spec_hex_digit(c % 16);
            assert(head =~= seq![35u8, high, low]);
            assert(b[pos + 0] == head[0]);
            assert(b[pos + 1] == head[1]);
            assert(b[pos + 2] == head[2]);
            lemma_hex_digit(c / 16);
            lemma_hex_digit(c % 16);
            assert(((c / 16) * 16 + c % 16) as u8 == c);
            lemma_name(b, pos + 3, rest, acc.push(c));
            // Two more bytes stand behind the `#`, and something behind them.
            assert(pos + 2 < b.len());
        }
    }
}

/// The hexadecimal text of bytes, byte by byte from the front.
pub proof fn lemma_hex_text_front(s: Seq<u8>)
    requires
        s.len() > 0,
    ensures
        hex_text(s) == seq![spec_hex_digit(s[0] / 16), spec_hex_digit(s[0] % 16)] + hex_text(
            s.drop_first(),
        ),
    decreases s.len(),
{
    let head = seq![spec_hex_digit(s[0] / 16), spec_hex_digit(s[0] % 16)];
    if s.len() == 1 {
        assert(s.drop_first() =~= Seq::empty());
        assert(s.drop_last() =~= Seq::empty());
        assert(hex_text(s) =~= head + hex_text(s.drop_first()));
    } else {
        let init = s.drop_last();
        lemma_hex_text_front(init);
        assert(init[0] == s[0]);
        assert(init.drop_first() =~= s.drop_first().drop_last());
        assert(s.drop_first().last() == s.last());
        let middle = hex_text(s.drop_first().drop_last());
        assert((head + middle).push(spec_hex_digit(s.last() / 16)).push(
            spec_hex_digit(s.last() % 16),
        ) =~= head + middle.push(spec_hex_digit(s.last() / 16)).push(
            spec_hex_digit(s.last() % 16),
        ));
    }
}

/// A string that was written in hexadecimal is read back.
pub proof fn lemma_hex_string(b: Seq<u8>, pos: int, s: Seq<u8>, acc: Seq<u8>)
    requires
        at(b, pos, hex_text(s) + seq![62u8]),
    ensures
        hex_scan(b, pos, acc, None) == Some((acc + s, pos + hex_text(s).len() + 1)),
    decreases s.len(),
{
    lemma_at_concat(b, pos, hex_text(s), seq![62u8]);
    if s.len() == 0 {
        assert(acc + s =~= acc);
        assert(b[pos + 0] == seq![62u8][0]);
    } else {
        let c = s[0];
        let rest = s.drop_first();
        let head = seq![spec_hex_digit(c / 16), spec_hex_digit(c % 16)];
        lemma_hex_text_front(s);
        lemma_at_concat(b, pos, head, hex_text(rest));
        lemma_at_concat(b, pos + 2, hex_text(rest), seq![62u8]);
        assert(b[pos + 0] == head[0]);
        assert(b[pos + 1] == head[1]);
        lemma_hex_digit(c / 16);
        lemma_hex_digit(c % 16);
        assert(((c / 16) * 16 + c % 16) as u8 == c);
        assert(acc.push(c) + rest =~= acc + s);
        lemma_hex_string(b, pos + 2, rest, acc.push(c));
        assert(hex_scan(b, pos, acc, None) == hex_scan(b, pos + 1, acc, Some((c / 16) as u8)));
    }
}

} // verus!
