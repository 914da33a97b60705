//! The lexical layer: white space and comments, words, numbers, names and
//! strings.
//!
//! Every scanner is specified by a function on the byte sequence and a
//! position, and the executable scanner is proved to compute it.

use vstd::prelude::*;
use vstd::string::*;

verus! {

/// The bytes of a word given as text.
pub open spec fn text(s: &str) -> Seq<u8> {
    s.spec_bytes()
}

/// Skipping space never moves backwards, nor beyond the end.
pub proof fn lemma_skip_space_bounds(b: Seq<u8>, pos: int, in_comment: bool)
    ensures
        pos <= skip_space(b, pos, in_comment),
        pos <= b.len() ==> skip_space(b, pos, in_comment) <= b.len(),
    decreases b.len() - pos,
{
    if pos < 0 || pos >= b.len() {
    } else if in_comment {
        lemma_skip_space_bounds(b, pos + 1, !(b[pos] == 10 || b[pos] == 13));
    } else if spec_is_white(b[pos]) {
        lemma_skip_space_bounds(b, pos + 1, false);
    } else if b[pos] == 37 {
        lemma_skip_space_bounds(b, pos + 1, true);
    }
}

/// The six white-space bytes: NUL, TAB, LF, FF, CR and SPACE.
pub open spec fn spec_is_white(c: u8) -> bool {
    c == 0 || c == 9 || c == 10 || c == 12 || c == 13 || c == 32
}

#[verifier::when_used_as_spec(spec_is_white)]
pub fn is_white(c: u8) -> (r: bool)
    ensures
        r == spec_is_white(c),
{
    c == 0 || c == 9 || c == 10 || c == 12 || c == 13 || c == 32
}

/// The ten delimiters: `( ) < > [ ] { } / %`.
pub open spec fn spec_is_delimiter(c: u8) -> bool {
    c == 40 || c == 41 || c == 60 || c == 62 || c == 91 || c == 93 || c == 123 || c == 125 || c
        == 47 || c == 37
}

#[verifier::when_used_as_spec(spec_is_delimiter)]
pub fn is_delimiter(c: u8) -> (r: bool)
    ensures
        r == spec_is_delimiter(c),
{
    c == 40 || c == 41 || c == 60 || c == 62 || c == 91 || c == 93 || c == 123 || c == 125 || c
        == 47 || c == 37
}

/// A regular byte is neither white space nor a delimiter.
pub open spec fn spec_is_regular(c: u8) -> bool {
    !spec_is_white(c) && !spec_is_delimiter(c)
}

#[verifier::when_used_as_spec(spec_is_regular)]
pub fn is_regular(c: u8) -> (r: bool)
    ensures
        r == spec_is_regular(c),
{
    !is_white(c) && !is_delimiter(c)
}

/// A decimal digit.
pub open spec fn spec_is_digit(c: u8) -> bool {
    48 <= c <= 57
}

#[verifier::when_used_as_spec(spec_is_digit)]
pub fn is_digit(c: u8) -> (r: bool)
    ensures
        r == spec_is_digit(c),
{
    48 <= c && c <= 57
}

/// The value of a hexadecimal digit, in either case.
pub open spec fn spec_hex_value(c: u8) -> Option<u8> {
    if 48 <= c <= 57 {
        Some((c - 48) as u8)
    } else if 65 <= c <= 70 {
        Some((c - 55) as u8)
    } else if 97 <= c <= 102 {
        Some((c - 87) as u8)
    } else {
        None
    }
}

#[verifier::when_used_as_spec(spec_hex_value)]
pub fn hex_value(c: u8) -> (r: Option<u8>)
    ensures
        r == spec_hex_value(c),
        r matches Some(d) ==> d < 16,
{
    if 48 <= c && c <= 57 {
        Some(c - 48)
    } else if 65 <= c && c <= 70 {
        Some(c - 55)
    } else if 97 <= c && c <= 102 {
        Some(c - 87)
    } else {
        None
    }
}

/// The first position at or after `pos` that holds neither white space nor
/// part of a comment. A comment runs from `%` to the end of its line;
/// `in_comment` says whether `pos` lies inside one.
pub open spec fn skip_space(b: Seq<u8>, pos: int, in_comment: bool) -> int
    decreases b.len() - pos,
{
    if pos < 0 || pos >= b.len() {
        pos
    } else if in_comment {
        skip_space(b, pos + 1, !(b[pos] == 10 || b[pos] == 13))
    } else if spec_is_white(b[pos]) {
        skip_space(b, pos + 1, false)
    } else if b[pos] == 37 {
        skip_space(b, pos + 1, true)
    } else {
        pos
    }
}

/// Skips white space and comments from `pos` on.
pub fn skip(b: &[u8], pos: usize) -> (r: usize)
    ensures
        r == skip_space(b@, pos as int, false),
        pos <= r,
        pos <= b.len() ==> r <= b.len(),
{
    let mut i: usize = pos;
    let mut in_comment = false;
    while i < b.len()
        invariant
            pos <= i,
            pos <= b.len() ==> i <= b.len(),
            skip_space(b@, pos as int, false) == skip_space(b@, i as int, in_comment),
        decreases b.len() - i,
    {
        let c = b[i];
        if in_comment {
            in_comment = !(c == 10 || c == 13);
        } else if is_white(c) {
        } else if c == 37 {
            in_comment = true;
        } else {
            return i;
        }
        i += 1;
    }
    i
}

/// The end of the run of regular bytes that starts at `pos`.
pub open spec fn word_end(b: Seq<u8>, pos: int) -> int
    decreases b.len() - pos,
{
    if 0 <= pos < b.len() && spec_is_regular(b[pos]) {
        word_end(b, pos + 1)
    } else {
        pos
    }
}

/// Finds the end of the word that starts at `pos`.
pub fn scan_word(b: &[u8], pos: usize) -> (r: usize)
    ensures
        r == word_end(b@, pos as int),
        pos <= r,
        pos <= b.len() ==> r <= b.len(),
{
    let mut i: usize = pos;
    while i < b.len() && is_regular(b[i])
        invariant
            pos <= i,
            pos <= b.len() ==> i <= b.len(),
            word_end(b@, pos as int) == word_end(b@, i as int),
        decreases b.len() - i,
    {
        i += 1;
    }
    i
}

/// Whether the bytes from `from` up to `to` are exactly `word`.
pub fn word_is(b: &[u8], from: usize, to: usize, word: &[u8]) -> (r: bool)
    requires
        from <= to <= b.len(),
    ensures
        r == (b@.subrange(from as int, to as int) == word@),
{
    if to - from != word.len() {
        return false;
    }
    let mut i: usize = 0;
    while i < word.len()
        invariant
            from <= to <= b.len(),
            to - from == word.len(),
            i <= word.len(),
            forall|j: int| 0 <= j < i ==> b@[from + j] == word@[j],
        decreases word.len() - i,
    {
        if b[from + i] != word[i] {
            assert(b@.subrange(from as int, to as int)[i as int] != word@[i as int]);
            return false;
        }
        i += 1;
    }
    assert(b@.subrange(from as int, to as int) =~= word@);
    true
}

/// The first position in `pos..to` that does not hold a digit, or `to`.
pub open spec fn digits_end(b: Seq<u8>, pos: int, to: int) -> int
    decreases to - pos,
{
    if 0 <= pos < to && pos < b.len() && spec_is_digit(b[pos]) {
        digits_end(b, pos + 1, to)
    } else {
        pos
    }
}

/// The number that the digits in `from..to` spell.
pub open spec fn digits_value(b: Seq<u8>, from: int, to: int) -> nat
    decreases to - from,
{
    if to <= from {
        0
    } else {
        digits_value(b, from, to - 1) * 10 + (b[to - 1] - 48) as nat
    }
}

/// What an unsigned number word in `from..to` denotes: its value, where the
/// word is a non-empty run of digits and the value is at most `max`.
pub open spec fn unsigned_word(b: Seq<u8>, from: int, to: int, max: nat) -> Option<nat> {
    if from < to && digits_end(b, from, to) == to && digits_value(b, from, to) <= max {
        Some(digits_value(b, from, to))
    } else {
        None
    }
}

/// Adding digits never makes the value smaller.
pub proof fn lemma_digits_value_grows(b: Seq<u8>, from: int, mid: int, to: int)
    requires
        from <= mid <= to,
    ensures
        digits_value(b, from, mid) <= digits_value(b, from, to),
    decreases to - mid,
{
    if mid < to {
        lemma_digits_value_grows(b, from, mid, to - 1);
    }
}

/// Reads the unsigned number written in `from..to`.
pub fn read_unsigned(b: &[u8], from: usize, to: usize, max: u64) -> (r: Option<u64>)
    requires
        from <= to <= b.len(),
    ensures
        match r {
            Some(v) => unsigned_word(b@, from as int, to as int, max as nat) == Some(v as nat),
            None => unsigned_word(b@, from as int, to as int, max as nat) is None,
        },
{
    if from == to {
        return None;
    }
    let mut acc: u64 = 0;
    let mut i: usize = from;
    while i < to
        invariant
            from <= i <= to <= b.len(),
            digits_end(b@, from as int, to as int) == digits_end(b@, i as int, to as int),
            acc == digits_value(b@, from as int, i as int),
            acc <= max,
        decreases to - i,
    {
        let c = b[i];
        if !is_digit(c) {
            return None;
        }
        let next: u128 = acc as u128 * 10 + (c - 48) as u128;
        if next > max as u128 {
            proof {
                lemma_digits_value_grows(b@, from as int, i + 1, to as int);
            }
            return None;
        }
        acc = next as u64;
        i += 1;
    }
    Some(acc)
}

/// Whether a word starts with a sign.
pub open spec fn has_sign(b: Seq<u8>, from: int, to: int) -> bool {
    from < to && 0 <= from < b.len() && (b[from] == 43 || b[from] == 45)
}

/// What an integer word in `from..to` denotes: an optional sign and a
/// non-empty run of digits, with a value that a signed 64-bit integer holds.
pub open spec fn integer_word(b: Seq<u8>, from: int, to: int) -> Option<int> {
    let start = if has_sign(b, from, to) { from + 1 } else { from };
    match unsigned_word(b, start, to, 0x8000_0000_0000_0000) {
        Some(m) => if has_sign(b, from, to) && b[from] == 45 {
            Some(-(m as int))
        } else if m <= 0x7fff_ffff_ffff_ffff {
            Some(m as int)
        } else {
            None
        },
        None => None,
    }
}

/// Reads the integer written in `from..to`.
pub fn read_integer(b: &[u8], from: usize, to: usize) -> (r: Option<i64>)
    requires
        from <= to <= b.len(),
    ensures
        match r {
            Some(v) => integer_word(b@, from as int, to as int) == Some(v as int),
            None => integer_word(b@, from as int, to as int) is None,
        },
{
    let signed = from < to && (b[from] == 43 || b[from] == 45);
    let negative = signed && b[from] == 45;
    let start = if signed { from + 1 } else { from };
    match read_unsigned(b, start, to, 0x8000_0000_0000_0000) {
        Some(m) => {
            if negative {
                if m == 0x8000_0000_0000_0000 {
                    Some(i64::MIN)
                } else {
                    Some(-(m as i64))
                }
            } else if m <= 0x7fff_ffff_ffff_ffff {
                Some(m as i64)
            } else {
                None
            }
        },
        None => None,
    }
}

/// Whether the word in `from..to` is a real number: an optional sign, then
/// digits with exactly one point among them and at least one digit.
pub open spec fn real_word(b: Seq<u8>, from: int, to: int) -> bool {
    let start = if has_sign(b, from, to) { from + 1 } else { from };
    let point = digits_end(b, start, to);
    &&& to - start >= 2
    &&& point < to
    &&& 0 <= point < b.len()
    &&& b[point] == 46
    &&& digits_end(b, point + 1, to) == to
}

/// Finds the end of the run of digits that starts at `pos` and ends by `to`.
pub fn scan_digits(b: &[u8], pos: usize, to: usize) -> (r: usize)
    requires
        pos <= to <= b.len(),
    ensures
        r == digits_end(b@, pos as int, to as int),
        pos <= r <= to,
{
    let mut i: usize = pos;
    while i < to && is_digit(b[i])
        invariant
            pos <= i <= to <= b.len(),
            digits_end(b@, pos as int, to as int) == digits_end(b@, i as int, to as int),
        decreases to - i,
    {
        i += 1;
    }
    i
}

/// Whether the word in `from..to` is a real number.
pub fn is_real_word(b: &[u8], from: usize, to: usize) -> (r: bool)
    requires
        from <= to <= b.len(),
    ensures
        r == real_word(b@, from as int, to as int),
{
    let signed = from < to && (b[from] == 43 || b[from] == 45);
    let start = if signed { from + 1 } else { from };
    if to - start < 2 {
        return false;
    }
    let point = scan_digits(b, start, to);
    if point >= to || b[point] != 46 {
        return false;
    }
    scan_digits(b, point + 1, to) == to
}

/// The bytes of a name whose text starts at `pos`, and where it ends. `#`
/// followed by two hexadecimal digits stands for the byte they spell.
pub open spec fn name_scan(b: Seq<u8>, pos: int, acc: Seq<u8>) -> (Seq<u8>, int)
    decreases b.len() - pos,
{
    if pos < 0 || pos >= b.len() || !spec_is_regular(b[pos]) {
        (acc, pos)
    } else if b[pos] == 35 && pos + 2 < b.len() && spec_hex_value(b[pos + 1]) is Some
        && spec_hex_value(b[pos + 2]) is Some {
        name_scan(
            b,
            pos + 3,
            acc.push(
                (spec_hex_value(b[pos + 1])->0 * 16 + spec_hex_value(b[pos + 2])->0) as u8,
            ),
        )
    } else {
        name_scan(b, pos + 1, acc.push(b[pos]))
    }
}

/// Reads the name whose text starts at `pos`, just behind its `/`.
pub fn read_name(b: &[u8], pos: usize) -> (r: (Vec<u8>, usize))
    ensures
        (r.0@, r.1 as int) == name_scan(b@, pos as int, Seq::empty()),
        pos <= r.1,
        pos <= b.len() ==> r.1 <= b.len(),
{
    let mut out: Vec<u8> = Vec::new();
    let mut i: usize = pos;
    while i < b.len() && is_regular(b[i])
        invariant
            pos <= i,
            pos <= b.len() ==> i <= b.len(),
            name_scan(b@, pos as int, Seq::empty()) == name_scan(b@, i as int, out@),
        decreases b.len() - i,
    {
        let c = b[i];
        let mut step: usize = 1;
        let mut byte: u8 = c;
        if c == 35 && b.len() - i > 2 {
            match (hex_value(b[i + 1]), hex_value(b[i + 2])) {
                (Some(high), Some(low)) => {
                    byte = high * 16 + low;
                    step = 3;
                },
                _ => {},
            }
        }
        out.push(byte);
        i += step;
    }
    (out, i)
}

/// An octal digit.
pub open spec fn spec_is_octal(c: u8) -> bool {
    48 <= c <= 55
}

#[verifier::when_used_as_spec(spec_is_octal)]
pub fn is_octal(c: u8) -> (r: bool)
    ensures
        r == spec_is_octal(c),
{
    48 <= c && c <= 55
}

/// How many octal digits, one to three, an escape at `pos` holds, given
/// that the byte at `pos` is one.
pub open spec fn octal_len(b: Seq<u8>, pos: int) -> int {
    if pos + 1 < b.len() && spec_is_octal(b[pos + 1]) {
        if pos + 2 < b.len() && spec_is_octal(b[pos + 2]) {
            3
        } else {
            2
        }
    } else {
        1
    }
}

/// The byte that the `count` octal digits at `pos` spell; a value above 255
/// loses its high bits.
pub open spec fn octal_value(b: Seq<u8>, pos: int, count: int) -> u8 {
    let first = (b[pos] - 48) as int;
    if count == 1 {
        first as u8
    } else if count == 2 {
        (first * 8 + (b[pos + 1] - 48)) as u8
    } else {
        ((first * 64 + (b[pos + 1] - 48) * 8 + (b[pos + 2] - 48)) % 256) as u8
    }
}

/// The byte that a one-letter escape stands for.
pub open spec fn escape_value(c: u8) -> u8 {
    if c == 110 {
        10
    } else if c == 114 {
        13
    } else if c == 116 {
        9
    } else if c == 98 {
        8
    } else if c == 102 {
        12
    } else {
        c
    }
}

/// The bytes of a literal string and the position behind its closing
/// parenthesis. `pos` lies behind the opening parenthesis; `depth` counts the
/// parentheses that are open. `None` where the string does not end.
///
/// Balanced parentheses belong to the string. A backslash introduces an
/// escape: a letter, one to three octal digits, or a line end, which is
/// dropped. A line end that is not escaped is read as a single LF.
pub open spec fn string_scan(b: Seq<u8>, pos: int, depth: nat, acc: Seq<u8>) -> Option<
    (Seq<u8>, int),
>
    decreases b.len() - pos,
{
    if pos < 0 || pos >= b.len() {
        None
    } else if b[pos] == 41 {
        if depth <= 1 {
            Some((acc, pos + 1))
        } else {
            string_scan(b, pos + 1, (depth - 1) as nat, acc.push(b[pos]))
        }
    } else if b[pos] == 40 {
        string_scan(b, pos + 1, depth + 1, acc.push(b[pos]))
    } else if b[pos] == 92 {
        if pos + 1 >= b.len() {
            None
        } else if spec_is_octal(b[pos + 1]) {
            let count = octal_len(b, pos + 1);
            string_scan(b, pos + 1 + count, depth, acc.push(octal_value(b, pos + 1, count)))
        } else if b[pos + 1] == 10 {
            string_scan(b, pos + 2, depth, acc)
        } else if b[pos + 1] == 13 {
            if pos + 2 < b.len() && b[pos + 2] == 10 {
                string_scan(b, pos + 3, depth, acc)
            } else {
                string_scan(b, pos + 2, depth, acc)
            }
        } else {
            string_scan(b, pos + 2, depth, acc.push(escape_value(b[pos + 1])))
        }
    } else if b[pos] == 13 {
        if pos + 1 < b.len() && b[pos + 1] == 10 {
            string_scan(b, pos + 2, depth, acc.push(10))
        } else {
            string_scan(b, pos + 1, depth, acc.push(10))
        }
    } else {
        string_scan(b, pos + 1, depth, acc.push(b[pos]))
    }
}

/// The one-letter escape behind a backslash.
pub fn unescape(c: u8) -> (r: u8)
    ensures
        r == escape_value(c),
{
    if c == 110 {
        10
    } else if c == 114 {
        13
    } else if c == 116 {
        9
    } else if c == 98 {
        8
    } else if c == 102 {
        12
    } else {
        c
    }
}

/// Reads the octal escape whose first digit is at `pos`: its byte and the
/// number of digits.
pub fn read_octal(b: &[u8], pos: usize) -> (r: (u8, usize))
    requires
        pos < b.len(),
        spec_is_octal(b@[pos as int]),
    ensures
        r.1 == octal_len(b@, pos as int),
        r.0 == octal_value(b@, pos as int, r.1 as int),
        1 <= r.1 <= 3,
        pos + r.1 <= b.len(),
{
    let first: u32 = (b[pos] - 48) as u32;
    if b.len() - pos > 1 && is_octal(b[pos + 1]) {
        let second: u32 = (b[pos + 1] - 48) as u32;
        if b.len() - pos > 2 && is_octal(b[pos + 2]) {
            let third: u32 = (b[pos + 2] - 48) as u32;
            (((first * 64 + second * 8 + third) % 256) as u8, 3)
        } else {
            ((first * 8 + second) as u8, 2)
        }
    } else {
        (first as u8, 1)
    }
}

/// Reads the literal string whose text starts at `pos`, just behind its
/// opening parenthesis.
pub fn read_string(b: &[u8], pos: usize) -> (r: Option<(Vec<u8>, usize)>)
    ensures
        match r {
            Some((bytes, end)) => string_scan(b@, pos as int, 1, Seq::empty()) == Some(
                (bytes@, end as int),
            ) && pos < end <= b.len(),
            None => string_scan(b@, pos as int, 1, Seq::empty()) is None,
        },
{
    let mut out: Vec<u8> = Vec::new();
    let mut i: usize = pos;
    let mut open: usize = 0;
    while i < b.len()
        invariant
            pos <= i,
            open <= i - pos,
            string_scan(b@, pos as int, 1, Seq::empty()) == string_scan(
                b@,
                i as int,
                (open + 1) as nat,
                out@,
            ),
        decreases b.len() - i,
    {
        let c = b[i];
        if c == 41 {
            if open == 0 {
                return Some((out, i + 1));
            }
            open -= 1;
            out.push(c);
            i += 1;
        } else if c == 40 {
            open += 1;
            out.push(c);
            i += 1;
        } else if c == 92 {
            if b.len() - i < 2 {
                return None;
            }
            let e = b[i + 1];
            if is_octal(e) {
                let (byte, count) = read_octal(b, i + 1);
                out.push(byte);
                i += 1 + count;
            } else if e == 10 {
                i += 2;
            } else if e == 13 {
                if b.len() - i > 2 && b[i + 2] == 10 {
                    i += 3;
                } else {
                    i += 2;
                }
            } else {
                out.push(unescape(e));
                i += 2;
            }
        } else if c == 13 {
            out.push(10);
            if b.len() - i > 1 && b[i + 1] == 10 {
                i += 2;
            } else {
                i += 1;
            }
        } else {
            out.push(c);
            i += 1;
        }
    }
    None
}

/// The bytes of a hexadecimal string and the position behind its closing
/// `>`. `pos` lies behind the opening `<`; `high` is a digit that waits for
/// its partner. White space between digits is skipped, and a last digit
/// without a partner is paired with zero. `None` where the string does not
/// end or holds anything else.
pub open spec fn hex_scan(b: Seq<u8>, pos: int, acc: Seq<u8>, high: Option<u8>) -> Option<
    (Seq<u8>, int),
>
    decreases b.len() - pos,
{
    if pos < 0 || pos >= b.len() {
        None
    } else if b[pos] == 62 {
        match high {
            Some(h) => Some((acc.push((h * 16) as u8), pos + 1)),
            None => Some((acc, pos + 1)),
        }
    } else if spec_is_white(b[pos]) {
        hex_scan(b, pos + 1, acc, high)
    } else {
        match spec_hex_value(b[pos]) {
            None => None,
            Some(d) => match high {
                None => hex_scan(b, pos + 1, acc, Some(d)),
                Some(h) => hex_scan(b, pos + 1, acc.push((h * 16 + d) as u8), None),
            },
        }
    }
}

/// Reads the hexadecimal string whose digits start at `pos`, just behind its
/// `<`.
pub fn read_hex_string(b: &[u8], pos: usize) -> (r: Option<(Vec<u8>, usize)>)
    ensures
        match r {
            Some((bytes, end)) => hex_scan(b@, pos as int, Seq::empty(), None) == Some(
                (bytes@, end as int),
            ) && pos < end <= b.len(),
            None => hex_scan(b@, pos as int, Seq::empty(), None) is None,
        },
{
    let mut out: Vec<u8> = Vec::new();
    let mut i: usize = pos;
    let mut high: Option<u8> = None;
    while i < b.len()
        invariant
            pos <= i,
            high matches Some(h) ==> h < 16,
            hex_scan(b@, pos as int, Seq::empty(), None) == hex_scan(b@, i as int, out@, high),
        decreases b.len() - i,
    {
        let c = b[i];
        if c == 62 {
            match high {
                Some(h) => {
                    out.push(h * 16);
                },
                None => {},
            }
            return Some((out, i + 1));
        } else if is_white(c) {
        } else {
            match hex_value(c) {
                None => {
                    return None;
                },
                Some(d) => {
                    match high {
                        None => {
                            high = Some(d);
                        },
                        Some(h) => {
                            out.push(h * 16 + d);
                            high = None;
                        },
                    }
                },
            }
        }
        i += 1;
    }
    None
}

} // verus!
