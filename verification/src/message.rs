//! The messages that describe a failure.

use crate::chapter::{ChapterDefinitionError, ChapterFault};
use crate::object::ObjectId;
use crate::pages::StructuralError;
use crate::xref::ParseError;
use vstd::prelude::*;
use vstd::string::*;

verus! {

/// The character of a digit.
pub open spec fn digit_text(d: nat) -> Seq<char> {
    if d == 0 {
        "0"@
    } else if d == 1 {
        "1"@
    } else if d == 2 {
        "2"@
    } else if d == 3 {
        "3"@
    } else if d == 4 {
        "4"@
    } else if d == 5 {
        "5"@
    } else if d == 6 {
        "6"@
    } else if d == 7 {
        "7"@
    } else if d == 8 {
        "8"@
    } else {
        "9"@
    }
}

/// The character of a digit.
pub fn digit_str(d: u64) -> (r: &'static str)
    requires
        d < 10,
    ensures
        r@ == digit_text(d as nat),
{
    if d == 0 {
        "0"
    } else if d == 1 {
        "1"
    } else if d == 2 {
        "2"
    } else if d == 3 {
        "3"
    } else if d == 4 {
        "4"
    } else if d == 5 {
        "5"
    } else if d == 6 {
        "6"
    } else if d == 7 {
        "7"
    } else if d == 8 {
        "8"
    } else {
        "9"
    }
}

/// The digits of a number.
pub open spec fn number_text(n: nat) -> Seq<char>
    decreases n,
{
    if n < 10 {
        digit_text(n)
    } else {
        number_text(n / 10) + digit_text(n % 10)
    }
}

/// Appends the digits of a number.
pub fn append_number(s: &mut String, n: u64)
    ensures
        final(s)@ == old(s)@ + number_text(n as nat),
    decreases n,
{
    if n >= 10 {
        append_number(s, n / 10);
    }
    s.append(digit_str(n % 10));
    assert(s@ =~= old(s)@ + number_text(n as nat));
}

/// What is wrong with a chapter definition, in the words that follow its
/// position.
pub open spec fn fault_text(fault: ChapterFault) -> Seq<char> {
    match fault {
        ChapterFault::ZeroPage => " 的页码无效"@,
        ChapterFault::InvertedRange => " 的起始页码大于结束页码"@,
        ChapterFault::EmptyTitle => " 的标题为空"@,
        ChapterFault::OutOfRange => " 的结束页码超出总页数"@,
    }
}

/// The message for a rejected chapter definition: its position and what is
/// wrong with it.
pub open spec fn chapter_message(e: ChapterDefinitionError) -> Seq<char> {
    "章节 "@ + number_text(e.index as nat) + fault_text(e.fault)
}

/// Describes a rejected chapter definition.
pub fn describe_chapter_error(e: ChapterDefinitionError) -> (r: String)
    ensures
        r@ == chapter_message(e),
{
    let mut s = String::from_str("章节 ");
    append_number(&mut s, e.index as u64);
    match e.fault {
        ChapterFault::ZeroPage => {
            s.append(" 的页码无效");
        },
        ChapterFault::InvertedRange => {
            s.append(" 的起始页码大于结束页码");
        },
        ChapterFault::EmptyTitle => {
            s.append(" 的标题为空");
        },
        ChapterFault::OutOfRange => {
            s.append(" 的结束页码超出总页数");
        },
    }
    s
}

/// Why the bytes of a document could not be read, in words.
pub open spec fn parse_message(e: ParseError) -> Seq<char> {
    match e {
        ParseError::MissingStartXref => "no cross-reference offset at the end of the document"@,
        ParseError::MalformedXref => "malformed cross-reference section"@,
        ParseError::TooManyRevisions => "too many revisions"@,
        ParseError::Encrypted => "encrypted documents are not supported"@,
        ParseError::CompressedXref => "cross-reference streams are not supported"@,
        ParseError::CompressedObjects => "object streams are not supported"@,
        ParseError::Linearized => "linearized documents are not supported"@,
    }
}

/// Describes why the bytes of a document could not be read.
pub fn describe_parse_error(e: ParseError) -> (r: String)
    ensures
        r@ == parse_message(e),
{
    match e {
        ParseError::MissingStartXref => String::from_str(
            "no cross-reference offset at the end of the document",
        ),
        ParseError::MalformedXref => String::from_str("malformed cross-reference section"),
        ParseError::TooManyRevisions => String::from_str("too many revisions"),
        ParseError::Encrypted => String::from_str("encrypted documents are not supported"),
        ParseError::CompressedXref => String::from_str(
            "cross-reference streams are not supported",
        ),
        ParseError::CompressedObjects => String::from_str("object streams are not supported"),
        ParseError::Linearized => String::from_str("linearized documents are not supported"),
    }
}

/// The message that names an object.
pub open spec fn object_message(what: Seq<char>, id: ObjectId) -> Seq<char> {
    what + number_text(id.number as nat) + " "@ + number_text(id.generation as nat)
}

/// Builds the message that names an object.
pub fn describe_object(what: &str, id: ObjectId) -> (r: String)
    ensures
        r@ == object_message(what@, id),
{
    let mut s = String::from_str(what);
    append_number(&mut s, id.number as u64);
    s.append(" ");
    append_number(&mut s, id.generation as u64);
    s
}

/// Why the structure of a document does not yield its pages, in words.
pub open spec fn structure_message(e: StructuralError) -> Seq<char> {
    match e {
        StructuralError::UnresolvableRoot => "the root catalog does not lead to a page tree"@,
        StructuralError::CyclicPageTree(id) => object_message(
            "the page tree reaches a node twice: object "@,
            id,
        ),
        StructuralError::DanglingReference(id) => object_message(
            "the page tree refers to a missing object: object "@,
            id,
        ),
        StructuralError::NotAPageNode(id) => object_message(
            "the page tree holds a malformed node: object "@,
            id,
        ),
        StructuralError::MissingMediaBox(id) => object_message(
            "a page has no media box: object "@,
            id,
        ),
    }
}

/// Describes why the structure of a document does not yield its pages.
pub fn describe_structural_error(e: StructuralError) -> (r: String)
    ensures
        r@ == structure_message(e),
{
    match e {
        StructuralError::UnresolvableRoot => String::from_str(
            "the root catalog does not lead to a page tree",
        ),
        StructuralError::CyclicPageTree(id) => describe_object(
            "the page tree reaches a node twice: object ",
            id,
        ),
        StructuralError::DanglingReference(id) => describe_object(
            "the page tree refers to a missing object: object ",
            id,
        ),
        StructuralError::NotAPageNode(id) => describe_object(
            "the page tree holds a malformed node: object ",
            id,
        ),
        StructuralError::MissingMediaBox(id) => describe_object(
            "a page has no media box: object ",
            id,
        ),
    }
}

/// The message for a chapter that could not be written.
pub open spec fn unwritten_message(index: usize) -> Seq<char> {
    "chapter "@ + number_text(index as nat) + ": the output is too large to be written"@
}

/// Describes a chapter that could not be written.
pub fn describe_unwritten(index: usize) -> (r: String)
    ensures
        r@ == unwritten_message(index),
{
    let mut s = String::from_str("chapter ");
    append_number(&mut s, index as u64);
    s.append(": the output is too large to be written");
    s
}

/// The message for a chapter whose file could not be stored.
pub open spec fn unstored_message(index: usize) -> Seq<char> {
    "chapter "@ + number_text(index as nat) + ": the file could not be stored"@
}

/// Describes a chapter whose file could not be stored.
pub fn describe_unstored(index: usize) -> (r: String)
    ensures
        r@ == unstored_message(index),
{
    let mut s = String::from_str("chapter ");
    append_number(&mut s, index as u64);
    s.append(": the file could not be stored");
    s
}

} // verus!
