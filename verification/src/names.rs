//! The names that the library looks for, as bytes.

use crate::lexer::text;
use vstd::prelude::*;
use vstd::string::*;

verus! {

/// The names of the page tree differ from each other: each is told from
/// the others by its length and its first byte.
pub proof fn lemma_names()
    ensures
        text("Type").len() == 4 && text("Type")[0] == 84,
        text("Pages").len() == 5 && text("Pages")[0] == 80,
        text("Page").len() == 4 && text("Page")[0] == 80,
        text("Kids").len() == 4 && text("Kids")[0] == 75,
        text("Count").len() == 5 && text("Count")[0] == 67,
        text("Parent").len() == 6 && text("Parent")[0] == 80,
        text("Resources").len() == 9 && text("Resources")[0] == 82,
        text("MediaBox").len() == 8 && text("MediaBox")[0] == 77,
        text("Rotate").len() == 6 && text("Rotate")[0] == 82,
        text("Catalog").len() == 7 && text("Catalog")[0] == 67,
{
    reveal_strlit("Type");
    reveal_strlit("Pages");
    reveal_strlit("Page");
    reveal_strlit("Kids");
    reveal_strlit("Count");
    reveal_strlit("Parent");
    reveal_strlit("Resources");
    reveal_strlit("MediaBox");
    reveal_strlit("Rotate");
    reveal_strlit("Catalog");
    is_ascii_spec_bytes("Type");
    is_ascii_spec_bytes("Pages");
    is_ascii_spec_bytes("Page");
    is_ascii_spec_bytes("Kids");
    is_ascii_spec_bytes("Count");
    is_ascii_spec_bytes("Parent");
    is_ascii_spec_bytes("Resources");
    is_ascii_spec_bytes("MediaBox");
    is_ascii_spec_bytes("Rotate");
    is_ascii_spec_bytes("Catalog");
}

/// The words and marks of the syntax, byte by byte.
pub proof fn lemma_words()
    ensures
        text("null") =~= seq![110u8, 117u8, 108u8, 108u8],
        text("true") =~= seq![116u8, 114u8, 117u8, 101u8],
        text("false") =~= seq![102u8, 97u8, 108u8, 115u8, 101u8],
        text("R") =~= seq![82u8],
        text(" R") =~= seq![32u8, 82u8],
        text("<<") =~= seq![60u8, 60u8],
        text(">>") =~= seq![62u8, 62u8],
{
    reveal_strlit("null");
    reveal_strlit("true");
    reveal_strlit("false");
    reveal_strlit("R");
    reveal_strlit(" R");
    reveal_strlit("<<");
    reveal_strlit(">>");
    is_ascii_spec_bytes("null");
    is_ascii_spec_bytes("true");
    is_ascii_spec_bytes("false");
    is_ascii_spec_bytes("R");
    is_ascii_spec_bytes(" R");
    is_ascii_spec_bytes("<<");
    is_ascii_spec_bytes(">>");
}

/// The words and marks that frame a numbered object, byte by byte.
pub proof fn lemma_object_words()
    ensures
        text(" 0 obj\n") =~= seq![32u8, 48u8, 32u8, 111u8, 98u8, 106u8, 10u8],
        text("\nendobj\n") =~= seq![10u8, 101u8, 110u8, 100u8, 111u8, 98u8, 106u8, 10u8],
        text("obj") =~= seq![111u8, 98u8, 106u8],
        text("endobj") =~= seq![101u8, 110u8, 100u8, 111u8, 98u8, 106u8],
        text("stream") =~= seq![115u8, 116u8, 114u8, 101u8, 97u8, 109u8],
        text("endstream") =~= seq![101u8, 110u8, 100u8, 115u8, 116u8, 114u8, 101u8, 97u8, 109u8],
        text("/Length ") =~= seq![47u8, 76u8, 101u8, 110u8, 103u8, 116u8, 104u8, 32u8],
        text("Length") =~= seq![76u8, 101u8, 110u8, 103u8, 116u8, 104u8],
        text(">>\nstream\n") =~= seq![62u8, 62u8, 10u8, 115u8, 116u8, 114u8, 101u8, 97u8, 109u8, 10u8],
        text("\nendstream") =~= seq![10u8, 101u8, 110u8, 100u8, 115u8, 116u8, 114u8, 101u8, 97u8, 109u8],
{
    reveal_strlit(" 0 obj\n");
    reveal_strlit("\nendobj\n");
    reveal_strlit("obj");
    reveal_strlit("endobj");
    reveal_strlit("stream");
    reveal_strlit("endstream");
    reveal_strlit("/Length ");
    reveal_strlit("Length");
    reveal_strlit(">>\nstream\n");
    reveal_strlit("\nendstream");
    is_ascii_spec_bytes(" 0 obj\n");
    is_ascii_spec_bytes("\nendobj\n");
    is_ascii_spec_bytes("obj");
    is_ascii_spec_bytes("endobj");
    is_ascii_spec_bytes("stream");
    is_ascii_spec_bytes("endstream");
    is_ascii_spec_bytes("/Length ");
    is_ascii_spec_bytes("Length");
    is_ascii_spec_bytes(">>\nstream\n");
    is_ascii_spec_bytes("\nendstream");
}

/// The line with the word `stream`, byte by byte.
pub proof fn lemma_stream_words()
    ensures
        text("\nstream\n") =~= seq![10u8, 115u8, 116u8, 114u8, 101u8, 97u8, 109u8, 10u8],
{
    reveal_strlit("\nstream\n");
    is_ascii_spec_bytes("\nstream\n");
}

/// The words and marks of the cross-reference table, byte by byte.
pub proof fn lemma_table_words()
    ensures
        text("xref\n0 ") =~= seq![120u8, 114u8, 101u8, 102u8, 10u8, 48u8, 32u8],
        text("xref") =~= seq![120u8, 114u8, 101u8, 102u8],
        text("\n0000000000 65535 f \n") =~= seq![10u8, 48u8, 48u8, 48u8, 48u8, 48u8, 48u8, 48u8, 48u8, 48u8, 48u8, 32u8, 54u8, 53u8, 53u8, 51u8, 53u8, 32u8, 102u8, 32u8, 10u8],
        text(" 00000 n \n") =~= seq![32u8, 48u8, 48u8, 48u8, 48u8, 48u8, 32u8, 110u8, 32u8, 10u8],
        text("n") =~= seq![110u8],
        text("f") =~= seq![102u8],
        text("trailer\n") =~= seq![116u8, 114u8, 97u8, 105u8, 108u8, 101u8, 114u8, 10u8],
        text("trailer") =~= seq![116u8, 114u8, 97u8, 105u8, 108u8, 101u8, 114u8],
{
    reveal_strlit("xref\n0 ");
    reveal_strlit("xref");
    reveal_strlit("\n0000000000 65535 f \n");
    reveal_strlit(" 00000 n \n");
    reveal_strlit("n");
    reveal_strlit("f");
    reveal_strlit("trailer\n");
    reveal_strlit("trailer");
    is_ascii_spec_bytes("xref\n0 ");
    is_ascii_spec_bytes("xref");
    is_ascii_spec_bytes("\n0000000000 65535 f \n");
    is_ascii_spec_bytes(" 00000 n \n");
    is_ascii_spec_bytes("n");
    is_ascii_spec_bytes("f");
    is_ascii_spec_bytes("trailer\n");
    is_ascii_spec_bytes("trailer");
}

/// The words and marks at the two ends of a document, byte by byte.
pub proof fn lemma_end_words()
    ensures
        text("\nstartxref\n") =~= seq![10u8, 115u8, 116u8, 97u8, 114u8, 116u8, 120u8, 114u8, 101u8, 102u8, 10u8],
        text("startxref") =~= seq![115u8, 116u8, 97u8, 114u8, 116u8, 120u8, 114u8, 101u8, 102u8],
        text("\n%%EOF\n") =~= seq![10u8, 37u8, 37u8, 69u8, 79u8, 70u8, 10u8],
        text("%PDF-") =~= seq![37u8, 80u8, 68u8, 70u8, 45u8],
        text("1.4") =~= seq![49u8, 46u8, 52u8],
{
    reveal_strlit("\nstartxref\n");
    reveal_strlit("startxref");
    reveal_strlit("\n%%EOF\n");
    reveal_strlit("%PDF-");
    reveal_strlit("1.4");
    is_ascii_spec_bytes("\nstartxref\n");
    is_ascii_spec_bytes("startxref");
    is_ascii_spec_bytes("\n%%EOF\n");
    is_ascii_spec_bytes("%PDF-");
    is_ascii_spec_bytes("1.4");
}

/// The names that a trailer and the objects of a document are searched for, byte by byte.
pub proof fn lemma_trailer_names()
    ensures
        text("Size") =~= seq![83u8, 105u8, 122u8, 101u8],
        text("Root") =~= seq![82u8, 111u8, 111u8, 116u8],
        text("Prev") =~= seq![80u8, 114u8, 101u8, 118u8],
        text("Info") =~= seq![73u8, 110u8, 102u8, 111u8],
        text("Encrypt") =~= seq![69u8, 110u8, 99u8, 114u8, 121u8, 112u8, 116u8],
        text("Linearized") =~= seq![76u8, 105u8, 110u8, 101u8, 97u8, 114u8, 105u8, 122u8, 101u8, 100u8],
        text("ObjStm") =~= seq![79u8, 98u8, 106u8, 83u8, 116u8, 109u8],
        text("XRef") =~= seq![88u8, 82u8, 101u8, 102u8],
        text("Type") =~= seq![84u8, 121u8, 112u8, 101u8],
        text("Length") =~= seq![76u8, 101u8, 110u8, 103u8, 116u8, 104u8],
{
    reveal_strlit("Size");
    reveal_strlit("Root");
    reveal_strlit("Prev");
    reveal_strlit("Info");
    reveal_strlit("Encrypt");
    reveal_strlit("Linearized");
    reveal_strlit("ObjStm");
    reveal_strlit("XRef");
    reveal_strlit("Type");
    reveal_strlit("Length");
    is_ascii_spec_bytes("Size");
    is_ascii_spec_bytes("Root");
    is_ascii_spec_bytes("Prev");
    is_ascii_spec_bytes("Info");
    is_ascii_spec_bytes("Encrypt");
    is_ascii_spec_bytes("Linearized");
    is_ascii_spec_bytes("ObjStm");
    is_ascii_spec_bytes("XRef");
    is_ascii_spec_bytes("Type");
    is_ascii_spec_bytes("Length");
}

} // verus!
