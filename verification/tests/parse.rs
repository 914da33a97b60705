use pdf_processor::document::Document;
use pdf_processor::indirect::read_indirect;
use pdf_processor::lexer::{
    is_real_word, read_hex_string, read_integer, read_name, read_string, read_unsigned, scan_word,
    skip,
};
use pdf_processor::object::{get, Object, ObjectId};
use pdf_processor::pages::StructuralError;
use pdf_processor::syntax::{read_value, MAX_DEPTH};
use pdf_processor::table::{lookup_entry, record_entry, XrefEntry};
use pdf_processor::xref::ParseError;

/// A document made of the given object bodies, numbered from 1 on, with the
/// first one as its root.
fn assemble(bodies: &[String], extra_trailer: &str) -> Vec<u8> {
    let mut out = String::from("%PDF-1.4\n");
    let mut offsets: Vec<usize> = Vec::new();
    for (i, body) in bodies.iter().enumerate() {
        offsets.push(out.len());
        out.push_str(&format!("{} 0 obj\n{}\nendobj\n", i + 1, body));
    }
    let start = out.len();
    out.push_str(&format!("xref\n0 {}\n0000000000 65535 f \n", bodies.len() + 1));
    for offset in &offsets {
        out.push_str(&format!("{:010} 00000 n \n", offset));
    }
    out.push_str(&format!(
        "trailer\n<< /Size {} /Root 1 0 R {}>>\nstartxref\n{}\n%%EOF\n",
        bodies.len() + 1,
        extra_trailer,
        start
    ));
    out.into_bytes()
}

/// A document with `pages` pages, one content stream for each page and one
/// font that all pages share.
fn sample(pages: usize) -> Vec<u8> {
    let mut bodies: Vec<String> = Vec::new();
    bodies.push("<< /Type /Catalog /Pages 2 0 R >>".to_string());
    let mut kids = String::new();
    for i in 0..pages {
        kids.push_str(&format!("{} 0 R ", 4 + 2 * i));
    }
    bodies.push(format!(
        "<< /Type /Pages /Kids [{}] /Count {} /MediaBox [0 0 612 792] >>",
        kids, pages
    ));
    bodies.push("<< /Type /Font /Subtype /Type1 /BaseFont /Helvetica >>".to_string());
    for i in 0..pages {
        bodies.push(format!(
            "<< /Type /Page /Parent 2 0 R /Resources << /Font << /F1 3 0 R >> >> /Contents {} 0 R >>",
            5 + 2 * i
        ));
        let text = format!("BT /F1 12 Tf (Page {}) Tj ET", i + 1);
        bodies.push(format!("<< /Length {} >>\nstream\n{}\nendstream", text.len(), text));
    }
    assemble(&bodies, "")
}

fn id(number: u32) -> ObjectId {
    ObjectId { number, generation: 0 }
}

#[test]
fn white_space_and_comments_are_skipped() {
    let b = b"  \t\r\n% a comment\n  /Name";
    assert_eq!(skip(b, 0), 19);
    assert_eq!(skip(b, 19), 19);
    assert_eq!(skip(b"   ", 0), 3);
    assert_eq!(skip(b"abc", 7), 7);
}

#[test]
fn a_comment_ends_at_a_carriage_return() {
    let b = b"%x\ry";
    assert_eq!(skip(b, 0), 3);
}

#[test]
fn words_end_at_white_space_and_delimiters() {
    assert_eq!(scan_word(b"endobj\n", 0), 6);
    assert_eq!(scan_word(b"12[", 0), 2);
    assert_eq!(scan_word(b"true/false", 0), 4);
    assert_eq!(scan_word(b"(x)", 0), 0);
}

#[test]
fn unsigned_numbers_are_read_up_to_their_bound() {
    assert_eq!(read_unsigned(b"65535", 0, 5, 0xffff), Some(65535));
    assert_eq!(read_unsigned(b"65536", 0, 5, 0xffff), None);
    assert_eq!(read_unsigned(b"007", 0, 3, 100), Some(7));
    assert_eq!(read_unsigned(b"", 0, 0, 100), None);
    assert_eq!(read_unsigned(b"12a", 0, 3, 100), None);
    assert_eq!(
        read_unsigned(b"18446744073709551615", 0, 20, u64::MAX),
        Some(u64::MAX)
    );
    assert_eq!(read_unsigned(b"18446744073709551616", 0, 20, u64::MAX), None);
}

#[test]
fn integers_cover_the_whole_signed_range() {
    assert_eq!(read_integer(b"-42", 0, 3), Some(-42));
    assert_eq!(read_integer(b"+17", 0, 3), Some(17));
    assert_eq!(read_integer(b"0", 0, 1), Some(0));
    assert_eq!(
        read_integer(b"9223372036854775807", 0, 19),
        Some(i64::MAX)
    );
    assert_eq!(read_integer(b"9223372036854775808", 0, 19), None);
    assert_eq!(
        read_integer(b"-9223372036854775808", 0, 20),
        Some(i64::MIN)
    );
    assert_eq!(read_integer(b"-9223372036854775809", 0, 20), None);
    assert_eq!(read_integer(b"-", 0, 1), None);
    assert_eq!(read_integer(b"1.5", 0, 3), None);
}

#[test]
fn real_words_have_one_point_and_a_digit() {
    assert!(is_real_word(b"1.5", 0, 3));
    assert!(is_real_word(b"-.5", 0, 3));
    assert!(is_real_word(b"4.", 0, 2));
    assert!(is_real_word(b"+0.25", 0, 5));
    assert!(!is_real_word(b".", 0, 1));
    assert!(!is_real_word(b"1.2.3", 0, 5));
    assert!(!is_real_word(b"15", 0, 2));
    assert!(!is_real_word(b"1e5", 0, 3));
}

#[test]
fn names_decode_their_escapes() {
    assert_eq!(read_name(b"/Type ", 1), (b"Type".to_vec(), 5));
    assert_eq!(read_name(b"/A#20B/", 1), (b"A B".to_vec(), 6));
    assert_eq!(read_name(b"/A#2", 1), (b"A#2".to_vec(), 4));
    assert_eq!(read_name(b"/A#zz", 1), (b"A#zz".to_vec(), 5));
    assert_eq!(read_name(b"/ ", 1), (Vec::new(), 1));
}

#[test]
fn literal_strings_keep_balanced_parentheses() {
    assert_eq!(read_string(b"(a(b)c) ", 1), Some((b"a(b)c".to_vec(), 7)));
    assert_eq!(read_string(b"()", 1), Some((Vec::new(), 2)));
    assert_eq!(read_string(b"(abc", 1), None);
    assert_eq!(read_string(b"((a)", 1), None);
}

#[test]
fn literal_strings_decode_their_escapes() {
    assert_eq!(
        read_string(b"(\\n\\r\\t\\b\\f\\(\\)\\\\)", 1),
        Some((vec![10, 13, 9, 8, 12, 40, 41, 92], 18))
    );
    assert_eq!(read_string(b"(\\101\\7\\53x)", 1), Some((vec![65, 7, 43, 120], 12)));
    assert_eq!(read_string(b"(\\400)", 1), Some((vec![0], 6)));
    assert_eq!(read_string(b"(a\\\nb)", 1), Some((b"ab".to_vec(), 6)));
    assert_eq!(read_string(b"(a\\\r\nb)", 1), Some((b"ab".to_vec(), 7)));
    assert_eq!(read_string(b"(a\\qb)", 1), Some((b"aqb".to_vec(), 6)));
    assert_eq!(read_string(b"(a\\", 1), None);
}

#[test]
fn a_line_end_inside_a_literal_string_is_a_line_feed() {
    assert_eq!(read_string(b"(a\r\nb\rc\nd)", 1), Some((b"a\nb\nc\nd".to_vec(), 10)));
}

#[test]
fn hexadecimal_strings_pair_their_digits() {
    assert_eq!(read_hex_string(b"<48 65 6C6c6F>", 1), Some((b"Hello".to_vec(), 14)));
    assert_eq!(read_hex_string(b"<414>", 1), Some((vec![0x41, 0x40], 5)));
    assert_eq!(read_hex_string(b"<>", 1), Some((Vec::new(), 2)));
    assert_eq!(read_hex_string(b"<4G>", 1), None);
    assert_eq!(read_hex_string(b"<41", 1), None);
}

#[test]
fn values_of_every_kind_are_read() {
    assert_eq!(read_value(b"null ", 0, MAX_DEPTH), Some((Object::Null, 4)));
    assert_eq!(read_value(b"true", 0, MAX_DEPTH), Some((Object::Boolean(true), 4)));
    assert_eq!(read_value(b"false]", 0, MAX_DEPTH), Some((Object::Boolean(false), 5)));
    assert_eq!(read_value(b"-12 ", 0, MAX_DEPTH), Some((Object::Integer(-12), 3)));
    assert_eq!(
        read_value(b"3.14 ", 0, MAX_DEPTH),
        Some((Object::Real(b"3.14".to_vec()), 4))
    );
    assert_eq!(
        read_value(b"(hi)", 0, MAX_DEPTH),
        Some((Object::String(b"hi".to_vec()), 4))
    );
    assert_eq!(
        read_value(b"<6869>", 0, MAX_DEPTH),
        Some((Object::String(b"hi".to_vec()), 6))
    );
    assert_eq!(
        read_value(b"/Page", 0, MAX_DEPTH),
        Some((Object::Name(b"Page".to_vec()), 5))
    );
    assert_eq!(
        read_value(b"12 0 R ", 0, MAX_DEPTH),
        Some((Object::Reference(id(12)), 6))
    );
    assert_eq!(read_value(b"", 0, MAX_DEPTH), None);
    assert_eq!(read_value(b"]", 0, MAX_DEPTH), None);
    assert_eq!(read_value(b"nil", 0, MAX_DEPTH), None);
}

#[test]
fn integers_that_only_look_like_references_stay_integers() {
    assert_eq!(
        read_value(b"[1 2 3]", 0, MAX_DEPTH),
        Some((
            Object::Array(vec![Object::Integer(1), Object::Integer(2), Object::Integer(3)]),
            7
        ))
    );
    assert_eq!(
        read_value(b"[1 0 R 7]", 0, MAX_DEPTH),
        Some((Object::Array(vec![Object::Reference(id(1)), Object::Integer(7)]), 9))
    );
    assert_eq!(read_value(b"-1 0 R", 0, MAX_DEPTH), Some((Object::Integer(-1), 2)));
    assert_eq!(
        read_value(b"1 70000 R", 0, MAX_DEPTH),
        Some((Object::Integer(1), 1))
    );
}

#[test]
fn arrays_and_dictionaries_nest() {
    let b = b"<< /Kids [ 4 0 R << /A (x) >> ] /Count 1 >>";
    let expected = Object::Dictionary(vec![
        (
            b"Kids".to_vec(),
            Object::Array(vec![
                Object::Reference(id(4)),
                Object::Dictionary(vec![(b"A".to_vec(), Object::String(b"x".to_vec()))]),
            ]),
        ),
        (b"Count".to_vec(), Object::Integer(1)),
    ]);
    assert_eq!(read_value(b, 0, MAX_DEPTH), Some((expected, b.len())));
    assert_eq!(read_value(b"[1 2", 0, MAX_DEPTH), None);
    assert_eq!(read_value(b"<< /A 1 >", 0, MAX_DEPTH), None);
    assert_eq!(read_value(b"<< 1 2 >>", 0, MAX_DEPTH), None);
}

#[test]
fn nesting_is_bounded_by_the_depth() {
    assert_eq!(read_value(b"[[1]]", 0, 2).map(|r| r.1), Some(5));
    assert_eq!(read_value(b"[[1]]", 0, 1), None);
    assert_eq!(read_value(b"[1]", 0, 0), None);
    assert_eq!(read_value(b"<<>>", 0, 0), None);
    let mut deep = Vec::new();
    for _ in 0..MAX_DEPTH + 1 {
        deep.push(b'[');
    }
    for _ in 0..MAX_DEPTH + 1 {
        deep.push(b']');
    }
    assert_eq!(read_value(&deep, 0, MAX_DEPTH), None);
    assert_eq!(read_value(&deep[1..deep.len() - 1], 0, MAX_DEPTH).map(|r| r.1), Some(2 * MAX_DEPTH));
}

#[test]
fn a_numbered_object_is_read_with_its_identity() {
    let b = b"7 2 obj\n<< /A 1 >>\nendobj\n";
    let table: Vec<XrefEntry> = Vec::new();
    assert_eq!(
        read_indirect(b, 0, &table),
        Some((
            ObjectId { number: 7, generation: 2 },
            Object::Dictionary(vec![(b"A".to_vec(), Object::Integer(1))]),
            25
        ))
    );
    assert_eq!(read_indirect(b"7 2 obj << /A 1 >>", 0, &table), None);
    assert_eq!(read_indirect(b"7 obj 1 endobj", 0, &table), None);
    assert_eq!(read_indirect(b" 7 0 obj 1 endobj", 0, &table), None);
}

#[test]
fn a_stream_takes_its_declared_length() {
    let b = b"1 0 obj << /Length 9 >> stream\nendstream\nendstream endobj";
    let table: Vec<XrefEntry> = Vec::new();
    let (_, object, _) = read_indirect(b, 0, &table).expect("the stream is well formed");
    assert_eq!(
        object,
        Object::Stream(vec![(b"Length".to_vec(), Object::Integer(9))], b"endstream".to_vec())
    );
}

#[test]
fn a_stream_with_a_wrong_length_ends_at_its_terminator() {
    let b = b"1 0 obj << /Length 100 >> stream\r\nABC\r\nendstream endobj";
    let table: Vec<XrefEntry> = Vec::new();
    let (_, object, end) = read_indirect(b, 0, &table).expect("the terminator is found");
    assert_eq!(
        object,
        Object::Stream(vec![(b"Length".to_vec(), Object::Integer(100))], b"ABC".to_vec())
    );
    assert_eq!(end, b.len());
    let missing = b"1 0 obj << >> stream\nABC endobj";
    assert_eq!(read_indirect(missing, 0, &table), None);
}

#[test]
fn a_stream_finds_its_length_in_another_object() {
    let bodies = vec![
        "<< /Type /Catalog /Pages 2 0 R >>".to_string(),
        "<< /Type /Pages /Kids [] /Count 0 >>".to_string(),
        "<< /Length 4 0 R >>\nstream\nab\nendstream\ncd\nendstream".to_string(),
        "15".to_string(),
    ];
    let doc = Document::parse(&assemble(&bodies, "")).expect("the document is well formed");
    match doc.resolve(id(3)) {
        Some(Object::Stream(_, data)) => assert_eq!(data, b"ab\nendstream\ncd"),
        other => panic!("object 3 is {:?}", other),
    }
}

#[test]
fn the_table_keeps_the_first_entry_of_a_number() {
    let mut table: Vec<XrefEntry> = Vec::new();
    record_entry(&mut table, 2, XrefEntry::InUse { offset: 10, generation: 0 });
    assert_eq!(
        table,
        vec![
            XrefEntry::Absent,
            XrefEntry::Absent,
            XrefEntry::InUse { offset: 10, generation: 0 }
        ]
    );
    record_entry(&mut table, 2, XrefEntry::Free);
    record_entry(&mut table, 0, XrefEntry::Free);
    record_entry(&mut table, 0, XrefEntry::InUse { offset: 5, generation: 1 });
    assert_eq!(lookup_entry(&table, 2), XrefEntry::InUse { offset: 10, generation: 0 });
    assert_eq!(lookup_entry(&table, 0), XrefEntry::Free);
    assert_eq!(lookup_entry(&table, 1), XrefEntry::Absent);
    assert_eq!(lookup_entry(&table, 9), XrefEntry::Absent);
    assert_eq!(table.len(), 3);
}

#[test]
fn a_document_is_read_through_its_table() {
    let bytes = sample(10);
    let doc = Document::parse(&bytes).expect("the sample is well formed");
    assert!(!doc.recovered);
    assert_eq!(doc.version, Some(b"1.4".to_vec()));
    assert_eq!(doc.trailer.root, Some(id(1)));
    assert_eq!(doc.trailer.size, 24);
    assert_eq!(doc.trailer.prev, None);
    assert_eq!(doc.trailer.info, None);
    assert_eq!(doc.xref.len(), 24);
    assert_eq!(doc.objects.len(), 24);
    assert_eq!(doc.xref[0], XrefEntry::Free);
    assert!(doc.objects[0].is_none());
    assert!(doc.resolve(id(0)).is_none());
    assert!(doc.resolve(id(24)).is_none());
    assert!(doc.resolve(ObjectId { number: 3, generation: 1 }).is_none());
    match doc.resolve(id(3)) {
        Some(Object::Dictionary(entries)) => {
            assert_eq!(get(entries, b"BaseFont"), Some(&Object::Name(b"Helvetica".to_vec())));
            assert_eq!(get(entries, b"Missing"), None);
        },
        other => panic!("object 3 is {:?}", other),
    }
    match doc.resolve(id(7)) {
        Some(Object::Stream(_, data)) => assert_eq!(data, b"BT /F1 12 Tf (Page 2) Tj ET"),
        other => panic!("object 7 is {:?}", other),
    }
}

#[test]
fn a_later_revision_shadows_an_earlier_one() {
    let mut bytes = sample(2);
    let text = String::from_utf8(bytes.clone()).unwrap();
    let old_start = text.rfind("\nxref\n").unwrap() + 1;
    let at = bytes.len();
    let update = "4 0 obj\n<< /Type /Page /Parent 2 0 R /MediaBox [0 0 100 100] /Contents 5 0 R >>\nendobj\n";
    bytes.extend_from_slice(update.as_bytes());
    let start = bytes.len();
    bytes.extend_from_slice(
        format!(
            "xref\n3 2\n0000000000 00001 f \n{:010} 00000 n \ntrailer\n<< /Size 8 /Root 1 0 R /Prev {} >>\nstartxref\n{}\n%%EOF\n",
            at, old_start, start
        )
        .as_bytes(),
    );
    let doc = Document::parse(&bytes).expect("the update is well formed");
    assert!(!doc.recovered);
    assert_eq!(doc.trailer.prev, Some(old_start));
    assert_eq!(doc.xref[4], XrefEntry::InUse { offset: at, generation: 0 });
    assert_eq!(doc.xref[3], XrefEntry::Free);
    assert!(doc.resolve(id(3)).is_none());
    let pages = doc.pages().expect("the page tree is sound");
    assert_eq!(pages.len(), 2);
    assert_eq!(pages[0].media_box, 4);
    assert_eq!(pages[1].media_box, 2);
}

#[test]
fn a_broken_table_is_rebuilt_from_the_objects() {
    let text = String::from_utf8(sample(3)).unwrap();
    let broken = text.replace("startxref", "startxreX").into_bytes();
    let doc = Document::parse(&broken).expect("the objects are found");
    assert!(doc.recovered);
    assert_eq!(doc.trailer.root, Some(id(1)));
    assert_eq!(doc.pages().expect("the page tree is sound").len(), 3);
    let shifted = text.replace("0000000009 00000 n", "0000000010 00000 n").into_bytes();
    let doc = Document::parse(&shifted).expect("the table is read");
    assert!(!doc.recovered);
    assert!(doc.resolve(id(1)).is_none());
}

#[test]
fn of_two_objects_with_one_number_recovery_keeps_the_later() {
    let bytes = b"%PDF-1.4\n1 0 obj\n(old)\nendobj\n1 0 obj\n(new)\nendobj\n";
    let doc = Document::parse(bytes).expect("the objects are found");
    assert!(doc.recovered);
    assert_eq!(doc.resolve(id(1)), Some(&Object::String(b"new".to_vec())));
    assert_eq!(doc.trailer.root, None);
}

#[test]
fn bytes_without_objects_are_no_document() {
    assert_eq!(Document::parse(b"").err(), Some(ParseError::MissingStartXref));
    assert_eq!(Document::parse(b"%PDF-1.4\nhello").err(), Some(ParseError::MissingStartXref));
    assert_eq!(
        Document::parse(b"startxref\n0\n%%EOF").err(),
        Some(ParseError::MalformedXref)
    );
}

#[test]
fn unsupported_layouts_are_rejected() {
    let plain = vec![
        "<< /Type /Catalog /Pages 2 0 R >>".to_string(),
        "<< /Type /Pages /Kids [] /Count 0 >>".to_string(),
    ];
    assert_eq!(
        Document::parse(&assemble(&plain, "/Encrypt 9 0 R ")).err(),
        Some(ParseError::Encrypted)
    );
    let mut linearized = plain.clone();
    linearized.push("<< /Linearized 1 /L 1000 >>".to_string());
    assert_eq!(
        Document::parse(&assemble(&linearized, "")).err(),
        Some(ParseError::Linearized)
    );
    let mut packed = plain.clone();
    packed.push("<< /Type /ObjStm /N 1 /First 4 /Length 3 >>\nstream\nabc\nendstream".to_string());
    assert_eq!(
        Document::parse(&assemble(&packed, "")).err(),
        Some(ParseError::CompressedObjects)
    );
    let stream_table =
        b"%PDF-1.5\n1 0 obj\n<< /Type /XRef /Length 0 >>\nstream\n\nendstream\nendobj\nstartxref\n9\n%%EOF\n";
    assert_eq!(Document::parse(stream_table).err(), Some(ParseError::CompressedXref));
}

#[test]
fn a_chain_of_revisions_that_never_ends_is_given_up() {
    let bytes = b"%PDF-1.4\nxref\n0 1\n0000000000 65535 f \ntrailer\n<< /Size 1 /Prev 9 >>\nstartxref\n9\n%%EOF\n";
    assert_eq!(Document::parse(bytes).err(), Some(ParseError::TooManyRevisions));
}

#[test]
fn the_pages_come_in_document_order_with_inherited_attributes() {
    let bodies = vec![
        "<< /Type /Catalog /Pages 2 0 R >>".to_string(),
        "<< /Type /Pages /Kids [3 0 R 6 0 R] /Count 3 /MediaBox [0 0 10 10] /Rotate 90 >>".to_string(),
        "<< /Type /Pages /Parent 2 0 R /Kids [4 0 R 5 0 R] /Count 2 /Resources << >> >>".to_string(),
        "<< /Type /Page /Parent 3 0 R >>".to_string(),
        "<< /Type /Page /Parent 3 0 R /MediaBox [0 0 5 5] /Resources << >> >>".to_string(),
        "<< /Type /Page /Parent 2 0 R /Rotate 0 >>".to_string(),
    ];
    let doc = Document::parse(&assemble(&bodies, "")).expect("the document is well formed");
    let pages = doc.pages().expect("the page tree is sound");
    assert_eq!(pages.len(), 3);
    assert_eq!(pages[0].id, id(4));
    assert_eq!((pages[0].resources, pages[0].media_box, pages[0].rotate), (Some(3), 2, Some(2)));
    assert_eq!(pages[1].id, id(5));
    assert_eq!((pages[1].resources, pages[1].media_box, pages[1].rotate), (Some(5), 5, Some(2)));
    assert_eq!(pages[2].id, id(6));
    assert_eq!((pages[2].resources, pages[2].media_box, pages[2].rotate), (None, 2, Some(6)));
}

#[test]
fn a_page_tree_that_is_not_a_tree_is_reported() {
    let cyclic = vec![
        "<< /Type /Catalog /Pages 2 0 R >>".to_string(),
        "<< /Type /Pages /Kids [3 0 R 2 0 R] /Count 2 /MediaBox [0 0 1 1] >>".to_string(),
        "<< /Type /Page /Parent 2 0 R >>".to_string(),
    ];
    let doc = Document::parse(&assemble(&cyclic, "")).unwrap();
    assert_eq!(doc.pages().err(), Some(StructuralError::CyclicPageTree(id(2))));
    let shared = vec![
        "<< /Type /Catalog /Pages 2 0 R >>".to_string(),
        "<< /Type /Pages /Kids [3 0 R 3 0 R] /Count 2 /MediaBox [0 0 1 1] >>".to_string(),
        "<< /Type /Page /Parent 2 0 R >>".to_string(),
    ];
    let doc = Document::parse(&assemble(&shared, "")).unwrap();
    assert_eq!(doc.pages().err(), Some(StructuralError::CyclicPageTree(id(3))));
}

#[test]
fn a_malformed_page_tree_is_reported() {
    let cases: Vec<(Vec<&str>, StructuralError)> = vec![
        (vec!["<< /Type /Catalog >>"], StructuralError::UnresolvableRoot),
        (vec!["[1 2]"], StructuralError::UnresolvableRoot),
        (
            vec!["<< /Type /Catalog /Pages 2 0 R >>"],
            StructuralError::DanglingReference(id(2)),
        ),
        (
            vec!["<< /Type /Catalog /Pages 2 0 R >>", "<< /Type /Pages /Kids [9 0 R] >>"],
            StructuralError::DanglingReference(id(9)),
        ),
        (
            vec!["<< /Type /Catalog /Pages 2 0 R >>", "<< /Type /Pages /Kids [1] >>"],
            StructuralError::NotAPageNode(id(2)),
        ),
        (
            vec!["<< /Type /Catalog /Pages 2 0 R >>", "<< /Type /Pages >>"],
            StructuralError::NotAPageNode(id(2)),
        ),
        (
            vec!["<< /Type /Catalog /Pages 2 0 R >>", "<< /Type /Font >>"],
            StructuralError::NotAPageNode(id(2)),
        ),
        (
            vec!["<< /Type /Catalog /Pages 2 0 R >>", "(text)"],
            StructuralError::NotAPageNode(id(2)),
        ),
        (
            vec!["<< /Type /Catalog /Pages 2 0 R >>", "<< /Type /Page >>"],
            StructuralError::MissingMediaBox(id(2)),
        ),
    ];
    for (bodies, expected) in cases {
        let bodies: Vec<String> = bodies.iter().map(|b| b.to_string()).collect();
        let doc = Document::parse(&assemble(&bodies, "")).unwrap();
        assert_eq!(doc.pages().err(), Some(expected));
    }
}

#[test]
fn the_children_of_a_node_may_be_held_by_another_object() {
    let bodies = vec![
        "<< /Type /Catalog /Pages 2 0 R >>".to_string(),
        "<< /Type /Pages /Kids 3 0 R /MediaBox [0 0 1 1] >>".to_string(),
        "[4 0 R]".to_string(),
        "<< /Type /Page /Parent 2 0 R >>".to_string(),
    ];
    let doc = Document::parse(&assemble(&bodies, "")).unwrap();
    let pages = doc.pages().expect("the page tree is sound");
    assert_eq!(pages.len(), 1);
    assert_eq!(pages[0].id, id(4));
}
