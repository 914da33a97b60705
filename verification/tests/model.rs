use pdf_processor::chapter::{
    check_ranges, validate_chapters, ChapterDefinition,
    ChapterDefinitionError, ChapterFault, ProcessResult,
};
use pdf_processor::document::Document;
use pdf_processor::extract::collect_links;
use pdf_processor::message::{
    append_number, describe_chapter_error, describe_parse_error, describe_structural_error,
    describe_unwritten,
};
use pdf_processor::object::{bytes_equal, collect_refs, get, Object, ObjectId};
use pdf_processor::pages::StructuralError;
use pdf_processor::rewrite::{build_numbering, build_selection, rewrite_object};
use pdf_processor::syntax::{read_value, MAX_DEPTH};
use pdf_processor::validator::{validate_bytes, Violation, ViolationKind};
use pdf_processor::writer::{
    write_decimal, write_document, write_hex, write_integer, write_name, write_padded,
    write_value,
};
use pdf_processor::xref::ParseError;

/// A document made of the given object bodies, numbered from 1 on, with the
/// first one as its root.
fn assemble(bodies: &[&str]) -> Vec<u8> {
    let mut out = String::from("%PDF-1.4\n");
    let mut offsets: Vec<usize> = Vec::new();
    for (i, body) in bodies.iter().enumerate() {
        offsets.push(out.len());
        out.push_str(&format!("{} 0 obj\n{}\nendobj\n", i + 1, body));
    }
    let start = out.len();
    out.push_str(&format!("xref\n0 {}\n0000000000 65535 f \n", bodies.len() + 1));
    for offset in &offsets {
        out.push_str(&format!("{:010} 00000 n \n", offset));
    }
    out.push_str(&format!(
        "trailer\n<< /Size {} /Root 1 0 R >>\nstartxref\n{}\n%%EOF\n",
        bodies.len() + 1,
        start
    ));
    out.into_bytes()
}

/// Three pages that share a font; the second page links to the third.
fn linked() -> Vec<u8> {
    assemble(&[
        "<< /Type /Catalog /Pages 2 0 R /Outlines 10 0 R >>",
        "<< /Type /Pages /Kids [4 0 R 6 0 R 8 0 R] /Count 3 /MediaBox [0 0 612 792] /Resources << /Font << /F1 3 0 R >> >> >>",
        "<< /Type /Font /BaseFont /Courier >>",
        "<< /Type /Page /Parent 2 0 R /Contents 5 0 R >>",
        "<< /Length 1 >>\nstream\na\nendstream",
        "<< /Type /Page /Parent 2 0 R /Contents 7 0 R /Annots [ << /Dest [8 0 R /Fit] >> ] >>",
        "<< /Length 1 >>\nstream\nb\nendstream",
        "<< /Type /Page /Parent 2 0 R /Contents [9 0 R 9 0 R] >>",
        "<< /Length 1 /Self 9 0 R /Back 8 0 R >>\nstream\nc\nendstream",
        "<< /Type /Outlines /Count 0 >>",
    ])
}

fn id(number: u32) -> ObjectId {
    ObjectId { number, generation: 0 }
}

fn written(o: &Object) -> String {
    let mut out = Vec::new();
    write_value(o, &mut out);
    String::from_utf8(out).unwrap()
}

fn as_set(nodes: &[usize]) -> Vec<usize> {
    let mut sorted = nodes.to_vec();
    sorted.sort();
    sorted.dedup();
    sorted
}

fn violation(kind: ViolationKind, object: Option<ObjectId>) -> Violation {
    Violation { kind, object }
}

#[test]
fn numbers_are_written_in_decimal() {
    let mut out = b"x".to_vec();
    write_decimal(0, &mut out);
    write_decimal(7, &mut out);
    write_decimal(10, &mut out);
    write_decimal(18446744073709551615, &mut out);
    assert_eq!(out, b"x071018446744073709551615");
    let mut out = Vec::new();
    write_integer(-1, &mut out);
    write_integer(0, &mut out);
    write_integer(i64::MIN, &mut out);
    write_integer(i64::MAX, &mut out);
    assert_eq!(out, b"-10-92233720368547758089223372036854775807");
    let mut out = Vec::new();
    write_padded(1234, 10, &mut out);
    write_padded(0, 3, &mut out);
    write_padded(98765, 2, &mut out);
    write_padded(5, 0, &mut out);
    assert_eq!(out, b"000000123400065");
}

#[test]
fn strings_and_names_are_written_with_escapes() {
    let mut out = Vec::new();
    write_hex(&vec![0, 9, 10, 0xAB, 0xff, 0x41], &mut out);
    assert_eq!(out, b"00090AABFF41");
    let mut out = Vec::new();
    write_name(&b"A B#/(x)\x7f\x00z".to_vec(), &mut out);
    assert_eq!(out, b"A#20B#23#2F#28x#29#7F#00z");
}

#[test]
fn values_are_written_in_one_form() {
    assert_eq!(written(&Object::Null), "null");
    assert_eq!(written(&Object::Boolean(true)), "true");
    assert_eq!(written(&Object::Boolean(false)), "false");
    assert_eq!(written(&Object::Integer(-42)), "-42");
    assert_eq!(written(&Object::Real(b"-0.50".to_vec())), "-0.50");
    assert_eq!(written(&Object::String(b"Hi)".to_vec())), "<486929>");
    assert_eq!(written(&Object::Name(b"Type".to_vec())), "/Type");
    assert_eq!(written(&Object::Name(Vec::new())), "/");
    assert_eq!(written(&Object::Reference(ObjectId { number: 12, generation: 3 })), "12 3 R");
    assert_eq!(written(&Object::Array(Vec::new())), "[]");
    assert_eq!(
        written(&Object::Array(vec![Object::Integer(1), Object::Array(vec![Object::Null])])),
        "[1 [null ] ]"
    );
    assert_eq!(written(&Object::Dictionary(Vec::new())), "<<>>");
    assert_eq!(
        written(&Object::Dictionary(vec![
            (b"Length".to_vec(), Object::Integer(5)),
            (b"K".to_vec(), Object::Reference(id(3))),
        ])),
        "<</Length 5 /K 3 0 R >>"
    );
}

#[test]
fn a_stream_is_written_with_the_length_of_its_payload() {
    let stream = Object::Stream(
        vec![
            (b"Length".to_vec(), Object::Integer(99)),
            (b"Filter".to_vec(), Object::Name(b"None".to_vec())),
            (b"Length".to_vec(), Object::Reference(id(4))),
        ],
        b"abc\n".to_vec(),
    );
    assert_eq!(written(&stream), "<</Filter /None /Length 4>>\nstream\nabc\n\nendstream");
}

#[test]
fn what_is_written_is_read_back() {
    let value = Object::Dictionary(vec![
        (b"A name".to_vec(), Object::String(vec![0, 1, 2, 255, b'(', b'\\'])),
        (
            b"List".to_vec(),
            Object::Array(vec![
                Object::Integer(i64::MIN),
                Object::Real(b"+1.".to_vec()),
                Object::Reference(ObjectId { number: 8388607, generation: 65535 }),
                Object::Null,
                Object::Boolean(false),
                Object::Name(b"#x\n".to_vec()),
                Object::Dictionary(Vec::new()),
            ]),
        ),
    ]);
    let mut bytes = Vec::new();
    write_value(&value, &mut bytes);
    assert_eq!(read_value(&bytes, 0, MAX_DEPTH), Some((value, bytes.len())));
}

#[test]
fn a_document_is_written_with_its_table_and_trailer() {
    let objects = vec![Object::Null, Object::Integer(7)];
    let bytes = write_document(b"1.7", &objects).expect("two objects can be written");
    let expected = "%PDF-1.7\n1 0 obj\nnull\nendobj\n2 0 obj\n7\nendobj\n\
                    xref\n0 3\n0000000000 65535 f \n0000000009 00000 n \n0000000029 00000 n \n\
                    trailer\n<</Size 3 /Root 1 0 R >>\nstartxref\n46\n%%EOF\n";
    assert_eq!(String::from_utf8(bytes.clone()).unwrap(), expected);
    let doc = Document::parse(&bytes).expect("what is written is read");
    assert!(!doc.recovered);
    assert_eq!(doc.resolve(id(1)), Some(&Object::Null));
    assert_eq!(doc.resolve(id(2)), Some(&Object::Integer(7)));
    assert_eq!(doc.trailer.root, Some(id(1)));
    let empty = write_document(b"", &Vec::new()).unwrap();
    assert_eq!(
        String::from_utf8(empty).unwrap(),
        "%PDF-\nxref\n0 1\n0000000000 65535 f \ntrailer\n<</Size 1 /Root 1 0 R >>\nstartxref\n6\n%%EOF\n"
    );
}

#[test]
fn the_references_of_a_value_come_in_reading_order() {
    let (value, _) = read_value(
        b"<< /A 5 0 R /B [1 0 R << /C 5 0 R >> 7] /Parent 2 0 R /Type /Page >>",
        0,
        MAX_DEPTH,
    )
    .unwrap();
    let mut all = vec![id(9)];
    collect_refs(&value, &mut all);
    assert_eq!(all, vec![id(9), id(5), id(1), id(5), id(2)]);
    let mut followed = Vec::new();
    collect_links(&value, &mut followed);
    assert_eq!(followed, vec![id(5), id(1), id(5)]);
    let (other, _) = read_value(b"<< /Parent 2 0 R /Type /Pages >>", 0, MAX_DEPTH).unwrap();
    let mut followed = Vec::new();
    collect_links(&other, &mut followed);
    assert_eq!(followed, vec![id(2)]);
}

#[test]
fn the_subset_holds_what_the_pages_reach() {
    let doc = Document::parse(&linked()).unwrap();
    let pages = doc.pages().unwrap();
    assert_eq!(pages.len(), 3);
    // The first page: itself, the inherited font, its content stream.
    assert_eq!(doc.extract(&pages[0..1].to_vec()), vec![4, 3, 5]);
    // The second page links to the third, which brings its content stream,
    // but neither the page tree node nor the first page.
    assert_eq!(doc.extract(&pages[1..2].to_vec()), vec![6, 3, 7, 8, 9]);
    assert_eq!(doc.extract(&pages[2..3].to_vec()), vec![8, 3, 9]);
    assert_eq!(doc.extract(&pages), vec![4, 3, 6, 8, 5, 7, 9]);
    assert_eq!(doc.extract(&Vec::new()), Vec::<usize>::new());
}

#[test]
fn the_subset_of_more_pages_is_not_smaller() {
    let doc = Document::parse(&linked()).unwrap();
    let pages = doc.pages().unwrap();
    let all = doc.extract(&pages);
    for from in 0..3 {
        for to in from..4 {
            let fewer = doc.extract(&pages[from..to].to_vec());
            assert!(fewer.len() <= all.len());
            assert!(fewer.iter().all(|node| all.contains(node)));
            for upto in to..4 {
                let more = doc.extract(&pages[from..upto].to_vec());
                assert!(fewer.len() <= more.len());
                assert!(fewer.iter().all(|node| more.contains(node)));
            }
        }
    }
}

#[test]
fn the_closure_of_a_closure_is_the_same_set() {
    let doc = Document::parse(&linked()).unwrap();
    for roots in [vec![6], vec![1], vec![9, 4], vec![2, 2, 1], vec![], vec![0, 11, 500]] {
        let once = doc.reach(&roots);
        let twice = doc.reach(&once);
        assert_eq!(twice, once);
        assert_eq!(as_set(&once), as_set(&twice));
        assert_eq!(once.len(), as_set(&once).len());
    }
    assert_eq!(doc.reach(&vec![6]), vec![6, 7, 8, 9]);
    assert_eq!(doc.reach(&vec![9, 4]), vec![9, 4, 8, 5]);
    assert_eq!(doc.reach(&vec![1]), vec![1, 2, 10, 4, 6, 8, 3, 5, 7, 9]);
    // Every number of the table is a node, also where it has no object.
    assert_eq!(doc.reach(&vec![0, 11, 500]), vec![0]);
}

#[test]
fn an_object_leads_to_what_it_refers_to_but_a_page_not_to_its_parent() {
    let doc = Document::parse(&linked()).unwrap();
    assert_eq!(doc.node_successors(1), vec![2, 10]);
    assert_eq!(doc.node_successors(2), vec![4, 6, 8, 3]);
    assert_eq!(doc.node_successors(4), vec![5]);
    assert_eq!(doc.node_successors(8), vec![9, 9]);
    assert_eq!(doc.node_successors(9), vec![9, 8]);
    assert_eq!(doc.node_successors(0), Vec::<usize>::new());
    assert_eq!(doc.node_successors(77), Vec::<usize>::new());
}

#[test]
fn new_numbers_follow_the_order_of_the_subset() {
    assert_eq!(build_numbering(&vec![4, 1, 2], 6), vec![0, 4, 5, 0, 3, 0]);
    assert_eq!(build_numbering(&vec![2, 2, 9, 0], 3), vec![6, 0, 3]);
    assert_eq!(build_numbering(&Vec::new(), 2), vec![0, 0]);
    let doc = Document::parse(&linked()).unwrap();
    let pages = doc.pages().unwrap();
    let chosen = build_selection(&pages[1..3].to_vec(), 10);
    assert_eq!(chosen.len(), 10);
    assert_eq!(chosen[6], Some(pages[1]));
    assert_eq!(chosen[8], Some(pages[2]));
    assert_eq!(chosen.iter().filter(|slot| slot.is_some()).count(), 2);
}

#[test]
fn references_are_rewritten_to_the_new_numbers() {
    let doc = Document::parse(&linked()).unwrap();
    let table = build_numbering(&vec![8, 9], doc.objects.len());
    let (value, _) =
        read_value(b"[8 0 R << /K 9 0 R /L 3 0 R >> 99 0 R 8 1 R (s)]", 0, MAX_DEPTH).unwrap();
    assert_eq!(
        rewrite_object(&doc, &table, &value),
        Object::Array(vec![
            Object::Reference(id(3)),
            Object::Dictionary(vec![
                (b"K".to_vec(), Object::Reference(id(4))),
                (b"L".to_vec(), Object::Null),
            ]),
            Object::Null,
            Object::Null,
            Object::String(b"s".to_vec()),
        ])
    );
}

#[test]
fn a_page_of_the_subset_owns_what_it_inherited() {
    let doc = Document::parse(&linked()).unwrap();
    let pages = doc.pages().unwrap();
    let found = doc.extract(&pages[0..1].to_vec());
    let table = build_numbering(&found, doc.objects.len());
    assert_eq!(
        doc.build_page(&table, &pages[0]),
        Object::Dictionary(vec![
            (b"Parent".to_vec(), Object::Reference(id(2))),
            (b"Type".to_vec(), Object::Name(b"Page".to_vec())),
            (b"Contents".to_vec(), Object::Reference(id(5))),
            (
                b"Resources".to_vec(),
                Object::Dictionary(vec![(
                    b"Font".to_vec(),
                    Object::Dictionary(vec![(b"F1".to_vec(), Object::Reference(id(4)))])
                )])
            ),
            (
                b"MediaBox".to_vec(),
                Object::Array(vec![
                    Object::Integer(0),
                    Object::Integer(0),
                    Object::Integer(612),
                    Object::Integer(792)
                ])
            ),
        ])
    );
}

#[test]
fn a_sound_document_has_no_violations() {
    assert_eq!(validate_bytes(&linked()), vec![]);
    let doc = Document::parse(&linked()).unwrap();
    assert_eq!(doc.validate(), vec![]);
}

#[test]
fn a_document_with_a_truncated_trailer_has_no_root() {
    let bytes = linked();
    let text = String::from_utf8(bytes.clone()).unwrap();
    let cut = text.rfind("trailer").unwrap() + 3;
    let violations = validate_bytes(&bytes[..cut]);
    assert!(!violations.is_empty());
    assert!(violations.iter().any(|v| v.kind == ViolationKind::MissingHeader
        || v.kind == ViolationKind::UnresolvableRoot));
    assert_eq!(violations, vec![violation(ViolationKind::UnresolvableRoot, None)]);
    let inside = text.rfind("/Root").unwrap() + 3;
    assert_eq!(
        validate_bytes(&bytes[..inside]),
        vec![violation(ViolationKind::UnresolvableRoot, None)]
    );
}

#[test]
fn bytes_that_are_no_document_are_reported_as_such() {
    assert_eq!(
        validate_bytes(b""),
        vec![
            violation(ViolationKind::MissingHeader, None),
            violation(ViolationKind::Unreadable(ParseError::MissingStartXref), None),
            violation(ViolationKind::UnresolvableRoot, None),
        ]
    );
    assert_eq!(
        validate_bytes(b"%PDF-1.4\nstartxref\n0\n%%EOF"),
        vec![
            violation(ViolationKind::Unreadable(ParseError::MalformedXref), None),
            violation(ViolationKind::UnresolvableRoot, None),
        ]
    );
}

#[test]
fn a_missing_header_is_reported() {
    let text = String::from_utf8(linked()).unwrap();
    let headless = text.replacen("%PDF-1.4", "%XYZ-1.4", 1).into_bytes();
    assert_eq!(validate_bytes(&headless), vec![violation(ViolationKind::MissingHeader, None)]);
}

#[test]
fn an_entry_that_leads_to_no_object_is_reported() {
    let text = String::from_utf8(linked()).unwrap();
    let doc = Document::parse(text.as_bytes()).unwrap();
    let offset = match doc.xref[3] {
        pdf_processor::table::XrefEntry::InUse { offset, .. } => offset,
        other => panic!("entry 3 is {:?}", other),
    };
    let shifted = text
        .replace(&format!("{:010} 00000 n", offset), &format!("{:010} 00000 n", offset + 2))
        .into_bytes();
    assert_eq!(
        validate_bytes(&shifted),
        vec![violation(ViolationKind::DanglingXrefEntry, Some(id(3)))]
    );
    let wrong_generation = text
        .replace(&format!("{:010} 00000 n", offset), &format!("{:010} 00001 n", offset))
        .into_bytes();
    assert_eq!(
        validate_bytes(&wrong_generation),
        vec![violation(
            ViolationKind::DanglingXrefEntry,
            Some(ObjectId { number: 3, generation: 1 })
        )]
    );
}

#[test]
fn what_is_wrong_with_the_page_tree_is_reported() {
    let cases = vec![
        (
            vec!["<< /Type /Catalog /Pages 2 0 R >>", "<< /Type /Pages /Kids [] /Count 0 >>"],
            violation(ViolationKind::EmptyPageTree, Some(id(1))),
        ),
        (
            vec!["<< /Type /Catalog /Pages 2 0 R >>", "<< /Type /Pages /Kids [2 0 R] >>"],
            violation(ViolationKind::CyclicPageTree, Some(id(2))),
        ),
        (
            vec!["<< /Type /Catalog /Pages 2 0 R >>", "<< /Type /Pages /Kids [5 0 R] >>"],
            violation(ViolationKind::DanglingReference, Some(id(5))),
        ),
        (
            vec!["<< /Type /Catalog /Pages 2 0 R >>", "<< /Kids [] >>"],
            violation(ViolationKind::MalformedPageTree, Some(id(2))),
        ),
        (
            vec!["<< /Type /Catalog /Pages 2 0 R >>", "<< /Type /Page >>"],
            violation(ViolationKind::MissingMediaBox, Some(id(2))),
        ),
        (vec!["<< /Type /Catalog >>"], violation(ViolationKind::UnresolvableRoot, Some(id(1)))),
    ];
    for (bodies, expected) in cases {
        assert_eq!(validate_bytes(&assemble(&bodies)), vec![expected]);
    }
}

#[test]
fn the_first_definition_that_breaks_a_rule_is_named() {
    let chapter = |title: &str, start_page: u32, end_page: u32| ChapterDefinition {
        title: title.to_string(),
        start_page,
        end_page,
    };
    let error = |index: usize, fault: ChapterFault| Err(ChapterDefinitionError { index, fault });
    assert_eq!(validate_chapters(&Vec::new()), Ok(()));
    assert_eq!(validate_chapters(&vec![chapter("A", 1, 1), chapter("B", 7, 9)]), Ok(()));
    assert_eq!(chapter("A", 1, 1).check(), None);
    assert_eq!(chapter("A", 0, 1).check(), Some(ChapterFault::ZeroPage));
    assert_eq!(chapter("A", 1, 0).check(), Some(ChapterFault::ZeroPage));
    assert_eq!(chapter("A", 2, 1).check(), Some(ChapterFault::InvertedRange));
    assert_eq!(chapter("", 1, 1).check(), Some(ChapterFault::EmptyTitle));
    assert_eq!(chapter(" ", 1, 1).check(), None);
    assert_eq!(chapter("\t\n", 4, 4).check(), None);
    assert_eq!(chapter("\u{3000}", 1, 1).check(), None);
    assert_eq!(chapter("", 0, 1).check(), Some(ChapterFault::ZeroPage));
    assert_eq!(chapter("X", 3, 0).check(), Some(ChapterFault::ZeroPage));
    assert_eq!(validate_chapters(&vec![chapter(" ", 1, 1)]), Ok(()));
    assert_eq!(
        validate_chapters(&vec![chapter("A", 1, 1), chapter("B", 9, 7), chapter("", 0, 0)]),
        error(2, ChapterFault::InvertedRange)
    );
    assert_eq!(check_ranges(&vec![chapter("A", 1, 5), chapter("B", 2, 6)], 6), Ok(()));
    assert_eq!(
        check_ranges(&vec![chapter("A", 1, 5), chapter("B", 2, 6), chapter("C", 1, 9)], 5),
        error(2, ChapterFault::OutOfRange)
    );
    assert_eq!(check_ranges(&vec![chapter("A", 1, 1)], 0), error(1, ChapterFault::OutOfRange));
}

#[test]
fn messages_name_the_chapter_and_the_object() {
    let mut s = String::from("n=");
    append_number(&mut s, 0);
    append_number(&mut s, 1905);
    append_number(&mut s, u64::MAX);
    assert_eq!(s, "n=0190518446744073709551615");
    let error = |index: usize, fault: ChapterFault| ChapterDefinitionError { index, fault };
    assert_eq!(
        describe_chapter_error(error(1, ChapterFault::ZeroPage)),
        "章节 1 的页码无效"
    );
    assert_eq!(
        describe_chapter_error(error(12, ChapterFault::InvertedRange)),
        "章节 12 的起始页码大于结束页码"
    );
    assert_eq!(
        describe_chapter_error(error(3, ChapterFault::EmptyTitle)),
        "章节 3 的标题为空"
    );
    assert_eq!(
        describe_chapter_error(error(40, ChapterFault::OutOfRange)),
        "章节 40 的结束页码超出总页数"
    );
    assert_eq!(describe_unwritten(7), "chapter 7: the output is too large to be written");
    assert_eq!(
        describe_parse_error(ParseError::MissingStartXref),
        "no cross-reference offset at the end of the document"
    );
    assert_eq!(describe_parse_error(ParseError::MalformedXref), "malformed cross-reference section");
    assert_eq!(describe_parse_error(ParseError::TooManyRevisions), "too many revisions");
    assert_eq!(
        describe_parse_error(ParseError::CompressedXref),
        "cross-reference streams are not supported"
    );
    assert_eq!(
        describe_parse_error(ParseError::CompressedObjects),
        "object streams are not supported"
    );
    assert_eq!(
        describe_parse_error(ParseError::Linearized),
        "linearized documents are not supported"
    );
    let object = ObjectId { number: 31, generation: 2 };
    assert_eq!(
        describe_structural_error(StructuralError::UnresolvableRoot),
        "the root catalog does not lead to a page tree"
    );
    assert_eq!(
        describe_structural_error(StructuralError::DanglingReference(object)),
        "the page tree refers to a missing object: object 31 2"
    );
    assert_eq!(
        describe_structural_error(StructuralError::NotAPageNode(object)),
        "the page tree holds a malformed node: object 31 2"
    );
    assert_eq!(
        describe_structural_error(StructuralError::MissingMediaBox(object)),
        "a page has no media box: object 31 2"
    );
}

#[test]
fn result_records_say_what_was_done() {
    assert_eq!(
        ProcessResult::completed(3, 10),
        ProcessResult { success: true, error_message: None, files_processed: 3, total_pages: 10 }
    );
    assert_eq!(
        ProcessResult::failed("no".to_string(), 1, 4),
        ProcessResult {
            success: false,
            error_message: Some("no".to_string()),
            files_processed: 1,
            total_pages: 4
        }
    );
}

#[test]
fn byte_strings_and_entries_are_compared_byte_by_byte() {
    assert!(bytes_equal(b"", b""));
    assert!(bytes_equal(b"Type", b"Type"));
    assert!(!bytes_equal(b"Type", b"Typ"));
    assert!(!bytes_equal(b"Type", b"TypE"));
    let entries = vec![
        (b"A".to_vec(), Object::Integer(1)),
        (b"B".to_vec(), Object::Integer(2)),
        (b"A".to_vec(), Object::Integer(3)),
    ];
    assert_eq!(get(&entries, b"A"), Some(&Object::Integer(1)));
    assert_eq!(get(&entries, b"B"), Some(&Object::Integer(2)));
    assert_eq!(get(&entries, b"C"), None);
    let copy = Object::Dictionary(entries).deep_copy();
    assert_eq!(
        copy,
        Object::Dictionary(vec![
            (b"A".to_vec(), Object::Integer(1)),
            (b"B".to_vec(), Object::Integer(2)),
            (b"A".to_vec(), Object::Integer(3)),
        ])
    );
}

#[test]
fn a_subset_with_more_objects_than_a_document_may_number_is_not_built() {
    let doc = Document::parse(&linked()).unwrap();
    let pages = doc.pages().unwrap();
    let too_many = vec![0usize; 8_388_606];
    assert!(doc.build_output(&pages, &too_many).is_none());
    let built = doc.build_output(&pages, &vec![4, 3, 5]).expect("three objects fit");
    assert_eq!(built.len(), 5);
}
