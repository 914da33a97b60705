use pdf_processor::chapter::{
    ChapterDefinition, ChapterDefinitionError, ChapterFault, ProcessResult,
};
use pdf_processor::document::Document;
use pdf_processor::object::{get, Object, ObjectId};
use pdf_processor::pages::StructuralError;
use pdf_processor::splitter::{PdfSplitter, SplitError, SplitOutput, Stored};
use pdf_processor::validator::validate_bytes;
use pdf_processor::xref::ParseError;

/// A document made of the given object bodies, numbered from 1 on, with the
/// first one as its root.
fn assemble(bodies: &[String]) -> Vec<u8> {
    let mut out = String::from("%PDF-1.4\n");
    let mut offsets: Vec<usize> = Vec::new();
    for (i, body) in bodies.iter().enumerate() {
        offsets.push(out.len());
        out.push_str(&format!("{} 0 obj\n{}\nendobj\n", i + 1, body));
    }
    let start = out.len();
    out.push_str(&format!("xref\n0 {}\n0000000000 65535 f \n", bodies.len() + 1));
    for offset in &offsets {
        out.push_str(&format!("{:010} 00000 n \n", offset));
    }
    out.push_str(&format!(
        "trailer\n<< /Size {} /Root 1 0 R >>\nstartxref\n{}\n%%EOF\n",
        bodies.len() + 1,
        start
    ));
    out.into_bytes()
}

/// A document with `pages` pages, one content stream for each page, one
/// font that all pages share, and one image for each page.
fn sample(pages: usize) -> Vec<u8> {
    let mut bodies: Vec<String> = Vec::new();
    bodies.push("<< /Type /Catalog /Pages 2 0 R >>".to_string());
    let mut kids = String::new();
    for i in 0..pages {
        kids.push_str(&format!("{} 0 R ", 4 + 3 * i));
    }
    bodies.push(format!(
        "<< /Type /Pages /Kids [{}] /Count {} /MediaBox [0 0 612 792] >>",
        kids, pages
    ));
    bodies.push("<< /Type /Font /Subtype /Type1 /BaseFont /Helvetica >>".to_string());
    for i in 0..pages {
        bodies.push(format!(
            "<< /Type /Page /Parent 2 0 R /Resources << /Font << /F1 3 0 R >> /XObject << /Im {} 0 R >> >> /Contents {} 0 R >>",
            6 + 3 * i,
            5 + 3 * i
        ));
        let text = format!("BT /F1 12 Tf (Page {}) Tj ET", i + 1);
        bodies.push(format!("<< /Length {} >>\nstream\n{}\nendstream", text.len(), text));
        let image = format!("image-{}", i + 1);
        bodies.push(format!(
            "<< /Type /XObject /Subtype /Image /Length {} >>\nstream\n{}\nendstream",
            image.len(),
            image
        ));
    }
    assemble(&bodies)
}

fn chapter(title: &str, start_page: u32, end_page: u32) -> ChapterDefinition {
    ChapterDefinition { title: title.to_string(), start_page, end_page }
}

fn rejected(index: usize, fault: ChapterFault) -> SplitError {
    SplitError::Chapter(ChapterDefinitionError { index, fault })
}

/// The payloads of the content streams of the pages of a document, in page
/// order.
fn page_texts(bytes: &[u8]) -> Vec<String> {
    let doc = Document::parse(bytes).expect("the output is well formed");
    let pages = doc.pages().expect("the page tree of the output is sound");
    let mut texts = Vec::new();
    for page in &pages {
        let entries = match doc.resolve(page.id) {
            Some(Object::Dictionary(entries)) => entries,
            other => panic!("a page is {:?}", other),
        };
        let contents = match get(entries, b"Contents") {
            Some(Object::Reference(id)) => *id,
            other => panic!("the contents are {:?}", other),
        };
        match doc.resolve(contents) {
            Some(Object::Stream(_, data)) => texts.push(String::from_utf8(data.clone()).unwrap()),
            other => panic!("the content stream is {:?}", other),
        }
    }
    texts
}

fn text_of(page: usize) -> String {
    format!("BT /F1 12 Tf (Page {}) Tj ET", page)
}

#[test]
fn three_chapters_give_three_documents() {
    let source = sample(10);
    let chapters = vec![chapter("Intro", 1, 3), chapter("Body", 4, 8), chapter("End", 9, 10)];
    let output = PdfSplitter::new().split_pdf(&source, &chapters).expect("the split succeeds");
    assert_eq!(output.files.len(), 3);
    assert!(output.failed.is_empty());
    assert_eq!(output.total_pages, 10);
    let counts: Vec<u32> = output.files.iter().map(|f| f.page_count).collect();
    assert_eq!(counts, vec![3, 5, 2]);
    let indexes: Vec<usize> = output.files.iter().map(|f| f.index).collect();
    assert_eq!(indexes, vec![1, 2, 3]);
    assert_eq!(
        output.result(),
        ProcessResult { success: true, error_message: None, files_processed: 3, total_pages: 10 }
    );
    assert_eq!(page_texts(&output.files[0].bytes), vec![text_of(1), text_of(2), text_of(3)]);
    assert_eq!(
        page_texts(&output.files[1].bytes),
        vec![text_of(4), text_of(5), text_of(6), text_of(7), text_of(8)]
    );
    assert_eq!(page_texts(&output.files[2].bytes), vec![text_of(9), text_of(10)]);
    for file in &output.files {
        assert_eq!(validate_bytes(&file.bytes), vec![]);
    }
}

#[test]
fn an_inverted_range_is_rejected() {
    let chapters = vec![chapter("Bad", 5, 2)];
    let expected = rejected(1, ChapterFault::InvertedRange);
    assert_eq!(PdfSplitter::new().split_pdf(&sample(10), &chapters).err(), Some(expected));
    assert_eq!(PdfSplitter::new().split_pdf(b"", &chapters).err(), Some(expected));
}

#[test]
fn invalid_definitions_are_rejected_before_the_document_is_read() {
    let splitter = PdfSplitter::new();
    let garbage = b"this is no document";
    let cases = vec![
        (vec![chapter("A", 0, 3)], rejected(1, ChapterFault::ZeroPage)),
        (vec![chapter("A", 0, 0)], rejected(1, ChapterFault::ZeroPage)),
        (vec![chapter("", 0, 3)], rejected(1, ChapterFault::ZeroPage)),
        (vec![chapter("A", 3, 2)], rejected(1, ChapterFault::InvertedRange)),
        (vec![chapter("", 3, 2)], rejected(1, ChapterFault::InvertedRange)),
        (vec![chapter("", 1, 2)], rejected(1, ChapterFault::EmptyTitle)),
        (
            vec![chapter("A", 1, 2), chapter("B", 3, 3), chapter("", 4, 4), chapter("D", 0, 1)],
            rejected(3, ChapterFault::EmptyTitle),
        ),
    ];
    for (chapters, expected) in cases {
        assert_eq!(splitter.split_pdf(garbage, &chapters).err(), Some(expected));
        assert_eq!(splitter.split_pdf(&sample(5), &chapters).err(), Some(expected));
    }
}

#[test]
fn a_range_behind_the_last_page_is_rejected() {
    let source = sample(3);
    let splitter = PdfSplitter::new();
    assert_eq!(
        splitter.split_pdf(&source, &vec![chapter("A", 1, 3), chapter("B", 2, 4)]).err(),
        Some(rejected(2, ChapterFault::OutOfRange))
    );
    assert_eq!(
        splitter.split_pdf(&source, &vec![chapter("A", 4, 4)]).err(),
        Some(rejected(1, ChapterFault::OutOfRange))
    );
    assert!(splitter.split_pdf(&source, &vec![chapter("A", 3, 3)]).is_ok());
}

#[test]
fn bytes_that_are_no_document_give_a_parse_error() {
    let chapters = vec![chapter("A", 1, 1)];
    assert_eq!(
        PdfSplitter::new().split_pdf(b"this is no document", &chapters).err(),
        Some(SplitError::Parse(ParseError::MissingStartXref))
    );
}

#[test]
fn a_document_without_a_page_tree_gives_a_structural_error() {
    let source = assemble(&["<< /Type /Catalog >>".to_string()]);
    assert_eq!(
        PdfSplitter::new().split_pdf(&source, &vec![chapter("A", 1, 1)]).err(),
        Some(SplitError::Structure(StructuralError::UnresolvableRoot))
    );
}

#[test]
fn chapters_that_partition_the_pages_keep_every_page() {
    let source = sample(7);
    let chapters = vec![chapter("C", 5, 7), chapter("A", 1, 2), chapter("B", 3, 4)];
    let output = PdfSplitter::new().split_pdf(&source, &chapters).expect("the split succeeds");
    let total: u32 = output.files.iter().map(|f| f.page_count).sum();
    assert_eq!(total, 7);
    assert_eq!(total, output.total_pages);
    let read_back: usize = output.files.iter().map(|f| page_texts(&f.bytes).len()).sum();
    assert_eq!(read_back, 7);
    assert_eq!(page_texts(&output.files[0].bytes), vec![text_of(5), text_of(6), text_of(7)]);
}

#[test]
fn one_chapter_for_the_whole_document_keeps_its_page_count() {
    let source = sample(4);
    let output = PdfSplitter::new()
        .split_pdf(&source, &vec![chapter("All", 1, 4)])
        .expect("the split succeeds");
    assert_eq!(output.files.len(), 1);
    assert_eq!(output.files[0].page_count, 4);
    assert_eq!(output.total_pages, 4);
    assert_eq!(
        page_texts(&output.files[0].bytes),
        vec![text_of(1), text_of(2), text_of(3), text_of(4)]
    );
    assert_eq!(validate_bytes(&output.files[0].bytes), vec![]);
    assert_eq!(validate_bytes(&source), vec![]);
}

#[test]
fn chapters_may_overlap_and_leave_gaps() {
    let source = sample(6);
    let chapters = vec![chapter("A", 2, 3), chapter("B", 3, 3), chapter("C", 6, 6)];
    let output = PdfSplitter::new().split_pdf(&source, &chapters).expect("the split succeeds");
    assert_eq!(page_texts(&output.files[0].bytes), vec![text_of(2), text_of(3)]);
    assert_eq!(page_texts(&output.files[1].bytes), vec![text_of(3)]);
    assert_eq!(page_texts(&output.files[2].bytes), vec![text_of(6)]);
}

#[test]
fn splitting_twice_gives_the_same_bytes() {
    let source = sample(5);
    let chapters = vec![chapter("A", 1, 2), chapter("B", 3, 5)];
    let first = PdfSplitter::new().split_pdf(&source, &chapters).unwrap();
    let second = PdfSplitter { fail_fast: false }.split_pdf(&source, &chapters).unwrap();
    assert_eq!(first.files, second.files);
}

#[test]
fn a_chapter_holds_only_what_its_pages_need() {
    let source = sample(10);
    let output = PdfSplitter::new().split_pdf(&source, &vec![chapter("Two", 2, 2)]).unwrap();
    let bytes = &output.files[0].bytes;
    let doc = Document::parse(bytes).expect("the output is well formed");
    // The catalog, the page tree node, the page, its content stream, its
    // image, and the font.
    assert_eq!(doc.xref.len(), 7);
    assert_eq!(doc.trailer.size, 7);
    assert_eq!(doc.trailer.prev, None);
    let text = String::from_utf8_lossy(bytes).to_string();
    assert!(text.contains("image-2"));
    assert!(text.contains("(Page 2)"));
    assert!(text.contains("Helvetica"));
    for other in [1, 3, 4, 5, 6, 7, 8, 9, 10] {
        assert!(!text.contains(&format!("image-{}\n", other)));
        assert!(!text.contains(&format!("(Page {})", other)));
    }
    assert!(bytes.len() < source.len() / 3);
}

#[test]
fn a_shared_resource_is_copied_into_every_chapter() {
    let source = sample(4);
    let chapters = vec![chapter("A", 1, 2), chapter("B", 3, 4)];
    let output = PdfSplitter::new().split_pdf(&source, &chapters).unwrap();
    for file in &output.files {
        let text = String::from_utf8_lossy(&file.bytes).to_string();
        assert_eq!(text.matches("Helvetica").count(), 1);
    }
}

#[test]
fn the_new_document_numbers_its_objects_in_the_order_they_were_found() {
    let source = sample(3);
    let output = PdfSplitter::new().split_pdf(&source, &vec![chapter("A", 2, 3)]).unwrap();
    let doc = Document::parse(&output.files[0].bytes).expect("the output is well formed");
    let id = |number: u32| ObjectId { number, generation: 0 };
    let reference = |number: u32| Object::Reference(id(number));
    assert_eq!(doc.version, Some(b"1.4".to_vec()));
    assert_eq!(doc.trailer.root, Some(id(1)));
    assert_eq!(
        doc.resolve(id(1)),
        Some(&Object::Dictionary(vec![
            (b"Type".to_vec(), Object::Name(b"Catalog".to_vec())),
            (b"Pages".to_vec(), reference(2)),
        ]))
    );
    assert_eq!(
        doc.resolve(id(2)),
        Some(&Object::Dictionary(vec![
            (b"Type".to_vec(), Object::Name(b"Pages".to_vec())),
            (b"Kids".to_vec(), Object::Array(vec![reference(3), reference(6)])),
            (b"Count".to_vec(), Object::Integer(2)),
        ]))
    );
    // Found first: page 2 with the font and the image that its resources
    // name; then page 3 with its image; then the content streams.
    let media_box = Object::Array(vec![
        Object::Integer(0),
        Object::Integer(0),
        Object::Integer(612),
        Object::Integer(792),
    ]);
    let page = |image: u32, contents: u32| {
        Object::Dictionary(vec![
            (b"Parent".to_vec(), reference(2)),
            (b"Type".to_vec(), Object::Name(b"Page".to_vec())),
            (
                b"Resources".to_vec(),
                Object::Dictionary(vec![
                    (b"Font".to_vec(), Object::Dictionary(vec![(b"F1".to_vec(), reference(4))])),
                    (
                        b"XObject".to_vec(),
                        Object::Dictionary(vec![(b"Im".to_vec(), reference(image))]),
                    ),
                ]),
            ),
            (b"Contents".to_vec(), reference(contents)),
            (b"MediaBox".to_vec(), media_box.deep_copy()),
        ])
    };
    assert_eq!(doc.resolve(id(3)), Some(&page(5, 8)));
    assert_eq!(doc.resolve(id(6)), Some(&page(7, 9)));
    match doc.resolve(id(4)) {
        Some(Object::Dictionary(entries)) => {
            assert_eq!(get(entries, b"BaseFont"), Some(&Object::Name(b"Helvetica".to_vec())))
        },
        other => panic!("object 4 is {:?}", other),
    }
    match doc.resolve(id(5)) {
        Some(Object::Stream(_, data)) => assert_eq!(data, b"image-2"),
        other => panic!("object 5 is {:?}", other),
    }
    match doc.resolve(id(9)) {
        Some(Object::Stream(_, data)) => assert_eq!(data, text_of(3).as_bytes()),
        other => panic!("object 9 is {:?}", other),
    }
    assert!(doc.resolve(id(10)).is_none());
}

#[test]
fn a_reference_that_leaves_the_subset_becomes_null() {
    let bodies = vec![
        "<< /Type /Catalog /Pages 2 0 R >>".to_string(),
        "<< /Type /Pages /Kids [3 0 R 4 0 R] /Count 2 /MediaBox [0 0 1 1] >>".to_string(),
        "<< /Type /Page /Parent 2 0 R /Next 4 0 R /Gone 99 0 R >>".to_string(),
        "<< /Type /Page /Parent 2 0 R >>".to_string(),
    ];
    let output =
        PdfSplitter::new().split_pdf(&assemble(&bodies), &vec![chapter("A", 1, 1)]).unwrap();
    let doc = Document::parse(&output.files[0].bytes).expect("the output is well formed");
    let id = |number: u32| ObjectId { number, generation: 0 };
    // The page that is linked to comes along, but it is no page of the
    // chapter, and its parent is left behind.
    assert_eq!(doc.pages().unwrap().len(), 1);
    match doc.resolve(id(3)) {
        Some(Object::Dictionary(entries)) => {
            assert_eq!(get(entries, b"Next"), Some(&Object::Reference(id(4))));
            assert_eq!(get(entries, b"Gone"), Some(&Object::Null));
            assert_eq!(get(entries, b"Parent"), Some(&Object::Reference(id(2))));
        },
        other => panic!("object 3 is {:?}", other),
    }
    match doc.resolve(id(4)) {
        Some(Object::Dictionary(entries)) => {
            assert_eq!(get(entries, b"Parent"), Some(&Object::Null));
        },
        other => panic!("object 4 is {:?}", other),
    }
    assert!(doc.resolve(id(5)).is_none());
}

#[test]
fn the_result_of_a_failed_run_carries_its_message() {
    let error = rejected(2, ChapterFault::InvertedRange);
    assert_eq!(
        error.result(),
        ProcessResult {
            success: false,
            error_message: Some("章节 2 的起始页码大于结束页码".to_string()),
            files_processed: 0,
            total_pages: 0,
        }
    );
    assert_eq!(
        SplitError::Parse(ParseError::Encrypted).describe(),
        "encrypted documents are not supported"
    );
    assert_eq!(
        SplitError::Structure(StructuralError::CyclicPageTree(ObjectId {
            number: 120,
            generation: 3
        }))
        .describe(),
        "the page tree reaches a node twice: object 120 3"
    );
}

#[test]
fn a_new_splitter_ends_at_the_first_failure() {
    assert!(PdfSplitter::new().fail_fast);
    assert_eq!(PdfSplitter::new(), PdfSplitter { fail_fast: true });
}

#[test]
fn no_chapters_give_no_documents() {
    let output = PdfSplitter::new().split_pdf(&sample(2), &Vec::new()).unwrap();
    assert!(output.files.is_empty());
    assert!(output.failed.is_empty());
    assert_eq!(
        output.result(),
        ProcessResult { success: true, error_message: None, files_processed: 0, total_pages: 2 }
    );
}

#[test]
fn a_stream_names_the_length_of_its_payload_once_and_last() {
    let bodies = vec![
        "<< /Type /Catalog /Pages 2 0 R >>".to_string(),
        "<< /Type /Pages /Kids [3 0 R] /Count 1 /MediaBox [0 0 1 1] >>".to_string(),
        "<< /Type /Page /Parent 2 0 R /Contents 4 0 R >>".to_string(),
        "<< /Length 5 0 R /Filter /None /Length 77 >>\nstream\nq 1 0 0 1 0 0 cm Q\nendstream"
            .to_string(),
        "18".to_string(),
    ];
    let output =
        PdfSplitter::new().split_pdf(&assemble(&bodies), &vec![chapter("A", 1, 1)]).unwrap();
    let bytes = &output.files[0].bytes;
    let doc = Document::parse(bytes).expect("the output is well formed");
    assert!(!doc.recovered);
    assert_eq!(
        doc.resolve(ObjectId { number: 4, generation: 0 }),
        Some(&Object::Stream(
            vec![
                (b"Filter".to_vec(), Object::Name(b"None".to_vec())),
                (b"Length".to_vec(), Object::Integer(18)),
            ],
            b"q 1 0 0 1 0 0 cm Q".to_vec()
        ))
    );
    // The object that held the length is not needed any more: nothing in
    // the new document leads to it, and it is not part of it.
    assert_eq!(doc.resolve(ObjectId { number: 5, generation: 0 }), None);
    assert_eq!(doc.xref.len(), 5);
    assert_eq!(validate_bytes(bytes), vec![]);
}

#[test]
fn what_the_splitter_writes_is_read_as_it_was_written() {
    let source = sample(6);
    let chapters = vec![chapter("A", 1, 4), chapter("B", 5, 6)];
    let output = PdfSplitter::new().split_pdf(&source, &chapters).unwrap();
    for file in &output.files {
        let doc = Document::parse(&file.bytes).expect("the output is well formed");
        assert!(!doc.recovered);
        assert_eq!(doc.pages().unwrap().len() as u32, file.page_count);
        assert_eq!(doc.validate(), vec![]);
        // Splitting the output into one chapter again changes nothing.
        let again = PdfSplitter::new()
            .split_pdf(&file.bytes, &vec![chapter("All", 1, file.page_count)])
            .unwrap();
        assert_eq!(again.files[0].page_count, file.page_count);
        assert_eq!(page_texts(&again.files[0].bytes), page_texts(&file.bytes));
        assert_eq!(again.files[0].bytes, file.bytes);
        let third = PdfSplitter::new()
            .split_pdf(&again.files[0].bytes, &vec![chapter("All", 1, file.page_count)])
            .unwrap();
        assert_eq!(third.files[0].bytes, again.files[0].bytes);
    }
}

#[test]
fn the_result_of_a_run_with_a_failed_chapter_names_the_first_one() {
    let output = SplitOutput { files: Vec::new(), failed: vec![2, 5], total_pages: 9 };
    assert_eq!(
        output.result(),
        ProcessResult {
            success: false,
            error_message: Some("chapter 2: the output is too large to be written".to_string()),
            files_processed: 0,
            total_pages: 9,
        }
    );
}

#[test]
fn a_title_of_white_space_is_a_title() {
    let source = sample(2);
    let output = PdfSplitter::new()
        .split_pdf(&source, &vec![chapter(" ", 1, 1), chapter("\t\n", 2, 2)])
        .expect("titles that are not empty are accepted");
    assert_eq!(output.files.len(), 2);
    assert!(output.failed.is_empty());
}

#[test]
fn rejected_chapters_are_described_by_position_and_fault() {
    let splitter = PdfSplitter::new();
    let describe = |chapters: Vec<ChapterDefinition>| {
        splitter.split_pdf(b"", &chapters).err().expect("the chapters are rejected").describe()
    };
    assert_eq!(describe(vec![chapter("A", 0, 3)]), "章节 1 的页码无效");
    assert_eq!(describe(vec![chapter("", 1, 3)]), "章节 1 的标题为空");
    assert_eq!(
        describe(vec![chapter("Intro", 1, 3), chapter("Bad", 5, 2), chapter("End", 9, 10)]),
        "章节 2 的起始页码大于结束页码"
    );
    assert_eq!(describe(vec![chapter("X", 3, 0)]), "章节 1 的页码无效");
}

#[test]
fn splitting_what_was_split_keeps_its_objects_and_pages() {
    let source = sample(5);
    let first = PdfSplitter::new().split_pdf(&source, &vec![chapter("All", 1, 5)]).unwrap();
    let second = PdfSplitter::new()
        .split_pdf(&first.files[0].bytes, &vec![chapter("All", 1, 5)])
        .unwrap();
    let one = Document::parse(&first.files[0].bytes).unwrap();
    let two = Document::parse(&second.files[0].bytes).unwrap();
    assert_eq!(two.xref.len(), one.xref.len());
    assert_eq!(two.pages().unwrap().len(), one.pages().unwrap().len());
    let all: Vec<usize> = (1..one.xref.len()).collect();
    let mut reached = one.reach(&vec![1]);
    reached.sort();
    assert_eq!(reached, all);
    assert_eq!(second.files[0].page_count, first.files[0].page_count);
    assert_eq!(second.files[0].bytes, first.files[0].bytes);
}

#[test]
fn a_written_document_cut_within_its_trailer_has_no_root() {
    let source = sample(3);
    let output = PdfSplitter::new().split_pdf(&source, &vec![chapter("All", 1, 3)]).unwrap();
    let bytes = &output.files[0].bytes;
    assert_eq!(validate_bytes(bytes), vec![]);
    let text = String::from_utf8_lossy(bytes).to_string();
    let word = text.rfind("trailer").unwrap();
    let close = text.rfind(">>").unwrap() + 1;
    for cut in word + 7..=close {
        let violations = validate_bytes(&bytes[..cut]);
        assert!(violations.iter().any(|v| v.kind
            == pdf_processor::validator::ViolationKind::UnresolvableRoot));
    }
}

#[test]
fn a_length_held_by_another_object_is_written_in_place() {
    let text = "BT (Only page) Tj ET";
    let bodies = vec![
        "<< /Type /Catalog /Pages 2 0 R >>".to_string(),
        "<< /Type /Pages /Kids [3 0 R] /Count 1 /MediaBox [0 0 612 792] >>".to_string(),
        "<< /Type /Page /Parent 2 0 R /Contents 4 0 R >>".to_string(),
        format!("<< /Length 5 0 R >>\nstream\n{}\nendstream", text),
        format!("{}", text.len()),
    ];
    let source = assemble(&bodies);
    let doc = Document::parse(&source).unwrap();
    let pages = doc.pages().unwrap();
    // The page and its content stream; the object that holds the length of
    // the stream is not needed.
    assert_eq!(doc.extract(&pages), vec![3, 4]);

    let whole = vec![chapter("All", 1, 1)];
    let first = PdfSplitter::new().split_pdf(&source, &whole).unwrap();
    let written = Document::parse(&first.files[0].bytes).unwrap();
    // The free entry, the catalog, the page tree node, the page and the
    // stream.
    assert_eq!(written.xref.len(), 5);
    assert_eq!(page_texts(&first.files[0].bytes), vec![text.to_string()]);
    assert_eq!(validate_bytes(&first.files[0].bytes), vec![]);
    // Every object of the file is reached from its catalog.
    assert_eq!(written.reach(&vec![1]), vec![1, 2, 3, 4]);

    let second = PdfSplitter::new().split_pdf(&first.files[0].bytes, &whole).unwrap();
    let again = Document::parse(&second.files[0].bytes).unwrap();
    assert_eq!(again.xref.len(), 5);
    assert_eq!(second.files[0].bytes, first.files[0].bytes);
}

#[test]
fn what_becomes_of_the_files_is_counted_step_by_step() {
    let start = Stored::new();
    assert_eq!(start, Stored { files: 0, first_failed: None });
    // A file that was stored is counted, and the run goes on.
    let (one, stop) = start.record(1, true, true);
    assert_eq!((one, stop), (Stored { files: 1, first_failed: None }, false));
    // A file that could not be stored ends the run where the first failure
    // is to end it.
    let (two, stop) = one.record(2, false, true);
    assert_eq!((two, stop), (Stored { files: 1, first_failed: Some(2) }, true));
    // Otherwise the run goes on, and the first failure is kept.
    let (two, stop) = one.record(2, false, false);
    assert_eq!((two, stop), (Stored { files: 1, first_failed: Some(2) }, false));
    let (three, stop) = two.record(3, false, false);
    assert_eq!((three, stop), (Stored { files: 1, first_failed: Some(2) }, false));
    let (four, stop) = three.record(4, true, false);
    assert_eq!((four, stop), (Stored { files: 2, first_failed: Some(2) }, false));
    // The count does not run over.
    let full = Stored { files: u32::MAX, first_failed: None };
    assert_eq!(full.record(9, true, false).0.files, u32::MAX);
}

#[test]
fn the_record_of_a_run_follows_what_was_stored() {
    let source = sample(10);
    let chapters = vec![chapter("Intro", 1, 3), chapter("Body", 4, 8), chapter("End", 9, 10)];
    let output = PdfSplitter::new().split_pdf(&source, &chapters).unwrap();
    assert_eq!(
        output.stored_result(Stored { files: 3, first_failed: None }),
        ProcessResult { success: true, error_message: None, files_processed: 3, total_pages: 10 }
    );
    assert_eq!(
        output.stored_result(Stored { files: 2, first_failed: Some(2) }),
        ProcessResult {
            success: false,
            error_message: Some("chapter 2: the file could not be stored".to_string()),
            files_processed: 2,
            total_pages: 10,
        }
    );
}

#[test]
fn a_chapter_with_inherited_attributes_is_written_again_as_it_was() {
    // The pages inherit their media box and their resources from two
    // levels of the tree, one page rotates, and one object refers back to
    // its page.
    let bodies = vec![
        "<< /Type /Catalog /Pages 2 0 R >>".to_string(),
        "<< /Type /Pages /Kids [3 0 R 6 0 R] /Count 3 /MediaBox [0 0 612 792] /Resources << /Font << /F1 9 0 R >> >> >>".to_string(),
        "<< /Type /Pages /Parent 2 0 R /Kids [4 0 R 5 0 R] /Count 2 /Rotate 90 >>".to_string(),
        "<< /Type /Page /Parent 3 0 R /Contents 7 0 R /Annots [10 0 R] >>".to_string(),
        "<< /Type /Page /Parent 3 0 R /Contents 8 0 R /MediaBox [0 0 10 10] >>".to_string(),
        "<< /Type /Page /Parent 2 0 R /Contents [7 0 R 8 0 R] /Resources << /Font << /F2 9 0 R >> >> >>".to_string(),
        "<< /Length 1 >>\nstream\nq\nendstream".to_string(),
        "<< /Length 11 0 R >>\nstream\nQ\nendstream".to_string(),
        "<< /Type /Font /Subtype /Type1 /BaseFont /Helvetica /Missing 99 0 R >>".to_string(),
        "<< /Type /Annot /P 4 0 R /Next 6 0 R >>".to_string(),
        "1".to_string(),
    ];
    let source = assemble(&bodies);
    for (start, end) in [(1u32, 3u32), (1, 1), (2, 3), (3, 3)] {
        let first =
            PdfSplitter::new().split_pdf(&source, &vec![chapter("Part", start, end)]).unwrap();
        let bytes = &first.files[0].bytes;
        assert_eq!(validate_bytes(bytes), vec![]);
        let count = end - start + 1;
        let second =
            PdfSplitter::new().split_pdf(bytes, &vec![chapter("All", 1, count)]).unwrap();
        assert!(second.failed.is_empty());
        assert_eq!(second.files.len(), 1);
        assert_eq!(&second.files[0].bytes, bytes);
        // Every object of the file is reached from its catalog.
        let doc = Document::parse(bytes).unwrap();
        let mut reached = doc.reach(&vec![1]);
        reached.sort();
        assert_eq!(reached, (1..doc.xref.len()).collect::<Vec<usize>>());
    }
}
