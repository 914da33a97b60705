use pdf_processor::document::Document;
use pdf_processor::object::{Object, ObjectId};
use pdf_processor::pages::StructuralError;
use pdf_processor::splitter::{ChapterFile, PdfSplitter};

/// A document made of the given object bodies, numbered from 1 on, with the
/// first one as its root.
fn assemble(bodies: &[&str]) -> Vec<u8> {
    let mut out = String::from("%PDF-1.4\n");
    let mut offsets: Vec<usize> = Vec::new();
    for (i, body) in bodies.iter().enumerate() {
        offsets.push(out.len());
        out.push_str(&format!("{} 0 obj\n{}\nendobj\n", i + 1, body));
    }
    let start = out.len();
    out.push_str(&format!("xref\n0 {}\n0000000000 65535 f \n", bodies.len() + 1));
    for offset in &offsets {
        out.push_str(&format!("{:010} 00000 n \n", offset));
    }
    out.push_str(&format!(
        "trailer\n<< /Size {} /Root 1 0 R >>\nstartxref\n{}\n%%EOF\n",
        bodies.len() + 1,
        start
    ));
    out.into_bytes()
}

fn nested() -> Vec<u8> {
    assemble(&[
        "<< /Type /Catalog /Pages 2 0 R >>",
        "<< /Type /Pages /Kids [3 0 R 6 0 R] /Count 3 /MediaBox [0 0 10 10] /Rotate 90 >>",
        "<< /Type /Pages /Parent 2 0 R /Kids [4 0 R 5 0 R] /Count 2 /Resources << /A 1 >> >>",
        "<< /Type /Page /Parent 3 0 R >>",
        "<< /Type /Page /Parent 3 0 R /MediaBox [0 0 5 5] /Resources << /B 2 >> >>",
        "<< /Type /Page /Parent 2 0 R /Rotate 0 >>",
    ])
}

fn id(number: u32) -> ObjectId {
    ObjectId { number, generation: 0 }
}

fn integers(values: &[i64]) -> Object {
    Object::Array(values.iter().map(|v| Object::Integer(*v)).collect())
}

#[test]
fn a_page_is_found_by_its_position() {
    let doc = Document::parse(&nested()).unwrap();
    assert_eq!(doc.page_at(1).unwrap().map(|p| p.id), Some(id(4)));
    assert_eq!(doc.page_at(2).unwrap().map(|p| p.id), Some(id(5)));
    assert_eq!(doc.page_at(3).unwrap().map(|p| p.id), Some(id(6)));
    assert_eq!(doc.page_at(0), Ok(None));
    assert_eq!(doc.page_at(4), Ok(None));
    let broken = Document::parse(&assemble(&["<< /Type /Catalog >>"])).unwrap();
    assert_eq!(broken.page_at(1), Err(StructuralError::UnresolvableRoot));
    assert_eq!(broken.page_range(1, 1), Err(StructuralError::UnresolvableRoot));
}

#[test]
fn a_range_of_pages_includes_both_ends() {
    let doc = Document::parse(&nested()).unwrap();
    let all = doc.pages().unwrap();
    assert_eq!(doc.page_range(1, 3), Ok(Some(all.clone())));
    assert_eq!(doc.page_range(2, 3), Ok(Some(all[1..3].to_vec())));
    assert_eq!(doc.page_range(2, 2), Ok(Some(all[1..2].to_vec())));
    assert_eq!(doc.page_range(0, 2), Ok(None));
    assert_eq!(doc.page_range(3, 2), Ok(None));
    assert_eq!(doc.page_range(2, 4), Ok(None));
}

#[test]
fn the_attributes_of_a_page_are_its_own_or_its_nearest_ancestors() {
    let doc = Document::parse(&nested()).unwrap();
    let pages = doc.pages().unwrap();
    let resources = |key: &[u8], value: i64| {
        Object::Dictionary(vec![(key.to_vec(), Object::Integer(value))])
    };
    assert_eq!(doc.media_box_of(&pages[0]), integers(&[0, 0, 10, 10]));
    assert_eq!(doc.resources_of(&pages[0]), resources(b"A", 1));
    assert_eq!(doc.rotation_of(&pages[0]), Object::Integer(90));
    assert_eq!(doc.media_box_of(&pages[1]), integers(&[0, 0, 5, 5]));
    assert_eq!(doc.resources_of(&pages[1]), resources(b"B", 2));
    assert_eq!(doc.rotation_of(&pages[1]), Object::Integer(90));
    assert_eq!(doc.media_box_of(&pages[2]), integers(&[0, 0, 10, 10]));
    assert_eq!(doc.resources_of(&pages[2]), Object::Dictionary(Vec::new()));
    assert_eq!(doc.rotation_of(&pages[2]), Object::Integer(0));
    assert_eq!(doc.attribute(2, b"Rotate"), Some(&Object::Integer(90)));
    assert_eq!(doc.attribute(4, b"Rotate"), None);
    assert_eq!(doc.attribute(0, b"Rotate"), None);
    assert_eq!(doc.attribute(70, b"Rotate"), None);
}

#[test]
fn a_page_without_a_rotation_defaults_to_none_on_a_plain_tree() {
    let doc = Document::parse(&assemble(&[
        "<< /Type /Catalog /Pages 2 0 R >>",
        "<< /Type /Pages /Kids [3 0 R] /Count 1 >>",
        "<< /Type /Page /Parent 2 0 R /MediaBox [0 0 1 1] >>",
    ]))
    .unwrap();
    let pages = doc.pages().unwrap();
    assert_eq!(pages[0].rotate, None);
    assert_eq!(pages[0].resources, None);
    assert_eq!(pages[0].media_box, 3);
    assert_eq!(doc.rotation_of(&pages[0]), Object::Integer(0));
}

#[test]
fn files_are_named_by_the_position_of_their_chapter() {
    let file = |index: usize| ChapterFile { index, page_count: 1, bytes: Vec::new() };
    assert_eq!(file(1).file_name(), "chapter_1.pdf");
    assert_eq!(file(12).file_name(), "chapter_12.pdf");
    assert_eq!(file(1000).file_name(), "chapter_1000.pdf");
}

#[test]
fn the_default_splitter_is_a_new_one() {
    assert_eq!(PdfSplitter::default(), PdfSplitter::new());
}
