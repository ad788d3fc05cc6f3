use lopdf::document::{Document, IncrementalDocument};
use lopdf::error::Error;
use lopdf::object::{Dictionary, Object};
use lopdf::xref::XrefType;

fn text(bytes: &[u8]) -> String {
    String::from_utf8_lossy(bytes).into_owned()
}

fn small_document() -> Document {
    let mut doc = Document::new();
    doc.objects.push(((1, 0), Object::Integer(5)));
    doc.max_id = 1;
    doc
}

const HEADER: &[u8] = b"%PDF-1.4\n%\xBB\xAD\xC0\xDE\n";

#[test]
fn saves_with_a_cross_reference_table() {
    let mut doc = small_document();
    let mut out = Vec::new();
    doc.save_to(&mut out).unwrap();
    let mut expected = HEADER.to_vec();
    expected.extend_from_slice(b"1 0 obj\n 5 \nendobj\n");
    expected.extend_from_slice(b"xref\n0 2\n0000000000 65535 f \n0000000015 00000 n \n");
    expected.extend_from_slice(b"trailer\n<</Size 2 >>\nstartxref\n34\n%%EOF");
    assert_eq!(text(&out), text(&expected));
    assert_eq!(out, expected);
    assert_eq!(doc.max_id, 1);
}

#[test]
fn saves_with_a_cross_reference_stream() {
    let mut doc = small_document();
    doc.reference_table.cross_reference_type = XrefType::CrossReferenceStream;
    let mut out = Vec::new();
    doc.save_to(&mut out).unwrap();
    let mut expected = HEADER.to_vec();
    expected.extend_from_slice(b"1 0 obj\n 5 \nendobj\n");
    expected.extend_from_slice(
        b"2 0 obj\n<</Type /XRef /Size 3 /W[1 4 2]/Index[1 2]/Length 14 >>\nstream\n",
    );
    expected.extend_from_slice(&[1, 0, 0, 0, 15, 0, 0, 1, 0, 0, 0, 34, 0, 0]);
    expected.extend_from_slice(b"\nendstream\nendobj\n\nstartxref\n34\n%%EOF");
    assert_eq!(out, expected);
    // the cross-reference stream took the next object number
    assert_eq!(doc.max_id, 2);
}

#[test]
fn skips_object_and_cross_reference_streams() {
    let mut doc = small_document();
    let mut d = Dictionary::new();
    d.set(b"Type".to_vec(), Object::Name(b"ObjStm".to_vec()));
    doc.objects.push(((2, 0), Object::Dictionary(d)));
    let mut lin = Dictionary::new();
    lin.set(b"Linearized".to_vec(), Object::Integer(1));
    doc.objects.push(((3, 0), Object::Dictionary(lin)));
    doc.max_id = 3;
    let mut out = Vec::new();
    doc.save_to(&mut out).unwrap();
    let s = text(&out);
    assert!(!s.contains("2 0 obj"));
    assert!(!s.contains("3 0 obj"));
    assert!(s.contains("xref\n0 2\n0000000000 65535 f \n0000000015 00000 n \n"));
    assert!(s.contains("<</Size 4 >>"));
}

#[test]
fn rejects_a_low_binary_mark() {
    let mut doc = small_document();
    doc.binary_mark = vec![b'A'];
    let mut out = b"prefix".to_vec();
    assert_eq!(doc.save_to(&mut out), Err(Error::InvalidBinaryMark));
    assert_eq!(out, b"prefix%PDF-1.4\n".to_vec());
}

#[test]
fn saves_an_incremental_update() {
    let prev = small_document();
    let mut new_document = Document::new();
    new_document.objects.push(((2, 0), Object::Boolean(true)));
    new_document.max_id = 2;
    let mut inc = IncrementalDocument {
        bytes_documents: b"OLD".to_vec(),
        prev_documents: prev,
        new_document,
    };
    let mut out = Vec::new();
    inc.save_to(&mut out).unwrap();
    let s = text(&out);
    assert!(s.starts_with("OLD\n%PDF-1.4\n"));
    // positions count from the start of the earlier bytes
    assert!(s.contains("xref\n0 1\n0000000000 65535 f \n2 1\n0000000019 00000 n \n"));
    assert_eq!(&out[19..26], b"2 0 obj");
    assert!(s.ends_with("startxref\n41\n%%EOF"));
    assert_eq!(&out[41..45], b"xref");
}

#[test]
fn trailer_detects_encryption() {
    let mut doc = Document::new();
    assert!(!doc.is_encrypted());
    doc.trailer.set(b"Encrypt".to_vec(), Object::Reference((9, 0)));
    assert!(doc.is_encrypted());
}

#[test]
fn new_object_ids_count_up() {
    let mut doc = small_document();
    assert_eq!(doc.new_object_id(), (2, 0));
    assert_eq!(doc.new_object_id(), (3, 0));
    assert_eq!(doc.max_id, 3);
}

#[test]
fn objects_must_be_ordered_by_id() {
    let mut doc = small_document();
    assert!(doc.objects_ordered());
    doc.objects.push(((1, 0), Object::Null));
    assert!(!doc.objects_ordered());
    let mut doc = small_document();
    doc.objects.push(((1, 1), Object::Null));
    doc.objects.push(((3, 0), Object::Null));
    assert!(doc.objects_ordered());
    doc.objects.push(((2, 7), Object::Null));
    assert!(!doc.objects_ordered());
}

#[test]
fn saving_a_table_document_twice_gives_the_same_bytes() {
    let mut doc = small_document();
    doc.trailer.set(b"Root".to_vec(), Object::Reference((1, 0)));
    let mut first = Vec::new();
    doc.save_to(&mut first).unwrap();
    let mut second = Vec::new();
    doc.save_to(&mut second).unwrap();
    assert_eq!(first, second);
    assert_eq!(doc.max_id, 1);
}
