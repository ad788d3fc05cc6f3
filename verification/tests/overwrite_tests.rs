use lopdf::document::Document;
use lopdf::error::Error;
use lopdf::object::{Dictionary, Object, Stream};
use lopdf::overwrite_document::{OverwriteDocument, XrefSectionRead};
use lopdf::writer::Writer;
use lopdf::xref::{Xref, XrefEntry, XrefType};

const HEADER: &[u8] = b"%PDF-1.4\n%\xBB\xAD\xC0\xDE\n";

fn text(bytes: &[u8]) -> String {
    String::from_utf8_lossy(bytes).into_owned()
}

fn table_file() -> Vec<u8> {
    let mut b = HEADER.to_vec();
    b.extend_from_slice(b"1 0 obj\n 5 \nendobj\n");
    b.extend_from_slice(b"xref\n0 2\n0000000000 65535 f \n0000000015 00000 n \n");
    b.extend_from_slice(b"trailer\n<</Size 2 >>\nstartxref\n34\n%%EOF");
    b
}

fn table_document() -> Document {
    let mut doc = Document::new();
    doc.objects.push(((1, 0), Object::Integer(5)));
    doc.max_id = 1;
    doc.reference_table.size = 2;
    doc.reference_table.insert(1, XrefEntry::Normal { offset: 15, generation: 0 });
    let mut trailer = Dictionary::new();
    trailer.set(b"Size".to_vec(), Object::Integer(2));
    doc.trailer = trailer;
    doc
}

fn table_section(bytes: &[u8]) -> XrefSectionRead {
    let mut xref = Xref::new(2, XrefType::CrossReferenceTable);
    xref.insert(1, XrefEntry::Normal { offset: 15, generation: 0 });
    let mut trailer = Dictionary::new();
    trailer.set(b"Size".to_vec(), Object::Integer(2));
    let end = bytes.windows(10).position(|w| w == b"\nstartxref").unwrap();
    XrefSectionRead { start: 34, end, xref, trailer, stream: None }
}

fn stream_dict() -> Dictionary {
    let mut d = Dictionary::new();
    d.set(b"Type".to_vec(), Object::Name(b"XRef".to_vec()));
    d.set(b"Size".to_vec(), Object::Integer(3));
    d.set(
        b"W".to_vec(),
        Object::Array(vec![Object::Integer(1), Object::Integer(4), Object::Integer(2)]),
    );
    d.set(b"Index".to_vec(), Object::Array(vec![Object::Integer(1), Object::Integer(2)]));
    d.set(b"Length".to_vec(), Object::Integer(14));
    d
}

const ROWS: [u8; 14] = [1, 0, 0, 0, 15, 0, 0, 1, 0, 0, 0, 34, 0, 0];

fn stream_object() -> Vec<u8> {
    let mut b = b"2 0 obj\n<</Type /XRef /Size 3 /W[1 4 2]/Index[1 2]/Length 14 >>\nstream\n".to_vec();
    b.extend_from_slice(&ROWS);
    b.extend_from_slice(b"\nendstream\nendobj\n");
    b
}

fn stream_file() -> Vec<u8> {
    let mut b = HEADER.to_vec();
    b.extend_from_slice(b"1 0 obj\n 5 \nendobj\n");
    b.extend_from_slice(&stream_object());
    b.extend_from_slice(b"\nstartxref\n34\n%%EOF");
    b
}

fn stream_section() -> XrefSectionRead {
    let mut xref = Xref::new(3, XrefType::CrossReferenceStream);
    xref.insert(1, XrefEntry::Normal { offset: 15, generation: 0 });
    xref.insert(2, XrefEntry::Normal { offset: 34, generation: 0 });
    let stream = Stream {
        dict: stream_dict(),
        allows_compression: true,
        content: ROWS.to_vec(),
        start_position: None,
    };
    XrefSectionRead {
        start: 34,
        end: 34 + stream_object().len(),
        xref,
        trailer: stream_dict(),
        stream: Some(((2, 0), stream)),
    }
}

#[test]
fn injects_and_replaces_bytes() {
    let buffer = b"abcdef".to_vec();
    assert_eq!(OverwriteDocument::inject_at_position(&buffer, b"XY".to_vec(), 2), b"abXYcdef".to_vec());
    assert_eq!(OverwriteDocument::inject_at_position(&buffer, b"Z".to_vec(), 6), b"abcdefZ".to_vec());
    assert_eq!(OverwriteDocument::replace_range_in_buffer(&buffer, b"123".to_vec(), (1, 3)), b"a123def".to_vec());
    assert_eq!(OverwriteDocument::replace_range_in_buffer(&buffer, Vec::new(), (0, 6)), Vec::<u8>::new());
}

#[test]
fn shifts_only_objects_after_the_change() {
    let mut xref = Xref::new(5, XrefType::CrossReferenceTable);
    xref.insert(1, XrefEntry::Normal { offset: 15, generation: 0 });
    xref.insert(2, XrefEntry::Normal { offset: 40, generation: 1 });
    xref.insert(3, XrefEntry::Normal { offset: 90, generation: 0 });
    xref.insert(4, XrefEntry::Compressed { container: 3, index: 0 });
    OverwriteDocument::shift_offsets(&mut xref, 40, -7);
    assert_eq!(xref.get(1), Some(XrefEntry::Normal { offset: 15, generation: 0 }));
    assert_eq!(xref.get(2), Some(XrefEntry::Normal { offset: 40, generation: 1 }));
    assert_eq!(xref.get(3), Some(XrefEntry::Normal { offset: 83, generation: 0 }));
    assert_eq!(xref.get(4), Some(XrefEntry::Compressed { container: 3, index: 0 }));
    assert_eq!(xref.size, 5);
}

#[test]
fn finds_object_offsets() {
    let doc = OverwriteDocument::new(table_file(), table_document());
    assert_eq!(doc.get_object_offset((1, 0)), Ok(15));
    assert_eq!(doc.get_object_offset((1, 3)), Err(Error::NotNormalObject));
    let mut d = table_document();
    d.reference_table.insert(2, XrefEntry::Free);
    let doc = OverwriteDocument::new(table_file(), d);
    assert_eq!(doc.get_object_offset((2, 0)), Err(Error::NotNormalObject));
}

#[test]
fn remembers_encryption_and_password() {
    let doc = OverwriteDocument::new(table_file(), table_document());
    assert!(!doc.is_encrypted);
    assert_eq!(doc.password, None);
    let mut d = table_document();
    d.trailer.set(b"Encrypt".to_vec(), Object::Reference((7, 0)));
    let mut doc = OverwriteDocument::new(table_file(), d);
    assert!(doc.is_encrypted);
    doc.set_password("secret".to_string());
    assert_eq!(doc.password, Some("secret".to_string()));
    assert_eq!(doc.bytes_documents, table_file());
}

#[test]
fn picks_the_offset_before_the_last() {
    let mut xref = Xref::new(6, XrefType::CrossReferenceStream);
    xref.insert(1, XrefEntry::Normal { offset: 300, generation: 0 });
    xref.insert(2, XrefEntry::Normal { offset: 15, generation: 0 });
    xref.insert(3, XrefEntry::Compressed { container: 9, index: 0 });
    xref.insert(4, XrefEntry::Normal { offset: 120, generation: 0 });
    xref.insert(5, XrefEntry::Free);
    assert_eq!(OverwriteDocument::last_object_offset(&xref), 120);
    let mut same = Xref::new(3, XrefType::CrossReferenceStream);
    same.insert(1, XrefEntry::Normal { offset: 50, generation: 0 });
    same.insert(2, XrefEntry::Normal { offset: 50, generation: 0 });
    assert_eq!(OverwriteDocument::last_object_offset(&same), 50);
}

#[test]
fn rewrites_the_startxref_number() {
    let mut b = b"xx\nstartxref\n1234\n%%EOF".to_vec();
    Writer::update_xref_offset(&mut b, 56).unwrap();
    assert_eq!(text(&b), "xx\nstartxref\n56  \n%%EOF");
    let mut b = b"startxref\n9\n%%EOF".to_vec();
    Writer::update_xref_offset(&mut b, 1000).unwrap();
    assert_eq!(text(&b), "startxref\n1000\n%%EOF");
    let mut b = b"startxref\n9\n".to_vec();
    assert_eq!(Writer::update_xref_offset(&mut b, 1), Err(Error::MissingEof));
    assert_eq!(b, b"startxref\n9\n".to_vec());
    let mut b = b"trailer\n%%EOF".to_vec();
    assert_eq!(Writer::update_xref_offset(&mut b, 1), Err(Error::MissingStartxref));
    let mut b = b"startxref\n\n%%EOF".to_vec();
    assert_eq!(Writer::update_xref_offset(&mut b, 1), Err(Error::InvalidStartxref));
}

#[test]
fn updates_an_object_of_a_table_file() {
    let bytes = table_file();
    let section = table_section(&bytes);
    let doc = OverwriteDocument::new(bytes, table_document());
    let out = doc.update_object((1, 0), &Object::Integer(7), 19, section).unwrap();
    let mut expected = HEADER.to_vec();
    expected.extend_from_slice(b"1 0 obj\n 7 \nendobj\n\n");
    expected.extend_from_slice(
        b"2 0 obj\n<</Size 3 /Type /XRef /W[1 4 2]/Index[1 2]/Length 14 >>\nstream\n",
    );
    expected.extend_from_slice(&[1, 0, 0, 0, 15, 0, 0, 1, 0, 0, 0, 35, 0, 0]);
    expected.extend_from_slice(b"\nendstream\nendobj\n\nstartxref\n35\n%%EOF");
    assert_eq!(text(&out), text(&expected));
    assert_eq!(out, expected);
    assert_eq!(&out[35..42], b"2 0 obj");
}

#[test]
fn refuses_to_update_an_object_it_cannot_find() {
    let bytes = table_file();
    let section = table_section(&bytes);
    let doc = OverwriteDocument::new(bytes, table_document());
    assert_eq!(
        doc.update_object((1, 2), &Object::Integer(7), 19, section),
        Err(Error::NotNormalObject)
    );
}

#[test]
fn reports_a_file_without_eof() {
    let mut bytes = table_file();
    bytes.truncate(bytes.len() - 5);
    let section = table_section(&bytes);
    let doc = OverwriteDocument::new(bytes, table_document());
    assert_eq!(
        doc.update_object((1, 0), &Object::Integer(7), 19, section),
        Err(Error::MissingEof)
    );
}

#[test]
fn appends_an_object_to_a_stream_file() {
    let bytes = stream_file();
    let mut d = table_document();
    d.max_id = 2;
    let mut doc = OverwriteDocument::new(bytes.clone(), d);
    let (id, out) = doc.append_object(&Object::Integer(9), stream_section(), 19).unwrap();
    assert_eq!(id, (3, 0));
    assert_eq!(doc.document.max_id, 3);
    assert_eq!(doc.bytes_documents, bytes);
    let mut expected = HEADER.to_vec();
    expected.extend_from_slice(b"1 0 obj\n 5 \nendobj\n");
    expected.extend_from_slice(b"3 0 obj\n 9 \nendobj\n");
    expected.extend_from_slice(&stream_object());
    expected.extend_from_slice(b"\nstartxref\n53\n%%EOF");
    assert_eq!(text(&out), text(&expected));
    assert_eq!(out, expected);
}

#[test]
fn installs_the_new_bytes() {
    let mut doc = OverwriteDocument::new(table_file(), table_document());
    let mut d = table_document();
    d.max_id = 4;
    doc.verify_buffer(b"new".to_vec(), d);
    assert_eq!(doc.bytes_documents, b"new".to_vec());
    assert_eq!(doc.document.max_id, 4);
}

#[test]
fn refuses_an_append_past_the_end() {
    let bytes = stream_file();
    let mut d = table_document();
    d.max_id = 2;
    let mut doc = OverwriteDocument::new(bytes, d);
    assert_eq!(
        doc.append_object(&Object::Integer(9), stream_section(), 10_000),
        Err(Error::OutsideBuffer)
    );
    // the id is taken all the same
    assert_eq!(doc.document.max_id, 3);
}

#[test]
fn updates_an_object_that_runs_into_the_section() {
    // the length read for the object reaches past the start of the section:
    // the bytes are rewritten all the same, as the section was read
    let bytes = table_file();
    let section = table_section(&bytes);
    let doc = OverwriteDocument::new(bytes, table_document());
    let out = doc.update_object((1, 0), &Object::Integer(7), 40, section).unwrap();
    let mut start = HEADER.to_vec();
    start.extend_from_slice(b"1 0 obj\n 7 \nendobj\n");
    assert_eq!(&out[..start.len()], &start[..]);
    assert!(text(&out).ends_with("startxref\n14\n%%EOF"));
}
