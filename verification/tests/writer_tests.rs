use std::io::Write;

use lopdf::document::Document;
use lopdf::error::Error;
use lopdf::object::{Dictionary, Object, Stream, StringFormat};
use lopdf::writer::Writer;

fn written(object: &Object) -> Vec<u8> {
    let mut out = Vec::new();
    Writer::write_object(&mut out, object);
    out
}

fn text(bytes: &[u8]) -> String {
    String::from_utf8(bytes.to_vec()).unwrap()
}

#[test]
fn save_document() {
    let mut doc = Document::with_version("1.5");
    doc.objects.push(((1, 0), Object::Null));
    doc.objects.push(((2, 0), Object::Boolean(true)));
    doc.objects.push(((3, 0), Object::Integer(3)));
    doc.objects.push(((4, 0), Object::Real(b"0.5".to_vec())));
    doc.objects.push((
        (5, 0),
        Object::String("text((\r)".as_bytes().to_vec(), StringFormat::Literal),
    ));
    doc.objects.push((
        (6, 0),
        Object::String("text((\r)".as_bytes().to_vec(), StringFormat::Hexadecimal),
    ));
    doc.objects.push(((7, 0), Object::Name(b"name \t".to_vec())));
    doc.objects.push(((8, 0), Object::Reference((1, 0))));
    doc.objects.push((
        (9, 2),
        Object::Array(vec![Object::Integer(1), Object::Integer(2), Object::Integer(3)]),
    ));
    doc.objects.push((
        (11, 0),
        Object::Stream(Stream {
            dict: Dictionary::new(),
            allows_compression: true,
            content: vec![0x41, 0x42, 0x43],
            start_position: None,
        }),
    ));
    let mut dict = Dictionary::new();
    dict.set(b"A".to_vec(), Object::Null);
    dict.set(b"B".to_vec(), Object::Boolean(false));
    dict.set(b"C".to_vec(), Object::Name(b"name".to_vec()));
    doc.objects.push(((12, 0), Object::Dictionary(dict)));
    doc.max_id = 12;

    // Create temporary folder to store file.
    let temp_dir = tempfile::tempdir().unwrap();
    let mut file = tempfile::Builder::new()
        .prefix("test_0_save")
        .suffix(".pdf")
        .tempfile_in(temp_dir.path())
        .unwrap();
    let mut bytes = Vec::new();
    doc.save_to(&mut bytes).unwrap();
    file.write_all(&bytes).unwrap();
    file.flush().unwrap();
    let file_path = file.path().to_path_buf();
    // Check if file was created.
    assert!(file_path.exists());
    // Check if path is file
    assert!(file_path.is_file());
    // Check if the file is above 400 bytes (should be about 610 bytes)
    assert!(file_path.metadata().unwrap().len() > 400);
}

#[test]
fn writes_simple_objects() {
    assert_eq!(written(&Object::Null), b"null");
    assert_eq!(written(&Object::Boolean(true)), b"true");
    assert_eq!(written(&Object::Boolean(false)), b"false");
    assert_eq!(written(&Object::Integer(-42)), b"-42");
    assert_eq!(written(&Object::Integer(i64::MIN)), b"-9223372036854775808");
    assert_eq!(written(&Object::Real(b"0.5".to_vec())), b"0.5");
    assert_eq!(written(&Object::Reference((12, 3))), b"12 3 R");
}

#[test]
fn escapes_names() {
    assert_eq!(written(&Object::Name(b"name \t".to_vec())), b"/name#20#09");
    assert_eq!(written(&Object::Name(b"a#b/c".to_vec())), b"/a#23b#2Fc");
    assert_eq!(written(&Object::Name(vec![0xE9, b'x'])), b"/#E9x");
}

#[test]
fn escapes_literal_strings() {
    let s = Object::String(b"text((\r)".to_vec(), StringFormat::Literal);
    assert_eq!(text(&written(&s)), "(text\\((\\r))");
    let balanced = Object::String(b"a(b)c".to_vec(), StringFormat::Literal);
    assert_eq!(text(&written(&balanced)), "(a(b)c)");
    let closing = Object::String(b")(".to_vec(), StringFormat::Literal);
    assert_eq!(text(&written(&closing)), "(\\)\\()");
    let backslash = Object::String(b"a\\b".to_vec(), StringFormat::Literal);
    assert_eq!(text(&written(&backslash)), "(a\\\\b)");
}

#[test]
fn writes_hex_strings() {
    let s = Object::String(b"text((\r)".to_vec(), StringFormat::Hexadecimal);
    assert_eq!(text(&written(&s)), "<7465787428280D29>");
    let empty = Object::String(Vec::new(), StringFormat::Hexadecimal);
    assert_eq!(text(&written(&empty)), "<>");
}

#[test]
fn writes_arrays_and_dictionaries() {
    let a = Object::Array(vec![
        Object::Integer(1),
        Object::Name(b"N".to_vec()),
        Object::Array(vec![]),
        Object::Integer(2),
    ]);
    assert_eq!(text(&written(&a)), "[1 /N[] 2]");
    let mut d = Dictionary::new();
    d.set(b"Type".to_vec(), Object::Name(b"Page".to_vec()));
    d.set(b"Kids".to_vec(), Object::Array(vec![Object::Reference((3, 0))]));
    d.set(b"Count".to_vec(), Object::Integer(1));
    assert_eq!(text(&written(&Object::Dictionary(d))), "<</Type /Page /Kids[3 0 R]/Count 1 >>");
}

#[test]
fn writes_streams() {
    let mut dict = Dictionary::new();
    dict.set(b"Length".to_vec(), Object::Integer(3));
    let s = Object::Stream(Stream {
        dict,
        allows_compression: false,
        content: b"ABC".to_vec(),
        start_position: None,
    });
    assert_eq!(text(&written(&s)), "<</Length 3 >>\nstream\nABC\nendstream");
    let mut out = Vec::new();
    Writer::write_stream_content(&mut out, b"xyz");
    assert_eq!(text(&out), "\nstream\nxyz\nendstream");
}

#[test]
fn writes_indirect_objects() {
    let mut out = Vec::new();
    Writer::_write_indirect_object(&mut out, 7, 1, &Object::Integer(5));
    assert_eq!(text(&out), "7 1 obj\n 5 \nendobj\n");
    let bytes = Object::Array(vec![]).as_bytes((2, 0));
    assert_eq!(text(&bytes), "2 0 obj\n[]\nendobj\n");
}

#[test]
fn binary_mark_must_be_high_bytes() {
    let mut out = Vec::new();
    assert_eq!(Writer::write_binary_mark(&mut out, &[0xBB, 0xAD, 0xC0, 0xDE]), Ok(()));
    assert_eq!(out, vec![b'%', 0xBB, 0xAD, 0xC0, 0xDE, b'\n']);
    let mut out2 = Vec::new();
    assert_eq!(Writer::write_binary_mark(&mut out2, &[0xBB, 0x41]), Err(Error::InvalidBinaryMark));
    assert!(out2.is_empty());
}

#[test]
fn separators() {
    assert!(Writer::need_separator(&Object::Integer(1)));
    assert!(Writer::need_separator(&Object::Name(vec![])));
    assert!(!Writer::need_separator(&Object::Array(vec![])));
    assert!(Writer::need_end_separator(&Object::Reference((1, 0))));
    assert!(!Writer::need_end_separator(&Object::String(vec![], StringFormat::Literal)));
}
