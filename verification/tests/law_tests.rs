use lopdf::document::{Document, IncrementalDocument};
use lopdf::object::{Dictionary, Object, StringFormat};
use lopdf::writer::Writer;
use lopdf::xref::{Xref, XrefEntry, XrefType};
use lopdf::xref_writer::XRefStreamFilter;

fn written(object: &Object) -> Vec<u8> {
    let mut out = Vec::new();
    Writer::write_object(&mut out, object);
    out
}

/// Undoes the backslash escapes of the body of a literal string.
fn literal_unescape(body: &[u8]) -> Vec<u8> {
    let mut out = Vec::new();
    let mut i = 0;
    while i < body.len() {
        if body[i] == b'\\' && i + 1 < body.len() {
            out.push(if body[i + 1] == b'r' { b'\r' } else { body[i + 1] });
            i += 2;
        } else {
            out.push(body[i]);
            i += 1;
        }
    }
    out
}

/// Whether the unescaped parentheses of a literal string body balance.
fn parens_balance(body: &[u8]) -> bool {
    let mut depth: i64 = 0;
    let mut i = 0;
    while i < body.len() {
        if body[i] == b'\\' && i + 1 < body.len() {
            i += 2;
            continue;
        }
        if body[i] == b'(' {
            depth += 1;
        } else if body[i] == b')' {
            depth -= 1;
            if depth < 0 {
                return false;
            }
        }
        i += 1;
    }
    depth == 0
}

fn hex_value(b: u8) -> u8 {
    match b {
        b'0'..=b'9' => b - b'0',
        _ => b - b'A' + 10,
    }
}

/// Undoes the `#` escapes of a name.
fn name_unescape(body: &[u8]) -> Vec<u8> {
    let mut out = Vec::new();
    let mut i = 0;
    while i < body.len() {
        if body[i] == b'#' && i + 2 < body.len() {
            out.push(hex_value(body[i + 1]) * 16 + hex_value(body[i + 2]));
            i += 3;
        } else {
            out.push(body[i]);
            i += 1;
        }
    }
    out
}

const SAMPLES: [&[u8]; 9] = [
    b"",
    b"plain",
    b"a(b)c",
    b")(",
    b"((x",
    b"x))",
    b"back\\slash\r",
    b"(()))((",
    b"\\)\\(",
];

#[test]
fn literal_strings_read_back() {
    for sample in SAMPLES.iter() {
        let out = written(&Object::String(sample.to_vec(), StringFormat::Literal));
        assert_eq!(out[0], b'(');
        assert_eq!(out[out.len() - 1], b')');
        let body = &out[1..out.len() - 1];
        assert_eq!(literal_unescape(body), sample.to_vec());
        assert!(parens_balance(body), "{:?}", String::from_utf8_lossy(body));
    }
}

#[test]
fn names_read_back() {
    let names: [&[u8]; 5] = [b"", b"Type", b"a b#c/d", b"\x00\xff(", b"##"];
    for name in names.iter() {
        let out = written(&Object::Name(name.to_vec()));
        assert_eq!(out[0], b'/');
        assert_eq!(name_unescape(&out[1..]), name.to_vec());
        assert!(out[1..].iter().all(|b| (33..=126).contains(b)));
    }
}

fn numbered_document() -> Document {
    let mut doc = Document::new();
    doc.objects.push(((1, 0), Object::Integer(5)));
    doc.objects.push(((2, 0), Object::String(b"two".to_vec(), StringFormat::Literal)));
    doc.objects.push(((4, 1), Object::Array(vec![Object::Reference((1, 0))])));
    doc.max_id = 4;
    doc
}

/// The offsets that the cross-reference table of a saved file records, by
/// object number.
fn table_offsets(out: &[u8]) -> Vec<(u32, usize, u32)> {
    let s = String::from_utf8_lossy(out).into_owned();
    let start = s.rfind("\nxref\n").unwrap() + 6;
    let end = s.rfind("trailer").unwrap();
    let mut result = Vec::new();
    let mut number = 0u32;
    for line in s[start..end].lines() {
        let parts: Vec<&str> = line.split_whitespace().collect();
        if parts.len() == 2 {
            number = parts[0].parse().unwrap();
            continue;
        }
        if parts[2] == "n" {
            result.push((number, parts[0].parse().unwrap(), parts[1].parse().unwrap()));
        }
        number += 1;
    }
    result
}

#[test]
fn table_offsets_point_at_their_objects() {
    let mut doc = numbered_document();
    let mut out = Vec::new();
    doc.save_to(&mut out).unwrap();
    let offsets = table_offsets(&out);
    assert_eq!(offsets.len(), 3);
    for (number, offset, generation) in offsets {
        let head = format!("{} {} obj\n", number, generation);
        assert_eq!(&out[offset..offset + head.len()], head.as_bytes());
    }
}

#[test]
fn startxref_points_at_the_section() {
    let mut doc = numbered_document();
    let mut out = Vec::new();
    doc.save_to(&mut out).unwrap();
    let s = String::from_utf8_lossy(&out).into_owned();
    let at = s.rfind("startxref\n").unwrap() + 10;
    let number: usize = s[at..s.len() - 6].trim().parse().unwrap();
    assert_eq!(&out[number..number + 5], b"xref\n");

    let mut doc = numbered_document();
    doc.reference_table.cross_reference_type = XrefType::CrossReferenceStream;
    let mut out = Vec::new();
    doc.save_to(&mut out).unwrap();
    let s = String::from_utf8_lossy(&out).into_owned();
    let at = s.rfind("startxref\n").unwrap() + 10;
    let number: usize = s[at..s.len() - 6].trim().parse().unwrap();
    assert_eq!(&out[number..number + 8], b"5 0 obj\n");
}

#[test]
fn incremental_offsets_count_the_earlier_bytes() {
    let mut inc = IncrementalDocument {
        bytes_documents: vec![b'%'; 100],
        prev_documents: numbered_document(),
        new_document: numbered_document(),
    };
    let mut out = Vec::new();
    inc.save_to(&mut out).unwrap();
    for (number, offset, generation) in table_offsets(&out) {
        let head = format!("{} {} obj\n", number, generation);
        assert_eq!(&out[offset..offset + head.len()], head.as_bytes());
    }
}

#[test]
fn stream_index_covers_the_rows() {
    let mut x = Xref::new(9, XrefType::CrossReferenceStream);
    for id in [1u32, 2, 3, 5, 8] {
        x.insert(id, XrefEntry::Normal { offset: id * 10, generation: 0 });
    }
    let (rows, len, index) = Writer::create_xref_stream(&x, XRefStreamFilter::NoFilter);
    assert_eq!(rows.len(), len);
    let counts: Vec<i64> = match index {
        Object::Array(items) => items
            .iter()
            .map(|o| match o {
                Object::Integer(v) => *v,
                _ => panic!("not an integer"),
            })
            .collect(),
        _ => panic!("not an array"),
    };
    assert_eq!(counts, vec![1, 3, 5, 1, 8, 1]);
    let total: i64 = counts.iter().skip(1).step_by(2).sum();
    assert_eq!(total as usize * 7, rows.len());
}

#[test]
fn dictionary_set_then_get() {
    let mut d = Dictionary::new();
    d.set(b"A".to_vec(), Object::Integer(1));
    d.set(b"B".to_vec(), Object::Integer(2));
    d.set(b"A".to_vec(), Object::Integer(3));
    assert!(matches!(d.get(b"A"), Some(Object::Integer(3))));
    assert!(matches!(d.get(b"B"), Some(Object::Integer(2))));
    assert!(d.get(b"C").is_none());
    assert_eq!(d.0.len(), 2);
    assert_eq!(d.0[0].0, b"A".to_vec());
}

#[test]
fn dictionary_remove() {
    let mut d = Dictionary::new();
    d.set(b"A".to_vec(), Object::Integer(1));
    d.set(b"B".to_vec(), Object::Integer(2));
    d.set(b"C".to_vec(), Object::Integer(3));
    assert!(matches!(d.remove(b"B"), Some(Object::Integer(2))));
    assert!(!d.has(b"B"));
    assert!(d.remove(b"B").is_none());
    assert_eq!(d.0.len(), 2);
    assert_eq!(d.0[0].0, b"A".to_vec());
    assert_eq!(d.0[1].0, b"C".to_vec());
}

#[test]
fn declared_type_of_a_dictionary() {
    let mut d = Dictionary::new();
    assert!(d.declared_type().is_none());
    d.set(b"Type".to_vec(), Object::Name(b"Page".to_vec()));
    assert_eq!(d.declared_type(), Some(&b"Page"[..]));
    let mut lin = Dictionary::new();
    lin.set(b"Linearized".to_vec(), Object::Integer(1));
    assert_eq!(lin.declared_type(), Some(&b"Linearized"[..]));
}
