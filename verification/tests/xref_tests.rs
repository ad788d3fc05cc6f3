use lopdf::object::Object;
use lopdf::writer::Writer;
use lopdf::xref::{Xref, XrefEntry, XrefType};
use lopdf::xref_writer::XRefStreamFilter;

fn sample() -> Xref {
    let mut x = Xref::new(4, XrefType::CrossReferenceTable);
    x.insert(3, XrefEntry::Free);
    x.insert(1, XrefEntry::Normal { offset: 15, generation: 0 });
    x
}

#[test]
fn keeps_entries_by_number() {
    let mut x = sample();
    assert_eq!(x.get(1), Some(XrefEntry::Normal { offset: 15, generation: 0 }));
    assert_eq!(x.get(2), None);
    assert_eq!(x.get(3), Some(XrefEntry::Free));
    x.insert(3, XrefEntry::UnusableFree);
    assert_eq!(x.get(3), Some(XrefEntry::UnusableFree));
    assert_eq!(x.entries.len(), 2);
    assert_eq!(x.max_key(), Some(3));
    assert_eq!(Xref::new(0, XrefType::CrossReferenceTable).max_key(), None);
}

#[test]
fn writes_table_subsections() {
    let mut out = Vec::new();
    Writer::write_xref(&mut out, &sample());
    let expected = "xref\n0 2\n0000000000 65535 f \n0000000015 00000 n \n3 1\n0000000000 00000 f \n";
    assert_eq!(String::from_utf8(out).unwrap(), expected);
}

#[test]
fn writes_an_empty_table() {
    let mut out = Vec::new();
    Writer::write_xref(&mut out, &Xref::new(0, XrefType::CrossReferenceTable));
    assert_eq!(String::from_utf8(out).unwrap(), "xref\n0 1\n0000000000 65535 f \n");
}

#[test]
fn builds_stream_rows_and_index() {
    let (rows, len, index) = Writer::create_xref_stream(&sample(), XRefStreamFilter::NoFilter);
    assert_eq!(rows, vec![1, 0, 0, 0, 15, 0, 0, 0, 0, 0, 0, 3, 0, 0]);
    assert_eq!(len, 14);
    match index {
        Object::Array(items) => {
            let values: Vec<i64> = items
                .iter()
                .map(|o| match o {
                    Object::Integer(v) => *v,
                    _ => panic!("not an integer"),
                })
                .collect();
            assert_eq!(values, vec![1, 1, 3, 1]);
        }
        _ => panic!("not an array"),
    }
}

#[test]
fn builds_hex_stream_rows() {
    let mut x = Xref::new(1, XrefType::CrossReferenceStream);
    x.insert(1, XrefEntry::Compressed { container: 0x01020304, index: 0x0506 });
    let (rows, len, _) = Writer::create_xref_stream(&x, XRefStreamFilter::ASCIIHexDecode);
    assert_eq!(String::from_utf8(rows).unwrap(), "0201020304" .to_string() + "0506");
    assert_eq!(len, 7);
    let mut y = Xref::new(1, XrefType::CrossReferenceStream);
    y.insert(1, XrefEntry::UnusableFree);
    let (rows, _, _) = Writer::create_xref_stream(&y, XRefStreamFilter::NoFilter);
    assert_eq!(rows, vec![0, 0, 0, 0, 1, 255, 255]);
}
