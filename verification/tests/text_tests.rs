use lopdf::error::Error;
use lopdf::object::{Object, StringFormat};
use lopdf::text::{Operation, TextOperation};

fn op(operator: &str, operands: Vec<Object>) -> Operation {
    Operation { operator: operator.to_string(), operands }
}

fn integer(v: i64) -> Object {
    Object::Integer(v)
}

fn string(s: &str) -> Object {
    Object::String(s.as_bytes().to_vec(), StringFormat::Literal)
}

fn sample() -> Vec<Operation> {
    vec![
        op("BT", vec![]),
        op("Tf", vec![Object::Name(b"F1".to_vec()), integer(12)]),
        op("Tm", vec![integer(1), integer(0), integer(0), integer(1), integer(100), Object::Real(b"7.5".to_vec())]),
        op("Tj", vec![string("Hello")]),
        op("ET", vec![]),
        op("BT", vec![]),
        op("Td", vec![integer(5), integer(-3)]),
        op("TJ", vec![Object::Array(vec![string("a"), integer(-120), string("b")])]),
        op("ET", vec![]),
    ]
}

#[test]
fn finds_the_style_of_a_text_operator() {
    let ops = sample();
    let text = TextOperation::new(&ops);
    let style = text.get_style_at(3).unwrap();
    assert_eq!(style.text, b"Hello".to_vec());
    assert_eq!(style.tm, Some(2));
    assert_eq!(style.tf, Some(1));
    assert_eq!(style.td, None);
    assert_eq!(style.tl, None);
}

#[test]
fn stops_looking_back_at_the_text_object_start() {
    let ops = sample();
    let text = TextOperation::new(&ops);
    let style = text.get_style_at(7).unwrap();
    assert_eq!(style.text, b"ab".to_vec());
    assert_eq!(style.td, Some(6));
    assert_eq!(style.tm, None);
    assert_eq!(style.tf, None);
}

#[test]
fn keeps_the_nearest_setting() {
    let ops = vec![
        op("BT", vec![]),
        op("TL", vec![integer(14)]),
        op("Td", vec![integer(1), integer(2)]),
        op("TL", vec![integer(16)]),
        op("Td", vec![integer(3), integer(4)]),
        op("Tj", vec![string("x")]),
        op("ET", vec![]),
    ];
    let text = TextOperation::new(&ops);
    let style = text.get_style_at(5).unwrap();
    assert_eq!(style.tl, Some(3));
    assert_eq!(style.td, Some(4));
}

#[test]
fn refuses_operators_that_show_no_text() {
    let ops = sample();
    let text = TextOperation::new(&ops);
    assert!(matches!(text.get_style_at(1), Err(Error::NotTextOperation)));
    assert!(matches!(text.get_style_at(0), Err(Error::NotTextOperation)));
}

#[test]
fn refuses_a_position_that_is_not_a_number() {
    let ops = vec![
        op("BT", vec![]),
        op("Td", vec![Object::Name(b"x".to_vec()), integer(2)]),
        op("Tj", vec![string("x")]),
        op("ET", vec![]),
    ];
    let text = TextOperation::new(&ops);
    assert!(matches!(text.get_style_at(2), Err(Error::NotANumber)));
}

#[test]
fn finds_the_next_text_object() {
    let ops = sample();
    let text = TextOperation::new(&ops);
    let (index, style) = text.get_next_style_after(0).unwrap();
    assert_eq!(index, 7);
    assert_eq!(style.text, b"ab".to_vec());
    assert_eq!(style.td, Some(6));
    // after the second `ET` there is nothing left
    assert!(text.get_next_style_after(5).is_none());
    assert!(text.get_next_style_after(9).is_none());
}

#[test]
fn stops_at_a_second_text_object_end() {
    let ops = vec![
        op("BT", vec![]),
        op("ET", vec![]),
        op("BT", vec![]),
        op("ET", vec![]),
        op("Tj", vec![string("late")]),
    ];
    let text = TextOperation::new(&ops);
    assert!(text.get_next_style_after(0).is_none());
    let (index, style) = text.get_next_style_after(2).unwrap();
    assert_eq!(index, 4);
    assert_eq!(style.text, b"late".to_vec());
}

#[test]
fn recognises_text_operators() {
    assert!(TextOperation::is_text_operation(&op("Tj", vec![])));
    assert!(TextOperation::is_text_operation(&op("TJ", vec![])));
    assert!(!TextOperation::is_text_operation(&op("Tf", vec![])));
}

#[test]
fn checks_text_object_bounds() {
    let mut first = sample();
    first.truncate(5);
    assert_eq!(TextOperation::validate_operators(&first), Ok(()));
    let mut open = sample();
    open.truncate(4);
    assert_eq!(TextOperation::validate_operators(&open), Err(Error::TextObjectBounds));
    first.remove(0);
    assert_eq!(TextOperation::validate_operators(&first), Err(Error::TextObjectBounds));
    assert_eq!(TextOperation::validate_operators(&vec![op("BT", vec![])]), Err(Error::TextObjectBounds));
}

#[test]
fn tells_when_a_style_can_be_read() {
    let ops = sample();
    let text = TextOperation::new(&ops);
    assert!(text.style_readable_at(3));
    assert!(text.style_readable_at(1));
    assert!(!text.style_readable_at(9));
    let broken = vec![
        op("BT", vec![]),
        op("Tm", vec![integer(1), integer(0), integer(0), integer(1), integer(3)]),
        op("Tj", vec![string("x")]),
        op("ET", vec![]),
    ];
    assert!(!TextOperation::new(&broken).style_readable_at(2));
    let no_size = vec![op("Tf", vec![Object::Name(b"F1".to_vec())]), op("Tj", vec![string("x")])];
    assert!(!TextOperation::new(&no_size).style_readable_at(1));
    let not_a_string = vec![op("Tj", vec![integer(4)])];
    assert!(!TextOperation::new(&not_a_string).style_readable_at(0));
    // an operand that is not a number is an error, not a missing operand
    let named = vec![op("TL", vec![Object::Name(b"x".to_vec())]), op("Tj", vec![string("x")])];
    assert!(TextOperation::new(&named).style_readable_at(1));
}

#[test]
fn finds_the_next_text_operator() {
    let ops = sample();
    let text = TextOperation::new(&ops);
    assert_eq!(text.next_text_index_after(0), Some(7));
    assert_eq!(text.next_text_index_after(4), Some(7));
    assert_eq!(text.next_text_index_after(5), None);
    assert_eq!(text.next_text_index_after(100), None);
}
