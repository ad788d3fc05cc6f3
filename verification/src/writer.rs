use vstd::prelude::*;

use crate::decimal::{dec_digits, dec_int, itoa_format, push_decimal};
use crate::error::Error;
use crate::xref::{Xref, XrefEntry};
use crate::object::{
    spec_need_end_separator, spec_need_separator, Dictionary, Object, ObjectId, Stream,
    StringFormat,
};

verus! {

// ---------------------------------------------------------------------------
// Byte-level vocabulary (ASCII codes written out, as Verus has no byte
// literals in specifications).
// ---------------------------------------------------------------------------
/// `null`
pub open spec fn kw_null() -> Seq<u8> {
    seq![110u8, 117u8, 108u8, 108u8]
}

/// `true`
pub open spec fn kw_true() -> Seq<u8> {
    seq![116u8, 114u8, 117u8, 101u8]
}

/// `false`
pub open spec fn kw_false() -> Seq<u8> {
    seq![102u8, 97u8, 108u8, 115u8, 101u8]
}

/// `\nstream\n`
pub open spec fn kw_stream_start() -> Seq<u8> {
    seq![10u8, 115u8, 116u8, 114u8, 101u8, 97u8, 109u8, 10u8]
}

/// `\nendstream`
pub open spec fn kw_stream_end() -> Seq<u8> {
    seq![10u8, 101u8, 110u8, 100u8, 115u8, 116u8, 114u8, 101u8, 97u8, 109u8]
}

/// ` obj\n`
pub open spec fn kw_obj() -> Seq<u8> {
    seq![32u8, 111u8, 98u8, 106u8, 10u8]
}

/// `\nendobj\n`
pub open spec fn kw_endobj() -> Seq<u8> {
    seq![10u8, 101u8, 110u8, 100u8, 111u8, 98u8, 106u8, 10u8]
}

/// ` R`
pub open spec fn kw_ref() -> Seq<u8> {
    seq![32u8, 82u8]
}

/// A single space when `b` holds.
pub open spec fn space_if(b: bool) -> Seq<u8> {
    if b {
        seq![32u8]
    } else {
        Seq::empty()
    }
}

/// An upper-case hexadecimal digit.
pub open spec fn hex_digit(d: u8) -> u8 {
    if d < 10 {
        (48 + d) as u8
    } else {
        (55 + d) as u8
    }
}

/// A byte as two upper-case hexadecimal digits (`{:02X}`).
pub open spec fn hex2(b: u8) -> Seq<u8> {
    seq![hex_digit(b / 16), hex_digit(b % 16)]
}

// ---------------------------------------------------------------------------
// Names
// ---------------------------------------------------------------------------
/// The bytes that a name cannot hold as they are: white-space, delimiters,
/// `#`, and everything outside `!`..=`~`.
pub open spec fn name_needs_escape(b: u8) -> bool {
    b == 32 || b == 9 || b == 10 || b == 13 || b == 12 || b == 40 || b == 41 || b == 60 || b
        == 62 || b == 91 || b == 93 || b == 123 || b == 125 || b == 47 || b == 37 || b == 35
        || b < 33 || b > 126
}

/// One byte of a name as written: as it is, or as `#` and two hex digits.
pub open spec fn name_byte(b: u8) -> Seq<u8> {
    if name_needs_escape(b) {
        seq![35u8] + hex2(b)
    } else {
        seq![b]
    }
}

pub open spec fn name_body(n: Seq<u8>) -> Seq<u8>
    decreases n.len(),
{
    if n.len() == 0 {
        Seq::empty()
    } else {
        name_body(n.drop_last()) + name_byte(n.last())
    }
}

/// A name as written: `/` and its escaped bytes.
pub open spec fn name_bytes(n: Seq<u8>) -> Seq<u8> {
    seq![47u8] + name_body(n)
}

// ---------------------------------------------------------------------------
// Strings
// ---------------------------------------------------------------------------
/// The nesting depth of parentheses after one more byte; a `)` with nothing
/// open leaves it at zero.
pub open spec fn paren_step(b: u8, d: nat) -> nat {
    if b == 40 {
        d + 1
    } else if b == 41 {
        if d > 0 {
            (d - 1) as nat
        } else {
            0
        }
    } else {
        d
    }
}

/// The number of `(` still open after the first `k` bytes.
pub open spec fn paren_depth(t: Seq<u8>, k: int) -> nat
    decreases k,
{
    if k <= 0 {
        0
    } else {
        paren_step(t[k - 1], paren_depth(t, k - 1))
    }
}

/// A `)` that closes nothing.
pub open spec fn unbalanced_close(t: Seq<u8>, i: int) -> bool {
    t[i] == 41 && paren_depth(t, i) == 0
}

/// A `(` that nothing after it closes.
pub open spec fn unbalanced_open(t: Seq<u8>, i: int) -> bool {
    t[i] == 40 && forall|k: int| i < k <= t.len() ==> paren_depth(t, k) > paren_depth(t, i)
}

/// The bytes of a literal string that get a backslash: `\`, carriage
/// return, and parentheses without a partner.
pub open spec fn literal_escaped(t: Seq<u8>, i: int) -> bool {
    t[i] == 92 || t[i] == 13 || unbalanced_close(t, i) || unbalanced_open(t, i)
}

/// One byte of a literal string as written; an escaped carriage return is
/// written `\r`.
pub open spec fn literal_piece(t: Seq<u8>, i: int) -> Seq<u8> {
    if literal_escaped(t, i) {
        seq![92u8, if t[i] == 13 { 114u8 } else { t[i] }]
    } else {
        seq![t[i]]
    }
}

/// The first `n` bytes of a literal string as written.
pub open spec fn literal_body(t: Seq<u8>, n: int) -> Seq<u8>
    decreases n,
{
    if n <= 0 {
        Seq::empty()
    } else {
        literal_body(t, n - 1) + literal_piece(t, n - 1)
    }
}

pub open spec fn hex_body(t: Seq<u8>) -> Seq<u8>
    decreases t.len(),
{
    if t.len() == 0 {
        Seq::empty()
    } else {
        hex_body(t.drop_last()) + hex2(t.last())
    }
}

/// A string object as written: `(..)` with escapes, or `<..>` in hex.
pub open spec fn string_bytes(t: Seq<u8>, f: StringFormat) -> Seq<u8> {
    match f {
        StringFormat::Literal => seq![40u8] + literal_body(t, t.len() as int) + seq![41u8],
        StringFormat::Hexadecimal => seq![60u8] + hex_body(t) + seq![62u8],
    }
}

// ---------------------------------------------------------------------------
// Objects
// ---------------------------------------------------------------------------
/// The bytes of an object as the writer writes it.
pub open spec fn object_bytes(o: Object) -> Seq<u8>
    decreases o,
{
    match o {
        Object::Null => kw_null(),
        Object::Boolean(b) => if b {
            kw_true()
        } else {
            kw_false()
        },
        Object::Integer(v) => dec_int(v as int),
        Object::Real(t) => t@,
        Object::Name(n) => name_bytes(n@),
        Object::String(t, f) => string_bytes(t@, f),
        Object::Array(a) => seq![91u8] + items_bytes(a@) + seq![93u8],
        Object::Dictionary(d) => seq![60u8, 60u8] + entries_bytes(d.0@) + seq![62u8, 62u8],
        Object::Stream(s) => seq![60u8, 60u8] + entries_bytes(s.dict.0@) + seq![62u8, 62u8]
            + kw_stream_start() + s.content@ + kw_stream_end(),
        Object::Reference(id) => dec_digits(id.0 as nat) + seq![32u8] + dec_digits(id.1 as nat)
            + kw_ref(),
    }
}

/// The items of an array as written: a space before every item but the
/// first that needs one.
pub open spec fn items_bytes(s: Seq<Object>) -> Seq<u8>
    decreases s,
{
    if s.len() == 0 {
        Seq::empty()
    } else {
        items_bytes(s.drop_last()) + space_if(s.len() > 1 && spec_need_separator(s.last()))
            + object_bytes(s.last())
    }
}

/// The entries of a dictionary as written: each key as a name, then its
/// value, with spaces where the value needs them.
pub open spec fn entries_bytes(s: Seq<(Vec<u8>, Object)>) -> Seq<u8>
    decreases s,
{
    if s.len() == 0 {
        Seq::empty()
    } else {
        entries_bytes(s.drop_last()) + name_bytes(s.last().0@) + space_if(
            spec_need_separator(s.last().1),
        ) + object_bytes(s.last().1) + space_if(spec_need_end_separator(s.last().1))
    }
}

/// A dictionary as written.
pub open spec fn dictionary_bytes(d: Dictionary) -> Seq<u8> {
    seq![60u8, 60u8] + entries_bytes(d.0@) + seq![62u8, 62u8]
}

/// An indirect object as written: `id gen obj`, the object, `endobj`.
pub open spec fn indirect_object_bytes(id: u32, generation: u16, o: Object) -> Seq<u8> {
    dec_digits(id as nat) + seq![32u8] + dec_digits(generation as nat) + kw_obj() + space_if(
        spec_need_separator(o),
    ) + object_bytes(o) + space_if(spec_need_end_separator(o)) + kw_endobj()
}


// ---------------------------------------------------------------------------
// The writer
// ---------------------------------------------------------------------------
/// Serializes PDF objects into bytes.
pub struct Writer;

/// Appends the two upper-case hex digits of a byte.
fn push_hex2(out: &mut Vec<u8>, b: u8)
    ensures
        final(out)@ == old(out)@ + hex2(b),
{
    let hi: u8 = b / 16;
    let lo: u8 = b % 16;
    out.push(if hi < 10 { 48 + hi } else { 55 + hi });
    out.push(if lo < 10 { 48 + lo } else { 55 + lo });
}

impl Writer {
    pub fn need_separator(object: &Object) -> (r: bool)
        ensures
            r == spec_need_separator(*object),
    {
        match object {
            Object::Null | Object::Boolean(_) | Object::Integer(_) | Object::Real(_)
            | Object::Reference(_) | Object::Name(_) => true,
            _ => false,
        }
    }

    pub fn need_end_separator(object: &Object) -> (r: bool)
        ensures
            r == spec_need_end_separator(*object),
    {
        match object {
            Object::Null | Object::Boolean(_) | Object::Integer(_) | Object::Real(_)
            | Object::Name(_) | Object::Reference(_) => true,
            _ => false,
        }
    }

    /// Writes a name: `/` and its bytes, each white-space or delimiter byte
    /// and each byte outside `!`..=`~` as `#` and two hex digits.
    pub fn write_name(file: &mut Vec<u8>, name: &[u8])
        ensures
            final(file)@ == old(file)@ + name_bytes(name@),
    {
        file.push(47u8);
        let n = name.len();
        let mut i: usize = 0;
        while i < n
            invariant
                n == name@.len(),
                i <= n,
                file@ == old(file)@ + seq![47u8] + name_body(name@.take(i as int)),
            decreases n - i,
        {
            let b = name[i];
            if b == 32 || b == 9 || b == 10 || b == 13 || b == 12 || b == 40 || b == 41 || b == 60
                || b == 62 || b == 91 || b == 93 || b == 123 || b == 125 || b == 47 || b == 37
                || b == 35 || b < 33 || b > 126 {
                file.push(35u8);
                push_hex2(file, b);
            } else {
                file.push(b);
            }
            assert(name@.take(i + 1).drop_last() =~= name@.take(i as int));
            i = i + 1;
        }
        assert(name@.take(n as int) =~= name@);
    }

    /// Writes a string object.
    ///
    /// A literal string is written in parentheses; a backslash goes before
    /// each `\`, each carriage return (written `\r`) and each parenthesis
    /// that has no partner. A hexadecimal string is written as `<`, two
    /// upper-case digits per byte, `>`.
    pub fn write_string(file: &mut Vec<u8>, text: &[u8], format: &StringFormat)
        ensures
            final(file)@ == old(file)@ + string_bytes(text@, *format),
    {
        match format {
            StringFormat::Literal => {
                let marks = Self::literal_escapes(text);
                file.push(40u8);
                let n = text.len();
                let mut i: usize = 0;
                while i < n
                    invariant
                        n == text@.len(),
                        i <= n,
                        marks@.len() == n,
                        forall|j: int| 0 <= j < n ==> marks@[j] == literal_escaped(text@, j),
                        file@ == old(file)@ + seq![40u8] + literal_body(text@, i as int),
                    decreases n - i,
                {
                    let b = text[i];
                    if marks[i] {
                        file.push(92u8);
                        file.push(if b == 13 { 114u8 } else { b });
                    } else {
                        file.push(b);
                    }
                    i = i + 1;
                }
                file.push(41u8);
            },
            StringFormat::Hexadecimal => {
                file.push(60u8);
                let n = text.len();
                let mut i: usize = 0;
                while i < n
                    invariant
                        n == text@.len(),
                        i <= n,
                        file@ == old(file)@ + seq![60u8] + hex_body(text@.take(i as int)),
                    decreases n - i,
                {
                    push_hex2(file, text[i]);
                    assert(text@.take(i + 1).drop_last() =~= text@.take(i as int));
                    i = i + 1;
                }
                assert(text@.take(n as int) =~= text@);
                file.push(62u8);
            },
        }
    }

    /// Which bytes of a literal string get a backslash.
    fn literal_escapes(text: &[u8]) -> (marks: Vec<bool>)
        ensures
            marks@.len() == text@.len(),
            forall|j: int| 0 <= j < text@.len() ==> marks@[j] == literal_escaped(text@, j),
    {
        let n = text.len();
        // depths[k]: parentheses open after the first k bytes
        let mut depths: Vec<usize> = Vec::new();
        depths.push(0);
        let mut k: usize = 0;
        while k < n
            invariant
                n == text@.len(),
                k <= n,
                depths@.len() == k + 1,
                forall|j: int| 0 <= j <= k ==> depths@[j] == paren_depth(text@, j),
                forall|j: int| 0 <= j <= k ==> depths@[j] <= j,
            decreases n - k,
        {
            let d = depths[k];
            let b = text[k];
            let nd: usize = if b == 40 {
                d + 1
            } else if b == 41 {
                if d > 0 {
                    d - 1
                } else {
                    0
                }
            } else {
                d
            };
            depths.push(nd);
            k = k + 1;
        }
        // bytes escaped whatever follows them
        let mut marks: Vec<bool> = Vec::new();
        let mut i: usize = 0;
        while i < n
            invariant
                n == text@.len(),
                i <= n,
                depths@.len() == n + 1,
                forall|j: int| 0 <= j <= n ==> depths@[j] == paren_depth(text@, j),
                marks@.len() == i,
                forall|j: int|
                    0 <= j < i ==> marks@[j] == (text@[j] == 92 || text@[j] == 13
                        || unbalanced_close(text@, j)),
            decreases n - i,
        {
            let b = text[i];
            marks.push(b == 92 || b == 13 || (b == 41 && depths[i] == 0));
            i = i + 1;
        }
        // an opening parenthesis is unbalanced when the depth never falls
        // back to its level after it: compare with the least depth that
        // follows it
        let mut m: usize = depths[n];
        let mut i: usize = n;
        while i > 0
            invariant
                n == text@.len(),
                i <= n,
                depths@.len() == n + 1,
                forall|j: int| 0 <= j <= n ==> depths@[j] == paren_depth(text@, j),
                marks@.len() == n,
                forall|j: int|
                    0 <= j < i ==> marks@[j] == (text@[j] == 92 || text@[j] == 13
                        || unbalanced_close(text@, j)),
                forall|j: int| i <= j < n ==> marks@[j] == literal_escaped(text@, j),
                forall|j: int| i <= j <= n ==> m <= depths@[j],
                exists|j: int| i <= j <= n && m == depths@[j],
            decreases i,
        {
            let idx = i - 1;
            let b = text[idx];
            let ghost t = text@;
            if b == 40 && m > depths[idx] {
                assert(unbalanced_open(t, idx as int));
                marks.set(idx, true);
            } else {
                proof {
                    if b == 40 {
                        let w = choose|j: int| i <= j <= n && m == depths@[j];
                        assert(!(paren_depth(t, w) > paren_depth(t, idx as int)));
                    }
                }
                assert(!unbalanced_open(t, idx as int));
            }
            if depths[idx] < m {
                m = depths[idx];
            }
            i = idx;
        }
        marks
    }

    /// Writes any object.
    pub fn write_object(file: &mut Vec<u8>, object: &Object)
        ensures
            final(file)@ == old(file)@ + object_bytes(*object),
        decreases *object,
    {
        match object {
            Object::Null => file.extend_from_slice(&[110u8, 117, 108, 108]),
            Object::Boolean(value) => {
                if *value {
                    file.extend_from_slice(&[116u8, 114, 117, 101]);
                } else {
                    file.extend_from_slice(&[102u8, 97, 108, 115, 101]);
                }
            },
            Object::Integer(value) => {
                let text = itoa_format(*value);
                file.extend_from_slice(text.as_slice());
            },
            Object::Real(text) => file.extend_from_slice(text.as_slice()),
            Object::Name(name) => Self::write_name(file, name.as_slice()),
            Object::String(text, format) => Self::write_string(file, text.as_slice(), format),
            Object::Array(array) => Self::write_array(file, array),
            Object::Dictionary(dict) => Self::write_dictionary(file, dict),
            Object::Stream(stream) => Self::write_stream(file, stream),
            Object::Reference(id) => {
                push_decimal(file, id.0 as u64);
                file.push(32u8);
                push_decimal(file, id.1 as u64);
                file.extend_from_slice(&[32u8, 82]);
            },
        }
    }

    /// Writes an array: `[`, the items with a space before each one after
    /// the first that needs it, `]`.
    pub fn write_array(file: &mut Vec<u8>, array: &Vec<Object>)
        ensures
            final(file)@ == old(file)@ + seq![91u8] + items_bytes(array@) + seq![93u8],
        decreases array,
    {
        file.push(91u8);
        let n = array.len();
        let mut i: usize = 0;
        while i < n
            invariant
                n == array@.len(),
                i <= n,
                file@ == old(file)@ + seq![91u8] + items_bytes(array@.take(i as int)),
            decreases n - i,
        {
            let object = &array[i];
            if i > 0 && Self::need_separator(object) {
                file.push(32u8);
            }
            Self::write_object(file, object);
            assert(array@.take(i + 1).drop_last() =~= array@.take(i as int));
            i = i + 1;
        }
        assert(array@.take(n as int) =~= array@);
        file.push(93u8);
    }

    /// Writes a dictionary: `<<`, each key as a name and its value, `>>`.
    pub fn write_dictionary(file: &mut Vec<u8>, dictionary: &Dictionary)
        ensures
            final(file)@ == old(file)@ + dictionary_bytes(*dictionary),
        decreases *dictionary,
    {
        file.extend_from_slice(&[60u8, 60]);
        let entries = &dictionary.0;
        let n = entries.len();
        let mut i: usize = 0;
        while i < n
            invariant
                entries == &dictionary.0,
                n == entries@.len(),
                i <= n,
                file@ == old(file)@ + seq![60u8, 60u8] + entries_bytes(entries@.take(i as int)),
            decreases n - i,
        {
            let entry = &entries[i];
            Self::write_name(file, entry.0.as_slice());
            if Self::need_separator(&entry.1) {
                file.push(32u8);
            }
            Self::write_object(file, &entry.1);
            if Self::need_end_separator(&entry.1) {
                file.push(32u8);
            }
            assert(entries@.take(i + 1).drop_last() =~= entries@.take(i as int));
            i = i + 1;
        }
        assert(entries@.take(n as int) =~= entries@);
        file.extend_from_slice(&[62u8, 62]);
    }

    /// Writes the content part of a stream: `stream`, the bytes,
    /// `endstream`, each on a line of its own.
    pub fn write_stream_content(file: &mut Vec<u8>, content: &[u8])
        ensures
            final(file)@ == old(file)@ + kw_stream_start() + content@ + kw_stream_end(),
    {
        file.extend_from_slice(&[10u8, 115, 116, 114, 101, 97, 109, 10]);
        file.extend_from_slice(content);
        file.extend_from_slice(&[10u8, 101, 110, 100, 115, 116, 114, 101, 97, 109]);
    }

    /// Writes a stream: its dictionary, then its content.
    pub fn write_stream(file: &mut Vec<u8>, stream: &Stream)
        ensures
            final(file)@ == old(file)@ + dictionary_bytes(stream.dict) + kw_stream_start()
                + stream.content@ + kw_stream_end(),
        decreases *stream,
    {
        Self::write_dictionary(file, &stream.dict);
        Self::write_stream_content(file, stream.content.as_slice());
    }

    /// Writes an indirect object: `id gen obj`, the object, `endobj`.
    pub fn _write_indirect_object(file: &mut Vec<u8>, id: u32, generation: u16, object: &Object)
        ensures
            final(file)@ == old(file)@ + indirect_object_bytes(id, generation, *object),
    {
        push_decimal(file, id as u64);
        file.push(32u8);
        push_decimal(file, generation as u64);
        file.extend_from_slice(&[32u8, 111, 98, 106, 10]);
        if Self::need_separator(object) {
            file.push(32u8);
        }
        Self::write_object(file, object);
        if Self::need_end_separator(object) {
            file.push(32u8);
        }
        file.extend_from_slice(&[10u8, 101, 110, 100, 111, 98, 106, 10]);
    }

    /// Writes an indirect object and records in `xref` that object `id`, of
    /// generation `generation`, starts where the writing began.
    pub fn write_indirect_object(
        file: &mut Vec<u8>,
        id: u32,
        generation: u16,
        object: &Object,
        xref: &mut Xref,
    )
        requires
            old(xref).wf(),
        ensures
            final(file)@ == old(file)@ + indirect_object_bytes(id, generation, *object),
            final(xref).wf(),
            final(xref).size == old(xref).size,
            final(xref).cross_reference_type == old(xref).cross_reference_type,
            forall|k: int|
                #[trigger] final(xref).spec_get(k) == if k == id {
                    Some(XrefEntry::Normal { offset: old(file)@.len() as u32, generation })
                } else {
                    old(xref).spec_get(k)
                },
    {
        let offset = file.len() as u32;
        xref.insert(id, XrefEntry::Normal { offset, generation });
        Self::_write_indirect_object(file, id, generation, object);
    }

    /// Writes the binary mark line `%` + mark + newline. Every byte of the
    /// mark must be at least 128; otherwise nothing is written.
    pub fn write_binary_mark(file: &mut Vec<u8>, binary_mark: &[u8]) -> (r: Result<(), Error>)
        ensures
            r is Ok <==> forall|i: int| 0 <= i < binary_mark@.len() ==> binary_mark@[i] >= 128,
            r is Ok ==> final(file)@ == old(file)@ + seq![37u8] + binary_mark@ + seq![10u8],
            r is Err ==> r == Err::<(), Error>(Error::InvalidBinaryMark) && final(file)@ == old(
                file,
            )@,
    {
        let n = binary_mark.len();
        let mut i: usize = 0;
        while i < n
            invariant
                n == binary_mark@.len(),
                i <= n,
                forall|j: int| 0 <= j < i ==> binary_mark@[j] >= 128,
            decreases n - i,
        {
            if binary_mark[i] < 128 {
                return Err(Error::InvalidBinaryMark);
            }
            i = i + 1;
        }
        file.push(37u8);
        file.extend_from_slice(binary_mark);
        file.push(10u8);
        Ok(())
    }
}


impl Object {
    /// The object written as indirect object `id`.
    pub fn as_bytes(&self, id: ObjectId) -> (r: Vec<u8>)
        ensures
            r@ == indirect_object_bytes(id.0, id.1, *self),
    {
        let mut buf: Vec<u8> = Vec::new();
        Writer::_write_indirect_object(&mut buf, id.0, id.1, self);
        buf
    }
}

} // verus!
