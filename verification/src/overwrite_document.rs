use vstd::prelude::*;

use crate::decimal::dec_digits;
use crate::document::{
    lemma_set_to, field_widths, is_array_value, is_integer_value, is_name_value, key_encrypt, key_filter,
    key_index, key_length, key_size, key_w, name_xref, set_to, with_entry, Document,
};
use crate::error::Error;
use crate::object::{dict_remove, key_position, key_type, Dictionary, Object, ObjectId, Stream};
use crate::startxref::startxref_rewrite;
use crate::writer::{
    entries_bytes, indirect_object_bytes, kw_endobj, kw_obj, kw_stream_end, kw_stream_start, Writer,
};
use crate::xref::{lookup, Xref, XrefEntry};
use crate::xref_writer::{entries_fn, stream_index, stream_rows, XRefStreamFilter};

verus! {

/// A document edited in place: the bytes of the file and the document read
/// from them.
#[derive(Debug)]
pub struct OverwriteDocument {
    /// The raw data for the files read from input.
    pub bytes_documents: Vec<u8>,
    pub document: Document,
    pub is_encrypted: bool,
    pub password: Option<String>,
}

/// `buffer` with `data` put in at `position`.
pub open spec fn injected(buffer: Seq<u8>, data: Seq<u8>, position: int) -> Seq<u8> {
    buffer.subrange(0, position) + data + buffer.subrange(position, buffer.len() as int)
}

/// `buffer` with the bytes from `start` up to `end` replaced by `data`.
pub open spec fn replaced(buffer: Seq<u8>, data: Seq<u8>, start: int, end: int) -> Seq<u8> {
    buffer.subrange(0, start) + data + buffer.subrange(end, buffer.len() as int)
}

/// An entry after the bytes from `position` on moved by `shift`: an object
/// in use that starts after `position` moves with them.
pub open spec fn shifted_entry(e: XrefEntry, position: u32, shift: int) -> XrefEntry {
    match e {
        XrefEntry::Normal { offset, generation } => if offset > position {
            XrefEntry::Normal { offset: (offset + shift) as u32, generation }
        } else {
            e
        },
        _ => e,
    }
}

/// Every moved offset stays within `u32`.
pub open spec fn shift_fits(entries: Seq<(u32, XrefEntry)>, position: u32, shift: int) -> bool {
    forall|i: int|
        0 <= i < entries.len() ==> match #[trigger] entries[i].1 {
            XrefEntry::Normal { offset, generation } => offset > position ==> 0 <= offset + shift
                <= u32::MAX,
            _ => true,
        }
}

/// What reading the last cross-reference section of a buffer gives.
#[derive(Debug)]
pub struct XrefSectionRead {
    /// Where the section starts, and where it ends, in the buffer.
    pub start: usize,
    pub end: usize,
    /// Its entries and size.
    pub xref: Xref,
    /// The trailer it carries.
    pub trailer: Dictionary,
    /// The section's own object, when it is a cross-reference stream.
    pub stream: Option<(ObjectId, Stream)>,
}

/// The entries of a section after the bytes from `position` on moved by
/// `shift`.
pub open spec fn shifted_fn(e: Seq<(u32, XrefEntry)>, position: u32, shift: int) -> spec_fn(
    int,
) -> Option<XrefEntry> {
    |i: int|
        match lookup(e, i) {
            Some(x) => Some(shifted_entry(x, position, shift)),
            None => None,
        }
}

/// `DecodeParms`
pub open spec fn key_decode_parms() -> Seq<u8> {
    seq![68u8, 101u8, 99u8, 111u8, 100u8, 101u8, 80u8, 97u8, 114u8, 109u8, 115u8]
}

/// The dictionary of an existing cross-reference stream once its data are
/// replaced by plain rows: without `Filter` and `DecodeParms` when it had a
/// `Filter`, and with the new `Length`.
pub open spec fn refreshed_stream_dict(
    old: Seq<(Vec<u8>, Object)>,
    new: Seq<(Vec<u8>, Object)>,
    length: i64,
) -> bool {
    let plain = if key_position(old, key_filter()) is Some {
        dict_remove(dict_remove(old, key_decode_parms()), key_filter())
    } else {
        old
    };
    set_to(plain, new, key_length(), is_integer_value(length))
}

/// The steps that turn a trailer into the dictionary of a new
/// cross-reference stream, through `t1`..`t4`: `Type` `/XRef`, `Size`, `W`
/// `[1 4 2]`, `Index` and `Length`, in that order.
pub open spec fn new_stream_dict_steps(
    old: Seq<(Vec<u8>, Object)>,
    t1: Seq<(Vec<u8>, Object)>,
    t2: Seq<(Vec<u8>, Object)>,
    t3: Seq<(Vec<u8>, Object)>,
    t4: Seq<(Vec<u8>, Object)>,
    new: Seq<(Vec<u8>, Object)>,
    size: i64,
    index: Seq<Object>,
    length: i64,
) -> bool {
    &&& set_to(old, t1, key_type(), is_name_value(name_xref()))
    &&& set_to(t1, t2, key_size(), is_integer_value(size))
    &&& set_to(t2, t3, key_w(), is_array_value(field_widths()))
    &&& set_to(t3, t4, key_index(), is_array_value(index))
    &&& set_to(t4, new, key_length(), is_integer_value(length))
}

pub open spec fn new_stream_dict(
    old: Seq<(Vec<u8>, Object)>,
    new: Seq<(Vec<u8>, Object)>,
    size: i64,
    index: Seq<Object>,
    length: i64,
) -> bool {
    exists|
        t1: Seq<(Vec<u8>, Object)>,
        t2: Seq<(Vec<u8>, Object)>,
        t3: Seq<(Vec<u8>, Object)>,
        t4: Seq<(Vec<u8>, Object)>,
    | #[trigger] new_stream_dict_steps(old, t1, t2, t3, t4, new, size, index, length)
}

/// A stream object with this dictionary and data, as an indirect object.
pub open spec fn section_object_bytes(
    id: u32,
    generation: u16,
    dict: Seq<(Vec<u8>, Object)>,
    content: Seq<u8>,
) -> Seq<u8> {
    dec_digits(id as nat) + seq![32u8] + dec_digits(generation as nat) + kw_obj() + seq![60u8, 60u8]
        + entries_bytes(dict) + seq![62u8, 62u8] + kw_stream_start() + content + kw_stream_end()
        + kw_endobj()
}

/// `r` is what `s` describes.
pub open spec fn result_is(r: Result<Vec<u8>, Error>, s: Result<Seq<u8>, Error>) -> bool {
    match s {
        Ok(t) => r is Ok && r->Ok_0@ == t,
        Err(e) => r == Err::<Vec<u8>, Error>(e),
    }
}

/// The `Index` integers as objects.
pub open spec fn index_of(e: spec_fn(int) -> Option<XrefEntry>, n: int) -> Seq<Object> {
    stream_index(e, n, n).map_values(|v: i64| Object::Integer(v))
}

/// What rewriting the last cross-reference section of `buffer` gives, once
/// the objects after `position` moved by `shift`: the section is rewritten
/// as a cross-reference stream (the section's own stream object with new
/// rows, or a new one numbered after the largest entry, built from the
/// trailer) in place of the old section, and `startxref` points at its new
/// start.
pub open spec fn rewritten_buffer(
    buffer: Seq<u8>,
    section: XrefSectionRead,
    position: u32,
    shift: int,
    r: Result<Vec<u8>, Error>,
) -> bool {
    let e1 = shifted_fn(section.xref.entries@, position, shift);
    let new_start = section.start + shift;
    let n = section.xref.size + 1;
    match section.stream {
        Some((sid, st)) => exists|d2: Seq<(Vec<u8>, Object)>|
            #[trigger] refreshed_stream_dict(st.dict.0@, d2, stream_rows(e1, n).len() as i64)
                && result_is(
                r,
                startxref_rewrite(
                    replaced(
                        buffer,
                        section_object_bytes(sid.0, sid.1, d2, stream_rows(e1, n)),
                        section.start as int,
                        section.end as int,
                    ),
                    new_start,
                ),
            ),
        None => {
            let id = section.xref.entries@.last().0 + 1;
            let e2 = with_entry(e1, id, XrefEntry::Normal { offset: new_start as u32, generation: 0 });
            exists|d2: Seq<(Vec<u8>, Object)>|
                #[trigger] new_stream_dict(
                    section.trailer.0@,
                    d2,
                    (id + 1) as i64,
                    index_of(e2, n),
                    stream_rows(e2, n).len() as i64,
                ) && result_is(
                    r,
                    startxref_rewrite(
                        replaced(
                            buffer,
                            section_object_bytes(id as u32, 0, d2, stream_rows(e2, n)),
                            section.start as int,
                            section.end as int,
                        ),
                        new_start,
                    ),
                )
        },
    }
}

/// The offsets of the objects in use, in the order of their numbers.
pub open spec fn in_use_offsets(e: Seq<(u32, XrefEntry)>) -> Seq<u32>
    decreases e.len(),
{
    if e.len() == 0 {
        Seq::empty()
    } else {
        in_use_offsets(e.drop_last()) + match e.last().1 {
            XrefEntry::Normal { offset, generation } => seq![offset],
            _ => Seq::empty(),
        }
    }
}

/// How many values exceed `v`.
pub open spec fn count_above(s: Seq<u32>, v: int) -> nat
    decreases s.len(),
{
    if s.len() == 0 {
        0
    } else {
        count_above(s.drop_last(), v) + if s.last() > v {
            1nat
        } else {
            0nat
        }
    }
}

/// How many values are at least `v`.
pub open spec fn count_at_least(s: Seq<u32>, v: int) -> nat
    decreases s.len(),
{
    if s.len() == 0 {
        0
    } else {
        count_at_least(s.drop_last(), v) + if s.last() >= v {
            1nat
        } else {
            0nat
        }
    }
}

/// `v` is the value before last once `s` is sorted.
pub open spec fn is_second_largest(s: Seq<u32>, v: u32) -> bool {
    count_above(s, v as int) <= 1 && count_at_least(s, v as int) >= 2
}

impl OverwriteDocument {
    /// Holds the bytes of a file and the document read from them; the
    /// document is encrypted when its trailer names an encryption
    /// dictionary.
    pub fn new(bytes: Vec<u8>, document: Document) -> (r: OverwriteDocument)
        ensures
            r.bytes_documents == bytes,
            r.document == document,
            r.is_encrypted == (key_position(document.trailer.0@, key_encrypt()) is Some),
            r.password is None,
    {
        let is_encrypted = document.is_encrypted();
        OverwriteDocument { bytes_documents: bytes, document, is_encrypted, password: None }
    }

    /// Keeps the password of an encrypted document.
    pub fn set_password(&mut self, password: String)
        requires
            old(self).is_encrypted,
        ensures
            final(self).password == Some(password),
            final(self).bytes_documents == old(self).bytes_documents,
            final(self).document == old(self).document,
            final(self).is_encrypted == old(self).is_encrypted,
    {
        self.password = Some(password);
    }

    /// Replaces the bytes, and the document read from them.
    pub fn verify_buffer(&mut self, buffer: Vec<u8>, document: Document)
        ensures
            final(self).bytes_documents == buffer,
            final(self).document == document,
            final(self).is_encrypted == old(self).is_encrypted,
            final(self).password == old(self).password,
    {
        self.document = document;
        self.bytes_documents = buffer;
    }

    /// Where object `id` starts, by the document's cross-reference table;
    /// an error when its entry is not an object in use of that generation.
    pub fn get_object_offset(&self, id: ObjectId) -> (r: Result<u32, Error>)
        requires
            self.document.reference_table.wf(),
            self.document.reference_table.spec_get(id.0 as int) is Some,
        ensures
            match self.document.reference_table.spec_get(id.0 as int) {
                Some(XrefEntry::Normal { offset, generation }) => if generation == id.1 {
                    r == Ok::<u32, Error>(offset)
                } else {
                    r == Err::<u32, Error>(Error::NotNormalObject)
                },
                _ => r == Err::<u32, Error>(Error::NotNormalObject),
            },
    {
        match self.document.reference_table.get(id.0) {
            Some(XrefEntry::Normal { offset, generation }) => {
                if generation == id.1 {
                    Ok(offset)
                } else {
                    Err(Error::NotNormalObject)
                }
            },
            _ => Err(Error::NotNormalObject),
        }
    }

    /// `buffer` with `data` put in at `position`.
    pub fn inject_at_position(buffer: &Vec<u8>, data: Vec<u8>, position: usize) -> (r: Vec<u8>)
        requires
            position <= buffer@.len(),
        ensures
            r@ == injected(buffer@, data@, position as int),
    {
        let mut new_buffer: Vec<u8> = Vec::new();
        new_buffer.extend_from_slice(slice_range(buffer.as_slice(), 0, position));
        new_buffer.extend_from_slice(data.as_slice());
        new_buffer.extend_from_slice(slice_range(buffer.as_slice(), position, buffer.len()));
        new_buffer
    }

    /// `buffer` with the bytes from `range.0` up to `range.1` replaced by
    /// `data`.
    pub fn replace_range_in_buffer(buffer: &Vec<u8>, data: Vec<u8>, range: (usize, usize)) -> (r: Vec<
        u8,
    >)
        requires
            range.0 <= range.1 <= buffer@.len(),
        ensures
            r@ == replaced(buffer@, data@, range.0 as int, range.1 as int),
    {
        let (start_offset, end_offset) = range;
        let mut new_buffer: Vec<u8> = Vec::new();
        new_buffer.extend_from_slice(slice_range(buffer.as_slice(), 0, start_offset));
        new_buffer.extend_from_slice(data.as_slice());
        new_buffer.extend_from_slice(slice_range(buffer.as_slice(), end_offset, buffer.len()));
        new_buffer
    }

    /// Moves by `shift_length` the offset of every object in use that starts
    /// after `updated_obj_offset`.
    pub fn shift_offsets(xref: &mut Xref, updated_obj_offset: u32, shift_length: i64)
        requires
            old(xref).wf(),
            shift_fits(old(xref).entries@, updated_obj_offset, shift_length as int),
        ensures
            final(xref).wf(),
            final(xref).size == old(xref).size,
            final(xref).cross_reference_type == old(xref).cross_reference_type,
            final(xref).entries@.len() == old(xref).entries@.len(),
            forall|i: int|
                0 <= i < old(xref).entries@.len() ==> #[trigger] final(xref).entries@[i] == (
                    old(xref).entries@[i].0,
                    shifted_entry(old(xref).entries@[i].1, updated_obj_offset, shift_length as int),
                ),
    {
        let ghost s0 = xref.entries@;
        let n = xref.entries.len();
        let mut i: usize = 0;
        while i < n
            invariant
                n == s0.len(),
                xref.entries@.len() == n,
                xref.size == old(xref).size,
                xref.cross_reference_type == old(xref).cross_reference_type,
                s0 == old(xref).entries@,
                crate::xref::ids_increasing(s0),
                shift_fits(s0, updated_obj_offset, shift_length as int),
                i <= n,
                forall|j: int|
                    0 <= j < i ==> xref.entries@[j] == (
                        s0[j].0,
                        shifted_entry(s0[j].1, updated_obj_offset, shift_length as int),
                    ),
                forall|j: int| i <= j < n ==> xref.entries@[j] == s0[j],
            decreases n - i,
        {
            let (id, entry) = xref.entries[i];
            let moved = match entry {
                XrefEntry::Normal { offset, generation } => {
                    if offset > updated_obj_offset {
                        let o: i64 = offset as i64 + shift_length;
                        XrefEntry::Normal { offset: o as u32, generation }
                    } else {
                        entry
                    }
                },
                _ => entry,
            };
            xref.entries.set(i, (id, moved));
            i = i + 1;
        }
    }

    /// The existing cross-reference stream object of a section given plain
    /// rows for `xref`.
    fn refreshed_section_bytes(xref: &Xref, sid: ObjectId, st: Stream) -> (r: (
        Vec<u8>,
        Ghost<Seq<(Vec<u8>, Object)>>,
    ))
        requires
            xref.wf(),
            xref.size < u32::MAX,
        ensures
            refreshed_stream_dict(
                st.dict.0@,
                r.1@,
                stream_rows(entries_fn(xref.entries@), xref.size + 1).len() as i64,
            ),
            r.0@ == section_object_bytes(
                sid.0,
                sid.1,
                r.1@,
                stream_rows(entries_fn(xref.entries@), xref.size + 1),
            ),
    {
        let (xref_stream, _length, _indexes) = Writer::create_xref_stream(
            xref,
            XRefStreamFilter::NoFilter,
        );
        let Stream { dict, allows_compression, content: _old, start_position } = st;
        let mut dict = dict;
        let ghost old_dict = dict.0@;
        if dict.has(&[70u8, 105, 108, 116, 101, 114]) {
            dict.remove(&[68u8, 101, 99, 111, 100, 101, 80, 97, 114, 109, 115]);
            dict.remove(&[70u8, 105, 108, 116, 101, 114]);
        }
        let ghost plain = dict.0@;
        let length: i64 = xref_stream.len() as i64;
        let length_key: Vec<u8> = vec![76u8, 101, 110, 103, 116, 104];
        proof {
            lemma_set_to(plain, length_key, Object::Integer(length), is_integer_value(length));
        }
        dict.set(length_key, Object::Integer(length));
        let ghost d2 = dict.0@;
        assert(refreshed_stream_dict(old_dict, d2, length));
        let ghost content = xref_stream@;
        let xref_obj = Object::Stream(
            Stream { dict, allows_compression, content: xref_stream, start_position },
        );
        let r = xref_obj.as_bytes(sid);
        assert(r@ == section_object_bytes(sid.0, sid.1, d2, content));
        (r, Ghost(d2))
    }

    /// The trailer made into the dictionary of a new cross-reference stream.
    fn new_stream_dictionary(trailer: Dictionary, size: i64, indexes: Object, length: i64) -> (r:
        Dictionary)
        requires
            indexes is Array,
        ensures
            new_stream_dict(trailer.0@, r.0@, size, indexes->Array_0@, length),
    {
        let mut trailer = trailer;
        let ghost t0 = trailer.0@;
        let ghost index = indexes->Array_0@;
        let type_key: Vec<u8> = vec![84u8, 121, 112, 101];
        let type_value = Object::Name(vec![88u8, 82, 101, 102]);
        proof {
            lemma_set_to(t0, type_key, type_value, is_name_value(name_xref()));
        }
        trailer.set(type_key, type_value);
        let ghost t1 = trailer.0@;
        let size_key: Vec<u8> = vec![83u8, 105, 122, 101];
        proof {
            lemma_set_to(t1, size_key, Object::Integer(size), is_integer_value(size));
        }
        trailer.set(size_key, Object::Integer(size));
        let ghost t2 = trailer.0@;
        let w_key: Vec<u8> = vec![87u8];
        let w_value = Object::Array(vec![Object::Integer(1), Object::Integer(4), Object::Integer(2)]);
        assert(w_key@ == key_w());
        assert(w_value->Array_0@ == field_widths());
        proof {
            lemma_set_to(t2, w_key, w_value, is_array_value(field_widths()));
        }
        trailer.set(w_key, w_value);
        let ghost t3 = trailer.0@;
        let index_key: Vec<u8> = vec![73u8, 110, 100, 101, 120];
        proof {
            lemma_set_to(t3, index_key, indexes, is_array_value(index));
        }
        trailer.set(index_key, indexes);
        let ghost t4 = trailer.0@;
        let length_key: Vec<u8> = vec![76u8, 101, 110, 103, 116, 104];
        proof {
            lemma_set_to(t4, length_key, Object::Integer(length), is_integer_value(length));
        }
        trailer.set(length_key, Object::Integer(length));
        assert(new_stream_dict_steps(t0, t1, t2, t3, t4, trailer.0@, size, index, length));
        trailer
    }

    /// A new cross-reference stream object for `xref` numbered after its
    /// largest entry, at `new_start`, its dictionary made from `trailer`.
    fn new_section_bytes(xref: Xref, trailer: Dictionary, new_start: u32) -> (r: (
        Vec<u8>,
        Ghost<Seq<(Vec<u8>, Object)>>,
    ))
        requires
            xref.wf(),
            xref.size < u32::MAX,
            xref.entries@.len() > 0,
            xref.entries@.last().0 < u32::MAX - 1,
        ensures
            ({
                let id = xref.entries@.last().0 + 1;
                let e2 = with_entry(
                    entries_fn(xref.entries@),
                    id,
                    XrefEntry::Normal { offset: new_start, generation: 0 },
                );
                &&& new_stream_dict(
                    trailer.0@,
                    r.1@,
                    (id + 1) as i64,
                    index_of(e2, xref.size + 1),
                    stream_rows(e2, xref.size + 1).len() as i64,
                )
                &&& r.0@ == section_object_bytes(id as u32, 0, r.1@, stream_rows(e2, xref.size + 1))
            }),
    {
        let ghost x0 = xref;
        let mut xref = xref;
        let ghost e1 = entries_fn(xref.entries@);
        let n = xref.size + 1;
        let last_xref_id = match xref.max_key() {
            Some(m) => m,
            None => 0,
        };
        assert(last_xref_id == x0.entries@.last().0) by {
            let s1 = xref.entries@;
            assert(s1[s1.len() - 1].0 == s1.last().0);
            assert(xref.spec_get(s1.last().0 as int) is Some);
        }
        let new_xref_id = last_xref_id + 1;
        let ghost e2 = with_entry(
            e1,
            new_xref_id as int,
            XrefEntry::Normal { offset: new_start, generation: 0 },
        );
        xref.insert(new_xref_id, XrefEntry::Normal { offset: new_start, generation: 0 });
        proof {
            assert forall|i: int| #[trigger] entries_fn(xref.entries@)(i) == e2(i) by {
                assert(xref.spec_get(i) == entries_fn(xref.entries@)(i));
            }
            assert(entries_fn(xref.entries@) =~= e2);
        }
        let (xref_stream, stream_length, indexes) = Writer::create_xref_stream(
            &xref,
            XRefStreamFilter::NoFilter,
        );
        let ghost index = index_of(e2, n as int);
        assert(indexes->Array_0@ =~= index);
        let size: i64 = (new_xref_id + 1) as i64;
        let length: i64 = stream_length as i64;
        let dict = Self::new_stream_dictionary(trailer, size, indexes, length);
        let ghost d2 = dict.0@;
        let ghost content = xref_stream@;
        let xref_obj = Object::Stream(
            Stream { dict, allows_compression: true, content: xref_stream, start_position: None },
        );
        let r = xref_obj.as_bytes((new_xref_id, 0));
        assert(r@ == section_object_bytes(new_xref_id, 0, d2, content));
        (r, Ghost(d2))
    }

    /// Rewrites the last cross-reference section of `buffer` (as `section`
    /// describes it) once the objects after `updated_obj_offset` moved by
    /// `shift_length`: the section becomes a cross-reference stream with the
    /// moved offsets (its own stream object with new rows, or a new object
    /// numbered after the largest entry), and `startxref` is made to point at
    /// it.
    pub fn update_xref(
        buffer: &Vec<u8>,
        section: XrefSectionRead,
        updated_obj_offset: u32,
        shift_length: i64,
    ) -> (r: Result<Vec<u8>, Error>)
        requires
            section.xref.wf(),
            section.xref.size < u32::MAX,
            shift_fits(section.xref.entries@, updated_obj_offset, shift_length as int),
            section.start <= section.end <= buffer@.len(),
            0 <= section.start + shift_length <= i64::MAX,
            section.start + shift_length <= usize::MAX,
            section.stream is None ==> section.xref.entries@.len() > 0,
            section.stream is None ==> section.xref.entries@.last().0 < u32::MAX - 1,
        ensures
            rewritten_buffer(buffer@, section, updated_obj_offset, shift_length as int, r),
    {
        let ghost sec = section;
        let XrefSectionRead { start, end, xref, trailer, stream } = section;
        let mut xref = xref;
        Self::shift_offsets(&mut xref, updated_obj_offset, shift_length);
        proof {
            lemma_shifted_entries(sec.xref.entries@, xref.entries@, updated_obj_offset, shift_length as int);
        }
        let new_xref_start: usize = (start as i128 + shift_length as i128) as usize;
        let ghost size = sec.xref.size;
        let (xref_bytes, d2) = match stream {
            Some((sid, st)) => Self::refreshed_section_bytes(&xref, sid, st),
            None => {
                assert(xref.entries@.last() == (
                    sec.xref.entries@.last().0,
                    shifted_entry(sec.xref.entries@.last().1, updated_obj_offset, shift_length as int),
                ));
                Self::new_section_bytes(xref, trailer, new_xref_start as u32)
            },
        };
        let ghost b1 = replaced(buffer@, xref_bytes@, start as int, end as int);
        let mut xref_updated_buffer = Self::replace_range_in_buffer(buffer, xref_bytes, (start, end));
        let r = match Writer::update_xref_offset(&mut xref_updated_buffer, new_xref_start as i64) {
            Ok(()) => Ok(xref_updated_buffer),
            Err(e) => Err(e),
        };
        assert(result_is(r, startxref_rewrite(b1, new_xref_start as int)));
        proof {
            let e1 = shifted_fn(sec.xref.entries@, updated_obj_offset, shift_length as int);
            let n = sec.xref.size + 1;
            assert(new_xref_start == sec.start + shift_length);
            match sec.stream {
                Some((sid, st)) => {
                    assert(refreshed_stream_dict(
                        st.dict.0@,
                        d2@,
                        stream_rows(e1, n as int).len() as i64,
                    ));
                },
                None => {
                    let id = sec.xref.entries@.last().0 + 1;
                    let e2 = with_entry(
                        e1,
                        id,
                        XrefEntry::Normal { offset: new_xref_start as u32, generation: 0 },
                    );
                    assert(new_stream_dict(
                        sec.trailer.0@,
                        d2@,
                        (id + 1) as i64,
                        index_of(e2, n as int),
                        stream_rows(e2, n as int).len() as i64,
                    ));
                },
            }
        }
        r
    }

    /// The bytes of the file with object `id` replaced by `object`.
    ///
    /// `object_length` is the length that reading the indirect object at the
    /// object's offset consumed (its last byte, a line end, is kept), and
    /// `section` what reading the file's last cross-reference section gave.
    /// The objects after it move by the change in length, the section is
    /// rewritten (see `update_xref`), then the object's bytes are replaced;
    /// `OutsideBuffer` when they would lie past the end of the rewritten
    /// bytes. The new bytes are to be read again and installed with
    /// `verify_buffer`.
    pub fn update_object(
        &self,
        id: ObjectId,
        object: &Object,
        object_length: usize,
        section: XrefSectionRead,
    ) -> (r: Result<Vec<u8>, Error>)
        requires
            self.document.reference_table.wf(),
            self.document.reference_table.spec_get(id.0 as int) matches Some(
                XrefEntry::Normal { offset, generation },
            ) && generation == id.1 && {
                let end = offset + object_length - 1;
                &&& 1 <= object_length
                &&& end <= u32::MAX
                &&& section.xref.wf()
                &&& section.xref.size < u32::MAX
                &&& section.start <= section.end <= self.bytes_documents@.len()
                &&& ({
                    let shift = indirect_object_bytes(id.0, id.1, *object).len() - (end - offset);
                    &&& shift_fits(section.xref.entries@, offset, shift)
                    &&& 0 <= section.start + shift <= i64::MAX
                    &&& section.start + shift <= usize::MAX
                    &&& i64::MIN <= shift <= i64::MAX
                })
                &&& section.stream is None ==> section.xref.entries@.len() > 0
                &&& section.stream is None ==> section.xref.entries@.last().0 < u32::MAX - 1
            },
        ensures
            self.document.reference_table.spec_get(id.0 as int) matches Some(
                XrefEntry::Normal { offset, generation },
            ) && {
                let end = offset + object_length - 1;
                let new_bytes = indirect_object_bytes(id.0, id.1, *object);
                let shift = new_bytes.len() - (end - offset);
                exists|u: Result<Vec<u8>, Error>|
                    #[trigger] rewritten_buffer(self.bytes_documents@, section, offset, shift, u)
                        && match u {
                        Ok(b) => if end <= b@.len() {
                            r is Ok && r->Ok_0@ == replaced(b@, new_bytes, offset as int, end)
                        } else {
                            r == Err::<Vec<u8>, Error>(Error::OutsideBuffer)
                        },
                        Err(e) => r == Err::<Vec<u8>, Error>(e),
                    }
            },
    {
        let object_offset = match self.get_object_offset(id) {
            Ok(o) => o,
            Err(e) => {
                return Err(e);
            },
        };
        // the line end after `endobj` stays
        let object_end_offset: u32 = (object_offset as u64 + object_length as u64 - 1) as u32;
        let prev_object_length: usize = (object_end_offset - object_offset) as usize;
        let new_object_bytes = object.as_bytes(id);
        let new_object_length: usize = new_object_bytes.len();
        let increased_length: i64 = (new_object_length as i128 - prev_object_length as i128) as i64;
        let ghost sec = section;
        assert(increased_length == new_object_bytes@.len() - (object_end_offset - object_offset));
        let updated = Self::update_xref(
            &self.bytes_documents,
            section,
            object_offset,
            increased_length,
        );
        match updated {
            Ok(new_document_bytes) => {
                if object_end_offset as usize > new_document_bytes.len() {
                    return Err(Error::OutsideBuffer);
                }
                let r = Self::replace_range_in_buffer(
                    &new_document_bytes,
                    new_object_bytes,
                    (object_offset as usize, object_end_offset as usize),
                );
                Ok(r)
            },
            Err(e) => Err(e),
        }
    }

    /// The bytes of the file with `object` added as a new object, and its
    /// id (one more than the document's largest object number, which the
    /// document takes).
    ///
    /// The object goes right after the object that starts at the largest
    /// but one in-use offset of the last cross-reference section
    /// (`last_object_offset`), whose indirect object reading found to be
    /// `last_object_length` bytes long; the objects after that point move by
    /// the object's length and the section is rewritten (see
    /// `update_xref`). The new object gets no entry of its own; when its
    /// place lies past the end of the rewritten bytes, the result is
    /// `OutsideBuffer` (the id is taken all the same). The new bytes are to
    /// be read again and installed with `verify_buffer`.
    pub fn append_object(&mut self, object: &Object, section: XrefSectionRead, last_object_length: usize) -> (r: Result<
        (ObjectId, Vec<u8>),
        Error,
    >)
        requires
            old(self).document.max_id < u32::MAX,
            section.xref.wf(),
            section.xref.size < u32::MAX,
            section.start <= section.end <= old(self).bytes_documents@.len(),
            section.stream is None ==> section.xref.entries@.len() > 0,
            section.stream is None ==> section.xref.entries@.last().0 < u32::MAX - 1,
            in_use_offsets(section.xref.entries@).len() >= 2,
            forall|v: u32|
                #[trigger] is_second_largest(in_use_offsets(section.xref.entries@), v) ==> {
                    let shift = indirect_object_bytes((old(self).document.max_id + 1) as u32, 0, *object).len() as int;
                    &&& v + last_object_length <= u32::MAX
                    &&& shift <= i64::MAX
                    &&& shift_fits(section.xref.entries@, (v + last_object_length) as u32, shift)
                    &&& section.start + shift <= i64::MAX
                    &&& section.start + shift <= usize::MAX
                },
        ensures
            final(self).document.max_id == old(self).document.max_id + 1,
            final(self).document.version == old(self).document.version,
            final(self).document.binary_mark == old(self).document.binary_mark,
            final(self).bytes_documents == old(self).bytes_documents,
            final(self).is_encrypted == old(self).is_encrypted,
            final(self).password == old(self).password,
            final(self).document.objects == old(self).document.objects,
            final(self).document.trailer == old(self).document.trailer,
            final(self).document.reference_table == old(self).document.reference_table,
            forall|v: u32|
                #[trigger] is_second_largest(in_use_offsets(section.xref.entries@), v) ==> {
                    let id = old(self).document.max_id + 1;
                    let new_bytes = indirect_object_bytes(id as u32, 0, *object);
                    let position = (v + last_object_length) as u32;
                    exists|u: Result<Vec<u8>, Error>|
                        #[trigger] rewritten_buffer(
                            old(self).bytes_documents@,
                            section,
                            position,
                            new_bytes.len() as int,
                            u,
                        ) && match u {
                            Ok(b) => if position <= b@.len() {
                                r is Ok && r->Ok_0.0 == (id as u32, 0u16) && r->Ok_0.1@
                                    == injected(b@, new_bytes, position as int)
                            } else {
                                r == Err::<(ObjectId, Vec<u8>), Error>(Error::OutsideBuffer)
                            },
                            Err(e) => r == Err::<(ObjectId, Vec<u8>), Error>(e),
                        }
                },
    {
        let id = self.document.new_object_id();
        let object_bytes = object.as_bytes(id);
        let increased_length: i64 = object_bytes.len() as i64;
        let last_object_before_xref = Self::last_object_offset(&section.xref);
        let ghost offsets = in_use_offsets(section.xref.entries@);
        proof {
            assert forall|v: u32| #[trigger] is_second_largest(offsets, v) implies v
                == last_object_before_xref by {
                lemma_second_largest_unique(offsets, v, last_object_before_xref);
            }
            assert(is_second_largest(offsets, last_object_before_xref));
        }
        let new_object_offset: u32 = last_object_before_xref + last_object_length as u32;
        let updated = Self::update_xref(
            &self.bytes_documents,
            section,
            new_object_offset,
            increased_length,
        );
        match updated {
            Ok(new_document_bytes) => {
                if new_object_offset as usize > new_document_bytes.len() {
                    return Err(Error::OutsideBuffer);
                }
                let r = Self::inject_at_position(
                    &new_document_bytes,
                    object_bytes,
                    new_object_offset as usize,
                );
                Ok((id, r))
            },
            Err(e) => Err(e),
        }
    }

    /// The offset of the object after which an appended object goes: the
    /// largest but one of the offsets of the objects in use (the largest
    /// being the cross-reference stream itself).
    pub fn last_object_offset(xref: &Xref) -> (r: u32)
        requires
            in_use_offsets(xref.entries@).len() >= 2,
        ensures
            is_second_largest(in_use_offsets(xref.entries@), r),
    {
        let ghost e = xref.entries@;
        let n = xref.entries.len();
        let mut seen: usize = 0;
        let mut m1: u32 = 0;
        let mut m2: u32 = 0;
        let mut i: usize = 0;
        while i < n
            invariant
                n == e.len(),
                e == xref.entries@,
                i <= n,
                seen == in_use_offsets(e.take(i as int)).len(),
                seen <= i,
                seen >= 1 ==> count_above(in_use_offsets(e.take(i as int)), m1 as int) == 0
                    && count_at_least(in_use_offsets(e.take(i as int)), m1 as int) >= 1,
                seen >= 2 ==> is_second_largest(in_use_offsets(e.take(i as int)), m2),
                seen >= 2 ==> m2 <= m1,
            decreases n - i,
        {
            let ghost p = in_use_offsets(e.take(i as int));
            assert(e.take(i + 1).drop_last() =~= e.take(i as int));
            match xref.entries[i].1 {
                XrefEntry::Normal { offset, generation } => {
                    let ghost q = p.push(offset);
                    assert(in_use_offsets(e.take(i + 1)) == q);
                    assert(q.drop_last() =~= p);
                    proof {
                        lemma_count_push(p, offset, m1 as int);
                        lemma_count_push(p, offset, m2 as int);
                        lemma_count_push(p, offset, offset as int);
                        lemma_count_at_least_self(p, offset);
                    }
                    if seen == 0 {
                        m1 = offset;
                    } else if seen == 1 {
                        if offset >= m1 {
                            m2 = m1;
                            m1 = offset;
                        } else {
                            m2 = offset;
                        }
                        proof {
                            lemma_count_push(p, offset, m1 as int);
                            lemma_count_push(p, offset, m2 as int);
                            lemma_count_one(p, m1 as int);
                            lemma_count_one(p, m2 as int);
                        }
                    } else {
                        if offset >= m1 {
                            proof {
                                lemma_count_monotone(p, m2 as int, m1 as int);
                            }
                            m2 = m1;
                            m1 = offset;
                            proof {
                                lemma_count_push(p, offset, m1 as int);
                                lemma_count_push(p, offset, m2 as int);
                                lemma_count_monotone(p, m2 as int, m1 as int);
                            }
                        } else if offset > m2 {
                            proof {
                                lemma_count_monotone(p, m2 as int, offset as int);
                                lemma_count_monotone(p, offset as int, m1 as int);
                            }
                            m2 = offset;
                        }
                    }
                    seen = seen + 1;
                },
                _ => {
                    assert(in_use_offsets(e.take(i + 1)) =~= p);
                },
            }
            i = i + 1;
        }
        assert(e.take(n as int) =~= e);
        m2
    }
}

proof fn lemma_count_push(p: Seq<u32>, x: u32, v: int)
    ensures
        count_above(p.push(x), v) == count_above(p, v) + if x > v {
            1nat
        } else {
            0nat
        },
        count_at_least(p.push(x), v) == count_at_least(p, v) + if x >= v {
            1nat
        } else {
            0nat
        },
{
    assert(p.push(x).drop_last() =~= p);
}

proof fn lemma_count_at_least_self(p: Seq<u32>, x: u32)
    ensures
        count_at_least(p.push(x), x as int) >= 1,
{
    lemma_count_push(p, x, x as int);
}

/// With one value, counts above it are 0 and at least it are 1.
proof fn lemma_count_one(p: Seq<u32>, v: int)
    requires
        p.len() == 1,
    ensures
        count_above(p, v) == if p[0] > v {
            1nat
        } else {
            0nat
        },
        count_at_least(p, v) == if p[0] >= v {
            1nat
        } else {
            0nat
        },
{
    assert(p.drop_last().len() == 0);
    assert(count_above(p.drop_last(), v) == 0);
    assert(count_at_least(p.drop_last(), v) == 0);
}

/// Raising the threshold lowers the counts.
proof fn lemma_count_monotone(p: Seq<u32>, lo: int, hi: int)
    requires
        lo <= hi,
    ensures
        count_above(p, hi) <= count_above(p, lo),
        count_at_least(p, hi) <= count_at_least(p, lo),
        lo < hi ==> count_at_least(p, hi) <= count_above(p, lo),
    decreases p.len(),
{
    if p.len() > 0 {
        lemma_count_monotone(p.drop_last(), lo, hi);
    }
}

/// The value before last of a sorted sequence is unique.
proof fn lemma_second_largest_unique(s: Seq<u32>, a: u32, b: u32)
    requires
        is_second_largest(s, a),
        is_second_largest(s, b),
    ensures
        a == b,
{
    if a < b {
        lemma_count_monotone(s, a as int, b as int);
    } else if b < a {
        lemma_count_monotone(s, b as int, a as int);
    }
}

/// Entries moved by `shift_offsets` are the moved entries.
proof fn lemma_shifted_entries(s0: Seq<(u32, XrefEntry)>, s1: Seq<(u32, XrefEntry)>, position: u32, shift: int)
    requires
        crate::xref::ids_increasing(s0),
        s1.len() == s0.len(),
        forall|i: int|
            0 <= i < s0.len() ==> #[trigger] s1[i] == (s0[i].0, shifted_entry(s0[i].1, position, shift)),
    ensures
        entries_fn(s1) == shifted_fn(s0, position, shift),
{
    assert forall|i: int| #[trigger] entries_fn(s1)(i) == shifted_fn(s0, position, shift)(i) by {
        if exists|j: int| 0 <= j < s0.len() && s0[j].0 == i {
            let j = choose|j: int| 0 <= j < s0.len() && s0[j].0 == i;
            assert(s1[j].0 == i);
            let k = choose|k: int| 0 <= k < s1.len() && s1[k].0 == i;
            assert(s1[k].0 == s0[k].0);
            if k != j {
                if k < j {
                    assert(s0[k].0 < s0[j].0);
                } else {
                    assert(s0[j].0 < s0[k].0);
                }
            }
            let j2 = choose|j: int| 0 <= j < s0.len() && s0[j].0 == i;
            if j2 != j {
                if j2 < j {
                    assert(s0[j2].0 < s0[j].0);
                } else {
                    assert(s0[j].0 < s0[j2].0);
                }
            }
        } else {
            assert forall|k: int| 0 <= k < s1.len() implies s1[k].0 != i by {
                assert(s1[k].0 == s0[k].0);
            }
        }
    }
    assert(entries_fn(s1) =~= shifted_fn(s0, position, shift));
}

/// The bytes of a slice from `start` up to `end`.
fn slice_range(s: &[u8], start: usize, end: usize) -> (r: &[u8])
    requires
        start <= end <= s@.len(),
    ensures
        r@ == s@.subrange(start as int, end as int),
{
    vstd::slice::slice_subrange(s, start, end)
}

} // verus!
