use vstd::prelude::*;

use crate::decimal::{dec_digits, push_decimal};
use crate::error::Error;
use crate::object::{
    bytes_eq, dict_remove, key_linearized, key_position, key_type, object_type_name, Dictionary,
    Object, ObjectId, Stream,
};
use crate::startxref::{kw_eof, kw_startxref};
use crate::writer::{dictionary_bytes, indirect_object_bytes, kw_endobj, kw_obj, kw_stream_end, kw_stream_start, Writer};
use crate::xref::{Xref, XrefEntry, XrefType};
use crate::xref_writer::{entries_fn, stream_index, stream_rows, xref_table_bytes, XRefStreamFilter};
use vstd::utf8::encode_utf8;

verus! {

/// A PDF document: its objects keyed by object number and generation, and
/// its trailer.
#[derive(Debug)]
pub struct Document {
    pub version: String,
    /// The bytes of the comment line after the header; each at least 128.
    pub binary_mark: Vec<u8>,
    /// The objects, by increasing id, each id at most once (see `wf`).
    pub objects: Vec<(ObjectId, Object)>,
    pub max_id: u32,
    pub trailer: Dictionary,
    pub reference_table: Xref,
}

/// A document saved as an update appended to the bytes of earlier
/// revisions.
#[derive(Debug)]
pub struct IncrementalDocument {
    pub bytes_documents: Vec<u8>,
    pub prev_documents: Document,
    pub new_document: Document,
}

// ---------------------------------------------------------------------------
// Vocabulary
// ---------------------------------------------------------------------------
/// `%PDF-`
pub open spec fn kw_pdf() -> Seq<u8> {
    seq![37u8, 80u8, 68u8, 70u8, 45u8]
}

/// `trailer\n`
pub open spec fn kw_trailer() -> Seq<u8> {
    seq![116u8, 114u8, 97u8, 105u8, 108u8, 101u8, 114u8, 10u8]
}

/// `ObjStm`
pub open spec fn name_objstm() -> Seq<u8> {
    seq![79u8, 98u8, 106u8, 83u8, 116u8, 109u8]
}

/// `XRef`
pub open spec fn name_xref() -> Seq<u8> {
    seq![88u8, 82u8, 101u8, 102u8]
}

/// `Size`
pub open spec fn key_size() -> Seq<u8> {
    seq![83u8, 105u8, 122u8, 101u8]
}

/// `W`
pub open spec fn key_w() -> Seq<u8> {
    seq![87u8]
}

/// `Index`
pub open spec fn key_index() -> Seq<u8> {
    seq![73u8, 110u8, 100u8, 101u8, 120u8]
}

/// `Filter`
pub open spec fn key_filter() -> Seq<u8> {
    seq![70u8, 105u8, 108u8, 116u8, 101u8, 114u8]
}

/// `Length`
pub open spec fn key_length() -> Seq<u8> {
    seq![76u8, 101u8, 110u8, 103u8, 116u8, 104u8]
}

// ---------------------------------------------------------------------------
// What a save writes
// ---------------------------------------------------------------------------
/// Objects written out: all but object streams, cross-reference streams and
/// linearization dictionaries, which a save regenerates or drops.
pub open spec fn is_written(o: Object) -> bool {
    match object_type_name(o) {
        Some(n) => !(n == name_objstm() || n == name_xref() || n == key_linearized()),
        None => true,
    }
}

/// The written objects among the first `k`, as indirect objects.
pub open spec fn body_bytes(objs: Seq<(ObjectId, Object)>, k: int) -> Seq<u8>
    decreases k,
{
    if k <= 0 {
        Seq::empty()
    } else {
        body_bytes(objs, k - 1) + if is_written(objs[k - 1].1) {
            indirect_object_bytes(objs[k - 1].0.0, objs[k - 1].0.1, objs[k - 1].1)
        } else {
            Seq::empty()
        }
    }
}

/// The cross-reference entry of object number `i` after the first `k`
/// objects were written from position `base`: the last written object with
/// that number, at the position where its indirect object starts.
pub open spec fn body_lookup(objs: Seq<(ObjectId, Object)>, k: int, base: int, i: int) -> Option<
    XrefEntry,
>
    decreases k,
{
    if k <= 0 {
        None
    } else if is_written(objs[k - 1].1) && objs[k - 1].0.0 == i {
        Some(
            XrefEntry::Normal {
                offset: (base + body_bytes(objs, k - 1).len()) as u32,
                generation: objs[k - 1].0.1,
            },
        )
    } else {
        body_lookup(objs, k - 1, base, i)
    }
}

pub open spec fn body_entries(objs: Seq<(ObjectId, Object)>, base: int) -> spec_fn(int) -> Option<
    XrefEntry,
> {
    |i: int| body_lookup(objs, objs.len() as int, base, i)
}

/// `e` with one more entry.
pub open spec fn with_entry(e: spec_fn(int) -> Option<XrefEntry>, id: int, entry: XrefEntry) -> spec_fn(
    int,
) -> Option<XrefEntry> {
    |i: int|
        if i == id {
            Some(entry)
        } else {
            e(i)
        }
}

/// `%PDF-` and the version, on a line.
pub open spec fn version_line(d: Document) -> Seq<u8> {
    kw_pdf() + encode_utf8(d.version@) + seq![10u8]
}

/// The two header lines: version, and binary mark after a `%`.
pub open spec fn pdf_header(d: Document) -> Seq<u8> {
    version_line(d) + seq![37u8] + d.binary_mark@ + seq![10u8]
}

pub open spec fn mark_valid(m: Seq<u8>) -> bool {
    forall|i: int| 0 <= i < m.len() ==> m[i] >= 128
}

/// `\nstartxref\n`, the position of the cross-reference section, and
/// `\n%%EOF`.
pub open spec fn startxref_tail(start: int) -> Seq<u8> {
    seq![10u8] + kw_startxref() + seq![10u8] + dec_digits(start as nat) + seq![10u8] + kw_eof()
}

/// `new` is `old` with `key` given a value that satisfies `p`: in place
/// where the key stands, appended otherwise.
pub open spec fn set_to(
    old: Seq<(Vec<u8>, Object)>,
    new: Seq<(Vec<u8>, Object)>,
    key: Seq<u8>,
    p: spec_fn(Object) -> bool,
) -> bool {
    match key_position(old, key) {
        Some(i) => new.len() == old.len() && (forall|j: int|
            0 <= j < old.len() && j != i ==> new[j] == old[j]) && new[i].0 == old[i].0 && p(new[i].1),
        None => new.len() == old.len() + 1 && new.take(old.len() as int) == old && new.last().0@
            == key && p(new.last().1),
    }
}

/// A name object with these bytes.
pub open spec fn is_name_value(n: Seq<u8>) -> spec_fn(Object) -> bool {
    |o: Object| o is Name && o->Name_0@ == n
}

/// This integer object.
pub open spec fn is_integer_value(v: i64) -> spec_fn(Object) -> bool {
    |o: Object| o == Object::Integer(v)
}

/// An array of these objects.
pub open spec fn is_array_value(items: Seq<Object>) -> spec_fn(Object) -> bool {
    |o: Object| o is Array && o->Array_0@ == items
}

/// The field widths `[1 4 2]` of the rows of a cross-reference stream.
pub open spec fn field_widths() -> Seq<Object> {
    seq![Object::Integer(1), Object::Integer(4), Object::Integer(2)]
}

/// The integers of an `Index` array as objects.
pub open spec fn index_objects(e: spec_fn(int) -> Option<XrefEntry>, n: int) -> Seq<Object> {
    stream_index(e, n, n).map_values(|v: i64| Object::Integer(v))
}

/// The steps that turn the trailer into the dictionary of a
/// cross-reference stream, through the states `t1`..`t4`: `Type` `/XRef`,
/// `Size`, `W` `[1 4 2]`, `Index`, no `Filter`, and the `Length` of the
/// data, set in that order.
pub open spec fn xref_stream_steps(
    old: Seq<(Vec<u8>, Object)>,
    t1: Seq<(Vec<u8>, Object)>,
    t2: Seq<(Vec<u8>, Object)>,
    t3: Seq<(Vec<u8>, Object)>,
    t4: Seq<(Vec<u8>, Object)>,
    new: Seq<(Vec<u8>, Object)>,
    size: i64,
    index: Seq<Object>,
    length: i64,
) -> bool {
    &&& set_to(old, t1, key_type(), is_name_value(name_xref()))
    &&& set_to(t1, t2, key_size(), is_integer_value(size))
    &&& set_to(
        t2,
        t3,
        key_w(),
        is_array_value(field_widths()),
    )
    &&& set_to(t3, t4, key_index(), is_array_value(index))
    &&& set_to(
        dict_remove(t4, key_filter()),
        new,
        key_length(),
        is_integer_value(length),
    )
}

/// The trailer turned into the dictionary of a cross-reference stream (see
/// `xref_stream_steps`).
pub open spec fn xref_stream_dict(
    old: Seq<(Vec<u8>, Object)>,
    new: Seq<(Vec<u8>, Object)>,
    size: i64,
    index: Seq<Object>,
    length: i64,
) -> bool {
    exists|
        t1: Seq<(Vec<u8>, Object)>,
        t2: Seq<(Vec<u8>, Object)>,
        t3: Seq<(Vec<u8>, Object)>,
        t4: Seq<(Vec<u8>, Object)>,
    | #[trigger] xref_stream_steps(old, t1, t2, t3, t4, new, size, index, length)
}

/// A cross-reference stream as an indirect object of generation 0.
pub open spec fn stream_object_bytes(id: u32, dict: Dictionary, content: Seq<u8>) -> Seq<u8> {
    dec_digits(id as nat) + seq![32u8] + dec_digits(0) + kw_obj() + dictionary_bytes(dict)
        + kw_stream_start() + content + kw_stream_end() + kw_endobj()
}

/// How saving changes the document: the trailer gets the new `Size` (and,
/// for a cross-reference stream, becomes that stream's dictionary, whose
/// object number raises `max_id` by one); nothing else changes.
pub open spec fn saved_state(d: Document, d2: Document, xt: XrefType, base: int) -> bool {
    let e = body_entries(d.objects@, base + pdf_header(d).len());
    let start = base + pdf_header(d).len() + body_bytes(d.objects@, d.objects@.len() as int).len();
    &&& d2.version == d.version
    &&& d2.binary_mark == d.binary_mark
    &&& d2.objects == d.objects
    &&& d2.reference_table == d.reference_table
    &&& match xt {
        XrefType::CrossReferenceTable => {
            &&& d2.max_id == d.max_id
            &&& set_to(
                d.trailer.0@,
                d2.trailer.0@,
                key_size(),
                is_integer_value((d.max_id + 1) as i64),
            )
        },
        XrefType::CrossReferenceStream => {
            let id = d.max_id + 1;
            let e2 = with_entry(e, id, XrefEntry::Normal { offset: start as u32, generation: 0 });
            &&& d2.max_id == id
            &&& xref_stream_dict(
                d.trailer.0@,
                d2.trailer.0@,
                (id + 1) as i64,
                index_objects(e2, d.max_id + 2),
                stream_rows(e2, d.max_id + 2).len() as i64,
            )
        },
    }
}

/// The bytes a save writes, given the document before (`d`) and after
/// (`d2`) it, when `base` bytes precede them in the file: the header, the
/// written objects, the cross-reference section (a table and the trailer,
/// or a cross-reference stream object), and the `startxref` tail that
/// points at that section.
pub open spec fn saved_bytes(d: Document, d2: Document, xt: XrefType, base: int) -> Seq<u8> {
    let head = pdf_header(d);
    let body = body_bytes(d.objects@, d.objects@.len() as int);
    let e = body_entries(d.objects@, base + head.len());
    let start = base + head.len() + body.len();
    match xt {
        XrefType::CrossReferenceTable => head + body + xref_table_bytes(e, (d.max_id + 1) as u32)
            + kw_trailer() + dictionary_bytes(d2.trailer) + startxref_tail(start),
        XrefType::CrossReferenceStream => {
            let id = d.max_id + 1;
            let e2 = with_entry(e, id, XrefEntry::Normal { offset: start as u32, generation: 0 });
            head + body + stream_object_bytes(id as u32, d2.trailer, stream_rows(e2, d.max_id + 2))
                + startxref_tail(start)
        },
    }
}


/// Giving `key` a value that satisfies `p` through `dict_set` meets
/// `set_to`.
pub(crate) proof fn lemma_set_to(s: Seq<(Vec<u8>, Object)>, key: Vec<u8>, value: Object, p: spec_fn(Object) -> bool)
    requires
        p(value),
    ensures
        set_to(s, crate::object::dict_set(s, key, value), key@, p),
{
    let n = crate::object::dict_set(s, key, value);
    match key_position(s, key@) {
        Some(i) => {},
        None => {
            assert(n.take(s.len() as int) =~= s);
        },
    }
}

/// Whether a save writes this object (see `is_written`).
fn is_written_object(o: &Object) -> (r: bool)
    ensures
        r == is_written(*o),
{
    let t = match o {
        Object::Dictionary(d) => d.declared_type(),
        Object::Stream(s) => s.dict.declared_type(),
        _ => None,
    };
    match t {
        Some(n) => !(bytes_eq(n, &[79u8, 98, 106, 83, 116, 109]) || bytes_eq(n, &[88u8, 82, 101, 102])
            || bytes_eq(n, &[76u8, 105, 110, 101, 97, 114, 105, 122, 101, 100])),
        None => true,
    }
}

/// One object id comes before another: by object number, then by
/// generation.
pub open spec fn id_before(a: ObjectId, b: ObjectId) -> bool {
    a.0 < b.0 || (a.0 == b.0 && a.1 < b.1)
}

/// The objects are kept by strictly increasing id, so that each id occurs
/// at most once, as in a map ordered by id.
pub open spec fn objects_in_order(s: Seq<(ObjectId, Object)>) -> bool {
    forall|i: int, j: int| 0 <= i < j < s.len() ==> id_before(s[i].0, s[j].0)
}

impl Document {
    /// The invariant of a document: its objects are ordered by id, each id
    /// once.
    pub open spec fn wf(&self) -> bool {
        objects_in_order(self.objects@)
    }

    /// Whether the objects are ordered by id, each id once.
    pub fn objects_ordered(&self) -> (r: bool)
        ensures
            r == self.wf(),
    {
        let n = self.objects.len();
        if n == 0 {
            return true;
        }
        let mut k: usize = 1;
        while k < n
            invariant
                n == self.objects@.len(),
                1 <= k <= n,
                forall|i: int, j: int| 0 <= i < j < k ==> id_before(self.objects@[i].0, self.objects@[j].0),
            decreases n - k,
        {
            let a = self.objects[k - 1].0;
            let b = self.objects[k].0;
            if !(a.0 < b.0 || (a.0 == b.0 && a.1 < b.1)) {
                assert(!id_before(self.objects@[k - 1].0, self.objects@[k as int].0));
                return false;
            }
            assert forall|i: int, j: int| 0 <= i < j < k + 1 implies id_before(
                self.objects@[i].0,
                self.objects@[j].0,
            ) by {
                if j == k && i < k - 1 {
                    assert(id_before(self.objects@[i].0, self.objects@[k - 1].0));
                }
            }
            k = k + 1;
        }
        true
    }

    /// An empty document of version 1.4.
    pub fn new() -> (r: Document)
        ensures
            r.wf(),
            r.objects@.len() == 0,
            r.max_id == 0,
            r.trailer.0@.len() == 0,
            r.binary_mark@ == seq![187u8, 173u8, 192u8, 222u8],
            r.reference_table.entries@.len() == 0,
            r.reference_table.cross_reference_type == XrefType::CrossReferenceTable,
    {
        Document {
            version: "1.4".to_owned(),
            binary_mark: vec![187u8, 173, 192, 222],
            objects: Vec::new(),
            max_id: 0,
            trailer: Dictionary::new(),
            reference_table: Xref::new(0, XrefType::CrossReferenceTable),
        }
    }

    /// An empty document of the given version.
    pub fn with_version(version: &str) -> (r: Document)
        ensures
            r.wf(),
            r.version@ == version@,
            r.objects@.len() == 0,
            r.max_id == 0,
            r.trailer.0@.len() == 0,
            r.binary_mark@ == seq![187u8, 173u8, 192u8, 222u8],
            r.reference_table.entries@.len() == 0,
            r.reference_table.cross_reference_type == XrefType::CrossReferenceTable,
    {
        let mut d = Document::new();
        d.version = version.to_owned();
        d
    }

    /// A fresh object id: one more than the largest object number, which
    /// becomes the largest; generation 0.
    pub fn new_object_id(&mut self) -> (r: ObjectId)
        requires
            old(self).max_id < u32::MAX,
        ensures
            final(self).max_id == old(self).max_id + 1,
            r == (final(self).max_id, 0u16),
            final(self).version == old(self).version,
            final(self).binary_mark == old(self).binary_mark,
            final(self).objects == old(self).objects,
            final(self).trailer == old(self).trailer,
            final(self).reference_table == old(self).reference_table,
    {
        self.max_id = self.max_id + 1;
        (self.max_id, 0)
    }

    /// Whether the trailer names an encryption dictionary.
    pub fn is_encrypted(&self) -> (r: bool)
        ensures
            r == (key_position(self.trailer.0@, key_encrypt()) is Some),
    {
        self.trailer.has(&[69u8, 110, 99, 114, 121, 112, 116])
    }

    /// Writes `trailer` and the trailer dictionary, its `Size` set to one
    /// more than the largest object number.
    fn write_trailer(&mut self, file: &mut Vec<u8>)
        requires
            old(self).max_id < u32::MAX,
        ensures
            set_to(
                old(self).trailer.0@,
                final(self).trailer.0@,
                key_size(),
                is_integer_value((old(self).max_id + 1) as i64),
            ),
            final(self).version == old(self).version,
            final(self).binary_mark == old(self).binary_mark,
            final(self).objects == old(self).objects,
            final(self).reference_table == old(self).reference_table,
            final(self).max_id == old(self).max_id,
            final(file)@ == old(file)@ + kw_trailer() + dictionary_bytes(final(self).trailer),
    {
        let size: i64 = (self.max_id + 1) as i64;
        let key: Vec<u8> = vec![83u8, 105, 122, 101];
        proof {
            lemma_set_to(
                self.trailer.0@,
                key,
                Object::Integer(size),
                is_integer_value(size),
            );
        }
        self.trailer.set(key, Object::Integer(size));
        file.extend_from_slice(&[116u8, 114, 97, 105, 108, 101, 114, 10]);
        Writer::write_dictionary(file, &self.trailer);
    }

    /// Writes the cross-reference stream: a new object, numbered one more
    /// than the largest so far, at position `xref_start`, whose dictionary is
    /// the trailer with `Type`, `Size`, `W`, `Index` and `Length` set (and no
    /// `Filter`), and whose data are the rows of `xref` with its own entry.
    /// The trailer keeps that dictionary.
    fn write_cross_reference_stream(&mut self, file: &mut Vec<u8>, xref: &mut Xref, xref_start: u32)
        requires
            old(self).max_id < u32::MAX - 1,
            old(xref).wf(),
            old(xref).size == old(self).max_id + 1,
            xref_start == old(file)@.len() as u32,
        ensures
            ({
                let id = old(self).max_id + 1;
                let e2 = with_entry(
                    entries_fn(old(xref).entries@),
                    id,
                    XrefEntry::Normal { offset: xref_start, generation: 0 },
                );
                &&& final(self).max_id == id
                &&& xref_stream_dict(
                    old(self).trailer.0@,
                    final(self).trailer.0@,
                    (id + 1) as i64,
                    index_objects(e2, old(self).max_id + 2),
                    stream_rows(e2, old(self).max_id + 2).len() as i64,
                )
                &&& final(file)@ == old(file)@ + stream_object_bytes(
                    id as u32,
                    final(self).trailer,
                    stream_rows(e2, old(self).max_id + 2),
                )
            }),
            final(self).version == old(self).version,
            final(self).binary_mark == old(self).binary_mark,
            final(self).objects == old(self).objects,
            final(self).reference_table == old(self).reference_table,
            final(xref).wf(),
            final(xref).size == old(xref).size,
            final(xref).cross_reference_type == old(xref).cross_reference_type,
            forall|k: int|
                #[trigger] final(xref).spec_get(k) == if k == old(self).max_id + 1 {
                    Some(XrefEntry::Normal { offset: xref_start, generation: 0 })
                } else {
                    old(xref).spec_get(k)
                },
    {
        let ghost t0 = self.trailer.0@;
        let ghost e0 = entries_fn(xref.entries@);
        self.max_id = self.max_id + 1;
        let new_obj_id_for_crs = self.max_id;
        xref.insert(new_obj_id_for_crs, XrefEntry::Normal { offset: xref_start, generation: 0 });
        let ghost e2 = with_entry(
            e0,
            new_obj_id_for_crs as int,
            XrefEntry::Normal { offset: xref_start, generation: 0 },
        );
        assert forall|i: int| #[trigger] entries_fn(xref.entries@)(i) == e2(i) by {
            assert(xref.spec_get(i) == entries_fn(xref.entries@)(i));
        }
        assert(entries_fn(xref.entries@) =~= e2);
        let type_value = Object::Name(vec![88u8, 82, 101, 102]);
        let type_key: Vec<u8> = vec![84u8, 121, 112, 101];
        proof {
            lemma_set_to(t0, type_key, type_value, is_name_value(name_xref()));
        }
        self.trailer.set(type_key, type_value);
        let ghost t1 = self.trailer.0@;
        let size: i64 = (self.max_id + 1) as i64;
        let size_key: Vec<u8> = vec![83u8, 105, 122, 101];
        proof {
            lemma_set_to(t1, size_key, Object::Integer(size), is_integer_value(size));
        }
        self.trailer.set(size_key, Object::Integer(size));
        let ghost t2 = self.trailer.0@;
        let w_value = Object::Array(vec![Object::Integer(1), Object::Integer(4), Object::Integer(2)]);
        let w_key: Vec<u8> = vec![87u8];
        assert(w_key@ == key_w());
        assert(w_value->Array_0@ == field_widths());
        proof {
            lemma_set_to(
                t2,
                w_key,
                w_value,
                is_array_value(field_widths()),
            );
        }
        self.trailer.set(w_key, w_value);
        let ghost t3 = self.trailer.0@;
        let filter = XRefStreamFilter::NoFilter;
        let (stream, stream_length, indexes) = Writer::create_xref_stream(xref, filter);
        let ghost index = index_objects(e2, old(self).max_id + 2);
        assert(indexes->Array_0@ =~= index);
        let index_key: Vec<u8> = vec![73u8, 110, 100, 101, 120];
        proof {
            lemma_set_to(t3, index_key, indexes, is_array_value(index));
        }
        self.trailer.set(index_key, indexes);
        let ghost t4 = self.trailer.0@;
        if filter == XRefStreamFilter::ASCIIHexDecode {
            self.trailer.set(
                vec![70u8, 105, 108, 116, 101, 114],
                Object::Name(vec![65u8, 83, 67, 73, 73, 72, 101, 120, 68, 101, 99, 111, 100, 101]),
            );
        } else {
            self.trailer.remove(&[70u8, 105, 108, 116, 101, 114]);
        }
        let ghost t5 = self.trailer.0@;
        let length: i64 = stream_length as i64;
        let length_key: Vec<u8> = vec![76u8, 101, 110, 103, 116, 104];
        proof {
            lemma_set_to(t5, length_key, Object::Integer(length), is_integer_value(length));
        }
        self.trailer.set(length_key, Object::Integer(length));
        assert(t5 == dict_remove(t4, key_filter()));
        assert(set_to(t0, t1, key_type(), is_name_value(name_xref())));
        assert(set_to(t1, t2, key_size(), is_integer_value(size)));
        assert(set_to(
            t2,
            t3,
            key_w(),
            is_array_value(field_widths()),
        ));
        assert(set_to(t3, t4, key_index(), is_array_value(index)));
        assert(set_to(t5, self.trailer.0@, key_length(), is_integer_value(length)));
        assert(set_to(dict_remove(t4, key_filter()), self.trailer.0@, key_length(), is_integer_value(length)));
        assert(xref_stream_steps(
            t0,
            t1,
            t2,
            t3,
            t4,
            self.trailer.0@,
            size,
            index,
            length,
        ));
        // The stream object carries the trailer as its dictionary; take the
        // trailer back once it is written.
        let mut dict = Dictionary::new();
        core::mem::swap(&mut dict, &mut self.trailer);
        let ghost dict_view = dict;
        let cross_reference_stream = Object::Stream(
            Stream { dict, allows_compression: true, content: stream, start_position: None },
        );
        Writer::write_indirect_object(file, new_obj_id_for_crs, 0, &cross_reference_stream, xref);
        match cross_reference_stream {
            Object::Stream(st) => {
                self.trailer = st.dict;
            },
            _ => {},
        }
        assert(self.trailer == dict_view);
    }

    /// Writes every written object as an indirect object, in order, and
    /// records in `xref` where each starts.
    fn write_body(&self, out: &mut Vec<u8>, xref: &mut Xref)
        requires
            old(xref).wf(),
            old(xref).entries@.len() == 0,
        ensures
            final(out)@ == old(out)@ + body_bytes(self.objects@, self.objects@.len() as int),
            final(xref).wf(),
            final(xref).size == old(xref).size,
            final(xref).cross_reference_type == old(xref).cross_reference_type,
            entries_fn(final(xref).entries@) == body_entries(self.objects@, old(out)@.len() as int),
    {
        let ghost objs = self.objects@;
        let ghost head_end = out@.len() as int;
        assert(entries_fn(xref.entries@) =~= (|i: int| body_lookup(objs, 0, head_end, i)));
        let n = self.objects.len();
        let mut k: usize = 0;
        while k < n
            invariant
                objs == self.objects@,
                n == objs.len(),
                k <= n,
                out@ == old(out)@ + body_bytes(objs, k as int),
                head_end == old(out)@.len(),
                xref.wf(),
                xref.size == old(xref).size,
                xref.cross_reference_type == old(xref).cross_reference_type,
                entries_fn(xref.entries@) == (|i: int| body_lookup(objs, k as int, head_end, i)),
            decreases n - k,
        {
            let entry = &self.objects[k];
            let id = entry.0.0;
            let generation = entry.0.1;
            if is_written_object(&entry.1) {
                let ghost before = entries_fn(xref.entries@);
                Writer::write_indirect_object(out, id, generation, &entry.1, xref);
                assert forall|i: int| #[trigger] entries_fn(xref.entries@)(i) == body_lookup(
                    objs,
                    k + 1,
                    head_end,
                    i,
                ) by {
                    assert(xref.spec_get(i) == entries_fn(xref.entries@)(i));
                    assert(before(i) == body_lookup(objs, k as int, head_end, i));
                }
            } else {
                assert forall|i: int| #[trigger] entries_fn(xref.entries@)(i) == body_lookup(
                    objs,
                    k + 1,
                    head_end,
                    i,
                ) by {
                    assert((|i: int| body_lookup(objs, k as int, head_end, i))(i) == body_lookup(
                        objs,
                        k as int,
                        head_end,
                        i,
                    ));
                }
            }
            assert(entries_fn(xref.entries@) =~= (|i: int| body_lookup(objs, k + 1, head_end, i)));
            k = k + 1;
        }
        assert(entries_fn(xref.entries@) =~= body_entries(objs, head_end));
    }

    /// Writes one revision of the document after `old(out)`: the header,
    /// every written object (recording where it starts), the
    /// cross-reference section of the given kind, and the `startxref` tail.
    /// Positions count the bytes already in `out`. An invalid binary mark
    /// stops the save after the version line.
    #[verifier::rlimit(60)]
    fn write_revision(&mut self, out: &mut Vec<u8>, xref_type: XrefType) -> (r: Result<(), Error>)
        requires
            xref_type == XrefType::CrossReferenceTable ==> old(self).max_id < u32::MAX,
            xref_type == XrefType::CrossReferenceStream ==> old(self).max_id < u32::MAX - 1,
        ensures
            r is Ok <==> mark_valid(old(self).binary_mark@),
            r is Ok ==> saved_state(*old(self), *final(self), xref_type, old(out)@.len() as int),
            r is Ok ==> final(out)@ == old(out)@ + saved_bytes(
                *old(self),
                *final(self),
                xref_type,
                old(out)@.len() as int,
            ),
            r is Err ==> *final(self) == *old(self),
            r is Err ==> r == Err::<(), Error>(Error::InvalidBinaryMark),
            r is Err ==> final(out)@ == old(out)@ + version_line(*old(self)),
    {
        let ghost d = *self;
        let ghost base = out@.len() as int;
        let mut xref = Xref::new(self.max_id + 1, xref_type);
        out.extend_from_slice(&[37u8, 80, 68, 70, 45]);
        out.extend_from_slice(self.version.as_str().as_bytes());
        out.push(10u8);
        match Writer::write_binary_mark(out, self.binary_mark.as_slice()) {
            Ok(()) => {},
            Err(e) => {
                return Err(e);
            },
        }
        let ghost head_end = base + pdf_header(d).len();
        assert(out@ == old(out)@ + pdf_header(d));
        let ghost objs = d.objects@;
        self.write_body(out, &mut xref);
        let xref_start = out.len();
        match xref.cross_reference_type {
            XrefType::CrossReferenceTable => {
                Writer::write_xref(out, &xref);
                self.write_trailer(out);
            },
            XrefType::CrossReferenceStream => {
                self.write_cross_reference_stream(out, &mut xref, xref_start as u32);
            },
        }
        out.extend_from_slice(&[10u8, 115, 116, 97, 114, 116, 120, 114, 101, 102, 10]);
        push_decimal(out, xref_start as u64);
        out.extend_from_slice(&[10u8, 37, 37, 69, 79, 70]);
        Ok(())
    }

    /// Saves the whole document after what `target` already holds; the
    /// positions it records count from the start of what it writes.
    pub fn save_to(&mut self, target: &mut Vec<u8>) -> (r: Result<(), Error>)
        requires
            old(self).wf(),
            old(self).reference_table.cross_reference_type == XrefType::CrossReferenceTable
                ==> old(self).max_id < u32::MAX,
            old(self).reference_table.cross_reference_type == XrefType::CrossReferenceStream
                ==> old(self).max_id < u32::MAX - 1,
        ensures
            r is Ok <==> mark_valid(old(self).binary_mark@),
            r is Ok ==> saved_state(
                *old(self),
                *final(self),
                old(self).reference_table.cross_reference_type,
                0,
            ),
            r is Ok ==> final(target)@ == old(target)@ + saved_bytes(
                *old(self),
                *final(self),
                old(self).reference_table.cross_reference_type,
                0,
            ),
            r is Err ==> *final(self) == *old(self),
            r is Err ==> r == Err::<(), Error>(Error::InvalidBinaryMark),
            r is Err ==> final(target)@ == old(target)@ + version_line(*old(self)),
    {
        let mut out: Vec<u8> = Vec::new();
        let xref_type = self.reference_table.cross_reference_type;
        let r = self.save_internal(&mut out, xref_type);
        target.append(&mut out);
        r
    }

    fn save_internal(&mut self, out: &mut Vec<u8>, xref_type: XrefType) -> (r: Result<(), Error>)
        requires
            old(out)@.len() == 0,
            xref_type == XrefType::CrossReferenceTable ==> old(self).max_id < u32::MAX,
            xref_type == XrefType::CrossReferenceStream ==> old(self).max_id < u32::MAX - 1,
        ensures
            r is Ok <==> mark_valid(old(self).binary_mark@),
            r is Ok ==> saved_state(*old(self), *final(self), xref_type, 0),
            r is Ok ==> final(out)@ == saved_bytes(*old(self), *final(self), xref_type, 0),
            r is Err ==> *final(self) == *old(self),
            r is Err ==> r == Err::<(), Error>(Error::InvalidBinaryMark),
            r is Err ==> final(out)@ == version_line(*old(self)),
    {
        let r = self.write_revision(out, xref_type);
        assert(old(out)@ + version_line(*old(self)) =~= version_line(*old(self)));
        proof {
            if r is Ok {
                assert(old(out)@ + saved_bytes(*old(self), *final(self), xref_type, 0) =~= saved_bytes(
                    *old(self),
                    *final(self),
                    xref_type,
                    0,
                ));
            }
        }
        r
    }
}

/// A newline when the earlier bytes do not already end with one.
pub open spec fn separator_line(prev: Seq<u8>) -> Seq<u8> {
    if prev.len() > 0 && prev.last() != 10 {
        seq![10u8]
    } else {
        Seq::empty()
    }
}

impl IncrementalDocument {
    /// The bytes of the earlier revisions.
    pub fn get_prev_documents_bytes(&self) -> (r: &[u8])
        ensures
            r@ == self.bytes_documents@,
    {
        self.bytes_documents.as_slice()
    }

    /// Saves the earlier revisions, a newline if they do not end with one,
    /// and the new revision, whose positions count from the start of the
    /// earlier bytes and whose cross-reference section has the kind of the
    /// earlier revisions'.
    pub fn save_to(&mut self, target: &mut Vec<u8>) -> (r: Result<(), Error>)
        requires
            old(self).new_document.wf(),
            old(self).prev_documents.reference_table.cross_reference_type
                == XrefType::CrossReferenceTable ==> old(self).new_document.max_id < u32::MAX,
            old(self).prev_documents.reference_table.cross_reference_type
                == XrefType::CrossReferenceStream ==> old(self).new_document.max_id < u32::MAX - 1,
        ensures
            final(self).bytes_documents == old(self).bytes_documents,
            final(self).prev_documents == old(self).prev_documents,
            r is Ok <==> mark_valid(old(self).new_document.binary_mark@),
            r is Ok ==> saved_state(
                old(self).new_document,
                final(self).new_document,
                old(self).prev_documents.reference_table.cross_reference_type,
                (old(self).bytes_documents@.len() + separator_line(old(self).bytes_documents@).len()) as int,
            ),
            r is Ok ==> final(target)@ == old(target)@ + old(self).bytes_documents@ + separator_line(
                old(self).bytes_documents@,
            ) + saved_bytes(
                old(self).new_document,
                final(self).new_document,
                old(self).prev_documents.reference_table.cross_reference_type,
                (old(self).bytes_documents@.len() + separator_line(old(self).bytes_documents@).len()) as int,
            ),
            r is Err ==> final(self).new_document == old(self).new_document,
            r is Err ==> r == Err::<(), Error>(Error::InvalidBinaryMark),
            r is Err ==> final(target)@ == old(target)@ + old(self).bytes_documents@
                + separator_line(old(self).bytes_documents@) + version_line(old(self).new_document),
    {
        let mut out: Vec<u8> = Vec::new();
        let r = self.save_internal(&mut out);
        target.append(&mut out);
        r
    }

    fn save_internal(&mut self, out: &mut Vec<u8>) -> (r: Result<(), Error>)
        requires
            old(out)@.len() == 0,
            old(self).prev_documents.reference_table.cross_reference_type
                == XrefType::CrossReferenceTable ==> old(self).new_document.max_id < u32::MAX,
            old(self).prev_documents.reference_table.cross_reference_type
                == XrefType::CrossReferenceStream ==> old(self).new_document.max_id < u32::MAX - 1,
        ensures
            final(self).bytes_documents == old(self).bytes_documents,
            final(self).prev_documents == old(self).prev_documents,
            r is Ok <==> mark_valid(old(self).new_document.binary_mark@),
            r is Ok ==> saved_state(
                old(self).new_document,
                final(self).new_document,
                old(self).prev_documents.reference_table.cross_reference_type,
                (old(self).bytes_documents@.len() + separator_line(old(self).bytes_documents@).len()) as int,
            ),
            r is Ok ==> final(out)@ == old(self).bytes_documents@ + separator_line(
                old(self).bytes_documents@,
            ) + saved_bytes(
                old(self).new_document,
                final(self).new_document,
                old(self).prev_documents.reference_table.cross_reference_type,
                (old(self).bytes_documents@.len() + separator_line(old(self).bytes_documents@).len()) as int,
            ),
            r is Err ==> final(self).new_document == old(self).new_document,
            r is Err ==> r == Err::<(), Error>(Error::InvalidBinaryMark),
            r is Err ==> final(out)@ == old(self).bytes_documents@ + separator_line(
                old(self).bytes_documents@,
            ) + version_line(old(self).new_document),
    {
        // Write previous document versions.
        let prev_document_bytes = self.get_prev_documents_bytes();
        out.extend_from_slice(prev_document_bytes);
        let n = prev_document_bytes.len();
        if n > 0 && prev_document_bytes[n - 1] != 10 {
            // Add a newline if it was not already present
            out.push(10u8);
        }
        let ghost prefix = out@;
        assert(prefix =~= self.bytes_documents@ + separator_line(self.bytes_documents@));
        let xref_type = self.prev_documents.reference_table.cross_reference_type;
        self.new_document.write_revision(out, xref_type)
    }
}

/// `Encrypt`
pub open spec fn key_encrypt() -> Seq<u8> {
    seq![69u8, 110u8, 99u8, 114u8, 121u8, 112u8, 116u8]
}

} // verus!
