use vstd::prelude::*;

use crate::decimal::{dec_digits, push_decimal, push_decimal_padded, zero_padded};
use crate::object::Object;
use crate::writer::{hex_body, Writer};
use crate::xref::{lookup, Xref, XrefEntry};

verus! {

// ---------------------------------------------------------------------------
// Cross-reference table
// ---------------------------------------------------------------------------
/// `xref\n`
pub open spec fn kw_xref() -> Seq<u8> {
    seq![120u8, 114u8, 101u8, 102u8, 10u8]
}

/// One 20-byte line of a cross-reference table:
/// `oooooooooo ggggg k \n` (offset, generation, `n` or `f`).
pub open spec fn table_line(offset: nat, generation: nat, kind: u8) -> Seq<u8> {
    zero_padded(dec_digits(offset), 10) + seq![32u8] + zero_padded(dec_digits(generation), 5)
        + seq![32u8, kind, 32u8, 10u8]
}

/// The line of a free entry that may not be reused (generation 65535).
pub open spec fn unusable_line() -> Seq<u8> {
    table_line(0, 65535, 102u8)
}

/// Object numbers that have a line in the table: object 0, which is always
/// the head of the free list, and every number the section holds.
pub open spec fn table_present(e: spec_fn(int) -> Option<XrefEntry>, i: int) -> bool {
    i == 0 || e(i) is Some
}

/// The line of an object number in the table.
pub open spec fn table_entry_line(e: spec_fn(int) -> Option<XrefEntry>, i: int) -> Seq<u8> {
    if i == 0 {
        unusable_line()
    } else {
        match e(i) {
            Some(XrefEntry::Normal { offset, generation }) => table_line(
                offset as nat,
                generation as nat,
                110u8,
            ),
            Some(XrefEntry::Free) => table_line(0, 0, 102u8),
            _ => unusable_line(),
        }
    }
}

/// The first number at or after `s` (and before `n`) without a line.
pub open spec fn table_run_end(e: spec_fn(int) -> Option<XrefEntry>, s: int, n: int) -> int
    decreases n - s,
{
    if s >= n || !table_present(e, s) {
        s
    } else {
        table_run_end(e, s + 1, n)
    }
}

/// Each run of consecutive numbers with lines is a subsection: a header
/// `first count` then the lines. The part that number `i` contributes.
pub open spec fn table_piece(e: spec_fn(int) -> Option<XrefEntry>, i: int, n: int) -> Seq<u8> {
    (if table_present(e, i) && (i == 0 || !table_present(e, i - 1)) {
        dec_digits(i as nat) + seq![32u8] + dec_digits((table_run_end(e, i, n) - i) as nat) + seq![
            10u8,
        ]
    } else {
        Seq::empty()
    }) + (if table_present(e, i) {
        table_entry_line(e, i)
    } else {
        Seq::empty()
    })
}

/// What the numbers below `k` contribute, in order.
pub open spec fn table_prefix(e: spec_fn(int) -> Option<XrefEntry>, k: int, n: int) -> Seq<u8>
    decreases k,
{
    if k <= 0 {
        Seq::empty()
    } else {
        table_prefix(e, k - 1, n) + table_piece(e, k - 1, n)
    }
}

/// The numbers a table covers: below the section's size, and at least 0.
pub open spec fn table_end(size: u32) -> int {
    if size == 0 {
        1
    } else {
        size as int
    }
}

/// The entries of a section as a function from object numbers.
pub open spec fn entries_fn(e: Seq<(u32, XrefEntry)>) -> spec_fn(int) -> Option<XrefEntry> {
    |i: int| lookup(e, i)
}

/// A cross-reference table as written, for the entries `e` and a section
/// of the given size.
pub open spec fn xref_table_bytes(e: spec_fn(int) -> Option<XrefEntry>, size: u32) -> Seq<u8> {
    kw_xref() + table_prefix(e, table_end(size), table_end(size))
}

// ---------------------------------------------------------------------------
// Cross-reference stream
// ---------------------------------------------------------------------------
/// The filter applied to the data of a cross-reference stream.
#[derive(Debug, PartialEq, Eq, Clone, Copy, Structural)]
pub enum XRefStreamFilter {
    ASCIIHexDecode,
    _FlateDecode,
    NoFilter,
}

/// Four bytes, most significant first.
pub open spec fn be4(v: nat) -> Seq<u8> {
    seq![
        ((v / 16777216) % 256) as u8,
        ((v / 65536) % 256) as u8,
        ((v / 256) % 256) as u8,
        (v % 256) as u8,
    ]
}

/// Two bytes, most significant first.
pub open spec fn be2(v: nat) -> Seq<u8> {
    seq![((v / 256) % 256) as u8, (v % 256) as u8]
}

/// One 7-byte row of a cross-reference stream (field widths 1, 4, 2):
/// type 0 for a free entry (object number, then generation 0 or 65535),
/// type 1 for an object in use (offset, generation), type 2 for an object
/// inside an object stream (container, index).
pub open spec fn stream_row(id: int, entry: XrefEntry) -> Seq<u8> {
    match entry {
        XrefEntry::Free => seq![0u8] + be4(id as nat) + seq![0u8, 0u8],
        XrefEntry::UnusableFree => seq![0u8] + be4(id as nat) + seq![255u8, 255u8],
        XrefEntry::Normal { offset, generation } => seq![1u8] + be4(offset as nat) + be2(
            generation as nat,
        ),
        XrefEntry::Compressed { container, index } => seq![2u8] + be4(container as nat) + be2(
            index as nat,
        ),
    }
}

/// The first number at or after `s` (and before `n`) without an entry.
pub open spec fn stream_run_end(e: spec_fn(int) -> Option<XrefEntry>, s: int, n: int) -> int
    decreases n - s,
{
    if s >= n || e(s) is None {
        s
    } else {
        stream_run_end(e, s + 1, n)
    }
}

/// The rows of the numbers from 1 up to (not including) `k`, in order.
pub open spec fn stream_rows(e: spec_fn(int) -> Option<XrefEntry>, k: int) -> Seq<u8>
    decreases k,
{
    if k <= 1 {
        Seq::empty()
    } else {
        stream_rows(e, k - 1) + match e(k - 1) {
            Some(entry) => stream_row(k - 1, entry),
            None => Seq::empty(),
        }
    }
}

/// The `Index` array: for each run of consecutive numbers with entries,
/// its first number and its length, for the numbers from 1 below `k`.
pub open spec fn stream_index(e: spec_fn(int) -> Option<XrefEntry>, k: int, n: int) -> Seq<i64>
    decreases k,
{
    if k <= 1 {
        Seq::empty()
    } else {
        let i = k - 1;
        stream_index(e, i, n) + if e(i) is Some && (i == 1 || e(i - 1) is None) {
            seq![i as i64, (stream_run_end(e, i, n) - i) as i64]
        } else {
            Seq::empty()
        }
    }
}


fn push_table_line(file: &mut Vec<u8>, offset: u32, generation: u16, kind: u8)
    ensures
        final(file)@ == old(file)@ + table_line(offset as nat, generation as nat, kind),
{
    push_decimal_padded(file, offset as u64, 10);
    file.push(32u8);
    push_decimal_padded(file, generation as u64, 5);
    file.push(32u8);
    file.push(kind);
    file.push(32u8);
    file.push(10u8);
}

/// Whether number `i` has a line in the table.
fn table_has(xref: &Xref, i: u32) -> (r: bool)
    requires
        xref.wf(),
    ensures
        r == table_present(entries_fn(xref.entries@), i as int),
{
    i == 0 || xref.get(i).is_some()
}

impl Writer {
    /// Writes a cross-reference table: `xref`, then one subsection per run
    /// of consecutive object numbers (object 0 always heads the first),
    /// each a header `first count` and one 20-byte line per number.
    pub fn write_xref(file: &mut Vec<u8>, xref: &Xref)
        requires
            xref.wf(),
        ensures
            final(file)@ == old(file)@ + xref_table_bytes(entries_fn(xref.entries@), xref.size),
    {
        file.extend_from_slice(&[120u8, 114, 101, 102, 10]);
        let n: u32 = if xref.size == 0 {
            1
        } else {
            xref.size
        };
        let ghost e = entries_fn(xref.entries@);
        let mut i: u32 = 0;
        while i < n
            invariant
                xref.wf(),
                e == entries_fn(xref.entries@),
                n as int == table_end(xref.size),
                i <= n,
                file@ == old(file)@ + kw_xref() + table_prefix(e, i as int, n as int),
            decreases n - i,
        {
            let here = table_has(xref, i);
            if here && (i == 0 || !table_has(xref, i - 1)) {
                let mut j: u32 = i;
                while j < n && table_has(xref, j)
                    invariant
                        xref.wf(),
                        e == entries_fn(xref.entries@),
                        i <= j <= n,
                        table_run_end(e, i as int, n as int) == table_run_end(e, j as int, n as int),
                    decreases n - j,
                {
                    j = j + 1;
                }
                push_decimal(file, i as u64);
                file.push(32u8);
                push_decimal(file, (j - i) as u64);
                file.push(10u8);
            }
            if here {
                if i == 0 {
                    push_table_line(file, 0, 65535, 102u8);
                } else {
                    match xref.get(i) {
                        Some(XrefEntry::Normal { offset, generation }) => {
                            push_table_line(file, offset, generation, 110u8);
                        },
                        Some(XrefEntry::Free) => {
                            push_table_line(file, 0, 0, 102u8);
                        },
                        _ => {
                            push_table_line(file, 0, 65535, 102u8);
                        },
                    }
                }
            }
            i = i + 1;
        }
    }

    /// Builds the data of a cross-reference stream for the numbers 1 to the
    /// section's size: the 7-byte rows of the numbers that have entries, in
    /// order; the length of those rows; and the `Index` array, a first number
    /// and a length for each run of consecutive numbers. With
    /// `ASCIIHexDecode` the rows are given as upper-case hex digits; the
    /// length stays that of the rows.
    pub fn create_xref_stream(xref: &Xref, filter: XRefStreamFilter) -> (r: (
        Vec<u8>,
        usize,
        Object,
    ))
        requires
            xref.wf(),
            xref.size < u32::MAX,
        ensures
            r.0@ == if filter == XRefStreamFilter::ASCIIHexDecode {
                hex_body(stream_rows(entries_fn(xref.entries@), xref.size + 1))
            } else {
                stream_rows(entries_fn(xref.entries@), xref.size + 1)
            },
            r.1 == stream_rows(entries_fn(xref.entries@), xref.size + 1).len(),
            r.2 is Array,
            r.2->Array_0@.len() == stream_index(entries_fn(xref.entries@), xref.size + 1, xref.size + 1).len(),
            forall|k: int|
                0 <= k < r.2->Array_0@.len() ==> r.2->Array_0@[k] == Object::Integer(
                    stream_index(entries_fn(xref.entries@), xref.size + 1, xref.size + 1)[k],
                ),
    {
        let n: u32 = xref.size + 1;
        let ghost e = entries_fn(xref.entries@);
        let mut rows: Vec<u8> = Vec::new();
        let mut index: Vec<Object> = Vec::new();
        let mut i: u32 = 1;
        while i < n
            invariant
                xref.wf(),
                e == entries_fn(xref.entries@),
                n == xref.size + 1,
                1 <= i <= n,
                rows@ == stream_rows(e, i as int),
                index@.len() == stream_index(e, i as int, n as int).len(),
                forall|k: int|
                    0 <= k < index@.len() ==> index@[k] == Object::Integer(
                        stream_index(e, i as int, n as int)[k],
                    ),
            decreases n - i,
        {
            let ghost si = stream_index(e, i as int, n as int);
            match xref.get(i) {
                Some(entry) => {
                    if i == 1 || xref.get(i - 1).is_none() {
                        let mut j: u32 = i;
                        while j < n && xref.get(j).is_some()
                            invariant
                                xref.wf(),
                                e == entries_fn(xref.entries@),
                                i <= j <= n,
                                stream_run_end(e, i as int, n as int) == stream_run_end(
                                    e,
                                    j as int,
                                    n as int,
                                ),
                            decreases n - j,
                        {
                            j = j + 1;
                        }
                        index.push(Object::Integer(i as i64));
                        index.push(Object::Integer((j - i) as i64));
                    }
                    push_stream_row(&mut rows, i, entry);
                },
                None => {},
            }
            proof {
                let si2 = stream_index(e, i + 1, n as int);
                assert(si2.len() == index@.len());
                assert forall|k: int| 0 <= k < index@.len() implies index@[k] == Object::Integer(
                    si2[k],
                ) by {
                    if k < si.len() {
                        assert(si2[k] == si[k]);
                    }
                }
            }
            i = i + 1;
        }
        let stream_length = rows.len();
        if filter == XRefStreamFilter::ASCIIHexDecode {
            let mut hex: Vec<u8> = Vec::new();
            let m = rows.len();
            let mut k: usize = 0;
            while k < m
                invariant
                    m == rows@.len(),
                    k <= m,
                    hex@ == hex_body(rows@.take(k as int)),
                decreases m - k,
            {
                let b = rows[k];
                let hi: u8 = b / 16;
                let lo: u8 = b % 16;
                hex.push(if hi < 10 { 48 + hi } else { 55 + hi });
                hex.push(if lo < 10 { 48 + lo } else { 55 + lo });
                assert(rows@.take(k + 1).drop_last() =~= rows@.take(k as int));
                k = k + 1;
            }
            assert(rows@.take(m as int) =~= rows@);
            (hex, stream_length, Object::Array(index))
        } else {
            (rows, stream_length, Object::Array(index))
        }
    }
}

fn push_be4(out: &mut Vec<u8>, v: u32)
    ensures
        final(out)@ == old(out)@ + be4(v as nat),
{
    out.push((v / 16777216) as u8);
    out.push(((v / 65536) % 256) as u8);
    out.push(((v / 256) % 256) as u8);
    out.push((v % 256) as u8);
}

fn push_stream_row(out: &mut Vec<u8>, id: u32, entry: XrefEntry)
    ensures
        final(out)@ == old(out)@ + stream_row(id as int, entry),
{
    match entry {
        XrefEntry::Free => {
            out.push(0u8);
            push_be4(out, id);
            out.push(0u8);
            out.push(0u8);
        },
        XrefEntry::UnusableFree => {
            out.push(0u8);
            push_be4(out, id);
            out.push(255u8);
            out.push(255u8);
        },
        XrefEntry::Normal { offset, generation } => {
            out.push(1u8);
            push_be4(out, offset);
            out.push((generation / 256) as u8);
            out.push((generation % 256) as u8);
        },
        XrefEntry::Compressed { container, index } => {
            out.push(2u8);
            push_be4(out, container);
            out.push((index / 256) as u8);
            out.push((index % 256) as u8);
        },
    }
}

} // verus!
