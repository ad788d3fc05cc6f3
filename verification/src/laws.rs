use vstd::prelude::*;

use crate::decimal::dec_digits;
use crate::document::{
    xref_stream_steps, is_integer_value, key_size, saved_state, set_to, body_bytes, body_entries, body_lookup, is_written, pdf_header, saved_bytes, startxref_tail,
    Document,
};
use crate::writer::{paren_depth, unbalanced_open, hex_digit, kw_obj, literal_body, literal_escaped, literal_piece, name_body, name_byte, name_needs_escape};
use crate::overwrite_document::{refreshed_stream_dict, replaced};
use crate::startxref::{
    eof_position, kw_eof, kw_startxref, last_occurrence, occurs_at, offset_end, startxref_position,
    startxref_rewrite, with_startxref,
};
use crate::xref_writer::{kw_xref, stream_index, stream_rows, stream_run_end};
use crate::object::{dict_remove, dict_set, dict_value, first_key_at, key_position, Object, ObjectId};
use crate::writer::{entries_bytes, indirect_object_bytes, items_bytes, name_bytes, object_bytes, string_bytes};
use crate::xref::{XrefEntry, XrefType};
use crate::text::{is_op, next_text_index, spec_is_text_operation, style_scan, Operation, StyleScan};

verus! {

/// Where the `j`-th object's indirect object starts, counting from the end
/// of the header.
pub open spec fn object_start(objs: Seq<(ObjectId, Object)>, j: int) -> int {
    body_bytes(objs, j).len() as int
}

/// The `j`-th object as an indirect object.
pub open spec fn object_bytes_at(objs: Seq<(ObjectId, Object)>, j: int) -> Seq<u8> {
    indirect_object_bytes(objs[j].0.0, objs[j].0.1, objs[j].1)
}

/// `s` holds `b` from position `p` on.
pub open spec fn holds_at(s: Seq<u8>, p: int, b: Seq<u8>) -> bool {
    0 <= p && p + b.len() <= s.len() && s.subrange(p, p + b.len()) == b
}

/// The entry a save records for the `j`-th object.
pub open spec fn recorded_entry(objs: Seq<(ObjectId, Object)>, base: int, j: int) -> XrefEntry {
    XrefEntry::Normal { offset: (base + object_start(objs, j)) as u32, generation: objs[j].0.1 }
}

/// `entry`, found for number `i` among the first `k` objects, comes from the
/// `j`-th object, written with that number, whose bytes stand where the
/// entry says.
pub open spec fn entry_source(
    objs: Seq<(ObjectId, Object)>,
    k: int,
    base: int,
    i: int,
    entry: XrefEntry,
    j: int,
) -> bool {
    &&& 0 <= j < k
    &&& objs[j].0.0 == i
    &&& is_written(objs[j].1)
    &&& entry == recorded_entry(objs, base, j)
    &&& holds_at(body_bytes(objs, k), object_start(objs, j), object_bytes_at(objs, j))
}

/// The bytes written for the first `k` objects extend those written for
/// the first `j`.
proof fn lemma_body_prefix(objs: Seq<(ObjectId, Object)>, j: int, k: int)
    requires
        0 <= j <= k <= objs.len(),
    ensures
        body_bytes(objs, k).len() >= body_bytes(objs, j).len(),
        body_bytes(objs, k).subrange(0, body_bytes(objs, j).len() as int) == body_bytes(objs, j),
    decreases k - j,
{
    if j < k {
        lemma_body_prefix(objs, j, k - 1);
        let a = body_bytes(objs, j);
        let b = body_bytes(objs, k - 1);
        let c = body_bytes(objs, k);
        assert(c.subrange(0, b.len() as int) =~= b);
        assert(c.subrange(0, a.len() as int) =~= b.subrange(0, a.len() as int));
    }
}

/// What `s` holds at `p` it still holds when `s` is extended.
proof fn lemma_holds_in_extension(s: Seq<u8>, t: Seq<u8>, p: int, b: Seq<u8>)
    requires
        holds_at(s, p, b),
        s.len() <= t.len(),
        t.subrange(0, s.len() as int) == s,
    ensures
        holds_at(t, p, b),
{
    assert forall|x: int| 0 <= x < b.len() implies t[p + x] == b[x] by {
        assert(t.subrange(0, s.len() as int)[p + x] == t[p + x]);
        assert(s.subrange(p, p + b.len())[x] == s[p + x]);
    }
    assert(t.subrange(p, p + b.len()) =~= b);
}

/// An entry found among the first `k` objects comes from a written object
/// with that number, whose indirect object starts at the recorded offset.
proof fn lemma_body_lookup(objs: Seq<(ObjectId, Object)>, k: int, base: int, i: int)
    requires
        0 <= k <= objs.len(),
    ensures
        (body_lookup(objs, k, base, i) matches Some(entry) ==> exists|j: int|
            #[trigger] entry_source(objs, k, base, i, entry, j)),
    decreases k,
{
    if k > 0 {
        lemma_body_lookup(objs, k - 1, base, i);
        let j = k - 1;
        if is_written(objs[j].1) && objs[j].0.0 == i {
            let b = body_bytes(objs, j);
            let ind = object_bytes_at(objs, j);
            assert(body_bytes(objs, k) == b + ind);
            assert((b + ind).subrange(b.len() as int, (b.len() + ind.len()) as int) =~= ind);
            assert(entry_source(objs, k, base, i, body_lookup(objs, k, base, i)->Some_0, j));
        } else {
            match body_lookup(objs, k, base, i) {
                Some(entry) => {
                    let j0 = choose|j0: int| #[trigger] entry_source(objs, k - 1, base, i, entry, j0);
                    lemma_body_prefix(objs, k - 1, k);
                    lemma_holds_in_extension(
                        body_bytes(objs, k - 1),
                        body_bytes(objs, k),
                        object_start(objs, j0),
                        object_bytes_at(objs, j0),
                    );
                    assert(entry_source(objs, k, base, i, entry, j0));
                },
                None => {},
            }
        }
    }
}

/// Every entry of the cross-reference section of a saved document points
/// at its object: the entry of object number `i` belongs to a written
/// object with that number and generation, and the file (the `prefix`
/// written before the revision, then the revision) holds that object's
/// indirect object (`i gen obj` .. `endobj`) at the entry's offset (the
/// offset is that position, kept in 32 bits).
pub proof fn law_xref_offsets_point_at_objects(
    prefix: Seq<u8>,
    d: Document,
    d2: Document,
    xt: XrefType,
    i: int,
)
    ensures
        ({
            let base = prefix.len() as int;
            let e = body_entries(d.objects@, base + pdf_header(d).len());
            e(i) matches Some(entry) ==> exists|j: int|
                #[trigger] entry_source(
                    d.objects@,
                    d.objects@.len() as int,
                    base + pdf_header(d).len(),
                    i,
                    entry,
                    j,
                ) && holds_at(
                    prefix + saved_bytes(d, d2, xt, base),
                    base + pdf_header(d).len() + object_start(d.objects@, j),
                    object_bytes_at(d.objects@, j),
                )
        }),
{
    let objs = d.objects@;
    let head = pdf_header(d);
    let base = prefix.len() as int;
    let n = objs.len() as int;
    lemma_body_lookup(objs, n, base + head.len(), i);
    match body_entries(objs, base + head.len())(i) {
        Some(entry) => {
            let j = choose|j: int| #[trigger] entry_source(objs, n, base + head.len(), i, entry, j);
            let ind = object_bytes_at(objs, j);
            let s = object_start(objs, j);
            let body = body_bytes(objs, n);
            let out = prefix + saved_bytes(d, d2, xt, base);
            let saved = saved_bytes(d, d2, xt, base);
            let rest = saved.subrange((head.len() + body.len()) as int, saved.len() as int);
            assert(out =~= prefix + head + body + rest);
            assert forall|x: int| 0 <= x < ind.len() implies out[base + head.len() + s + x]
                == ind[x] by {
                assert(body.subrange(s, s + ind.len())[x] == body[s + x]);
                assert(out[base + head.len() + s + x] == (prefix + head + body + rest)[base
                    + head.len() + s + x]);
            }
            assert(out.subrange(base + head.len() + s, base + head.len() + s + ind.len()) =~= ind);
        },
        None => {},
    }
}

/// The `startxref` tail of a saved revision points at its cross-reference
/// section: the file (the `prefix`, then the revision) ends with
/// `startxref`, the position where the section starts, and `%%EOF`; at that
/// position stands `xref` for a table, or the header `n 0 obj` of the
/// cross-reference stream object, numbered one past the largest object
/// number.
pub proof fn law_startxref_points_at_section(prefix: Seq<u8>, d: Document, d2: Document, xt: XrefType)
    requires
        xt == XrefType::CrossReferenceStream ==> d.max_id < u32::MAX - 1,
    ensures
        ({
            let base = prefix.len() as int;
            let start = base + pdf_header(d).len() + body_bytes(d.objects@, d.objects@.len() as int).len();
            let out = prefix + saved_bytes(d, d2, xt, base);
            let tail = startxref_tail(start);
            &&& holds_at(out, out.len() - tail.len(), tail)
            &&& xt == XrefType::CrossReferenceTable ==> holds_at(out, start, kw_xref())
            &&& xt == XrefType::CrossReferenceStream ==> holds_at(
                out,
                start,
                dec_digits((d.max_id + 1) as nat) + seq![32u8] + dec_digits(0) + kw_obj(),
            )
        }),
{
    let base = prefix.len() as int;
    let head = pdf_header(d);
    let body = body_bytes(d.objects@, d.objects@.len() as int);
    let start = base + head.len() + body.len();
    let saved = saved_bytes(d, d2, xt, base);
    let out = prefix + saved;
    let tail = startxref_tail(start);
    let mid = saved.subrange((head.len() + body.len()) as int, saved.len() - tail.len());
    assert(out =~= prefix + head + body + mid + tail);
    assert(out.subrange(out.len() - tail.len(), out.len() as int) =~= tail);
    let pre = prefix + head + body;
    assert(pre.len() == start);
    if xt == XrefType::CrossReferenceTable {
        let w = kw_xref();
        assert forall|x: int| 0 <= x < w.len() implies out[start + x] == w[x] by {
            assert(mid[x] == w[x]);
        }
        assert(out.subrange(start, start + w.len()) =~= w);
    } else {
        let w = dec_digits((d.max_id + 1) as nat) + seq![32u8] + dec_digits(0) + kw_obj();
        assert forall|x: int| 0 <= x < w.len() implies out[start + x] == w[x] by {
            assert(mid[x] == w[x]);
        }
        assert(out.subrange(start, start + w.len()) =~= w);
    }
}


// ---------------------------------------------------------------------------
// Reading back what the writer escapes
// ---------------------------------------------------------------------------
/// The value of a hexadecimal digit (either case).
pub open spec fn hex_value(c: u8) -> int {
    if 48 <= c <= 57 {
        c - 48
    } else if 65 <= c <= 70 {
        c - 55
    } else if 97 <= c <= 102 {
        c - 87
    } else {
        0
    }
}

/// The bytes of a name as a reader takes them: `#` and two hex digits stand
/// for one byte.
pub open spec fn name_unescape(s: Seq<u8>) -> Seq<u8>
    decreases s.len(),
{
    if s.len() == 0 {
        Seq::empty()
    } else if s[0] == 35 && s.len() >= 3 {
        seq![(hex_value(s[1]) * 16 + hex_value(s[2])) as u8] + name_unescape(s.skip(3))
    } else {
        seq![s[0]] + name_unescape(s.skip(1))
    }
}

/// The byte a backslash sequence of a literal string stands for: `\n`,
/// `\r`, `\t`, `\b`, `\f` for the control characters, any other byte (as in
/// `\\`, `\(`, `\)`) for itself. (Octal escapes are not read here; the writer
/// writes none.)
pub open spec fn escaped_byte(c: u8) -> u8 {
    if c == 110 {
        10
    } else if c == 114 {
        13
    } else if c == 116 {
        9
    } else if c == 98 {
        8
    } else if c == 102 {
        12
    } else {
        c
    }
}

/// The bytes of a literal string's body as a reader takes them: a
/// backslash before an end of line (carriage return, line feed, or both) is
/// a line continuation and stands for nothing.
pub open spec fn literal_unescape(s: Seq<u8>) -> Seq<u8>
    decreases s.len(),
{
    if s.len() == 0 {
        Seq::empty()
    } else if s[0] == 92 && s.len() >= 3 && s[1] == 13 && s[2] == 10 {
        literal_unescape(s.skip(3))
    } else if s[0] == 92 && s.len() >= 2 && (s[1] == 10 || s[1] == 13) {
        literal_unescape(s.skip(2))
    } else if s[0] == 92 && s.len() >= 2 {
        seq![escaped_byte(s[1])] + literal_unescape(s.skip(2))
    } else {
        seq![s[0]] + literal_unescape(s.skip(1))
    }
}

proof fn lemma_literal_unescape_prefix(t: Seq<u8>, n: int, rest: Seq<u8>)
    requires
        0 <= n <= t.len(),
    ensures
        literal_unescape(literal_body(t, n) + rest) == t.subrange(0, n) + literal_unescape(rest),
    decreases n,
{
    if n == 0 {
        assert(literal_body(t, 0) + rest =~= rest);
        assert(t.subrange(0, 0) + literal_unescape(rest) =~= literal_unescape(rest));
    } else {
        let piece = literal_piece(t, n - 1);
        let s = piece + rest;
        assert(literal_body(t, n) + rest =~= literal_body(t, n - 1) + s);
        lemma_literal_unescape_prefix(t, n - 1, s);
        if literal_escaped(t, n - 1) {
            assert(s.skip(2) =~= rest);
        } else {
            assert(s.skip(1) =~= rest);
        }
        assert(literal_unescape(s) == seq![t[n - 1]] + literal_unescape(rest));
        assert(t.subrange(0, n - 1) + (seq![t[n - 1]] + literal_unescape(rest)) =~= t.subrange(0, n)
            + literal_unescape(rest));
    }
}

/// A literal string reads back as it was: undoing the writer's backslash
/// escapes gives the original bytes.
pub proof fn law_literal_string_reads_back(t: Seq<u8>)
    ensures
        literal_unescape(literal_body(t, t.len() as int)) == t,
{
    lemma_literal_unescape_prefix(t, t.len() as int, Seq::empty());
    assert(literal_body(t, t.len() as int) + Seq::<u8>::empty() =~= literal_body(t, t.len() as int));
    assert(t.subrange(0, t.len() as int) + literal_unescape(Seq::<u8>::empty()) =~= t);
}

proof fn lemma_name_body_front(n: Seq<u8>)
    requires
        n.len() > 0,
    ensures
        name_body(n) == name_byte(n[0]) + name_body(n.skip(1)),
    decreases n.len(),
{
    if n.len() > 1 {
        lemma_name_body_front(n.drop_last());
        assert(n.drop_last().skip(1) =~= n.skip(1).drop_last());
        assert(n.drop_last()[0] == n[0]);
        assert(n.skip(1).last() == n.last());
        let a = name_byte(n[0]);
        let m = name_body(n.drop_last().skip(1));
        let z = name_byte(n.last());
        assert(name_body(n) == name_body(n.drop_last()) + z);
        assert(name_body(n.skip(1)) == name_body(n.skip(1).drop_last()) + name_byte(n.skip(1).last()));
        assert(name_body(n) =~= a + (m + z));
    } else {
        assert(n.skip(1).len() == 0);
        assert(n.drop_last().len() == 0);
        assert(name_body(n.drop_last()) =~= Seq::<u8>::empty());
        assert(name_body(n.skip(1)) =~= Seq::<u8>::empty());
        assert(name_body(n) =~= name_byte(n[0]) + name_body(n.skip(1)));
    }
}

proof fn lemma_hex_roundtrip(b: u8)
    ensures
        hex_value(hex_digit(b / 16)) * 16 + hex_value(hex_digit(b % 16)) == b,
{
}

/// A name reads back as it was: undoing the writer's `#` escapes gives the
/// original bytes.
pub proof fn law_name_reads_back(n: Seq<u8>)
    ensures
        name_unescape(name_body(n)) == n,
    decreases n.len(),
{
    if n.len() == 0 {
        assert(name_body(n) =~= Seq::<u8>::empty());
    } else {
        lemma_name_body_front(n);
        law_name_reads_back(n.skip(1));
        let b = n[0];
        let rest = name_body(n.skip(1));
        let s = name_byte(b) + rest;
        if name_needs_escape(b) {
            lemma_hex_roundtrip(b);
            assert(s.skip(3) =~= rest);
        } else {
            assert(s.skip(1) =~= rest);
        }
        assert(seq![b] + n.skip(1) =~= n);
    }
}


/// A byte that can stand in a written name as it is: a regular character
/// from `!` to `~`, or the `#` that starts an escape.
pub open spec fn name_safe(b: u8) -> bool {
    33 <= b <= 126 && (!name_needs_escape(b) || b == 35)
}

/// A written name holds only regular characters: white-space, delimiters
/// and bytes outside `!`..=`~` never appear as they are.
pub proof fn law_name_bytes_are_regular(n: Seq<u8>)
    ensures
        forall|i: int| 0 <= i < name_body(n).len() ==> name_safe(#[trigger] name_body(n)[i]),
    decreases n.len(),
{
    if n.len() > 0 {
        law_name_bytes_are_regular(n.drop_last());
        let a = name_body(n.drop_last());
        let b = name_byte(n.last());
        assert(name_body(n) == a + b);
        assert forall|i: int| 0 <= i < b.len() implies name_safe(#[trigger] b[i]) by {
            let x = n.last();
            if name_needs_escape(x) {
                assert(b == seq![35u8] + seq![hex_digit(x / 16), hex_digit(x % 16)]);
            }
        }
        assert forall|i: int| 0 <= i < name_body(n).len() implies name_safe(
            #[trigger] name_body(n)[i],
        ) by {
            if i < a.len() {
                assert(name_body(n)[i] == a[i]);
            } else {
                assert(name_body(n)[i] == b[i - a.len()]);
            }
        }
    }
}

// ---------------------------------------------------------------------------
// Parentheses of literal strings
// ---------------------------------------------------------------------------
/// Whether a reader, going through the body of a literal string with `d`
/// parentheses open, finds every `)` it meets (outside a backslash escape)
/// closing an open `(`, and none left open at the end: the string then ends
/// exactly at the writer's closing parenthesis.
pub open spec fn parens_balanced_from(s: Seq<u8>, d: int) -> bool
    decreases s.len(),
{
    if s.len() == 0 {
        d == 0
    } else if s[0] == 92 && s.len() >= 2 {
        parens_balanced_from(s.skip(2), d)
    } else if s[0] == 40 {
        parens_balanced_from(s.skip(1), d + 1)
    } else if s[0] == 41 {
        d > 0 && parens_balanced_from(s.skip(1), d - 1)
    } else {
        parens_balanced_from(s.skip(1), d)
    }
}

/// The parentheses the writer leaves unescaped among the first `k` bytes:
/// opening ones count one up, closing ones one down.
pub open spec fn kept_balance(t: Seq<u8>, k: int) -> int
    decreases k,
{
    if k <= 0 {
        0
    } else {
        kept_balance(t, k - 1) + if literal_escaped(t, k - 1) {
            0
        } else if t[k - 1] == 40 {
            1
        } else if t[k - 1] == 41 {
            -1
        } else {
            0
        }
    }
}

/// The least nesting depth from position `k` to the end.
pub open spec fn suffix_min_depth(t: Seq<u8>, k: int) -> int
    decreases t.len() - k,
{
    if k >= t.len() {
        paren_depth(t, t.len() as int) as int
    } else {
        let rest = suffix_min_depth(t, k + 1);
        if (paren_depth(t, k) as int) < rest {
            paren_depth(t, k) as int
        } else {
            rest
        }
    }
}

proof fn lemma_suffix_min_bounds(t: Seq<u8>, k: int)
    requires
        0 <= k <= t.len(),
    ensures
        forall|m: int| k <= m <= t.len() ==> suffix_min_depth(t, k) <= paren_depth(t, m),
        exists|m: int| k <= m <= t.len() && suffix_min_depth(t, k) == paren_depth(t, m),
        suffix_min_depth(t, k) >= 0,
    decreases t.len() - k,
{
    if k < t.len() {
        lemma_suffix_min_bounds(t, k + 1);
        if (paren_depth(t, k) as int) < suffix_min_depth(t, k + 1) {
            assert(k <= k <= t.len() && suffix_min_depth(t, k) == paren_depth(t, k));
        } else {
            let m = choose|m: int| k + 1 <= m <= t.len() && suffix_min_depth(t, k + 1) == paren_depth(t, m);
            assert(k <= m <= t.len() && suffix_min_depth(t, k) == paren_depth(t, m));
        }
    } else {
        assert(k <= k <= t.len() && suffix_min_depth(t, k) == paren_depth(t, k));
    }
}

/// The kept parentheses so far are the nesting depth less the least depth
/// still to come.
proof fn lemma_kept_balance(t: Seq<u8>, k: int)
    requires
        0 <= k <= t.len(),
    ensures
        kept_balance(t, k) == paren_depth(t, k) - suffix_min_depth(t, k),
    decreases k,
{
    lemma_suffix_min_bounds(t, k);
    if k == 0 {
        assert(paren_depth(t, 0) == 0);
    } else {
        let j = k - 1;
        lemma_kept_balance(t, j);
        lemma_suffix_min_bounds(t, j);
        let dj = paren_depth(t, j) as int;
        assert(paren_depth(t, k) == crate::writer::paren_step(t[j], paren_depth(t, j)));
        if unbalanced_open(t, j) {
            assert forall|m: int| k <= m <= t.len() implies paren_depth(t, m) >= dj + 1 by {
                assert(paren_depth(t, m) > paren_depth(t, j));
            }
            let w = choose|m: int| k <= m <= t.len() && suffix_min_depth(t, k) == paren_depth(t, m);
            assert(suffix_min_depth(t, k) == dj + 1);
        } else if t[j] == 40 {
            let m = choose|m: int| j < m <= t.len() && paren_depth(t, m) <= paren_depth(t, j);
            assert(suffix_min_depth(t, k) <= dj);
        } else {
            assert(suffix_min_depth(t, k) <= paren_depth(t, k));
        }
    }
}

proof fn lemma_reader_follows(t: Seq<u8>, n: int, rest: Seq<u8>)
    requires
        0 <= n <= t.len(),
        forall|j: int| 0 <= j <= n ==> kept_balance(t, j) >= 0,
    ensures
        parens_balanced_from(crate::writer::literal_body(t, n) + rest, 0) == parens_balanced_from(
            rest,
            kept_balance(t, n),
        ),
    decreases n,
{
    if n == 0 {
        assert(literal_body(t, 0) + rest =~= rest);
    } else {
        let piece = literal_piece(t, n - 1);
        let s = piece + rest;
        assert(literal_body(t, n) + rest =~= literal_body(t, n - 1) + s);
        lemma_reader_follows(t, n - 1, s);
        if literal_escaped(t, n - 1) {
            assert(s.skip(2) =~= rest);
        } else {
            assert(s.skip(1) =~= rest);
        }
    }
}

/// The parentheses of a written literal string are balanced as a reader
/// sees them: every unescaped `)` closes an unescaped `(`, and none is left
/// open, so the string ends at the writer's closing parenthesis.
pub proof fn law_literal_string_parentheses_balance(t: Seq<u8>)
    ensures
        parens_balanced_from(literal_body(t, t.len() as int), 0),
{
    assert forall|j: int| 0 <= j <= t.len() implies kept_balance(t, j) >= 0 by {
        lemma_kept_balance(t, j);
        lemma_suffix_min_bounds(t, j);
    }
    lemma_kept_balance(t, t.len() as int);
    lemma_suffix_min_bounds(t, t.len() as int);
    lemma_reader_follows(t, t.len() as int, Seq::empty());
    assert(literal_body(t, t.len() as int) + Seq::<u8>::empty() =~= literal_body(t, t.len() as int));
}


// ---------------------------------------------------------------------------
// Cross-reference streams
// ---------------------------------------------------------------------------
/// How many numbers from 1 below `k` have entries.
pub open spec fn entry_count(e: spec_fn(int) -> Option<XrefEntry>, k: int) -> int
    decreases k,
{
    if k <= 1 {
        0
    } else {
        entry_count(e, k - 1) + if e(k - 1) is Some {
            1int
        } else {
            0
        }
    }
}

/// The sum of the lengths in an `Index` array (its odd places).
pub open spec fn index_total(s: Seq<i64>) -> int
    decreases s.len(),
{
    if s.len() < 2 {
        0
    } else {
        index_total(s.subrange(0, s.len() - 2)) + s.last()
    }
}

proof fn lemma_rows_length(e: spec_fn(int) -> Option<XrefEntry>, k: int)
    ensures
        stream_rows(e, k).len() == 7 * entry_count(e, k),
    decreases k,
{
    if k > 1 {
        lemma_rows_length(e, k - 1);
    }
}

/// A run that starts at `i` adds its length to the count.
proof fn lemma_run_count(e: spec_fn(int) -> Option<XrefEntry>, i: int, n: int)
    requires
        1 <= i <= n,
    ensures
        i <= stream_run_end(e, i, n) <= n,
        entry_count(e, stream_run_end(e, i, n)) == entry_count(e, i) + (stream_run_end(e, i, n) - i),
    decreases n - i,
{
    if i < n && e(i) is Some {
        lemma_run_count(e, i + 1, n);
    }
}

proof fn lemma_index_total(e: spec_fn(int) -> Option<XrefEntry>, k: int, n: int)
    requires
        1 <= k <= n,
        n <= i64::MAX,
    ensures
        index_total(stream_index(e, k, n)) == entry_count(
            e,
            if k > 1 && e(k - 1) is Some {
                stream_run_end(e, k - 1, n)
            } else {
                k
            },
        ),
    decreases k,
{
    if k > 1 {
        let i = k - 1;
        lemma_index_total(e, i, n);
        let prev = stream_index(e, i, n);
        if e(i) is Some && (i == 1 || e(i - 1) is None) {
            let pair = seq![i as i64, (stream_run_end(e, i, n) - i) as i64];
            lemma_run_count(e, i, n);
            assert((prev + pair).subrange(0, (prev + pair).len() - 2) =~= prev);
            assert(stream_index(e, k, n) == prev + pair);
        } else {
            assert(stream_index(e, k, n) =~= prev);
            if e(i) is Some {
                assert(stream_run_end(e, i - 1, n) == stream_run_end(e, i, n));
            } else if i > 1 && e(i - 1) is Some {
                assert(stream_run_end(e, i - 1, n) == stream_run_end(e, i, n));
            }
        }
    }
}

/// The data of a cross-reference stream and its `Index` agree: one 7-byte
/// row per object number with an entry, and the lengths of the `Index`
/// runs add up to the number of rows.
pub proof fn law_xref_stream_index_covers_rows(e: spec_fn(int) -> Option<XrefEntry>, n: int)
    requires
        n >= 1,
        n <= i64::MAX,
    ensures
        stream_rows(e, n).len() == 7 * entry_count(e, n),
        index_total(stream_index(e, n, n)) == entry_count(e, n),
{
    lemma_rows_length(e, n);
    lemma_index_total(e, n, n);
    if n > 1 && e(n - 1) is Some {
        assert(stream_run_end(e, n - 1, n) == n) by {
            assert(stream_run_end(e, n, n) == n);
        }
    }
}


// ---------------------------------------------------------------------------
// Editing in place
// ---------------------------------------------------------------------------
proof fn lemma_last_occurrence(s: Seq<u8>, pat: Seq<u8>, q: int, i: int)
    requires
        occurs_at(s, pat, q),
        q <= i,
    ensures
        last_occurrence(s, pat, i) matches Some(x) && q <= x <= i && occurs_at(s, pat, x),
    decreases i + 1,
{
    if !occurs_at(s, pat, i) {
        lemma_last_occurrence(s, pat, q, i - 1);
    }
}

/// A pattern found in `s` is found at the shifted place in `s` with a part
/// before it replaced.
proof fn lemma_occurs_after_replace(
    old: Seq<u8>,
    x: Seq<u8>,
    start: int,
    end: int,
    pat: Seq<u8>,
    q: int,
)
    requires
        0 <= start <= end <= q,
        end <= old.len(),
        occurs_at(old, pat, q),
    ensures
        occurs_at(replaced(old, x, start, end), pat, q - end + start + x.len()),
{
    let b1 = replaced(old, x, start, end);
    let q1 = q - end + start + x.len();
    assert forall|k: int| 0 <= k < pat.len() implies b1[q1 + k] == pat[k] by {
        assert(old.subrange(q, q + pat.len())[k] == old[q + k]);
    }
    assert(b1.subrange(q1, q1 + pat.len()) =~= pat);
}

/// Where the rewritten `startxref` number goes in a buffer whose part from
/// `start` to `end` was replaced by `x`, when the old buffer has a
/// `startxref` after `end` and a `%%EOF` after that: after the new part.
proof fn lemma_rewrite_after_section(old: Seq<u8>, x: Seq<u8>, start: int, end: int, q: int, e: int, v: int)
    requires
        0 <= start <= end <= q,
        q + 9 <= e,
        occurs_at(old, kw_startxref(), q),
        occurs_at(old, kw_eof(), e),
    ensures
        startxref_rewrite(replaced(old, x, start, end), v) matches Ok(b) ==> {
            let b1 = replaced(old, x, start, end);
            &&& b.len() >= start + x.len()
            &&& b.subrange(0, start + x.len()) == b1.subrange(0, start + x.len())
        },
{
    let b1 = replaced(old, x, start, end);
    let d = start + x.len() - end;
    lemma_occurs_after_replace(old, x, start, end, kw_startxref(), q);
    lemma_occurs_after_replace(old, x, start, end, kw_eof(), e);
    lemma_last_occurrence(b1, kw_eof(), e + d, b1.len() - 5);
    let eof = eof_position(b1)->Some_0;
    let t = b1.subrange(0, eof);
    assert(occurs_at(t, kw_startxref(), q + d)) by {
        assert(t.subrange(q + d, q + d + 9) =~= b1.subrange(q + d, q + d + 9));
    }
    lemma_last_occurrence(t, kw_startxref(), q + d, eof - 9);
    let sx = startxref_position(b1, eof)->Some_0;
    let p = sx + 10;
    let pend = offset_end(b1, p, eof);
    if p < pend {
        let b = with_startxref(b1, p, pend, v);
        assert(b.subrange(0, start + x.len()) =~= b1.subrange(0, start + x.len()));
    }
}

/// The bytes of a buffer with a part replaced.
proof fn lemma_replaced_bytes(s: Seq<u8>, data: Seq<u8>, a: int, z: int)
    requires
        0 <= a <= z <= s.len(),
    ensures
        replaced(s, data, a, z).len() == s.len() - (z - a) + data.len(),
        forall|i: int| 0 <= i < a ==> #[trigger] replaced(s, data, a, z)[i] == s[i],
        forall|k: int| 0 <= k < data.len() ==> #[trigger] replaced(s, data, a, z)[a + k] == data[k],
        forall|p: int|
            z <= p < s.len() ==> #[trigger] replaced(s, data, a, z)[p - z + a + data.len()] == s[p],
{
}

/// Replacing an object in place keeps everything else readable: the bytes
/// before it stay, the new object stands where the old one started, the
/// bytes between the old object's end and the cross-reference section move
/// by the change in length (as the section's moved offsets say), and the
/// rewritten section follows them.
///
/// `old` holds an object from `off` up to `end`, then the last
/// cross-reference section from `start` to `section_end`, after which come
/// `startxref` (at `q`) and `%%EOF` (at `e`). The section is replaced by
/// `x`, the `startxref` number rewritten to the section's new position
/// (giving `b`), then the object replaced by `new_obj` (giving `r`).
#[verifier::rlimit(40)]
pub proof fn law_object_update_moves_the_rest(
    old: Seq<u8>,
    off: int,
    end: int,
    start: int,
    section_end: int,
    q: int,
    e: int,
    x: Seq<u8>,
    new_obj: Seq<u8>,
    b: Seq<u8>,
    r: Seq<u8>,
)
    requires
        0 <= off <= end <= start <= section_end <= q,
        q + 9 <= e,
        occurs_at(old, kw_startxref(), q),
        occurs_at(old, kw_eof(), e),
        startxref_rewrite(
            replaced(old, x, start, section_end),
            start + new_obj.len() - (end - off),
        ) == Ok::<Seq<u8>, crate::error::Error>(b),
        r == replaced(b, new_obj, off, end),
    ensures
        r.subrange(0, off) == old.subrange(0, off),
        holds_at(r, off, new_obj),
        forall|p: int|
            end <= p < start ==> #[trigger] r[p + new_obj.len() - (end - off)] == old[p],
        holds_at(r, start + new_obj.len() - (end - off), x),
{
    let shift = new_obj.len() - (end - off);
    let b1 = replaced(old, x, start, section_end);
    lemma_rewrite_after_section(old, x, start, section_end, q, e, start + shift);
    let m = start + x.len();
    assert(b.subrange(0, m) == b1.subrange(0, m));
    assert forall|p: int| 0 <= p < m implies b[p] == b1[p] by {
        assert(b.subrange(0, m)[p] == b[p]);
        assert(b1.subrange(0, m)[p] == b1[p]);
    }
    lemma_replaced_bytes(old, x, start, section_end);
    lemma_replaced_bytes(b, new_obj, off, end);
    assert(r.subrange(0, off) =~= old.subrange(0, off));
    assert(r.subrange(off, off + new_obj.len()) =~= new_obj);
    assert forall|p: int| end <= p < start implies #[trigger] r[p + shift] == old[p] by {
        assert(r[p - end + off + new_obj.len()] == b[p]);
    }
    assert forall|k: int| 0 <= k < x.len() implies r[start + shift + k] == x[k] by {
        assert(r[(start + k) - end + off + new_obj.len()] == b[start + k]);
        assert(b1[start + k] == x[k]);
    }
    assert(r.subrange(start + shift, start + shift + x.len()) =~= x);
}


// ---------------------------------------------------------------------------
// Dictionaries
// ---------------------------------------------------------------------------
/// A dictionary gives back what was set: after `key` is set to `value`, its
/// value is `value`, and every other key keeps its value.
pub proof fn law_dictionary_set_then_get(
    s: Seq<(Vec<u8>, Object)>,
    key: Vec<u8>,
    value: Object,
    other: Seq<u8>,
)
    ensures
        dict_value(dict_set(s, key, value), key@) == Some(value),
        other != key@ ==> dict_value(dict_set(s, key, value), other) == dict_value(s, other),
{
    let t = dict_set(s, key, value);
    match key_position(s, key@) {
        Some(i) => {
            assert(first_key_at(t, key@, i));
            assert(forall|j: int| first_key_at(t, key@, j) ==> j == i);
        },
        None => {
            assert forall|j: int| 0 <= j < s.len() implies s[j].0@ != key@ by {
                if s[j].0@ == key@ {
                    lemma_first_exists(s, key@, j);
                }
            }
            assert(first_key_at(t, key@, s.len() as int));
            assert(forall|j: int| first_key_at(t, key@, j) ==> j == s.len());
        },
    }
    if other != key@ {
        match key_position(s, other) {
            Some(i) => {
                assert(first_key_at(t, other, i));
                assert(forall|j: int| first_key_at(t, other, j) ==> j == i);
            },
            None => {
                assert forall|j: int| 0 <= j < t.len() implies t[j].0@ != other by {
                    if j < s.len() && s[j].0@ == other {
                        lemma_first_exists(s, other, j);
                    }
                }
            },
        }
    }
}

/// A key that stands somewhere has a first position.
proof fn lemma_first_exists(s: Seq<(Vec<u8>, Object)>, key: Seq<u8>, j: int)
    requires
        0 <= j < s.len(),
        s[j].0@ == key,
    ensures
        key_position(s, key) is Some,
    decreases j,
{
    if exists|i: int| 0 <= i < j && s[i].0@ == key {
        let i = choose|i: int| 0 <= i < j && s[i].0@ == key;
        lemma_first_exists(s, key, i);
    } else {
        assert(first_key_at(s, key, j));
    }
}

/// A removed key is gone.
pub proof fn law_dictionary_remove(s: Seq<(Vec<u8>, Object)>, key: Seq<u8>)
    requires
        crate::object::keys_distinct(s),
    ensures
        dict_value(dict_remove(s, key), key) is None,
{
    let t = dict_remove(s, key);
    match key_position(s, key) {
        Some(i) => {
            assert forall|j: int| 0 <= j < t.len() implies t[j].0@ != key by {
                if j < i {
                    assert(t[j] == s[j]);
                } else {
                    assert(t[j] == s[j + 1]);
                }
            }
        },
        None => {
            assert forall|j: int| 0 <= j < s.len() implies s[j].0@ != key by {
                if s[j].0@ == key {
                    lemma_first_exists(s, key, j);
                }
            }
        },
    }
}


// ---------------------------------------------------------------------------
// Saving again
// ---------------------------------------------------------------------------
/// After `key` was given a value satisfying `p`, the key stands, first, at
/// a place whose value satisfies `p`.
proof fn lemma_set_to_position(
    t0: Seq<(Vec<u8>, Object)>,
    t1: Seq<(Vec<u8>, Object)>,
    key: Seq<u8>,
    p: spec_fn(Object) -> bool,
)
    requires
        set_to(t0, t1, key, p),
    ensures
        key_position(t1, key) matches Some(i) && 0 <= i < t1.len() && p(t1[i].1),
{
    match key_position(t0, key) {
        Some(i) => {
            assert(first_key_at(t0, key, i));
            assert(first_key_at(t1, key, i));
            assert forall|j: int| first_key_at(t1, key, j) implies j == i by {
                if j < i {
                    assert(t1[j] == t0[j]);
                } else if j > i {
                    assert(t1[i].0@ == key);
                }
            }
        },
        None => {
            let n = t0.len() as int;
            assert forall|j: int| 0 <= j < n implies t1[j].0@ != key by {
                assert(t1.take(n)[j] == t1[j]);
                if t0[j].0@ == key {
                    lemma_first_exists(t0, key, j);
                }
            }
            assert(first_key_at(t1, key, n));
            assert forall|j: int| first_key_at(t1, key, j) implies j == n by {
                if j > n {
                    assert(false);
                }
            }
        },
    }
}

/// Giving `key` the integer value it already has changes nothing.
proof fn lemma_set_same_integer(
    t0: Seq<(Vec<u8>, Object)>,
    t1: Seq<(Vec<u8>, Object)>,
    t2: Seq<(Vec<u8>, Object)>,
    key: Seq<u8>,
    v: i64,
)
    requires
        set_to(t0, t1, key, is_integer_value(v)),
        set_to(t1, t2, key, is_integer_value(v)),
    ensures
        t2 == t1,
{
    lemma_set_to_position(t0, t1, key, is_integer_value(v));
    let i = key_position(t1, key)->Some_0;
    assert(t2[i].1 == t1[i].1);
    assert(t2 =~= t1);
}

/// Saving a document whose cross-reference section is a table is
/// repeatable: the first save leaves the largest object number as it was,
/// and saving the saved document again writes the same bytes and leaves
/// its trailer as it was.
pub proof fn law_table_save_is_repeatable(d: Document, d2: Document, d3: Document)
    requires
        saved_state(d, d2, XrefType::CrossReferenceTable, 0),
        saved_state(d2, d3, XrefType::CrossReferenceTable, 0),
    ensures
        d2.max_id == d.max_id,
        d3.trailer.0@ == d2.trailer.0@,
        saved_bytes(d2, d3, XrefType::CrossReferenceTable, 0) == saved_bytes(
            d,
            d2,
            XrefType::CrossReferenceTable,
            0,
        ),
{
    lemma_set_same_integer(
        d.trailer.0@,
        d2.trailer.0@,
        d3.trailer.0@,
        key_size(),
        (d.max_id + 1) as i64,
    );
}

// ---------------------------------------------------------------------------
// The next text after a text object
// ---------------------------------------------------------------------------
/// No `ET` among the operators from `a` up to `b`.
pub open spec fn no_et_between(ops: Seq<Operation>, a: int, b: int) -> bool {
    forall|m: int| a <= m < b ==> !is_op(#[trigger] ops[m], seq!['E', 'T'])
}

/// Neither `ET` nor a text-showing operator from `a` up to `b`.
pub open spec fn plain_between(ops: Seq<Operation>, a: int, b: int) -> bool {
    forall|m: int|
        a <= m < b ==> !is_op(#[trigger] ops[m], seq!['E', 'T']) && !spec_is_text_operation(ops[m])
}

/// `j` is the first `ET` from `start` on, and `i` the first text-showing
/// operator after it, with no `ET` between them.
pub open spec fn text_after_et(ops: Seq<Operation>, start: int, j: int, i: int) -> bool {
    &&& start <= j < i < ops.len()
    &&& is_op(ops[j], seq!['E', 'T'])
    &&& no_et_between(ops, start, j)
    &&& plain_between(ops, j + 1, i)
    &&& spec_is_text_operation(ops[i])
}

proof fn lemma_et_not_text(op: Operation)
    requires
        is_op(op, seq!['E', 'T']),
    ensures
        !spec_is_text_operation(op),
{
    assert(seq!['E', 'T'][0] != seq!['T', 'j'][0]);
    assert(seq!['E', 'T'][0] != seq!['T', 'J'][0]);
}

/// Past an `ET`, the search finds the first text-showing operator before
/// the next `ET`.
proof fn lemma_search_after_et(ops: Seq<Operation>, k: int, i: int)
    requires
        0 <= k,
    ensures
        next_text_index(ops, k, true) == Some(i) <==> (k <= i < ops.len() && spec_is_text_operation(
            ops[i],
        ) && plain_between(ops, k, i)),
    decreases ops.len() - k,
{
    if k < ops.len() {
        lemma_search_after_et(ops, k + 1, i);
        if is_op(ops[k], seq!['E', 'T']) {
            lemma_et_not_text(ops[k]);
        } else if !spec_is_text_operation(ops[k]) {
            if plain_between(ops, k + 1, i) {
                assert(plain_between(ops, k, i));
            }
        }
    }
}

/// The search for the next text: the first `ET` from `start` on, then the
/// first text-showing operator after it; nothing when a second `ET` comes
/// first or when either is missing.
pub proof fn law_next_text_search(ops: Seq<Operation>, start: int, i: int)
    requires
        0 <= start,
    ensures
        next_text_index(ops, start, false) == Some(i) <==> exists|j: int|
            #[trigger] text_after_et(ops, start, j, i),
    decreases ops.len() - start,
{
    if start >= ops.len() {
        assert forall|j: int| !#[trigger] text_after_et(ops, start, j, i) by {}
    } else if is_op(ops[start], seq!['E', 'T']) {
        lemma_search_after_et(ops, start + 1, i);
        if next_text_index(ops, start, false) == Some(i) {
            assert(text_after_et(ops, start, start, i));
        }
        assert forall|j: int| #[trigger] text_after_et(ops, start, j, i) implies next_text_index(
            ops,
            start,
            false,
        ) == Some(i) by {
            if j > start {
                assert(!is_op(ops[start], seq!['E', 'T']));
            }
        }
    } else {
        law_next_text_search(ops, start + 1, i);
        if next_text_index(ops, start, false) == Some(i) {
            let j = choose|j: int| #[trigger] text_after_et(ops, start + 1, j, i);
            assert(text_after_et(ops, start, j, i));
        }
        assert forall|j: int| #[trigger] text_after_et(ops, start, j, i) implies next_text_index(
            ops,
            start,
            false,
        ) == Some(i) by {
            assert(j != start);
            assert(text_after_et(ops, start + 1, j, i));
        }
    }
}


// ---------------------------------------------------------------------------
// Numbers stay separate tokens
// ---------------------------------------------------------------------------
/// A number is written with a space before it wherever it follows another
/// token: after an earlier array item, after a dictionary key, and after
/// the `obj` line of an indirect object; a space also follows it in a
/// dictionary. So `[0 0.5]` is never written `[00.5]`, nor `/W 0.5` as
/// `/W0.5`.
pub proof fn law_numbers_are_separated(
    items: Seq<Object>,
    entries: Seq<(Vec<u8>, Object)>,
    id: u32,
    generation: u16,
    o: Object,
)
    requires
        o is Integer || o is Real,
    ensures
        items.len() >= 1 ==> items_bytes(items.push(o)) == items_bytes(items) + seq![32u8]
            + object_bytes(o),
        forall|key: Vec<u8>|
            #[trigger] entries_bytes(entries.push((key, o))) == entries_bytes(entries) + name_bytes(
                key@,
            ) + seq![32u8] + object_bytes(o) + seq![32u8],
        indirect_object_bytes(id, generation, o) == dec_digits(id as nat) + seq![32u8]
            + dec_digits(generation as nat) + seq![32u8, 111u8, 98u8, 106u8, 10u8, 32u8]
            + object_bytes(o) + seq![32u8, 10u8, 101u8, 110u8, 100u8, 111u8, 98u8, 106u8, 10u8],
{
    if items.len() >= 1 {
        assert(items.push(o).drop_last() =~= items);
    }
    assert forall|key: Vec<u8>|
        #[trigger] entries_bytes(entries.push((key, o))) == entries_bytes(entries) + name_bytes(key@)
            + seq![32u8] + object_bytes(o) + seq![32u8] by {
        assert(entries.push((key, o)).drop_last() =~= entries);
    }
    assert(kw_obj() + seq![32u8] =~= seq![32u8, 111u8, 98u8, 106u8, 10u8, 32u8]);
    assert(seq![32u8] + crate::writer::kw_endobj() =~= seq![
        32u8,
        10u8,
        101u8,
        110u8,
        100u8,
        111u8,
        98u8,
        106u8,
        10u8,
    ]);
}

/// An array of an integer and a real number is written with a space between
/// them: `[a t]`.
pub proof fn law_integer_then_real(v: Vec<Object>, a: i64, t: Vec<u8>)
    requires
        v@ == seq![Object::Integer(a), Object::Real(t)],
    ensures
        object_bytes(Object::Array(v)) == seq![91u8] + crate::decimal::dec_int(a as int)
            + seq![32u8] + t@ + seq![93u8],
{
    let s = v@;
    let one = seq![Object::Integer(a)];
    assert(s.drop_last() =~= one);
    assert(one.drop_last() =~= Seq::<Object>::empty());
    assert(items_bytes(Seq::<Object>::empty()) =~= Seq::<u8>::empty());
    assert(items_bytes(one) == items_bytes(one.drop_last()) + crate::writer::space_if(false)
        + object_bytes(Object::Integer(a)));
    assert(items_bytes(one) =~= crate::decimal::dec_int(a as int));
    assert(s.last() == Object::Real(t));
    assert(s.len() == 2);
    assert(crate::object::spec_need_separator(Object::Real(t)));
    assert(crate::writer::space_if(true) =~= seq![32u8]);
    assert(object_bytes(Object::Real(t)) == t@);
    assert(items_bytes(s) == items_bytes(s.drop_last()) + crate::writer::space_if(
        s.len() > 1 && crate::object::spec_need_separator(s.last()),
    ) + object_bytes(s.last()));
    assert(items_bytes(s) == items_bytes(one) + seq![32u8] + t@);
}


// ---------------------------------------------------------------------------
// What a literal string escapes
// ---------------------------------------------------------------------------
/// A byte a literal string can hold as it is, whatever surrounds it: not a
/// backslash, a carriage return or a parenthesis.
pub open spec fn literal_plain(b: u8) -> bool {
    b != 92 && b != 13 && b != 40 && b != 41
}

/// Every byte other than a backslash, a carriage return or a parenthesis
/// (a line feed among them) is written as it is, with no backslash before
/// it.
pub proof fn law_literal_plain_bytes_unescaped(t: Seq<u8>, i: int)
    requires
        0 <= i < t.len(),
        literal_plain(t[i]),
    ensures
        literal_piece(t, i) == seq![t[i]],
{
}

proof fn lemma_literal_body_plain(t: Seq<u8>, n: int)
    requires
        0 <= n <= t.len(),
        forall|k: int| 0 <= k < t.len() ==> literal_plain(#[trigger] t[k]),
    ensures
        literal_body(t, n) == t.subrange(0, n),
    decreases n,
{
    if n > 0 {
        lemma_literal_body_plain(t, n - 1);
        law_literal_plain_bytes_unescaped(t, n - 1);
        assert(t.subrange(0, n - 1) + seq![t[n - 1]] =~= t.subrange(0, n));
    }
}

/// A literal string with no backslash, carriage return or parenthesis is
/// written as it is between parentheses.
pub proof fn law_plain_literal_string(t: Seq<u8>)
    requires
        forall|k: int| 0 <= k < t.len() ==> literal_plain(#[trigger] t[k]),
    ensures
        string_bytes(t, crate::object::StringFormat::Literal) == seq![40u8] + t + seq![41u8],
{
    lemma_literal_body_plain(t, t.len() as int);
    assert(t.subrange(0, t.len() as int) =~= t);
}


// ---------------------------------------------------------------------------
// The nearest settings of a text
// ---------------------------------------------------------------------------
/// A `BT` stands strictly between `m` and `index`.
pub open spec fn bt_between(ops: Seq<Operation>, m: int, index: int) -> bool {
    exists|q: int| m < q < index && is_op(#[trigger] ops[q], seq!['B', 'T'])
}

/// `found` is what the text at `index` takes from the operators named
/// `name` in its text object: the nearest one before it, with no other of
/// that name and no `BT` in between; or nothing, when every earlier one
/// lies before a `BT` that comes after it.
pub open spec fn nearest_setting(ops: Seq<Operation>, name: Seq<char>, found: Option<usize>, index: int) -> bool {
    match found {
        Some(p) => {
            &&& 0 <= p < index
            &&& is_op(ops[p as int], name)
            &&& forall|m: int|
                p < m < index ==> !is_op(#[trigger] ops[m], name) && !is_op(ops[m], seq!['B', 'T'])
        },
        None => forall|m: int|
            0 <= m < index && is_op(#[trigger] ops[m], name) ==> bt_between(ops, m, index),
    }
}

/// While scanning back from `index` and down to `k`: what has been kept for
/// `name` is the nearest such operator above `k`, or there is none above
/// `k`.
spec fn kept_so_far(ops: Seq<Operation>, name: Seq<char>, x: Option<usize>, k: int, index: int) -> bool {
    match x {
        Some(p) => {
            &&& k < p < index
            &&& is_op(ops[p as int], name)
            &&& forall|m: int| p < m < index ==> !is_op(#[trigger] ops[m], name)
        },
        None => forall|m: int| k < m < index ==> !is_op(#[trigger] ops[m], name),
    }
}

proof fn lemma_names_differ()
    ensures
        seq!['T', 'm'] != seq!['T', 'd'],
        seq!['T', 'm'] != seq!['T', 'L'],
        seq!['T', 'm'] != seq!['T', 'f'],
        seq!['T', 'm'] != seq!['B', 'T'],
        seq!['T', 'd'] != seq!['T', 'L'],
        seq!['T', 'd'] != seq!['T', 'f'],
        seq!['T', 'd'] != seq!['B', 'T'],
        seq!['T', 'L'] != seq!['T', 'f'],
        seq!['T', 'L'] != seq!['B', 'T'],
        seq!['T', 'f'] != seq!['B', 'T'],
{
    assert(seq!['T', 'm'][1] != seq!['T', 'd'][1]);
    assert(seq!['T', 'm'][1] != seq!['T', 'L'][1]);
    assert(seq!['T', 'm'][1] != seq!['T', 'f'][1]);
    assert(seq!['T', 'm'][0] != seq!['B', 'T'][0]);
    assert(seq!['T', 'd'][1] != seq!['T', 'L'][1]);
    assert(seq!['T', 'd'][1] != seq!['T', 'f'][1]);
    assert(seq!['T', 'd'][0] != seq!['B', 'T'][0]);
    assert(seq!['T', 'L'][1] != seq!['T', 'f'][1]);
    assert(seq!['T', 'L'][0] != seq!['B', 'T'][0]);
    assert(seq!['T', 'f'][0] != seq!['B', 'T'][0]);
}

/// When the scan ends, what was kept is the nearest setting.
proof fn lemma_kept_is_nearest(ops: Seq<Operation>, name: Seq<char>, x: Option<usize>, k: int, index: int)
    requires
        -1 <= k < index <= ops.len(),
        k >= 0 ==> is_op(ops[k], seq!['B', 'T']),
        name != seq!['B', 'T'],
        kept_so_far(ops, name, x, k, index),
        forall|m: int| k < m < index ==> !is_op(#[trigger] ops[m], seq!['B', 'T']),
    ensures
        nearest_setting(ops, name, x, index),
{
    match x {
        Some(p) => {},
        None => {
            assert forall|m: int| 0 <= m < index && is_op(#[trigger] ops[m], name) implies bt_between(
                ops,
                m,
                index,
            ) by {
                assert(m <= k);
                if m == k {
                    assert(ops[m].operator@ == name);
                }
                assert(is_op(ops[k], seq!['B', 'T']));
            }
        },
    }
}

proof fn lemma_scan_nearest(
    ops: Seq<Operation>,
    k: int,
    index: int,
    tm: Option<usize>,
    td: Option<usize>,
    tl: Option<usize>,
    tf: Option<usize>,
)
    requires
        -1 <= k < index <= ops.len(),
        ops.len() <= usize::MAX,
        kept_so_far(ops, seq!['T', 'm'], tm, k, index),
        kept_so_far(ops, seq!['T', 'd'], td, k, index),
        kept_so_far(ops, seq!['T', 'L'], tl, k, index),
        kept_so_far(ops, seq!['T', 'f'], tf, k, index),
        forall|m: int| k < m < index ==> !is_op(#[trigger] ops[m], seq!['B', 'T']),
    ensures
        style_scan(ops, k, tm, td, tl, tf) matches StyleScan::Found(a, b, c, d) ==> {
            &&& nearest_setting(ops, seq!['T', 'm'], a, index)
            &&& nearest_setting(ops, seq!['T', 'd'], b, index)
            &&& nearest_setting(ops, seq!['T', 'L'], c, index)
            &&& nearest_setting(ops, seq!['T', 'f'], d, index)
        },
    decreases k + 1,
{
    lemma_names_differ();
    if k < 0 {
        lemma_kept_is_nearest(ops, seq!['T', 'm'], tm, k, index);
        lemma_kept_is_nearest(ops, seq!['T', 'd'], td, k, index);
        lemma_kept_is_nearest(ops, seq!['T', 'L'], tl, k, index);
        lemma_kept_is_nearest(ops, seq!['T', 'f'], tf, k, index);
    } else {
        let op = ops[k];
        let ku = k as usize;
        if is_op(op, seq!['T', 'm']) && tm is None {
            lemma_scan_nearest(ops, k - 1, index, Some(ku), td, tl, tf);
        } else if is_op(op, seq!['T', 'd']) && td is None {
            lemma_scan_nearest(ops, k - 1, index, tm, Some(ku), tl, tf);
        } else if is_op(op, seq!['T', 'L']) && tl is None {
            lemma_scan_nearest(ops, k - 1, index, tm, td, Some(ku), tf);
        } else if is_op(op, seq!['T', 'f']) && tf is None {
            lemma_scan_nearest(ops, k - 1, index, tm, td, tl, Some(ku));
        } else if is_op(op, seq!['B', 'T']) {
            lemma_kept_is_nearest(ops, seq!['T', 'm'], tm, k, index);
            lemma_kept_is_nearest(ops, seq!['T', 'd'], td, k, index);
            lemma_kept_is_nearest(ops, seq!['T', 'L'], tl, k, index);
            lemma_kept_is_nearest(ops, seq!['T', 'f'], tf, k, index);
        } else {
            lemma_scan_nearest(ops, k - 1, index, tm, td, tl, tf);
        }
    }
}

/// A text takes the nearest `Tm`, `Td`, `TL` and `Tf` before it in its
/// text object: for each, the one found has no other of its name and no
/// `BT` between it and the text; and none is found only when every earlier
/// one lies before a `BT` that precedes the text.
pub proof fn law_style_takes_nearest_settings(
    ops: Seq<Operation>,
    index: int,
    tm: Option<usize>,
    td: Option<usize>,
    tl: Option<usize>,
    tf: Option<usize>,
)
    requires
        0 <= index <= ops.len() <= usize::MAX,
        style_scan(ops, index - 1, None, None, None, None) == StyleScan::Found(tm, td, tl, tf),
    ensures
        nearest_setting(ops, seq!['T', 'm'], tm, index),
        nearest_setting(ops, seq!['T', 'd'], td, index),
        nearest_setting(ops, seq!['T', 'L'], tl, index),
        nearest_setting(ops, seq!['T', 'f'], tf, index),
{
    lemma_scan_nearest(ops, index - 1, index, None, None, None, None);
}


// ---------------------------------------------------------------------------
// Uncompressed cross-reference streams name no filter
// ---------------------------------------------------------------------------
/// `Filter`
pub open spec fn filter_name() -> Seq<u8> {
    seq![70u8, 105u8, 108u8, 116u8, 101u8, 114u8]
}

/// `DecodeParms`
pub open spec fn decode_parms_name() -> Seq<u8> {
    seq![68u8, 101u8, 99u8, 111u8, 100u8, 101u8, 80u8, 97u8, 114u8, 109u8, 115u8]
}

/// `Length`
pub open spec fn length_name() -> Seq<u8> {
    seq![76u8, 101u8, 110u8, 103u8, 116u8, 104u8]
}

/// No entry of `s` has the key `key`.
pub open spec fn lacks(s: Seq<(Vec<u8>, Object)>, key: Seq<u8>) -> bool {
    forall|j: int| 0 <= j < s.len() ==> (#[trigger] s[j]).0@ != key
}

proof fn lemma_lacks_when_absent(s: Seq<(Vec<u8>, Object)>, key: Seq<u8>)
    requires
        key_position(s, key) is None,
    ensures
        lacks(s, key),
{
    assert forall|j: int| 0 <= j < s.len() implies (#[trigger] s[j]).0@ != key by {
        if s[j].0@ == key {
            lemma_first_exists(s, key, j);
        }
    }
}

proof fn lemma_remove_lacks(s: Seq<(Vec<u8>, Object)>, key: Seq<u8>, other: Seq<u8>)
    requires
        crate::object::keys_distinct(s),
    ensures
        lacks(dict_remove(s, key), key),
        crate::object::keys_distinct(dict_remove(s, key)),
        lacks(s, other) ==> lacks(dict_remove(s, key), other),
{
    let t = dict_remove(s, key);
    match key_position(s, key) {
        Some(i) => {
            assert(first_key_at(s, key, i));
            assert forall|j: int| 0 <= j < t.len() implies (#[trigger] t[j]).0@ != key by {
                if j < i {
                    assert(t[j] == s[j]);
                } else {
                    assert(t[j] == s[j + 1]);
                }
            }
            assert forall|a: int, b: int| 0 <= a < b < t.len() implies t[a].0@ != t[b].0@ by {
                let a0 = if a < i { a } else { a + 1 };
                let b0 = if b < i { b } else { b + 1 };
                assert(t[a] == s[a0]);
                assert(t[b] == s[b0]);
            }
            if lacks(s, other) {
                assert forall|j: int| 0 <= j < t.len() implies (#[trigger] t[j]).0@ != other by {
                    if j < i {
                        assert(t[j] == s[j]);
                    } else {
                        assert(t[j] == s[j + 1]);
                    }
                }
            }
        },
        None => {
            lemma_lacks_when_absent(s, key);
        },
    }
}

proof fn lemma_set_to_keeps(
    old: Seq<(Vec<u8>, Object)>,
    new: Seq<(Vec<u8>, Object)>,
    key: Seq<u8>,
    p: spec_fn(Object) -> bool,
    other: Seq<u8>,
)
    requires
        set_to(old, new, key, p),
        other != key,
    ensures
        lacks(old, other) ==> lacks(new, other),
        crate::object::keys_distinct(old) ==> crate::object::keys_distinct(new),
{
    match key_position(old, key) {
        Some(i) => {
            assert(first_key_at(old, key, i));
            if lacks(old, other) {
                assert forall|j: int| 0 <= j < new.len() implies (#[trigger] new[j]).0@ != other by {
                    if j != i {
                        assert(new[j] == old[j]);
                    }
                }
            }
            if crate::object::keys_distinct(old) {
                assert forall|a: int, b: int| 0 <= a < b < new.len() implies new[a].0@ != new[b].0@ by {
                    if a != i {
                        assert(new[a] == old[a]);
                    }
                    if b != i {
                        assert(new[b] == old[b]);
                    }
                }
            }
        },
        None => {
            let n = old.len() as int;
            lemma_lacks_when_absent(old, key);
            assert forall|j: int| 0 <= j < n implies new[j] == old[j] by {
                assert(new.take(n)[j] == new[j]);
            }
            if lacks(old, other) {
                assert forall|j: int| 0 <= j < new.len() implies (#[trigger] new[j]).0@ != other by {
                    if j < n {
                        assert(new[j] == old[j]);
                    }
                }
            }
            if crate::object::keys_distinct(old) {
                assert forall|a: int, b: int| 0 <= a < b < new.len() implies new[a].0@ != new[b].0@ by {
                    assert(new[a] == old[a]);
                    if b < n {
                        assert(new[b] == old[b]);
                    } else {
                        assert(old[a].0@ != key);
                    }
                }
            }
        },
    }
}

/// The dictionary of an existing cross-reference stream rewritten with
/// plain rows names no `Filter`, so that a reader takes the rows as they
/// are; when the stream had a `Filter`, its `DecodeParms` are gone too; and
/// its `Length` is the length of the rows.
pub proof fn law_rewritten_stream_names_no_filter(
    old: Seq<(Vec<u8>, Object)>,
    new: Seq<(Vec<u8>, Object)>,
    length: i64,
)
    requires
        crate::object::keys_distinct(old),
        refreshed_stream_dict(old, new, length),
    ensures
        lacks(new, filter_name()),
        !lacks(old, filter_name()) ==> lacks(new, decode_parms_name()),
        dict_value(new, length_name()) == Some(Object::Integer(length)),
{
    assert(filter_name()[0] != length_name()[0]);
    assert(decode_parms_name().len() != length_name().len());
    assert(decode_parms_name() != filter_name());
    let plain = if key_position(old, filter_name()) is Some {
        dict_remove(dict_remove(old, decode_parms_name()), filter_name())
    } else {
        old
    };
    if key_position(old, filter_name()) is Some {
        let t = dict_remove(old, decode_parms_name());
        lemma_remove_lacks(old, decode_parms_name(), filter_name());
        lemma_remove_lacks(t, filter_name(), decode_parms_name());
    } else {
        lemma_lacks_when_absent(old, filter_name());
        if !lacks(old, filter_name()) {
            assert(false);
        }
    }
    lemma_set_to_keeps(plain, new, length_name(), is_integer_value(length), filter_name());
    lemma_set_to_keeps(plain, new, length_name(), is_integer_value(length), decode_parms_name());
    lemma_set_to_position(plain, new, length_name(), is_integer_value(length));
}

/// Saving with a cross-reference stream leaves a trailer (the stream's
/// dictionary) that names no `Filter`, as the stream's rows are written
/// uncompressed, whatever filter the trailer named before.
pub proof fn law_saved_stream_names_no_filter(d: Document, d2: Document, base: int)
    requires
        d.trailer.wf(),
        saved_state(d, d2, XrefType::CrossReferenceStream, base),
    ensures
        lacks(d2.trailer.0@, filter_name()),
{
    let e = body_entries(d.objects@, base + pdf_header(d).len());
    let start = base + pdf_header(d).len() + body_bytes(d.objects@, d.objects@.len() as int).len();
    let id = d.max_id + 1;
    let e2 = crate::document::with_entry(e, id, XrefEntry::Normal { offset: start as u32, generation: 0 });
    let size = (id + 1) as i64;
    let index = crate::document::index_objects(e2, d.max_id + 2);
    let length = stream_rows(e2, d.max_id + 2).len() as i64;
    let t0 = d.trailer.0@;
    let new = d2.trailer.0@;
    let (t1, t2, t3, t4) = choose|
        t1: Seq<(Vec<u8>, Object)>,
        t2: Seq<(Vec<u8>, Object)>,
        t3: Seq<(Vec<u8>, Object)>,
        t4: Seq<(Vec<u8>, Object)>,
    | #[trigger] xref_stream_steps(t0, t1, t2, t3, t4, new, size, index, length);
    assert(filter_name()[0] != length_name()[0]);
    assert(filter_name() != crate::object::key_type());
    lemma_set_to_keeps(t0, t1, crate::object::key_type(), crate::document::is_name_value(crate::document::name_xref()), filter_name());
    lemma_set_to_keeps(t1, t2, key_size(), is_integer_value(size), filter_name());
    assert(filter_name() != crate::document::key_w());
    lemma_set_to_keeps(
        t2,
        t3,
        crate::document::key_w(),
        crate::document::is_array_value(crate::document::field_widths()),
        filter_name(),
    );
    assert(filter_name()[0] != crate::document::key_index()[0]);
    lemma_set_to_keeps(t3, t4, crate::document::key_index(), crate::document::is_array_value(index), filter_name());
    let t5 = dict_remove(t4, filter_name());
    lemma_remove_lacks(t4, filter_name(), filter_name());
    lemma_set_to_keeps(t5, new, length_name(), is_integer_value(length), filter_name());
}

} // verus!
