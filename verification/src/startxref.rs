use vstd::prelude::*;

use crate::decimal::{dec_int, push_decimal_signed};
use crate::error::Error;
use crate::writer::Writer;

verus! {

/// `%%EOF`
pub open spec fn kw_eof() -> Seq<u8> {
    seq![37u8, 37u8, 69u8, 79u8, 70u8]
}

/// `startxref`
pub open spec fn kw_startxref() -> Seq<u8> {
    seq![115u8, 116u8, 97u8, 114u8, 116u8, 120u8, 114u8, 101u8, 102u8]
}

/// `pat` occurs in `s` starting at `i`.
pub open spec fn occurs_at(s: Seq<u8>, pat: Seq<u8>, i: int) -> bool {
    0 <= i && i + pat.len() <= s.len() && s.subrange(i, i + pat.len()) == pat
}

/// The last start position at or before `i` where `pat` occurs in `s`.
pub open spec fn last_occurrence(s: Seq<u8>, pat: Seq<u8>, i: int) -> Option<int>
    decreases i + 1,
{
    if i < 0 {
        None
    } else if occurs_at(s, pat, i) {
        Some(i)
    } else {
        last_occurrence(s, pat, i - 1)
    }
}

/// The first position at or after `i` that holds byte `b`.
pub open spec fn first_byte_from(s: Seq<u8>, b: u8, i: int) -> Option<int>
    decreases s.len() - i,
{
    if i < 0 || i >= s.len() {
        None
    } else if s[i] == b {
        Some(i)
    } else {
        first_byte_from(s, b, i + 1)
    }
}

/// Where the last `%%EOF` of a buffer starts.
pub open spec fn eof_position(s: Seq<u8>) -> Option<int> {
    last_occurrence(s, kw_eof(), s.len() - 5)
}

/// Where the last `startxref` that ends before position `eof` starts.
pub open spec fn startxref_position(s: Seq<u8>, eof: int) -> Option<int> {
    last_occurrence(s.subrange(0, eof), kw_startxref(), eof - 9)
}

/// Where the number after `startxref` ends: at the next newline, or at the
/// `%%EOF` if no newline follows.
pub open spec fn offset_end(s: Seq<u8>, start: int, eof: int) -> int {
    match first_byte_from(s, 10u8, start) {
        Some(j) => j,
        None => eof,
    }
}

/// `n` spaces.
pub open spec fn spaces(n: int) -> Seq<u8> {
    Seq::new(if n > 0 { n as nat } else { 0 }, |i: int| 32u8)
}

/// The buffer with the number after its last `startxref` replaced by
/// `new_offset`; a shorter number is followed by spaces up to the old
/// width, a longer one shifts the rest of the buffer.
pub open spec fn with_startxref(s: Seq<u8>, start: int, end: int, new_offset: int) -> Seq<u8> {
    s.subrange(0, start) + dec_int(new_offset) + spaces((end - start) - dec_int(new_offset).len())
        + s.subrange(end, s.len() as int)
}

/// What rewriting the `startxref` number of a buffer gives: the new
/// buffer, or why the buffer has no such number to rewrite.
pub open spec fn startxref_rewrite(s: Seq<u8>, new_offset: int) -> Result<Seq<u8>, Error> {
    match eof_position(s) {
        None => Err(Error::MissingEof),
        Some(eof) => match startxref_position(s, eof) {
            None => Err(Error::MissingStartxref),
            Some(sx) => {
                let start = sx + 10;
                let end = offset_end(s, start, eof);
                if start >= end {
                    Err(Error::InvalidStartxref)
                } else {
                    Ok(with_startxref(s, start, end, new_offset))
                }
            },
        },
    }
}

fn matches_at(s: &Vec<u8>, pat: &[u8], i: usize) -> (r: bool)
    requires
        i + pat@.len() <= s@.len(),
    ensures
        r == occurs_at(s@, pat@, i as int),
{
    let m = pat.len();
    let mut k: usize = 0;
    while k < m
        invariant
            m == pat@.len(),
            i + m <= s.len(),
            s.len() == s@.len(),
            k <= m,
            forall|j: int| 0 <= j < k ==> s@[i + j] == pat@[j],
        decreases m - k,
    {
        if s[i + k] != pat[k] {
            assert(s@.subrange(i as int, i + m)[k as int] != pat@[k as int]);
            return false;
        }
        k = k + 1;
    }
    assert(s@.subrange(i as int, i + m) =~= pat@);
    true
}

/// The last start position at or before `limit - pat.len()` where `pat`
/// occurs.
fn rfind(s: &Vec<u8>, pat: &[u8], limit: usize) -> (r: Option<usize>)
    requires
        limit <= s@.len(),
        pat@.len() > 0,
    ensures
        r matches Some(i) ==> last_occurrence(s@.subrange(0, limit as int), pat@, limit - pat@.len())
            == Some(i as int),
        r is None ==> last_occurrence(s@.subrange(0, limit as int), pat@, limit - pat@.len())
            is None,
        r matches Some(i) ==> i + pat@.len() <= limit,
{
    let ghost t = s@.subrange(0, limit as int);
    let m = pat.len();
    if limit < m {
        return None;
    }
    let mut i: usize = limit - m + 1;
    while i > 0
        invariant
            limit <= s@.len(),
            m == pat@.len(),
            m > 0,
            m <= limit,
            t == s@.subrange(0, limit as int),
            i <= limit - m + 1,
            last_occurrence(t, pat@, limit - m) == last_occurrence(t, pat@, i - 1),
            s.len() == s@.len(),
        decreases i,
    {
        let j = i - 1;
        let hit = matches_at(s, pat, j);
        assert(occurs_at(t, pat@, j as int) == occurs_at(s@, pat@, j as int)) by {
            assert(t.subrange(j as int, j + m) =~= s@.subrange(j as int, j + m));
        }
        if hit {
            return Some(j);
        }
        i = j;
    }
    None
}

impl Writer {
    /// Rewrites the number that follows the last `startxref` before the last
    /// `%%EOF` of a buffer. The number ends at the next newline (or at the
    /// `%%EOF`). A shorter new number is padded with spaces to the old width;
    /// a longer one moves what follows it.
    pub fn update_xref_offset(input: &mut Vec<u8>, new_offset: i64) -> (r: Result<(), Error>)
        ensures
            match startxref_rewrite(old(input)@, new_offset as int) {
                Ok(t) => r is Ok && final(input)@ == t,
                Err(e) => r == Err::<(), Error>(e) && final(input)@ == old(input)@,
            },
    {
        let ghost s = input@;
        let len = input.len();
        let eof = if len >= 5 {
            let ghost t = input@.subrange(0, len as int);
            assert(t =~= s);
            match rfind(input, &[37u8, 37, 69, 79, 70], len) {
                Some(e) => e,
                None => {
                    return Err(Error::MissingEof);
                },
            }
        } else {
            return Err(Error::MissingEof);
        };
        assert(input@.subrange(0, len as int) =~= s);
        assert(eof_position(s) == Some(eof as int));
        let sx = match rfind(input, &[115u8, 116, 97, 114, 116, 120, 114, 101, 102], eof) {
            Some(x) => x,
            None => {
                return Err(Error::MissingStartxref);
            },
        };
        let start = sx + 10;
        // the next newline after the number, or the `%%EOF`
        let mut k: usize = start;
        while k < len && input[k] != 10
            invariant
                input@ == s,
                len == s.len(),
                start <= k,
                first_byte_from(s, 10u8, start as int) == first_byte_from(s, 10u8, k as int),
            decreases len - k,
        {
            k = k + 1;
        }
        let end = if k < len {
            k
        } else {
            eof
        };
        if start >= end {
            return Err(Error::InvalidStartxref);
        }
        let mut out: Vec<u8> = Vec::new();
        let mut i: usize = 0;
        while i < start
            invariant
                input@ == s,
                len == s.len(),
                start <= len,
                i <= start,
                out@ == s.subrange(0, i as int),
            decreases start - i,
        {
            out.push(input[i]);
            assert(s.subrange(0, i + 1) =~= s.subrange(0, i as int).push(s[i as int]));
            i = i + 1;
        }
        let before = out.len();
        push_decimal_signed(&mut out, new_offset);
        let digits = out.len() - before;
        let ghost digits_seq = dec_int(new_offset as int);
        assert(digits == digits_seq.len());
        let width = end - start;
        let mut p: usize = digits;
        while p < width
            invariant
                input@ == s,
                digits == digits_seq.len(),
                digits <= p,
                p <= width || p == digits,
                out@ == s.subrange(0, start as int) + digits_seq + spaces(p - digits),
            decreases width - p,
        {
            out.push(32u8);
            assert(spaces(p + 1 - digits) =~= spaces(p - digits).push(32u8));
            p = p + 1;
        }
        assert(spaces(width - digits) =~= spaces(p - digits));
        let mut q: usize = end;
        while q < len
            invariant
                input@ == s,
                len == s.len(),
                end <= q <= len,
                out@ == s.subrange(0, start as int) + digits_seq + spaces(width - digits)
                    + s.subrange(end as int, q as int),
            decreases len - q,
        {
            out.push(input[q]);
            assert(s.subrange(end as int, q + 1) =~= s.subrange(end as int, q as int).push(
                s[q as int],
            ));
            q = q + 1;
        }
        *input = out;
        Ok(())
    }
}

} // verus!
