use vstd::prelude::*;

verus! {

/// The ASCII byte of a decimal digit.
pub open spec fn digit_byte(d: nat) -> u8 {
    (48 + d) as u8
}

/// The decimal digits of a natural number, most significant first, with no
/// leading zero (zero itself is `0`).
pub open spec fn dec_digits(n: nat) -> Seq<u8>
    decreases n,
{
    if n < 10 {
        seq![digit_byte(n)]
    } else {
        dec_digits(n / 10).push(digit_byte(n % 10))
    }
}

/// The decimal text of an integer: a `-` sign before the digits of its
/// absolute value when it is negative.
pub open spec fn dec_int(i: int) -> Seq<u8> {
    if i < 0 {
        seq![45u8] + dec_digits((-i) as nat)
    } else {
        dec_digits(i as nat)
    }
}

/// Appends the decimal digits of `n`.
pub fn push_decimal(out: &mut Vec<u8>, n: u64)
    ensures
        final(out)@ == old(out)@ + dec_digits(n as nat),
    decreases n,
{
    if n >= 10 {
        push_decimal(out, n / 10);
    }
    let d: u8 = (n % 10) as u8;
    out.push(48u8 + d);
}

/// Appends the decimal text of a signed integer, as `{}` formats it.
pub fn push_decimal_signed(out: &mut Vec<u8>, v: i64)
    ensures
        final(out)@ == old(out)@ + dec_int(v as int),
{
    if v < 0 {
        out.push(45u8);
        let w: i128 = v as i128;
        let a: u64 = (0i128 - w) as u64;
        push_decimal(out, a);
    } else {
        push_decimal(out, v as u64);
    }
}

/// Appends `n` in decimal, padded on the left with `0` to at least `width`
/// digits, as `{:0width$}` formats it.
pub fn push_decimal_padded(out: &mut Vec<u8>, n: u64, width: usize)
    ensures
        final(out)@ == old(out)@ + zero_padded(dec_digits(n as nat), width as nat),
{
    let mut digits: Vec<u8> = Vec::new();
    push_decimal(&mut digits, n);
    let mut k: usize = digits.len();
    while k < width
        invariant
            digits@ == dec_digits(n as nat),
            digits.len() <= k,
            k <= width || k == digits.len(),
            out@ == old(out)@ + Seq::new((k - digits.len()) as nat, |i: int| 48u8),
        decreases width - k,
    {
        out.push(48u8);
        k = k + 1;
    }
    out.extend_from_slice(digits.as_slice());
    assert(out@ == old(out)@ + zero_padded(dec_digits(n as nat), width as nat));
}

/// A digit sequence padded on the left with `0` up to `width` bytes.
pub open spec fn zero_padded(d: Seq<u8>, width: nat) -> Seq<u8> {
    if d.len() < width {
        Seq::new((width - d.len()) as nat, |i: int| 48u8) + d
    } else {
        d
    }
}

/// The decimal text of a signed integer, printed by `itoa::Buffer::format`.
/// Trusted, not proved: the contract claims that `itoa` prints `-` before a
/// negative value, then the digits of the absolute value with no leading
/// zero (`0` for zero), as its documentation and source show.
#[verifier::external_body]
pub(crate) fn itoa_format(v: i64) -> (r: Vec<u8>)
    ensures
        r@ == dec_int(v as int),
{
    let mut buf = itoa::Buffer::new();
    buf.format(v).as_bytes().to_vec()
}

} // verus!
