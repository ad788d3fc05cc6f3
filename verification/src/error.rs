use vstd::prelude::*;

verus! {

/// Why writing or editing a PDF buffer failed.
#[derive(Debug, Clone, Copy, PartialEq, Eq, Structural)]
pub enum Error {
    /// A binary mark byte below 128.
    InvalidBinaryMark,
    /// No `%%EOF` in the buffer.
    MissingEof,
    /// No `startxref` before the last `%%EOF`.
    MissingStartxref,
    /// Nothing between `startxref` and the end of its line.
    InvalidStartxref,
    /// The cross-reference entry of an object is not an in-use entry of its
    /// generation.
    NotNormalObject,
    /// The operators do not open with `BT` and close with `ET`.
    TextObjectBounds,
    /// The operator at an index does not show text (`Tj`, `TJ`).
    NotTextOperation,
    /// An operand that should be a number is not.
    NotANumber,
    /// The place an object goes lies past the end of the rewritten bytes.
    OutsideBuffer,
}

} // verus!
