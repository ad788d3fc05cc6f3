//! Serialization of PDF objects, cross-reference tables and streams, and
//! in-place editing of an already written PDF byte buffer.

pub mod decimal;
pub mod error;
pub mod object;
pub mod writer;
pub mod xref;
pub mod xref_writer;
pub mod startxref;
pub mod document;
pub mod overwrite_document;
pub mod text;
pub mod laws;
