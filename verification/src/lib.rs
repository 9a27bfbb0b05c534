//! Decoders for two related binary container formats: a block-compressed
//! archive of named records, and a typed record database whose records are
//! LZ4-compressed tagged value streams.

use vstd::prelude::*;

pub mod arc;
pub mod arz;
pub mod compression;
pub mod reader;
pub mod tags;
pub mod text;
pub mod values;

verus! {

/// Every failure a decoding operation can report.
#[derive(Debug, Clone, Copy, PartialEq, Eq, Structural)]
pub enum DecodeError {
    /// Wrong magic number or unsupported version.
    Format,
    /// Fewer bytes available than a field or table requires.
    TruncatedInput,
    /// Non-UTF-8 bytes where a string was expected.
    Encoding,
    /// A string-table index out of range.
    Lookup,
    /// Block decompression failed or produced a size mismatch.
    Decompression,
    /// The tagged value stream held an unrecognized type discriminant.
    UnknownTag,
    /// Paired sequences that must agree in length did not.
    StructuralInconsistency,
    /// No record with the requested id exists.
    NotFound,
}

} // verus!
