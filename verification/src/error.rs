use vstd::prelude::*;

verus! {

/// Why a record could not be serialized or a sequence of group elements could
/// not be read back. Every failure is final for the operation that reports it.
#[derive(Clone, Copy, Debug, PartialEq, Eq, Structural, Hash)]
pub enum SerializerError {
    /// A field's value has a set bit above its declared width.
    InvalidFieldWidth,
    /// The packed record needs more group elements than the record type allows.
    RecordTooLarge,
    /// A packed chunk is not the coordinate of any point of the curve.
    InvalidFieldElement,
    /// The number of chunks, bits or elements differs from what the field
    /// widths predict.
    LengthMismatch,
}

} // verus!
