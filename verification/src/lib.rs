//! Canonical serialization of ledger records into sequences of curve group
//! elements, with machine-checked round-trip guarantees.

pub mod bits;
pub mod encoder;
pub mod error;
pub mod laws;
pub mod scheme;
pub mod serializer;
pub mod small_curve;
pub mod version;
