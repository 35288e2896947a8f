//! The curve configuration that the serializer is written against, and the
//! library's own picture of records and group elements.

use vstd::prelude::*;
use vstd::arithmetic::power2::pow2;
use crate::bits::Field;
use crate::bits::total_width;

verus! {

/// Which of the two points that share a coordinate is meant: the one whose
/// companion coordinate lies in the low half of the inner field, or the other.
#[derive(Clone, Copy, Debug, PartialEq, Eq, Structural, Hash)]
pub enum Root {
    Low,
    High,
}

/// A point of the curve, held as the inner-field coordinate that identifies it
/// up to sign and the root that settles the sign. The coordinate is a chunk:
/// bit `j` has weight `2^j`.
#[derive(Clone, Debug, PartialEq, Eq)]
pub struct GroupElement {
    pub coordinate: Vec<bool>,
    pub root: Root,
}

impl View for GroupElement {
    type V = (Seq<bool>, Root);

    open spec fn view(&self) -> (Seq<bool>, Root) {
        (self.coordinate@, self.root)
    }
}

/// A ledger record as the serializer reads it: its logical fields in their
/// fixed order, and the one flag bit that travels as the root of the last
/// group element instead of occupying a chunk.
#[derive(Clone, Debug, PartialEq, Eq)]
pub struct Record {
    pub fields: Vec<Field>,
    pub final_high: bool,
}

/// What reading a sequence of group elements gives back: the fields, the flag
/// bit as the caller supplied it, and whether the elements carry exactly the
/// roots that serializing these fields with this flag would choose.
#[derive(Clone, Debug, PartialEq, Eq)]
pub struct DeserializedRecord {
    pub fields: Vec<Field>,
    pub final_high: bool,
    pub root_confirmed: bool,
}

/// A curve configuration together with a record type: the three field sizes,
/// the fixed widths of the record's fields, and the test that tells which
/// chunks are coordinates of curve points.
pub trait RecordSerializerScheme {
    /// The configuration is consistent; see `lemma_well_formed`.
    spec fn well_formed(&self) -> bool;

    /// Bit length of the scalar-field modulus.
    spec fn scalar_bits(&self) -> nat;

    /// The inner-field modulus.
    spec fn inner_modulus(&self) -> nat;

    /// Bit length of the inner-field modulus.
    spec fn inner_bits(&self) -> nat;

    /// Bit length of the outer-field modulus.
    spec fn outer_bits(&self) -> nat;

    /// The widths of the record type's fields, in order.
    spec fn layout(&self) -> Seq<usize>;

    /// The chunk is the coordinate of some point of the curve.
    spec fn is_coordinate(&self, chunk: Seq<bool>) -> bool;

    /// What a consistent configuration guarantees: the inner field has room
    /// for a data chunk and a spare bit, its modulus has the stated bit
    /// length, and the record type's bits can be counted.
    proof fn lemma_well_formed(&self)
        requires
            self.well_formed(),
        ensures
            self.inner_bits() >= 2,
            pow2((self.inner_bits() - 1) as nat) <= self.inner_modulus() < pow2(self.inner_bits()),
            total_width(self.layout()) <= usize::MAX,
    ;

    fn scalar_field_bitsize(&self) -> (n: usize)
        requires
            self.well_formed(),
        ensures
            n == self.scalar_bits(),
    ;

    fn inner_field_bitsize(&self) -> (n: usize)
        requires
            self.well_formed(),
        ensures
            n == self.inner_bits(),
    ;

    fn outer_field_bitsize(&self) -> (n: usize)
        requires
            self.well_formed(),
        ensures
            n == self.outer_bits(),
    ;

    fn field_widths(&self) -> (widths: &Vec<usize>)
        requires
            self.well_formed(),
        ensures
            widths@ == self.layout(),
    ;

    /// Decides whether a chunk is the coordinate of a curve point.
    fn has_point(&self, chunk: &Vec<bool>) -> (found: bool)
        requires
            self.well_formed(),
        ensures
            found == self.is_coordinate(chunk@),
    ;
}

/// Width of a data chunk: one bit less than the inner-field modulus, so that
/// every chunk is below the modulus.
pub open spec fn data_bits<S: RecordSerializerScheme>(scheme: &S) -> nat {
    (scheme.inner_bits() - 1) as nat
}

/// Width of a payload chunk: one bit less than a data chunk.
pub open spec fn payload_bits<S: RecordSerializerScheme>(scheme: &S) -> nat {
    (scheme.inner_bits() - 2) as nat
}

/// The width of a data chunk, in bits.
pub fn data_element_bitsize<S: RecordSerializerScheme>(scheme: &S) -> (n: usize)
    requires
        scheme.well_formed(),
    ensures
        n == data_bits(scheme),
        n >= 1,
{
    proof {
        scheme.lemma_well_formed();
    }
    scheme.inner_field_bitsize() - 1
}

/// The width of a payload chunk, in bits: a data chunk with one bit spared.
pub fn payload_element_bitsize<S: RecordSerializerScheme>(scheme: &S) -> (n: usize)
    requires
        scheme.well_formed(),
    ensures
        n == payload_bits(scheme),
        n + 1 == data_bits(scheme),
{
    proof {
        scheme.lemma_well_formed();
    }
    scheme.inner_field_bitsize() - 2
}

} // verus!
