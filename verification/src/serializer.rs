//! The record serializer: fields to group elements and back.

use vstd::prelude::*;
use crate::bits::Field;
use crate::bits::all_fit;
use crate::bits::chunk;
use crate::bits::chunk_count;
use crate::bits::chunk_views;
use crate::bits::chunked;
use crate::bits::is_unpacking;
use crate::bits::pack;
use crate::bits::packed;
use crate::bits::total_width;
use crate::bits::unchunk;
use crate::bits::unchunked;
use crate::bits::unpack;
use crate::bits::lemma_total_width_prefix;
use crate::encoder::decode;
use crate::encoder::encode;
use crate::encoder::is_canonical;
use crate::encoder::root_of;
use crate::error::SerializerError;
use crate::scheme::DeserializedRecord;
use crate::scheme::GroupElement;
use crate::scheme::Record;
use crate::scheme::RecordSerializerScheme;
use crate::scheme::Root;
use crate::scheme::data_bits;
use crate::scheme::data_element_bitsize;

verus! {

/// The number of group elements that every record of the scheme's record type
/// serializes to.
pub open spec fn element_count<S: RecordSerializerScheme>(scheme: &S) -> nat {
    chunk_count(total_width(scheme.layout()), data_bits(scheme))
}

/// Every chunk is the coordinate of a curve point.
pub open spec fn all_coordinates<S: RecordSerializerScheme>(scheme: &S, chunks: Seq<Seq<bool>>) -> bool {
    forall|i: int| 0 <= i < chunks.len() ==> scheme.is_coordinate(#[trigger] chunks[i])
}

/// The chunks as group elements: each one canonical, but for the last, which
/// takes the high root where the flag is set.
pub open spec fn embedded(chunks: Seq<Seq<bool>>, final_high: bool) -> Seq<(Seq<bool>, Root)> {
    Seq::new(chunks.len(), |i: int| (chunks[i], root_of(final_high && i == chunks.len() - 1)))
}

/// The group elements as coordinate and root.
pub open spec fn element_views(elements: Seq<GroupElement>) -> Seq<(Seq<bool>, Root)> {
    Seq::new(elements.len(), |i: int| elements[i]@)
}

/// The coordinates of the group elements, in order.
pub open spec fn coordinates(points: Seq<(Seq<bool>, Root)>) -> Seq<Seq<bool>> {
    Seq::new(points.len(), |i: int| points[i].0)
}

/// The elements carry the roots that serialization chooses for this flag:
/// all canonical but the last, and the last high exactly where the flag is set.
pub open spec fn roots_match(points: Seq<(Seq<bool>, Root)>, final_high: bool) -> bool {
    &&& points.len() == 0 ==> !final_high
    &&& forall|i: int|
        0 <= i < points.len() ==> (#[trigger] points[i]).1 == root_of(final_high && i == points.len() - 1)
}

/// What serializing the fields with the flag gives: the group elements and
/// the bit that records whether the last of them departs from the canonical
/// root, or the failure, the first of the three that applies.
pub open spec fn serialized<S: RecordSerializerScheme>(scheme: &S, fields: Seq<Field>, final_high: bool) -> Result<
    (Seq<(Seq<bool>, Root)>, bool),
    SerializerError,
> {
    let chunks = chunked(packed(fields), data_bits(scheme));
    if !all_fit(fields) {
        Err(SerializerError::InvalidFieldWidth)
    } else if chunks.len() > element_count(scheme) {
        Err(SerializerError::RecordTooLarge)
    } else if !all_coordinates(scheme, chunks) {
        Err(SerializerError::InvalidFieldElement)
    } else {
        Ok((embedded(chunks, final_high), final_high && chunks.len() > 0))
    }
}

/// The bit string that the group elements hold for the scheme's record type.
pub open spec fn recovered_bits<S: RecordSerializerScheme>(scheme: &S, points: Seq<(Seq<bool>, Root)>) -> Seq<
    bool,
> {
    unchunked(coordinates(points), data_bits(scheme), total_width(scheme.layout()))
}

/// The sum of the widths, where it can be held.
pub fn sum_widths(widths: &Vec<usize>) -> (total: Option<usize>)
    ensures
        total_width(widths@) <= usize::MAX ==> total == Some(total_width(widths@) as usize),
        total_width(widths@) > usize::MAX ==> total is None,
{
    let mut total: usize = 0;
    let mut i: usize = 0;
    while i < widths.len()
        invariant
            i <= widths.len(),
            total == total_width(widths@.take(i as int)),
        decreases widths.len() - i,
    {
        proof {
            assert(widths@.take(i + 1).drop_last() == widths@.take(i as int));
            lemma_total_width_prefix(widths@, i + 1);
        }
        if widths[i] > usize::MAX - total {
            return None;
        }
        total += widths[i];
        i += 1;
    }
    proof {
        assert(widths@.take(i as int) == widths@);
    }
    Some(total)
}

/// The number of group elements that the scheme's record type serializes to.
pub fn expected_elements<S: RecordSerializerScheme>(scheme: &S) -> (count: usize)
    requires
        scheme.well_formed(),
    ensures
        count == element_count(scheme),
{
    proof {
        scheme.lemma_well_formed();
    }
    let width: usize = data_element_bitsize(scheme);
    match sum_widths(scheme.field_widths()) {
        Some(total) => {
            if total % width == 0 {
                total / width
            } else {
                proof {
                    assert(total / width < total) by (nonlinear_arith)
                        requires
                            width >= 1,
                            total % width != 0,
                            total >= 0,
                    ;
                }
                total / width + 1
            }
        },
        None => 0,
    }
}

/// Serializes a record: packs its fields, cuts the bits into data chunks and
/// embeds each chunk as a group element.
pub fn serialize<S: RecordSerializerScheme>(scheme: &S, record: &Record) -> (r: Result<
    (Vec<GroupElement>, bool),
    SerializerError,
>)
    requires
        scheme.well_formed(),
    ensures
        match serialized(scheme, record.fields@, record.final_high) {
            Ok((points, bit)) => r is Ok && element_views(r->Ok_0.0@) == points && r->Ok_0.1 == bit,
            Err(e) => r == Err::<(Vec<GroupElement>, bool), SerializerError>(e),
        },
{
    let bits = match pack(&record.fields) {
        Ok(bits) => bits,
        Err(e) => {
            return Err(e);
        },
    };
    let width: usize = data_element_bitsize(scheme);
    let chunks = chunk(&bits, width);
    let count: usize = chunks.len();
    if count > expected_elements(scheme) {
        return Err(SerializerError::RecordTooLarge);
    }
    let ghost target = chunked(packed(record.fields@), data_bits(scheme));
    let mut elements: Vec<GroupElement> = Vec::new();
    let mut i: usize = 0;
    while i < count
        invariant
            scheme.well_formed(),
            i <= count,
            count == chunks@.len(),
            count == target.len(),
            count <= element_count(scheme),
            all_fit(record.fields@),
            width == data_bits(scheme),
            chunk_views(chunks@) == target,
            target == chunked(packed(record.fields@), data_bits(scheme)),
            elements@.len() == i,
            forall|n: int| 0 <= n < i ==> scheme.is_coordinate(#[trigger] target[n]),
            forall|n: int|
                0 <= n < i ==> (#[trigger] elements@[n])@ == embedded(target, record.final_high)[n],
        decreases count - i,
    {
        let last = record.final_high && i == count - 1;
        proof {
            assert(chunk_views(chunks@)[i as int] == chunks@[i as int]@);
            assert(embedded(target, record.final_high)[i as int] == (target[i as int], root_of(last)));
        }
        match encode(scheme, &chunks[i], last) {
            Ok((element, _)) => {
                elements.push(element);
            },
            Err(e) => {
                proof {
                    assert(!scheme.is_coordinate(target[i as int]));
                    assert(target.len() == count);
                    assert(all_fit(record.fields@));
                    assert(!all_coordinates(scheme, target));
                }
                return Err(e);
            },
        }
        i += 1;
    }
    proof {
        assert(element_views(elements@) =~= embedded(target, record.final_high));
    }
    Ok((elements, record.final_high && count > 0))
}

/// Reads a record's fields back from its group elements. The flag bit is not
/// needed to recover the fields; it is taken over into the result and held
/// against the roots that the elements carry.
pub fn deserialize<S: RecordSerializerScheme>(
    scheme: &S,
    serialized_record: Vec<GroupElement>,
    final_fq_high_bit: bool,
) -> (r: Result<DeserializedRecord, SerializerError>)
    requires
        scheme.well_formed(),
    ensures
        serialized_record@.len() != element_count(scheme) ==> r == Err::<DeserializedRecord, SerializerError>(
            SerializerError::LengthMismatch,
        ),
        serialized_record@.len() == element_count(scheme) ==> r is Ok && is_unpacking(
            r->Ok_0.fields@,
            recovered_bits(scheme, element_views(serialized_record@)),
            scheme.layout(),
        ) && r->Ok_0.final_high == final_fq_high_bit && r->Ok_0.root_confirmed == roots_match(
            element_views(serialized_record@),
            final_fq_high_bit,
        ),
{
    proof {
        scheme.lemma_well_formed();
    }
    let count: usize = serialized_record.len();
    if count != expected_elements(scheme) {
        return Err(SerializerError::LengthMismatch);
    }
    let ghost points = element_views(serialized_record@);
    let mut chunks: Vec<Vec<bool>> = Vec::new();
    let mut confirmed: bool = count > 0 || !final_fq_high_bit;
    let mut i: usize = 0;
    while i < count
        invariant
            i <= count,
            count == serialized_record@.len(),
            points == element_views(serialized_record@),
            chunks@.len() == i,
            forall|n: int| 0 <= n < i ==> (#[trigger] chunks@[n])@ == points[n].0,
            confirmed == ((count > 0 || !final_fq_high_bit) && forall|n: int|
                0 <= n < i ==> (#[trigger] points[n]).1 == root_of(final_fq_high_bit && n == count - 1)),
        decreases count - i,
    {
        let element = &serialized_record[i];
        let wants_high = final_fq_high_bit && i == count - 1;
        proof {
            assert(points[i as int] == serialized_record@[i as int]@);
        }
        if is_canonical(element) == wants_high {
            confirmed = false;
        }
        chunks.push(decode(element));
        i += 1;
    }
    proof {
        assert(chunk_views(chunks@) =~= coordinates(points));
    }
    let width: usize = data_element_bitsize(scheme);
    let widths = scheme.field_widths();
    let total: usize = match sum_widths(widths) {
        Some(total) => total,
        None => {
            return Err(SerializerError::LengthMismatch);
        },
    };
    let bits = match unchunk(&chunks, width, total) {
        Ok(bits) => bits,
        Err(e) => {
            return Err(e);
        },
    };
    match unpack(&bits, widths) {
        Ok(fields) => Ok(DeserializedRecord { fields, final_high: final_fq_high_bit, root_confirmed: confirmed }),
        Err(e) => Err(e),
    }
}

} // verus!
