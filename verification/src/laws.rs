//! What holds of the serializer as a whole, proved from the definitions that
//! the functions' contracts use.

use vstd::prelude::*;
use vstd::arithmetic::power2::pow2;
use crate::bits::Field;
use crate::bits::all_fit;
use crate::bits::chunk_count;
use crate::bits::chunk_value;
use crate::bits::chunked;
use crate::bits::field_widths;
use crate::bits::fits;
use crate::bits::is_unpacking;
use crate::bits::packed;
use crate::bits::rendered;
use crate::bits::total_width;
use crate::bits::lemma_chunk_count_bounds;
use crate::bits::lemma_chunk_value_bound;
use crate::bits::lemma_packed_len;
use crate::bits::lemma_rendered_exact;
use crate::bits::lemma_unchunk_chunk;
use crate::bits::lemma_unpack_pack;
use crate::scheme::RecordSerializerScheme;
use crate::scheme::Root;
use crate::scheme::data_bits;
use crate::serializer::coordinates;
use crate::serializer::element_count;
use crate::serializer::embedded;
use crate::serializer::recovered_bits;
use crate::serializer::roots_match;
use crate::serializer::serialized;

verus! {

/// Two field lists hold the same values at the same widths.
pub open spec fn same_fields(a: Seq<Field>, b: Seq<Field>) -> bool {
    &&& a.len() == b.len()
    &&& forall|i: int|
        0 <= i < a.len() ==> (#[trigger] a[i]).value@ == b[i].value@ && a[i].width == b[i].width
}

/// Fields with the same values and widths pack to the same bits.
pub proof fn lemma_packed_same(a: Seq<Field>, b: Seq<Field>)
    requires
        same_fields(a, b),
    ensures
        packed(a) == packed(b),
        all_fit(a) == all_fit(b),
    decreases a.len(),
{
    if a.len() > 0 {
        assert(a.last() == a[a.len() - 1]);
        assert(same_fields(a.drop_last(), b.drop_last())) by {
            assert forall|i: int| 0 <= i < a.len() - 1 implies (#[trigger] a.drop_last()[i]).value@
                == b.drop_last()[i].value@ && a.drop_last()[i].width == b.drop_last()[i].width by {
                assert(a[i].value@ == b[i].value@);
            }
        }
        lemma_packed_same(a.drop_last(), b.drop_last());
    }
    if all_fit(a) {
        assert forall|i: int| 0 <= i < b.len() implies fits(#[trigger] b[i].value@, b[i].width as nat) by {
            assert(fits(a[i].value@, a[i].width as nat));
        }
    }
    if all_fit(b) {
        assert forall|i: int| 0 <= i < a.len() implies fits(#[trigger] a[i].value@, a[i].width as nat) by {
            assert(fits(b[i].value@, b[i].width as nat));
        }
    }
}

/// Serialization is a function of the record: records with the same fields
/// and the same flag give the same group elements and the same bit, or the
/// same failure.
pub proof fn lemma_serialize_deterministic<S: RecordSerializerScheme>(
    scheme: &S,
    a: Seq<Field>,
    b: Seq<Field>,
    final_high: bool,
)
    requires
        same_fields(a, b),
    ensures
        serialized(scheme, a, final_high) == serialized(scheme, b, final_high),
{
    lemma_packed_same(a, b);
}

/// Reading back what was serialized gives the record back. For a record of
/// the scheme's record type that serializes, the elements are as many as the
/// type fixes, they hold the packed bits, every field read from them has the
/// width it was declared with and its value at that width, the roots are
/// confirmed, and the bit is the record's flag unless the record has no bits
/// at all.
pub proof fn lemma_round_trip<S: RecordSerializerScheme>(
    scheme: &S,
    fields: Seq<Field>,
    final_high: bool,
    back: Seq<Field>,
)
    requires
        scheme.well_formed(),
        field_widths(fields) == scheme.layout(),
        serialized(scheme, fields, final_high) is Ok,
        is_unpacking(back, recovered_bits(scheme, serialized(scheme, fields, final_high)->Ok_0.0), scheme.layout()),
    ensures
        serialized(scheme, fields, final_high)->Ok_0.0.len() == element_count(scheme),
        recovered_bits(scheme, serialized(scheme, fields, final_high)->Ok_0.0) == packed(fields),
        roots_match(
            serialized(scheme, fields, final_high)->Ok_0.0,
            serialized(scheme, fields, final_high)->Ok_0.1,
        ),
        element_count(scheme) > 0 || !final_high ==> serialized(scheme, fields, final_high)->Ok_0.1 == final_high,
        back.len() == fields.len(),
        forall|i: int|
            0 <= i < fields.len() ==> (#[trigger] back[i]).width == fields[i].width && back[i].value@ == rendered(
                fields[i].value@,
                fields[i].width as nat,
            ),
        forall|i: int|
            0 <= i < fields.len() && fields[i].value@.len() == fields[i].width ==> (#[trigger] back[i]).value@
                == fields[i].value@,
{
    scheme.lemma_well_formed();
    let width = data_bits(scheme);
    let bits = packed(fields);
    let chunks = chunked(bits, width);
    let points = embedded(chunks, final_high);
    lemma_packed_len(fields);
    lemma_unchunk_chunk(bits, width);
    assert(coordinates(points) =~= chunks);
    assert forall|i: int| 0 <= i < fields.len() implies (#[trigger] back[i]).width == fields[i].width
        && back[i].value@ == rendered(fields[i].value@, fields[i].width as nat) by {
        lemma_unpack_pack(fields, i);
        assert(field_widths(fields)[i] == fields[i].width);
    }
    assert forall|i: int|
        0 <= i < fields.len() && fields[i].value@.len() == fields[i].width implies (#[trigger] back[i]).value@
        == fields[i].value@ by {
        lemma_rendered_exact(fields[i].value@);
    }
}

/// In a serialized record every element but the last is the canonical point
/// of its coordinate.
pub proof fn lemma_canonical_roots<S: RecordSerializerScheme>(
    scheme: &S,
    fields: Seq<Field>,
    final_high: bool,
    i: int,
)
    requires
        serialized(scheme, fields, final_high) is Ok,
        0 <= i < serialized(scheme, fields, final_high)->Ok_0.0.len() - 1,
    ensures
        serialized(scheme, fields, final_high)->Ok_0.0[i].1 == Root::Low,
{
}

/// Every chunk that the bit packer produces at the data width stands for an
/// integer below two to that width, and so below the inner-field modulus.
pub proof fn lemma_chunk_below_modulus<S: RecordSerializerScheme>(scheme: &S, bits: Seq<bool>, i: int)
    requires
        scheme.well_formed(),
        0 <= i < chunked(bits, data_bits(scheme)).len(),
    ensures
        chunk_value(chunked(bits, data_bits(scheme))[i]) < pow2(data_bits(scheme)),
        chunk_value(chunked(bits, data_bits(scheme))[i]) < scheme.inner_modulus(),
{
    scheme.lemma_well_formed();
    lemma_chunk_value_bound(chunked(bits, data_bits(scheme))[i]);
}

/// The number of elements of a serialized record is fixed by the widths of
/// its fields: the values and the flag have no part in it.
pub proof fn lemma_length_by_widths<S: RecordSerializerScheme>(
    scheme: &S,
    a: Seq<Field>,
    a_high: bool,
    b: Seq<Field>,
    b_high: bool,
)
    requires
        field_widths(a) == field_widths(b),
        serialized(scheme, a, a_high) is Ok,
        serialized(scheme, b, b_high) is Ok,
    ensures
        serialized(scheme, a, a_high)->Ok_0.0.len() == chunk_count(
            total_width(field_widths(a)),
            data_bits(scheme),
        ),
        serialized(scheme, a, a_high)->Ok_0.0.len() == serialized(scheme, b, b_high)->Ok_0.0.len(),
{
    lemma_packed_len(a);
    lemma_packed_len(b);
}

/// Bits that fill `k` chunks exactly are cut into `k` chunks.
pub proof fn lemma_exact_multiple(bits: Seq<bool>, width: nat, k: nat)
    requires
        width > 0,
        bits.len() == k * width,
    ensures
        chunked(bits, width).len() == k,
        k == bits.len() / width,
{
    vstd::arithmetic::div_mod::lemma_fundamental_div_mod_converse(bits.len() as int, width as int, k as int, 0);
}

/// Where the bits fill `k` chunks exactly, no chunk is padded: every bit of
/// every chunk is a bit of the string.
pub proof fn lemma_exact_multiple_unpadded(bits: Seq<bool>, width: nat, k: nat, i: int, j: int)
    requires
        width > 0,
        bits.len() == k * width,
        0 <= i < k,
        0 <= j < width,
    ensures
        0 <= i * width + j < bits.len(),
        chunked(bits, width)[i][j] == bits[i * width + j],
{
    lemma_exact_multiple(bits, width, k);
    assert(0 <= i * width + j < k * width) by (nonlinear_arith)
        requires
            0 <= i < k,
            0 <= j < width,
    ;
}

/// One bit more than `k` full chunks takes `k + 1` chunks, and the last chunk
/// is that bit followed by zeros.
pub proof fn lemma_one_bit_over(bits: Seq<bool>, width: nat, k: nat)
    requires
        width > 0,
        bits.len() == k * width + 1,
    ensures
        chunked(bits, width).len() == k + 1,
        chunked(bits, width)[k as int][0] == bits[bits.len() - 1],
        forall|j: int| 1 <= j < width ==> !(#[trigger] chunked(bits, width)[k as int][j]),
{
    assert(k * width < bits.len() <= (k + 1) * width) by (nonlinear_arith)
        requires
            width > 0,
            bits.len() == k * width + 1,
    ;
    lemma_chunk_count_bounds(bits.len(), width, k + 1);
}

} // verus!
