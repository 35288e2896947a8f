//! The bit packer: fields to one bit string, a bit string to fixed-width
//! chunks, and both ways back.

use vstd::prelude::*;
use vstd::arithmetic::div_mod::lemma_fundamental_div_mod_converse;
use vstd::arithmetic::div_mod::lemma_fundamental_div_mod;
use vstd::arithmetic::power2::pow2;
use vstd::arithmetic::power2::lemma_pow2_unfold;
use vstd::arithmetic::power2::lemma_pow2_strictly_increases;
use vstd::arithmetic::power2::lemma2_to64;
use crate::error::SerializerError;

verus! {

/// One logical field of a record: an unsigned integer, written as bits with the
/// most significant bit first, and the number of bits it occupies when packed.
#[derive(Clone, Debug, PartialEq, Eq)]
pub struct Field {
    pub value: Vec<bool>,
    pub width: usize,
}

/// Bit `k` of `bits`, reading every position outside the sequence as zero.
pub open spec fn bit_at(bits: Seq<bool>, k: int) -> bool {
    0 <= k < bits.len() && bits[k]
}

/// The value has no set bit above its lowest `width` bits.
pub open spec fn fits(value: Seq<bool>, width: nat) -> bool {
    forall|i: int| 0 <= i < value.len() - width ==> !#[trigger] value[i]
}

/// The lowest `width` bits of the value, most significant first, padded with
/// zeros on the left where the value is shorter.
pub open spec fn rendered(value: Seq<bool>, width: nat) -> Seq<bool> {
    Seq::new(width, |i: int| bit_at(value, i + value.len() - width))
}

/// Every field's value fits its declared width.
pub open spec fn all_fit(fields: Seq<Field>) -> bool {
    forall|i: int| 0 <= i < fields.len() ==> fits(#[trigger] fields[i].value@, fields[i].width as nat)
}

/// The fields' renderings, first field first, as one bit string.
pub open spec fn packed(fields: Seq<Field>) -> Seq<bool>
    decreases fields.len(),
{
    if fields.len() == 0 {
        Seq::empty()
    } else {
        packed(fields.drop_last()) + rendered(fields.last().value@, fields.last().width as nat)
    }
}

/// Decides whether a value fits a width.
pub fn value_fits(value: &Vec<bool>, width: usize) -> (ok: bool)
    ensures
        ok == fits(value@, width as nat),
{
    let len: usize = value.len();
    if len <= width {
        return true;
    }
    let excess: usize = len - width;
    let mut k: usize = 0;
    while k < excess
        invariant
            k <= excess,
            excess == value@.len() - width,
            forall|i: int| 0 <= i < k ==> !#[trigger] value@[i],
        decreases excess - k,
    {
        if value[k] {
            return false;
        }
        k += 1;
    }
    true
}

/// Concatenates the fields' bits, first field first, each field rendered at
/// exactly its declared width.
pub fn pack(fields: &Vec<Field>) -> (r: Result<Vec<bool>, SerializerError>)
    ensures
        all_fit(fields@) ==> r is Ok && r->Ok_0@ == packed(fields@),
        !all_fit(fields@) ==> r == Err::<Vec<bool>, SerializerError>(SerializerError::InvalidFieldWidth),
{
    let mut out: Vec<bool> = Vec::new();
    let mut i: usize = 0;
    while i < fields.len()
        invariant
            i <= fields.len(),
            all_fit(fields@.take(i as int)),
            out@ == packed(fields@.take(i as int)),
        decreases fields.len() - i,
    {
        let field = &fields[i];
        if !value_fits(&field.value, field.width) {
            return Err(SerializerError::InvalidFieldWidth);
        }
        let len: usize = field.value.len();
        let width: usize = field.width;
        let ghost before = out@;
        let mut j: usize = 0;
        while j < width
            invariant
                j <= width,
                len == field.value@.len(),
                out@ == before + rendered(field.value@, width as nat).take(j as int),
            decreases width - j,
        {
            let bit = if width - j <= len {
                field.value[len - (width - j)]
            } else {
                false
            };
            out.push(bit);
            proof {
                let whole = rendered(field.value@, width as nat);
                assert(whole.take(j + 1) == whole.take(j as int).push(whole[j as int]));
                assert(out@ == before + whole.take(j + 1));
            }
            j += 1;
        }
        proof {
            let whole = rendered(field.value@, width as nat);
            assert(whole.take(width as int) == whole);
            assert(fields@.take(i + 1).drop_last() == fields@.take(i as int));
            assert(fields@.take(i + 1).last() == fields@[i as int]);
            assert forall|n: int| 0 <= n < i + 1 implies fits(
                #[trigger] fields@.take(i + 1)[n].value@,
                fields@.take(i + 1)[n].width as nat,
            ) by {
                if n < i {
                    assert(fields@.take(i + 1)[n] == fields@.take(i as int)[n]);
                }
            }
        }
        i += 1;
    }
    proof {
        assert(fields@.take(i as int) == fields@);
    }
    Ok(out)
}

/// How many chunks of `width` bits hold `len` bits.
pub open spec fn chunk_count(len: nat, width: nat) -> nat {
    if width == 0 {
        0
    } else if len % width == 0 {
        len / width
    } else {
        len / width + 1
    }
}

/// The bit string cut into chunks of `width` bits, the last one padded with
/// zeros behind the string's end. Bit `j` of a chunk has weight `2^j` in the
/// integer that the chunk stands for.
pub open spec fn chunked(bits: Seq<bool>, width: nat) -> Seq<Seq<bool>> {
    Seq::new(
        chunk_count(bits.len(), width),
        |i: int| Seq::new(width, |j: int| bit_at(bits, i * width + j)),
    )
}

/// The chunks as plain bit sequences.
pub open spec fn chunk_views(chunks: Seq<Vec<bool>>) -> Seq<Seq<bool>> {
    Seq::new(chunks.len(), |i: int| chunks[i]@)
}

/// The first `total` bits that the chunks hold, each chunk read at `width`
/// bits and as zero beyond its own length.
pub open spec fn unchunked(chunks: Seq<Seq<bool>>, width: nat, total: nat) -> Seq<bool> {
    Seq::new(total, |k: int| bit_at(chunks[k / (width as int)], k % (width as int)))
}

/// `count` chunks are needed exactly when the bits reach into the last of them.
pub proof fn lemma_chunk_count_bounds(len: nat, width: nat, count: nat)
    requires
        width > 0,
        count > 0,
        (count - 1) * width < len <= count * width,
    ensures
        chunk_count(len, width) == count,
{
    if len == count * width {
        lemma_fundamental_div_mod_converse(len as int, width as int, count as int, 0);
    } else {
        let r = len - (count - 1) * width;
        assert(0 < r < width && len == (count - 1) * width + r) by (nonlinear_arith)
            requires
                r == len - (count - 1) * width,
                (count - 1) * width < len < count * width,
        ;
        lemma_fundamental_div_mod_converse(len as int, width as int, count - 1, r);
    }
}

/// Every bit position below `len` lies in one of the `chunk_count` chunks.
pub proof fn lemma_position_in_chunk(k: int, len: nat, width: nat)
    requires
        width > 0,
        0 <= k < len,
    ensures
        0 <= k / (width as int) < chunk_count(len, width),
        0 <= k % (width as int) < width,
        (k / (width as int)) * width + k % (width as int) == k,
{
    let w = width as int;
    lemma_fundamental_div_mod(k, w);
    lemma_fundamental_div_mod(len as int, w);
    let q = k / w;
    let n = (len as int) / w;
    assert(q >= 0 && k % w >= 0 && k % w < w && (len as int) % w >= 0 && (len as int) % w < w
        && k == w * q + k % w && len == w * n + (len as int) % w) by (nonlinear_arith)
        requires
            w > 0,
            k >= 0,
            len >= 0,
            q == k / w,
            n == (len as int) / w,
            k == w * (k / w) + k % w,
            len == w * ((len as int) / w) + (len as int) % w,
    ;
    assert(q < chunk_count(len, width)) by (nonlinear_arith)
        requires
            w > 0,
            q >= 0,
            n >= 0,
            k < len,
            k == w * q + k % w,
            len == w * n + (len as int) % w,
            0 <= k % w < w,
            0 <= (len as int) % w < w,
            chunk_count(len, width) == (if (len as int) % w == 0 { n } else { n + 1 }),
    ;
    assert(q * w == w * q) by (nonlinear_arith);
}

/// Cuts a bit string into chunks of `width` bits. The last chunk is padded
/// with zeros behind the end of the string.
pub fn chunk(bits: &Vec<bool>, width: usize) -> (chunks: Vec<Vec<bool>>)
    requires
        width > 0,
    ensures
        chunk_views(chunks@) == chunked(bits@, width as nat),
{
    let len: usize = bits.len();
    let mut chunks: Vec<Vec<bool>> = Vec::new();
    let mut start: usize = 0;
    let ghost target = chunked(bits@, width as nat);
    while start < len
        invariant
            width > 0,
            len == bits@.len(),
            start <= len,
            target == chunked(bits@, width as nat),
            start < len ==> start == chunks@.len() * width,
            start == len ==> chunks@.len() == chunk_count(len as nat, width as nat),
            chunks@.len() <= target.len(),
            forall|i: int| 0 <= i < chunks@.len() ==> (#[trigger] chunks@[i])@ == target[i],
        decreases len - start,
    {
        let ghost index = chunks@.len() as int;
        proof {
            lemma_position_in_chunk(start as int, len as nat, width as nat);
            lemma_fundamental_div_mod_converse(start as int, width as int, index, 0);
        }
        let left: usize = len - start;
        let mut piece: Vec<bool> = Vec::new();
        let mut j: usize = 0;
        while j < width
            invariant
                j <= width,
                len == bits@.len(),
                start < len,
                left == len - start,
                start == index * width,
                0 <= index < target.len(),
                target == chunked(bits@, width as nat),
                piece@ == target[index].take(j as int),
            decreases width - j,
        {
            let bit = if j < left {
                bits[start + j]
            } else {
                false
            };
            piece.push(bit);
            proof {
                assert(target[index].take(j + 1) == target[index].take(j as int).push(target[index][j as int]));
            }
            j += 1;
        }
        proof {
            assert(target[index].take(width as int) == target[index]);
        }
        chunks.push(piece);
        if left <= width {
            proof {
                assert((index + 1 - 1) * width < len <= (index + 1) * width) by (nonlinear_arith)
                    requires
                        start == index * width,
                        start < len,
                        len - start <= width,
                ;
                lemma_chunk_count_bounds(len as nat, width as nat, (index + 1) as nat);
            }
            start = len;
        } else {
            proof {
                assert(start + width == (index + 1) * width) by (nonlinear_arith)
                    requires
                        start == index * width,
                ;
            }
            start += width;
        }
    }
    proof {
        if len == 0 {
            assert(chunk_count(0, width as nat) == 0);
        }
        assert(chunk_views(chunks@) =~= target);
    }
    chunks
}

/// Joins chunks back into the bit string of `total` bits that they were cut
/// from, dropping the padding of the last chunk.
pub fn unchunk(chunks: &Vec<Vec<bool>>, width: usize, total: usize) -> (r: Result<Vec<bool>, SerializerError>)
    requires
        width > 0,
    ensures
        chunks@.len() == chunk_count(total as nat, width as nat) ==> r is Ok && r->Ok_0@ == unchunked(
            chunk_views(chunks@),
            width as nat,
            total as nat,
        ),
        chunks@.len() != chunk_count(total as nat, width as nat) ==> r == Err::<Vec<bool>, SerializerError>(
            SerializerError::LengthMismatch,
        ),
{
    let whole: usize = total / width;
    let count_matches = if total % width == 0 {
        chunks.len() == whole
    } else {
        chunks.len() > 0 && chunks.len() - 1 == whole
    };
    if !count_matches {
        return Err(SerializerError::LengthMismatch);
    }
    let ghost target = unchunked(chunk_views(chunks@), width as nat, total as nat);
    let mut out: Vec<bool> = Vec::new();
    let mut k: usize = 0;
    while k < total
        invariant
            width > 0,
            k <= total,
            chunks@.len() == chunk_count(total as nat, width as nat),
            target == unchunked(chunk_views(chunks@), width as nat, total as nat),
            out@ == target.take(k as int),
        decreases total - k,
    {
        proof {
            lemma_position_in_chunk(k as int, total as nat, width as nat);
        }
        let piece = &chunks[k / width];
        let j: usize = k % width;
        let bit = j < piece.len() && piece[j];
        out.push(bit);
        proof {
            assert(target.take(k + 1) == target.take(k as int).push(target[k as int]));
        }
        k += 1;
    }
    proof {
        assert(target.take(total as int) == target);
    }
    Ok(out)
}

/// Cutting a bit string into chunks and joining them again gives the string
/// back, whatever the chunk width.
pub proof fn lemma_unchunk_chunk(bits: Seq<bool>, width: nat)
    requires
        width > 0,
    ensures
        unchunked(chunked(bits, width), width, bits.len()) == bits,
{
    let back = unchunked(chunked(bits, width), width, bits.len());
    assert forall|k: int| 0 <= k < bits.len() implies back[k] == bits[k] by {
        lemma_position_in_chunk(k, bits.len(), width);
    }
    assert(back =~= bits);
}

/// The sum of the widths: the length of the bit string that fields of these
/// widths pack into.
pub open spec fn total_width(widths: Seq<usize>) -> nat
    decreases widths.len(),
{
    if widths.len() == 0 {
        0
    } else {
        total_width(widths.drop_last()) + widths.last() as nat
    }
}

/// Where field `i` starts in the packed bit string.
pub open spec fn field_offset(widths: Seq<usize>, i: int) -> nat {
    total_width(widths.take(i))
}

/// The declared widths of the fields, in order.
pub open spec fn field_widths(fields: Seq<Field>) -> Seq<usize> {
    Seq::new(fields.len(), |i: int| fields[i].width)
}

/// `fields` is what `bits` holds when read as fields of the given widths:
/// field `i` has width `widths[i]` and, as its value, the bits from its offset
/// up to the next field's.
pub open spec fn is_unpacking(fields: Seq<Field>, bits: Seq<bool>, widths: Seq<usize>) -> bool {
    &&& fields.len() == widths.len()
    &&& forall|i: int|
        0 <= i < fields.len() ==> (#[trigger] fields[i]).width == widths[i] && fields[i].value@
            == bits.subrange(field_offset(widths, i) as int, field_offset(widths, i + 1) as int)
}

/// A prefix of the widths sums to no more than all of them.
pub proof fn lemma_total_width_prefix(widths: Seq<usize>, i: int)
    requires
        0 <= i <= widths.len(),
    ensures
        total_width(widths.take(i)) <= total_width(widths),
    decreases widths.len(),
{
    if i == widths.len() {
        assert(widths.take(i) == widths);
    } else {
        assert(widths.drop_last().take(i) == widths.take(i));
        lemma_total_width_prefix(widths.drop_last(), i);
    }
}

/// Each field's offset is the previous field's offset plus that field's width.
pub proof fn lemma_field_offset_step(widths: Seq<usize>, i: int)
    requires
        0 <= i < widths.len(),
    ensures
        field_offset(widths, i + 1) == field_offset(widths, i) + widths[i],
{
    assert(widths.take(i + 1).drop_last() == widths.take(i));
}

/// Reads a bit string as fields of the given widths, first field first.
pub fn unpack(bits: &Vec<bool>, widths: &Vec<usize>) -> (r: Result<Vec<Field>, SerializerError>)
    ensures
        bits@.len() == total_width(widths@) ==> r is Ok && is_unpacking(r->Ok_0@, bits@, widths@),
        bits@.len() != total_width(widths@) ==> r == Err::<Vec<Field>, SerializerError>(
            SerializerError::LengthMismatch,
        ),
{
    let len: usize = bits.len();
    let mut fields: Vec<Field> = Vec::new();
    let mut pos: usize = 0;
    let mut i: usize = 0;
    while i < widths.len()
        invariant
            i <= widths.len(),
            len == bits@.len(),
            pos <= len,
            pos == field_offset(widths@, i as int),
            fields@.len() == i,
            forall|n: int|
                0 <= n < i ==> (#[trigger] fields@[n]).width == widths@[n] && fields@[n].value@
                    == bits@.subrange(field_offset(widths@, n) as int, field_offset(widths@, n + 1) as int),
        decreases widths.len() - i,
    {
        let width: usize = widths[i];
        proof {
            lemma_field_offset_step(widths@, i as int);
            lemma_total_width_prefix(widths@, i + 1);
        }
        if width > len - pos {
            return Err(SerializerError::LengthMismatch);
        }
        let mut value: Vec<bool> = Vec::new();
        let mut j: usize = 0;
        while j < width
            invariant
                j <= width,
                len == bits@.len(),
                pos + width <= len,
                value@ == bits@.subrange(pos as int, pos + j),
            decreases width - j,
        {
            value.push(bits[pos + j]);
            proof {
                assert(bits@.subrange(pos as int, pos + j + 1) == bits@.subrange(pos as int, pos + j).push(
                    bits@[pos + j],
                ));
            }
            j += 1;
        }
        fields.push(Field { value, width });
        pos += width;
        i += 1;
    }
    proof {
        assert(widths@.take(i as int) == widths@);
    }
    if pos != len {
        return Err(SerializerError::LengthMismatch);
    }
    Ok(fields)
}

/// The packed bit string is as long as the fields' widths together.
pub proof fn lemma_packed_len(fields: Seq<Field>)
    ensures
        packed(fields).len() == total_width(field_widths(fields)),
    decreases fields.len(),
{
    if fields.len() > 0 {
        lemma_packed_len(fields.drop_last());
        assert(field_widths(fields).drop_last() == field_widths(fields.drop_last()));
    }
}

/// In the packed bit string, the bits from field `i`'s offset to the next
/// offset are that field's value rendered at its width: unpacking what was
/// packed gives every field back.
pub proof fn lemma_unpack_pack(fields: Seq<Field>, i: int)
    requires
        0 <= i < fields.len(),
    ensures
        field_offset(field_widths(fields), i + 1) <= packed(fields).len(),
        packed(fields).subrange(
            field_offset(field_widths(fields), i) as int,
            field_offset(field_widths(fields), i + 1) as int,
        ) == rendered(fields[i].value@, fields[i].width as nat),
    decreases fields.len(),
{
    let widths = field_widths(fields);
    let init = fields.drop_last();
    let from = field_offset(widths, i) as int;
    let to = field_offset(widths, i + 1) as int;
    lemma_field_offset_step(widths, i);
    lemma_packed_len(init);
    assert(widths.drop_last() == field_widths(init));
    if i == fields.len() - 1 {
        assert(widths.take(i) == field_widths(init));
        assert(packed(fields).subrange(from, to) =~= rendered(fields[i].value@, fields[i].width as nat));
    } else {
        lemma_unpack_pack(init, i);
        lemma_field_offset_step(field_widths(init), i);
        assert(field_widths(init).take(i) == widths.take(i));
        assert(field_widths(init).take(i + 1) == widths.take(i + 1));
        assert(packed(fields).subrange(from, to) =~= packed(init).subrange(from, to));
    }
}

/// A value that is exactly as long as its width is rendered as itself.
pub proof fn lemma_rendered_exact(value: Seq<bool>)
    ensures
        rendered(value, value.len()) == value,
        fits(value, value.len()),
{
    assert(rendered(value, value.len()) =~= value);
}

/// The integer that a chunk stands for: bit `j` has weight `2^j`.
pub open spec fn chunk_value(chunk: Seq<bool>) -> nat
    decreases chunk.len(),
{
    if chunk.len() == 0 {
        0
    } else if chunk.last() {
        chunk_value(chunk.drop_last()) + pow2((chunk.len() - 1) as nat)
    } else {
        chunk_value(chunk.drop_last())
    }
}

/// A chunk of `n` bits stands for an integer below `2^n`.
pub proof fn lemma_chunk_value_bound(chunk: Seq<bool>)
    ensures
        chunk_value(chunk) < pow2(chunk.len()),
    decreases chunk.len(),
{
    if chunk.len() == 0 {
        lemma2_to64();
    } else {
        lemma_chunk_value_bound(chunk.drop_last());
        lemma_pow2_unfold(chunk.len());
    }
}

/// The integer that a field's value stands for: the bits read as a binary
/// numeral, most significant bit first.
pub open spec fn field_value(value: Seq<bool>) -> nat
    decreases value.len(),
{
    if value.len() == 0 {
        0
    } else if value.last() {
        2 * field_value(value.drop_last()) + 1
    } else {
        2 * field_value(value.drop_last())
    }
}

/// A numeral of `n` bits stands for an integer below `2^n`.
pub proof fn lemma_field_value_bound(value: Seq<bool>)
    ensures
        field_value(value) < pow2(value.len()),
    decreases value.len(),
{
    if value.len() == 0 {
        lemma2_to64();
    } else {
        lemma_field_value_bound(value.drop_last());
        lemma_pow2_unfold(value.len());
    }
}

/// A numeral with bit `i` set stands for at least that bit's weight.
pub proof fn lemma_field_value_set_bit(value: Seq<bool>, i: int)
    requires
        0 <= i < value.len(),
        value[i],
    ensures
        field_value(value) >= pow2((value.len() - 1 - i) as nat),
    decreases value.len(),
{
    if i == value.len() - 1 {
        lemma2_to64();
    } else {
        lemma_field_value_set_bit(value.drop_last(), i);
        lemma_pow2_unfold((value.len() - 1 - i) as nat);
    }
}

/// Rendering a value that fits its width keeps the integer it stands for.
pub proof fn lemma_rendered_value(value: Seq<bool>, width: nat)
    requires
        fits(value, width),
    ensures
        field_value(rendered(value, width)) == field_value(value),
    decreases value.len() + width,
{
    let whole = rendered(value, width);
    if width == 0 {
        if value.len() > 0 {
            assert(fits(value.drop_last(), 0));
            lemma_rendered_value(value.drop_last(), 0);
            assert(rendered(value.drop_last(), 0) =~= whole);
            assert(!value[value.len() - 1]);
        }
    } else if value.len() == 0 {
        assert(whole.drop_last() =~= rendered(value, (width - 1) as nat));
        lemma_rendered_value(value, (width - 1) as nat);
    } else {
        assert(whole.drop_last() =~= rendered(value.drop_last(), (width - 1) as nat));
        assert(whole.last() == value.last());
        assert(fits(value.drop_last(), (width - 1) as nat));
        lemma_rendered_value(value.drop_last(), (width - 1) as nat);
    }
}

/// A value fits a width exactly when the integer it stands for is below two
/// to that width.
pub proof fn lemma_fits_iff_below(value: Seq<bool>, width: nat)
    ensures
        fits(value, width) <==> field_value(value) < pow2(width),
{
    if fits(value, width) {
        lemma_rendered_value(value, width);
        lemma_field_value_bound(rendered(value, width));
    } else {
        let i = choose|i: int| 0 <= i < value.len() - width && value[i];
        lemma_field_value_set_bit(value, i);
        if value.len() - 1 - i > width {
            lemma_pow2_strictly_increases(width, (value.len() - 1 - i) as nat);
        }
    }
}

} // verus!
