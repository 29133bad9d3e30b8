//! Reading the bitmap header: little-endian fields and the pixel array's offset.

use vstd::prelude::*;
use vstd::slice::slice_subrange;
use crate::error::StegoError;

verus! {

/// First byte of the bitmap signature, `B`.
pub const MAGIC_0: u8 = 0x42;

/// Second byte of the bitmap signature, `M`.
pub const MAGIC_1: u8 = 0x4d;

/// Index of the file-length field.
pub const FILE_LENGTH_FIELD: usize = 2;

/// Index of the first byte of the pixel-array offset field.
pub const OFFSET_FIELD_START: usize = 10;

/// Index of the image-width field.
pub const WIDTH_FIELD: usize = 0x12;

/// Index of the image-height field.
pub const HEIGHT_FIELD: usize = 0x16;

/// Length in bytes of each of these header fields.
pub const FIELD_LEN: usize = 4;

/// Index just behind the pixel-array offset field; the shortest header that can be located.
pub const OFFSET_FIELD_END: usize = 14;

/// 256 to the power `n`: the weight of byte `n` in a little-endian number.
pub open spec fn pow256(n: nat) -> nat
    decreases n,
{
    if n == 0 {
        1
    } else {
        256 * pow256((n - 1) as nat)
    }
}

/// The number that `bytes` spell in little-endian order: byte `i` weighs `256^i`.
pub open spec fn le_value(bytes: Seq<u8>) -> nat
    decreases bytes.len(),
{
    if bytes.len() == 0 {
        0
    } else {
        le_value(bytes.drop_last()) + bytes.last() as nat * pow256((bytes.len() - 1) as nat)
    }
}

/// The header field of four bytes at index `at`, read as a little-endian
/// number, where the buffer reaches to its end.
pub open spec fn field_value(buffer: Seq<u8>, at: int) -> Result<u64, StegoError> {
    if 0 <= at && at + FIELD_LEN <= buffer.len() {
        Ok(le_value(buffer.subrange(at, at + FIELD_LEN)) as u64)
    } else {
        Err(StegoError::TruncatedContainer)
    }
}

/// What locating the pixel array in `buffer` gives: the signature is looked at
/// first, then the length, then the four bytes of the offset field.
pub open spec fn pixel_array_offset(buffer: Seq<u8>) -> Result<u64, StegoError> {
    if buffer.len() < 2 {
        Err(StegoError::TruncatedContainer)
    } else if buffer[0] != MAGIC_0 || buffer[1] != MAGIC_1 {
        Err(StegoError::InvalidContainer)
    } else if buffer.len() < OFFSET_FIELD_END {
        Err(StegoError::TruncatedContainer)
    } else {
        field_value(buffer, OFFSET_FIELD_START as int)
    }
}

/// Locating the pixel array reads nothing behind the offset field: two
/// buffers that reach to its end and agree up to there give the same offset.
pub proof fn lemma_locate_reads_header_only(first: Seq<u8>, second: Seq<u8>)
    requires
        first.len() >= OFFSET_FIELD_END,
        second.len() >= OFFSET_FIELD_END,
        first.take(OFFSET_FIELD_END as int) == second.take(OFFSET_FIELD_END as int),
    ensures
        pixel_array_offset(first) == pixel_array_offset(second),
{
    let a = first.take(OFFSET_FIELD_END as int);
    let b = second.take(OFFSET_FIELD_END as int);
    assert(first[0] == a[0] && first[1] == a[1]);
    assert(second[0] == b[0] && second[1] == b[1]);
    assert(first.subrange(OFFSET_FIELD_START as int, OFFSET_FIELD_END as int) =~= a.subrange(
        OFFSET_FIELD_START as int,
        OFFSET_FIELD_END as int,
    ));
    assert(second.subrange(OFFSET_FIELD_START as int, OFFSET_FIELD_END as int) =~= b.subrange(
        OFFSET_FIELD_START as int,
        OFFSET_FIELD_END as int,
    ));
}

/// Locating the pixel array twice in a buffer that was not changed in
/// between gives the same answer both times.
pub proof fn lemma_locate_repeatable(buffer: Seq<u8>, again: Seq<u8>)
    requires
        again == buffer,
    ensures
        pixel_array_offset(again) == pixel_array_offset(buffer),
{
}

/// Or-ing a byte in above the bytes placed so far adds it with its weight.
proof fn lemma_place_byte(low: u64, byte: u8, position: u64)
    by (bit_vector)
    requires
        position < 8,
        low < (1u64 << (8 * position)),
    ensures
        (low | ((byte as u64) << (8 * position))) == low + (byte as u64) * (1u64 << (8 * position)),
        position < 7 ==> (low | ((byte as u64) << (8 * position))) < (1u64 << (8 * (position + 1))),
        position < 7 ==> (1u64 << (8 * (position + 1))) == 256 * (1u64 << (8 * position)),
{
}

/// A little-endian number of `n` bytes is below `256^n`.
pub proof fn lemma_le_value_bound(bytes: Seq<u8>)
    ensures
        le_value(bytes) < pow256(bytes.len()),
    decreases bytes.len(),
{
    if bytes.len() > 0 {
        lemma_le_value_bound(bytes.drop_last());
        let weight = pow256((bytes.len() - 1) as nat);
        assert(bytes.last() as nat * weight <= 255 * weight) by (nonlinear_arith)
            requires
                bytes.last() as nat <= 255,
        ;
    }
}

/// Decodes up to eight bytes as an unsigned little-endian number.
pub fn decode_bytes(slice: &[u8]) -> (value: u64)
    requires
        slice@.len() <= 8,
    ensures
        value as nat == le_value(slice@),
{
    let mut result: u64 = 0;
    let mut position: usize = 0;
    assert(slice@.take(0).len() == 0);
    assert((1u64 << 0u64) == 1) by (bit_vector);
    while position < slice.len()
        invariant
            position <= slice@.len() <= 8,
            result as nat == le_value(slice@.take(position as int)),
            position < 8 ==> (result as nat) < pow256(position as nat),
            position < 8 ==> pow256(position as nat) == (1u64 << ((8 * position) as u64)) as nat,
        decreases slice@.len() - position,
    {
        let byte: u8 = slice[position];
        let shift: u64 = 8 * (position as u64);
        proof {
            lemma_place_byte(result, byte, position as u64);
            let next = slice@.take(position + 1);
            assert(next.drop_last() == slice@.take(position as int));
            assert(next.last() == byte);
            assert(le_value(next) == le_value(next.drop_last()) + byte as nat * pow256(
                position as nat,
            ));
        }
        result |= (byte as u64) << shift;
        position += 1;
    }
    assert(slice@.take(position as int) == slice@);
    result
}

/// Reads the header field of four bytes at index `at` as a 32-bit
/// little-endian number, widened to 64 bits.
pub fn read_field(buffer: &Vec<u8>, at: usize) -> (value: Result<u64, StegoError>)
    ensures
        value == field_value(buffer@, at as int),
        value matches Ok(number) ==> number as nat == le_value(
            buffer@.subrange(at as int, at + FIELD_LEN),
        ) && number <= u32::MAX,
{
    if buffer.len() < FIELD_LEN || at > buffer.len() - FIELD_LEN {
        return Err(StegoError::TruncatedContainer);
    }
    let field: &[u8] = slice_subrange(buffer.as_slice(), at, at + FIELD_LEN);
    proof {
        lemma_le_value_bound(field@);
        reveal_with_fuel(pow256, 5);
    }
    Ok(decode_bytes(field))
}

/// Finds the index at which the pixel array starts.
///
/// The buffer must begin with the two signature bytes and reach to the end
/// of the offset field; the field is read as a 32-bit little-endian number.
pub fn locate_pixel_array(buffer: &Vec<u8>) -> (located: Result<u64, StegoError>)
    ensures
        located == pixel_array_offset(buffer@),
        located matches Ok(offset) ==> offset as nat == le_value(
            buffer@.subrange(OFFSET_FIELD_START as int, OFFSET_FIELD_END as int),
        ) && offset <= u32::MAX,
{
    if buffer.len() < 2 {
        return Err(StegoError::TruncatedContainer);
    }
    if buffer[0] != MAGIC_0 || buffer[1] != MAGIC_1 {
        return Err(StegoError::InvalidContainer);
    }
    read_field(buffer, OFFSET_FIELD_START)
}

} // verus!
