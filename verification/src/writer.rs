//! Writing a byte sequence into the lowest bits of a buffer.

use vstd::prelude::*;
use crate::error::StegoError;
use crate::stream::{bit_at, embedded, fits, payload_bit, with_lsb};

verus! {

/// Masking one bit out and shifting it down gives that bit as 0 or 1.
proof fn lemma_masked_bit(byte: u8, shift: u8)
    by (bit_vector)
    requires
        shift < 8,
    ensures
        (byte & (1u8 << shift)) >> shift == (byte >> shift) & 1,
{
}

/// Writes the bits of `text` into the lowest bits of `image`, one per byte
/// from `start_position` on, each byte of `text` from its highest bit down,
/// and returns the index behind the last byte written.
///
/// Where the bits do not fit between `start_position` and the end of the
/// buffer, nothing is written.
pub fn encode_string(image: &mut Vec<u8>, text: &Vec<u8>, start_position: &u64) -> (next: Result<
    u64,
    StegoError,
>)
    ensures
        final(image)@.len() == old(image)@.len(),
        forall|i: int|
            0 <= i < old(image)@.len() && !(*start_position <= i < *start_position + 8 * text@.len())
                ==> final(image)@[i] == old(image)@[i],
        match next {
            Ok(index) => {
                &&& fits(old(image)@.len(), text@.len(), *start_position as int)
                &&& index == *start_position + 8 * text@.len()
                &&& final(image)@ == embedded(old(image)@, text@, *start_position as int)
            },
            Err(e) => {
                &&& e == StegoError::CapacityExceeded
                &&& !fits(old(image)@.len(), text@.len(), *start_position as int)
                &&& final(image)@ == old(image)@
            },
        },
{
    let len: usize = image.len();
    if *start_position > len as u64 {
        return Err(StegoError::CapacityExceeded);
    }
    let first: usize = *start_position as usize;
    if text.len() > (len - first) / 8 {
        return Err(StegoError::CapacityExceeded);
    }
    let count: usize = text.len() * 8;
    let ghost before = image@;
    let mut written: usize = 0;
    while written < count
        invariant
            image@.len() == len,
            before.len() == len,
            count == 8 * text@.len(),
            first + count <= len,
            written <= count,
            forall|i: int|
                0 <= i < len ==> image@[i] == if first <= i < first + written {
                    with_lsb(before[i], payload_bit(text@, i - first))
                } else {
                    before[i]
                },
        decreases count - written,
    {
        let index: usize = first + written;
        let bitposition: usize = written % 8;
        let string_index: usize = written / 8;
        let shift: u8 = (7 - bitposition) as u8;
        let bitmask: u8 = 1u8 << shift;
        let value: u8 = (text[string_index] & bitmask) >> shift;
        proof {
            lemma_masked_bit(text@[string_index as int], shift);
            assert(value == bit_at(text@[string_index as int], bitposition as u8));
            assert(value == payload_bit(text@, index - first));
        }
        let carrier: u8 = image[index];
        image.set(index, (carrier & 0xfe) | value);
        written += 1;
    }
    assert(image@ =~= embedded(before, text@, first as int));
    Ok(*start_position + count as u64)
}

} // verus!
