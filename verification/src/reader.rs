//! Recovering a framed message from the lowest bits of a buffer.

use vstd::prelude::*;
use crate::error::StegoError;
use crate::marker::{begins_with_start_marker, closes, ends_with_end_marker, start_marker};
use crate::stream::{assembled, available_bytes, recovered, recovered_byte};

verus! {

/// Where a scan that has recovered `from` bytes without stopping comes to
/// rest: at the first length from `from` on at which the recovered bytes end
/// with the end marker, or at the last whole byte of the buffer.
pub open spec fn scan_len(image: Seq<u8>, start: int, from: nat) -> nat
    decreases available_bytes(image.len(), start) - from,
{
    let whole = available_bytes(image.len(), start);
    if from >= whole {
        whole
    } else if closes(recovered(image, start, from)) {
        from
    } else {
        scan_len(image, start, from + 1)
    }
}

/// What a scan of `image` from index `start` on gives. Once seven bytes can
/// be recovered they must be the start marker. The scan then runs to the
/// first end marker, or to the end of the buffer where there is none, and
/// gives all it recovered, markers included.
pub open spec fn scanned(image: Seq<u8>, start: int) -> Result<Seq<u8>, StegoError> {
    if available_bytes(image.len(), start) >= 7 && recovered(image, start, 7) != start_marker() {
        Err(StegoError::NoHiddenMessage)
    } else {
        Ok(recovered(image, start, scan_len(image, start, 0)))
    }
}

/// A scan comes to rest at the first end marker and nowhere before: no
/// shorter run of recovered bytes ends with the end marker, and where it
/// rests before the last whole byte of the buffer, what it recovered does.
pub proof fn lemma_scan_len_is_first_end(image: Seq<u8>, start: int, from: nat)
    requires
        from <= available_bytes(image.len(), start),
    ensures
        from <= scan_len(image, start, from) <= available_bytes(image.len(), start),
        forall|k: nat|
            from <= k < scan_len(image, start, from) ==> !closes(
                #[trigger] recovered(image, start, k),
            ),
        scan_len(image, start, from) < available_bytes(image.len(), start) ==> closes(
            recovered(image, start, scan_len(image, start, from)),
        ),
    decreases available_bytes(image.len(), start) - from,
{
    if from < available_bytes(image.len(), start) && !closes(recovered(image, start, from)) {
        lemma_scan_len_is_first_end(image, start, from + 1);
    }
}

/// A scan that meets no end marker from `from` up to `stop`, and one at
/// `stop`, comes to rest at `stop`.
pub proof fn lemma_scan_rests_at_first_end(image: Seq<u8>, start: int, from: nat, stop: nat)
    requires
        from <= stop <= available_bytes(image.len(), start),
        forall|k: nat| from <= k < stop ==> !closes(#[trigger] recovered(image, start, k)),
        closes(recovered(image, start, stop)),
    ensures
        scan_len(image, start, from) == stop,
    decreases stop - from,
{
    if from < stop {
        lemma_scan_rests_at_first_end(image, start, from + 1, stop);
    }
}

/// Scans `image` from `start_position` on, one bit per byte, and returns the
/// recovered bytes with both markers.
///
/// Fails only where seven bytes were recovered and are not the start marker.
/// A buffer that ends before an end marker gives what was recovered so far.
pub fn decode_string(image: &Vec<u8>, start_position: &u64) -> (message: Result<Vec<u8>, StegoError>)
    ensures
        match message {
            Ok(bytes) => scanned(image@, *start_position as int) == Ok::<Seq<u8>, StegoError>(bytes@),
            Err(e) => scanned(image@, *start_position as int) == Err::<Seq<u8>, StegoError>(e),
        },
{
    let mut output_vec: Vec<u8> = Vec::new();
    let mut current_char: u8 = 0;
    let len: usize = image.len();
    let ghost start = *start_position as int;
    let ghost whole = available_bytes(image@.len(), start);
    if *start_position > len as u64 {
        assert(output_vec@ =~= recovered(image@, start, 0));
        return Ok(output_vec);
    }
    let first: usize = *start_position as usize;
    let mut index: usize = first;
    assert(output_vec@ =~= recovered(image@, start, 0));
    while index < len
        invariant
            len == image@.len(),
            start == *start_position as int,
            first == start,
            first <= index <= len,
            whole == available_bytes(image@.len(), start),
            output_vec@.len() == (index - first) / 8,
            output_vec@ == recovered(image@, start, output_vec@.len()),
            current_char == assembled(
                image@,
                start + 8 * output_vec@.len(),
                ((index - first) % 8) as nat,
            ),
            !closes(output_vec@),
            scan_len(image@, start, 0) == scan_len(image@, start, output_vec@.len()),
            whole >= 7 ==> output_vec@.len() >= 7 ==> recovered(image@, start, 7) == start_marker(),
        decreases len - index,
    {
        let bitposition: usize = (index - first) % 8;
        let value: u8 = (image[index] & 1) << ((7 - bitposition) as u8);
        let ghost count = output_vec@.len();
        current_char |= value;
        assert(current_char == assembled(image@, start + 8 * count, (bitposition + 1) as nat));
        if bitposition == 7 {
            assert(count < whole);
            assert(current_char == recovered_byte(image@, start + 8 * count));
            output_vec.push(current_char);
            current_char = 0;
            assert(output_vec@ =~= recovered(image@, start, count + 1));
            assert(scan_len(image@, start, count) == scan_len(image@, start, count + 1));
            if output_vec.len() == 7 {
                assert(output_vec@.take(7) =~= output_vec@);
                if !begins_with_start_marker(&output_vec) {
                    return Err(StegoError::NoHiddenMessage);
                }
            }
            if ends_with_end_marker(&output_vec) {
                assert(scan_len(image@, start, count + 1) == count + 1);
                return Ok(output_vec);
            }
        }
        index += 1;
    }
    assert(output_vec@.len() == whole);
    Ok(output_vec)
}

} // verus!
