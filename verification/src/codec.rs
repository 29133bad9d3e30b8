//! Hiding a payload in a bitmap and recovering it: the header is located,
//! then the framed payload is written to, or scanned from, the pixel array.

use vstd::prelude::*;
use crate::error::StegoError;
use crate::header::{
    lemma_locate_reads_header_only,
    locate_pixel_array,
    pixel_array_offset,
    OFFSET_FIELD_END,
};
use crate::marker::{
    closes,
    end_marker,
    end_marker_bytes,
    ends_with_end_marker,
    frame,
    lemma_frame_shape,
    start_marker,
    start_marker_bytes,
    END_MARKER_LEN,
    FRAME_OVERHEAD,
    START_MARKER_LEN,
};
use crate::reader::{
    decode_string,
    lemma_scan_len_is_first_end,
    lemma_scan_rests_at_first_end,
    scan_len,
    scanned,
};
use crate::stream::{
    available_bytes,
    embedded,
    fits,
    lemma_embedded_chain,
    lemma_recovered_of_embedded,
    recovered,
};
use crate::writer::encode_string;

verus! {

/// What is left of a scanned message once both markers are taken off. A
/// message that does not end with the end marker was cut short.
pub open spec fn stripped(message: Seq<u8>) -> Result<Seq<u8>, StegoError> {
    if closes(message) {
        Ok(message.subrange(START_MARKER_LEN as int, message.len() - END_MARKER_LEN))
    } else {
        Err(StegoError::UnterminatedMessage)
    }
}

/// The container with `payload` hidden in it: the framed payload written
/// from the pixel array's offset on, where the header is sound and the frame fits.
pub open spec fn encoded(container: Seq<u8>, payload: Seq<u8>) -> Result<Seq<u8>, StegoError> {
    match pixel_array_offset(container) {
        Err(e) => Err(e),
        Ok(offset) => if fits(container.len(), frame(payload).len(), offset as int) {
            Ok(embedded(container, frame(payload), offset as int))
        } else {
            Err(StegoError::CapacityExceeded)
        },
    }
}

/// The payload hidden in the container: what a scan from the pixel array's
/// offset on recovers, without the markers.
pub open spec fn decoded(container: Seq<u8>) -> Result<Seq<u8>, StegoError> {
    match pixel_array_offset(container) {
        Err(e) => Err(e),
        Ok(offset) => match scanned(container, offset as int) {
            Err(e) => Err(e),
            Ok(message) => stripped(message),
        },
    }
}

/// How many payload bytes the container can hide: the whole bytes that its
/// pixel array holds at one bit per byte, less the twelve of the markers.
pub open spec fn capacity_of(container: Seq<u8>) -> Result<nat, StegoError> {
    match pixel_array_offset(container) {
        Err(e) => Err(e),
        Ok(offset) => if available_bytes(container.len(), offset as int) >= FRAME_OVERHEAD {
            Ok((available_bytes(container.len(), offset as int) - FRAME_OVERHEAD) as nat)
        } else {
            Err(StegoError::CapacityExceeded)
        },
    }
}

/// Whether the frame of `payload` holds no end marker before its own: no
/// shorter beginning of it, of twelve bytes or more, ends with the end marker.
pub open spec fn unambiguous(payload: Seq<u8>) -> bool {
    forall|k: int|
        FRAME_OVERHEAD <= k < frame(payload).len() ==> !closes(#[trigger] frame(payload).take(k))
}

/// Encoding succeeds exactly for the payloads that are no longer than the
/// container's capacity; a longer one is refused as exceeding it.
pub proof fn lemma_encode_succeeds_within_capacity(container: Seq<u8>, payload: Seq<u8>)
    ensures
        encoded(container, payload) is Ok <==> (capacity_of(container) matches Ok(room)
            && payload.len() <= room),
        (capacity_of(container) matches Ok(room) && payload.len() > room) ==> encoded(
            container,
            payload,
        ) == Err::<Seq<u8>, StegoError>(StegoError::CapacityExceeded),
{
    lemma_frame_shape(payload);
}

/// Writing into a pixel array that starts behind the offset field leaves
/// the located offset as it was.
pub proof fn lemma_header_survives(container: Seq<u8>, text: Seq<u8>, start: int)
    requires
        OFFSET_FIELD_END <= start,
    ensures
        pixel_array_offset(embedded(container, text, start)) == pixel_array_offset(container),
{
    let marked = embedded(container, text, start);
    if container.len() >= OFFSET_FIELD_END {
        assert(marked.take(OFFSET_FIELD_END as int) =~= container.take(OFFSET_FIELD_END as int));
        lemma_locate_reads_header_only(marked, container);
    }
}

/// A scan of a buffer into which a frame was written gives that frame,
/// for every payload whose frame holds no end marker before its own.
pub proof fn lemma_scan_of_written_frame(image: Seq<u8>, payload: Seq<u8>, start: int)
    requires
        0 <= start,
        fits(image.len(), frame(payload).len(), start),
        unambiguous(payload),
    ensures
        scanned(embedded(image, frame(payload), start), start) == Ok::<Seq<u8>, StegoError>(
            frame(payload),
        ),
{
    let framed = frame(payload);
    let total = framed.len();
    let marked = embedded(image, framed, start);
    lemma_frame_shape(payload);
    assert(total <= available_bytes(marked.len(), start));
    assert(recovered(marked, start, START_MARKER_LEN as nat) == start_marker()) by {
        lemma_recovered_of_embedded(image, framed, start, START_MARKER_LEN as nat);
    }
    assert forall|k: nat| k < total implies !closes(#[trigger] recovered(marked, start, k)) by {
        lemma_recovered_of_embedded(image, framed, start, k);
        assert(recovered(marked, start, k).len() == k);
    }
    assert(recovered(marked, start, total) == framed) by {
        lemma_recovered_of_embedded(image, framed, start, total);
        assert(framed.take(total as int) =~= framed);
    }
    lemma_scan_rests_at_first_end(marked, start, 0, total);
}

/// Decoding what encoding made gives the payload back, for every payload
/// whose frame holds no end marker before its own, where the header is
/// located after the writing as before it. The latter holds whenever the
/// pixel array starts behind the offset field (`lemma_header_survives`); a
/// payload of the other kind is cut short (`lemma_ambiguous_payload_is_cut`).
pub proof fn lemma_round_trip(container: Seq<u8>, payload: Seq<u8>, marked: Seq<u8>)
    requires
        encoded(container, payload) == Ok::<Seq<u8>, StegoError>(marked),
        unambiguous(payload),
        pixel_array_offset(marked) == pixel_array_offset(container),
    ensures
        decoded(marked) == Ok::<Seq<u8>, StegoError>(payload),
{
    let start = pixel_array_offset(container)->Ok_0 as int;
    lemma_scan_of_written_frame(container, payload, start);
    lemma_frame_shape(payload);
}

/// A payload whose frame holds an end marker before its own does not come
/// back: the scan rests at the earlier marker, and what decoding gives, if
/// anything, is shorter than the payload.
pub proof fn lemma_ambiguous_payload_is_cut(container: Seq<u8>, payload: Seq<u8>, marked: Seq<u8>)
    requires
        encoded(container, payload) == Ok::<Seq<u8>, StegoError>(marked),
        !unambiguous(payload),
        pixel_array_offset(marked) == pixel_array_offset(container),
    ensures
        decoded(marked) matches Ok(found) ==> found.len() < payload.len(),
        decoded(marked) != Ok::<Seq<u8>, StegoError>(payload),
{
    let start = pixel_array_offset(container)->Ok_0 as int;
    let framed = frame(payload);
    let total = framed.len();
    lemma_frame_shape(payload);
    let k = choose|k: int| FRAME_OVERHEAD <= k < total && closes(#[trigger] framed.take(k));
    assert(total <= available_bytes(marked.len(), start));
    lemma_recovered_of_embedded(container, framed, start, k as nat);
    lemma_scan_len_is_first_end(marked, start, 0);
    let rest = scan_len(marked, start, 0);
    if k < rest {
        assert(!closes(recovered(marked, start, k as nat)));
    }
    assert(rest <= k);
    assert(recovered(marked, start, rest).len() == rest);
}

/// The frame of the empty payload is the two markers, and no end marker
/// stands in it before its own.
pub proof fn lemma_empty_payload_is_unambiguous()
    ensures
        frame(Seq::<u8>::empty()) == start_marker() + end_marker(),
        unambiguous(Seq::<u8>::empty()),
{
    let nothing = Seq::<u8>::empty();
    lemma_frame_shape(nothing);
    assert(frame(nothing) =~= start_marker() + end_marker());
}

/// Wherever a container has any capacity, the empty payload is hidden in it
/// as the two markers alone, and decoding that gives the empty payload back
/// (where the header is located after the writing as before it).
pub proof fn lemma_empty_payload_round_trip(container: Seq<u8>, offset: u64)
    requires
        capacity_of(container) is Ok,
        pixel_array_offset(container) == Ok::<u64, StegoError>(offset),
        pixel_array_offset(embedded(container, frame(Seq::<u8>::empty()), offset as int))
            == pixel_array_offset(container),
    ensures
        encoded(container, Seq::<u8>::empty()) == Ok::<Seq<u8>, StegoError>(
            embedded(container, frame(Seq::<u8>::empty()), offset as int),
        ),
        decoded(embedded(container, frame(Seq::<u8>::empty()), offset as int)) == Ok::<
            Seq<u8>,
            StegoError,
        >(Seq::<u8>::empty()),
{
    let nothing = Seq::<u8>::empty();
    let marked = embedded(container, frame(nothing), offset as int);
    lemma_encode_succeeds_within_capacity(container, nothing);
    assert(encoded(container, nothing) == Ok::<Seq<u8>, StegoError>(marked));
    lemma_empty_payload_is_unambiguous();
    lemma_round_trip(container, nothing, marked);
}

/// Takes both markers off a scanned message.
pub fn strip_markers(message: &Vec<u8>) -> (payload: Result<Vec<u8>, StegoError>)
    ensures
        match payload {
            Ok(bytes) => stripped(message@) == Ok::<Seq<u8>, StegoError>(bytes@),
            Err(e) => stripped(message@) == Err::<Seq<u8>, StegoError>(e),
        },
{
    if !ends_with_end_marker(message) {
        return Err(StegoError::UnterminatedMessage);
    }
    let end: usize = message.len() - END_MARKER_LEN;
    let mut bytes: Vec<u8> = Vec::new();
    let mut index: usize = START_MARKER_LEN;
    while index < end
        invariant
            START_MARKER_LEN <= index <= end,
            end == message@.len() - END_MARKER_LEN,
            bytes@ == message@.subrange(START_MARKER_LEN as int, index as int),
        decreases end - index,
    {
        bytes.push(message[index]);
        index += 1;
        assert(bytes@ =~= message@.subrange(START_MARKER_LEN as int, index as int));
    }
    Ok(bytes)
}

/// The number of payload bytes that the bitmap `container` can hide.
///
/// Fails where the header is refused, and where the pixel array cannot hold
/// even the two markers.
pub fn capacity(container: &Vec<u8>) -> (room: Result<usize, StegoError>)
    ensures
        match room {
            Ok(bytes) => capacity_of(container@) == Ok::<nat, StegoError>(bytes as nat),
            Err(e) => capacity_of(container@) == Err::<nat, StegoError>(e),
        },
{
    let start_address: u64 = match locate_pixel_array(container) {
        Ok(offset) => offset,
        Err(e) => {
            return Err(e);
        },
    };
    let len: usize = container.len();
    if start_address > len as u64 {
        return Err(StegoError::CapacityExceeded);
    }
    let whole: usize = (len - start_address as usize) / 8;
    if whole < FRAME_OVERHEAD {
        return Err(StegoError::CapacityExceeded);
    }
    Ok(whole - FRAME_OVERHEAD)
}

/// Hides `payload` in the bitmap `container`: the start marker, the payload
/// and the end marker are written into the lowest bits of the pixel array,
/// from its first byte on.
///
/// Where the header is refused or the frame does not fit, the container is
/// left as it was.
pub fn encode(container: &mut Vec<u8>, payload: &Vec<u8>) -> (done: Result<(), StegoError>)
    ensures
        final(container)@.len() == old(container)@.len(),
        match done {
            Ok(_) => encoded(old(container)@, payload@) == Ok::<Seq<u8>, StegoError>(
                final(container)@,
            ),
            Err(e) => encoded(old(container)@, payload@) == Err::<Seq<u8>, StegoError>(e)
                && final(container)@ == old(container)@,
        },
        match pixel_array_offset(old(container)@) {
            Ok(offset) => forall|i: int|
                0 <= i < old(container)@.len() && !(offset <= i < offset + 8 * frame(
                    payload@,
                ).len()) ==> final(container)@[i] == old(container)@[i],
            Err(_) => final(container)@ == old(container)@,
        },
{
    let start_address: u64 = match locate_pixel_array(container) {
        Ok(offset) => offset,
        Err(e) => {
            return Err(e);
        },
    };
    let len: usize = container.len();
    if start_address > len as u64 {
        return Err(StegoError::CapacityExceeded);
    }
    let room: usize = (len - start_address as usize) / 8;
    if room < FRAME_OVERHEAD || payload.len() > room - FRAME_OVERHEAD {
        return Err(StegoError::CapacityExceeded);
    }
    let ghost before = container@;
    let start_vec: Vec<u8> = start_marker_bytes();
    let end_vec: Vec<u8> = end_marker_bytes();
    let address: u64 = match encode_string(container, &start_vec, &start_address) {
        Ok(next) => next,
        Err(e) => {
            return Err(e);
        },
    };
    let address: u64 = match encode_string(container, payload, &address) {
        Ok(next) => next,
        Err(e) => {
            return Err(e);
        },
    };
    match encode_string(container, &end_vec, &address) {
        Ok(_) => {},
        Err(e) => {
            return Err(e);
        },
    }
    proof {
        let start = start_address as int;
        lemma_embedded_chain(before, start_marker(), payload@, start);
        lemma_embedded_chain(before, start_marker() + payload@, end_marker(), start);
    }
    Ok(())
}

/// Recovers the payload hidden in the bitmap `container`.
///
/// Fails where the header is refused, where the pixel array does not begin
/// with the start marker, and where it ends before an end marker.
pub fn decode(container: &Vec<u8>) -> (payload: Result<Vec<u8>, StegoError>)
    ensures
        match payload {
            Ok(bytes) => decoded(container@) == Ok::<Seq<u8>, StegoError>(bytes@),
            Err(e) => decoded(container@) == Err::<Seq<u8>, StegoError>(e),
        },
{
    let start_address: u64 = match locate_pixel_array(container) {
        Ok(offset) => offset,
        Err(e) => {
            return Err(e);
        },
    };
    match decode_string(container, &start_address) {
        Ok(message) => strip_markers(&message),
        Err(e) => Err(e),
    }
}

} // verus!
