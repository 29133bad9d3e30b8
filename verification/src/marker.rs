//! The two markers that bound a hidden message, and the frame they make.

use vstd::prelude::*;

verus! {

/// Length of the start marker in bytes.
pub const START_MARKER_LEN: usize = 7;

/// Length of the end marker in bytes.
pub const END_MARKER_LEN: usize = 5;

/// Length of the shortest framed message: both markers around nothing.
pub const FRAME_OVERHEAD: usize = 12;

/// The start marker: a backquote, `START`, a backquote.
pub open spec fn start_marker() -> Seq<u8> {
    seq![0x60u8, 0x53u8, 0x54u8, 0x41u8, 0x52u8, 0x54u8, 0x60u8]
}

/// The end marker: a backquote, `END`, a backquote.
pub open spec fn end_marker() -> Seq<u8> {
    seq![0x60u8, 0x45u8, 0x4eu8, 0x44u8, 0x60u8]
}

/// A payload between the two markers, as it is hidden.
pub open spec fn frame(payload: Seq<u8>) -> Seq<u8> {
    start_marker() + payload + end_marker()
}

/// Whether `message` is long enough to hold both markers and ends with the end marker.
pub open spec fn closes(message: Seq<u8>) -> bool {
    message.len() >= FRAME_OVERHEAD && message.subrange(
        message.len() - END_MARKER_LEN,
        message.len() as int,
    ) == end_marker()
}

/// A frame is twelve bytes longer than its payload, begins with the start
/// marker, ends with the end marker, and holds the payload in between.
pub proof fn lemma_frame_shape(payload: Seq<u8>)
    ensures
        frame(payload).len() == payload.len() + FRAME_OVERHEAD,
        frame(payload).take(START_MARKER_LEN as int) == start_marker(),
        frame(payload).subrange(START_MARKER_LEN as int, frame(payload).len() - END_MARKER_LEN)
            == payload,
        closes(frame(payload)),
{
    let framed = frame(payload);
    assert(start_marker().len() == START_MARKER_LEN);
    assert(end_marker().len() == END_MARKER_LEN);
    assert(framed.take(START_MARKER_LEN as int) =~= start_marker());
    assert(framed.subrange(START_MARKER_LEN as int, framed.len() - END_MARKER_LEN) =~= payload);
    assert(framed.subrange(framed.len() - END_MARKER_LEN, framed.len() as int) =~= end_marker());
}

/// The start marker as bytes.
pub fn start_marker_bytes() -> (bytes: Vec<u8>)
    ensures
        bytes@ == start_marker(),
{
    let bytes: Vec<u8> = vec![0x60u8, 0x53u8, 0x54u8, 0x41u8, 0x52u8, 0x54u8, 0x60u8];
    assert(bytes@ =~= start_marker());
    bytes
}

/// The end marker as bytes.
pub fn end_marker_bytes() -> (bytes: Vec<u8>)
    ensures
        bytes@ == end_marker(),
{
    let bytes: Vec<u8> = vec![0x60u8, 0x45u8, 0x4eu8, 0x44u8, 0x60u8];
    assert(bytes@ =~= end_marker());
    bytes
}

/// Whether `message` holds at least seven bytes and its first seven are the start marker.
pub fn begins_with_start_marker(message: &Vec<u8>) -> (yes: bool)
    ensures
        yes == (message@.len() >= START_MARKER_LEN && message@.take(START_MARKER_LEN as int)
            == start_marker()),
{
    if message.len() < START_MARKER_LEN {
        return false;
    }
    let yes: bool = message[0] == 0x60 && message[1] == 0x53 && message[2] == 0x54 && message[3]
        == 0x41 && message[4] == 0x52 && message[5] == 0x54 && message[6] == 0x60;
    proof {
        let head = message@.take(START_MARKER_LEN as int);
        if yes {
            assert(head =~= start_marker());
        } else {
            assert(head[0] == message@[0] && head[1] == message@[1] && head[2] == message@[2]
                && head[3] == message@[3] && head[4] == message@[4] && head[5] == message@[5]
                && head[6] == message@[6]);
            assert(start_marker()[0] == 0x60 && start_marker()[1] == 0x53 && start_marker()[2]
                == 0x54 && start_marker()[3] == 0x41 && start_marker()[4] == 0x52
                && start_marker()[5] == 0x54 && start_marker()[6] == 0x60);
        }
    }
    yes
}

/// Whether `message` holds at least twelve bytes and its last five are the end marker.
pub fn ends_with_end_marker(message: &Vec<u8>) -> (yes: bool)
    ensures
        yes == closes(message@),
{
    let len: usize = message.len();
    if len < FRAME_OVERHEAD {
        return false;
    }
    let yes: bool = message[len - 5] == 0x60 && message[len - 4] == 0x45 && message[len - 3]
        == 0x4e && message[len - 2] == 0x44 && message[len - 1] == 0x60;
    proof {
        let tail = message@.subrange(len - END_MARKER_LEN, len as int);
        if yes {
            assert(tail =~= end_marker());
        } else {
            assert(tail[0] == message@[len - 5] && tail[1] == message@[len - 4] && tail[2]
                == message@[len - 3] && tail[3] == message@[len - 2] && tail[4] == message@[len
                - 1]);
            assert(end_marker()[0] == 0x60 && end_marker()[1] == 0x45 && end_marker()[2] == 0x4e
                && end_marker()[3] == 0x44 && end_marker()[4] == 0x60);
        }
    }
    yes
}

} // verus!
