use stegosaurus::codec::{capacity, decode, encode};
use stegosaurus::error::StegoError;
use stegosaurus::header::locate_pixel_array;

fn bitmap(header_len: usize, pixel_offset: u32, pixels: &[u8]) -> Vec<u8> {
    let mut buffer: Vec<u8> = vec![0u8; header_len];
    buffer[0] = 0x42;
    buffer[1] = 0x4d;
    let total = ((header_len + pixels.len()) as u32).to_le_bytes();
    let field = pixel_offset.to_le_bytes();
    for i in 0..4 {
        buffer[2 + i] = total[i];
        buffer[10 + i] = field[i];
    }
    buffer.extend_from_slice(pixels);
    buffer
}

fn stream_bits(bytes: &[u8]) -> Vec<u8> {
    let mut bits: Vec<u8> = Vec::new();
    for byte in bytes {
        for j in 0..8 {
            bits.push((byte >> (7 - j)) & 1);
        }
    }
    bits
}

#[test]
fn minimal_bitmap_hides_hi() {
    let pristine = bitmap(62, 54, &[0u8; 200]);
    assert_eq!(pristine.len(), 262);
    let mut container = pristine.clone();
    assert_eq!(encode(&mut container, &b"hi".to_vec()), Ok(()));
    let bits = stream_bits(b"`START`hi`END`");
    assert_eq!(bits.len(), 112);
    for i in 0..262 {
        if (54..166).contains(&i) {
            assert_eq!(container[i] & 1, bits[i - 54]);
            assert_eq!(container[i] & 0xfe, pristine[i] & 0xfe);
        } else {
            assert_eq!(container[i], pristine[i]);
        }
    }
    assert_eq!(stream_bits(b"`START`"), bits[..56].to_vec());
    // a backquote is 0110 0000, S is 0101 0011
    assert_eq!(
        container[54..70].to_vec(),
        vec![0, 1, 1, 0, 0, 0, 0, 0, 0, 1, 0, 1, 0, 0, 1, 1]
    );
    assert_eq!(decode(&container), Ok(b"hi".to_vec()));
}

#[test]
fn round_trip_on_noisy_pixels() {
    let pixels: Vec<u8> = (0..2000).map(|i| (i * 131 + 7) as u8).collect();
    let payload = b"The quick brown fox jumps over the lazy dog, 0123456789.".to_vec();
    let pristine = bitmap(54, 54, &pixels);
    let mut container = pristine.clone();
    assert_eq!(encode(&mut container, &payload), Ok(()));
    assert_ne!(container, pristine);
    assert_eq!(decode(&container), Ok(payload));
}

#[test]
fn round_trip_of_every_byte_value() {
    let payload: Vec<u8> = (0..=255).collect();
    let mut container = bitmap(54, 54, &vec![0x5a; 8 * (256 + 12)]);
    assert_eq!(encode(&mut container, &payload), Ok(()));
    assert_eq!(decode(&container), Ok(payload));
}

#[test]
fn empty_payload_is_markers_alone() {
    let pristine = bitmap(54, 54, &[0xffu8; 100]);
    let mut container = pristine.clone();
    assert_eq!(encode(&mut container, &vec![]), Ok(()));
    let bits = stream_bits(b"`START``END`");
    for i in 0..96 {
        assert_eq!(container[54 + i], 0xfe | bits[i]);
    }
    assert_eq!(container[..54].to_vec(), pristine[..54].to_vec());
    assert_eq!(container[150..].to_vec(), pristine[150..].to_vec());
    assert_eq!(decode(&container), Ok(vec![]));
}

#[test]
fn encode_leaves_the_rest_alone() {
    let pixels: Vec<u8> = (0..400).map(|i| (i * 29 + 3) as u8).collect();
    let pristine = bitmap(70, 70, &pixels);
    let mut container = pristine.clone();
    assert_eq!(encode(&mut container, &b"abc".to_vec()), Ok(()));
    let end = 70 + (7 + 3 + 5) * 8;
    assert_eq!(container[..70].to_vec(), pristine[..70].to_vec());
    assert_eq!(container[end..].to_vec(), pristine[end..].to_vec());
    for i in 70..end {
        assert_eq!(container[i] & 0xfe, pristine[i] & 0xfe);
    }
    assert_eq!(locate_pixel_array(&container), locate_pixel_array(&pristine));
}

#[test]
fn encode_fills_the_pixel_array_exactly() {
    let mut container = bitmap(54, 54, &[0u8; 8 * 15]);
    assert_eq!(encode(&mut container, &b"abc".to_vec()), Ok(()));
    assert_eq!(decode(&container), Ok(b"abc".to_vec()));
}

#[test]
fn encode_refuses_a_payload_too_long() {
    let pristine = bitmap(54, 54, &[0x77u8; 8 * 15 - 1]);
    let mut container = pristine.clone();
    assert_eq!(
        encode(&mut container, &b"abc".to_vec()),
        Err(StegoError::CapacityExceeded)
    );
    assert_eq!(container, pristine);
    let mut container = pristine.clone();
    assert_eq!(
        encode(&mut container, &vec![0x41; 5000]),
        Err(StegoError::CapacityExceeded)
    );
    assert_eq!(container, pristine);
}

#[test]
fn encode_refuses_where_markers_do_not_fit() {
    let pristine = bitmap(54, 54, &[0u8; 95]);
    let mut container = pristine.clone();
    assert_eq!(encode(&mut container, &vec![]), Err(StegoError::CapacityExceeded));
    assert_eq!(container, pristine);
}

#[test]
fn encode_refuses_an_offset_behind_the_buffer() {
    let pristine = bitmap(54, 5000, &[0u8; 200]);
    let mut container = pristine.clone();
    assert_eq!(
        encode(&mut container, &b"hi".to_vec()),
        Err(StegoError::CapacityExceeded)
    );
    assert_eq!(container, pristine);
}

#[test]
fn encode_refuses_what_is_no_bitmap() {
    let mut pristine = bitmap(54, 54, &[0u8; 200]);
    pristine[0] = 0x47;
    let mut container = pristine.clone();
    assert_eq!(
        encode(&mut container, &b"hi".to_vec()),
        Err(StegoError::InvalidContainer)
    );
    assert_eq!(container, pristine);
    let mut short: Vec<u8> = vec![0x42, 0x4d, 0, 0, 0];
    assert_eq!(
        encode(&mut short, &b"hi".to_vec()),
        Err(StegoError::TruncatedContainer)
    );
    assert_eq!(short, vec![0x42, 0x4d, 0, 0, 0]);
}

#[test]
fn decode_refuses_an_unmarked_image() {
    let container = bitmap(54, 54, &[0u8; 200]);
    assert_eq!(decode(&container), Err(StegoError::NoHiddenMessage));
    let pixels: Vec<u8> = (0..200).map(|i| (i * 7) as u8).collect();
    assert_eq!(
        decode(&bitmap(54, 54, &pixels)),
        Err(StegoError::NoHiddenMessage)
    );
}

#[test]
fn decode_refuses_what_is_no_bitmap() {
    let mut container = bitmap(54, 54, &[0u8; 200]);
    assert_eq!(encode(&mut container, &b"hi".to_vec()), Ok(()));
    container[1] = 0x00;
    assert_eq!(decode(&container), Err(StegoError::InvalidContainer));
    assert_eq!(decode(&vec![0x42]), Err(StegoError::TruncatedContainer));
    assert_eq!(
        decode(&vec![0x42, 0x4d, 1, 2, 3, 4, 5, 6, 7, 8, 9, 10, 11]),
        Err(StegoError::TruncatedContainer)
    );
}

#[test]
fn decode_refuses_a_message_without_end() {
    let mut container = bitmap(54, 54, &[0u8; 400]);
    assert_eq!(encode(&mut container, &b"a longer message".to_vec()), Ok(()));
    container.truncate(54 + 8 * 20);
    assert_eq!(decode(&container), Err(StegoError::UnterminatedMessage));
    container.truncate(54 + 8 * 3);
    assert_eq!(decode(&container), Err(StegoError::UnterminatedMessage));
    assert_eq!(
        decode(&bitmap(54, 900, &[0u8; 10])),
        Err(StegoError::UnterminatedMessage)
    );
}

#[test]
fn payload_with_an_end_marker_is_cut_there() {
    let mut container = bitmap(54, 54, &[0u8; 400]);
    assert_eq!(encode(&mut container, &b"a`END`b".to_vec()), Ok(()));
    assert_eq!(decode(&container), Ok(b"a".to_vec()));
    let mut container = bitmap(54, 54, &[0u8; 400]);
    assert_eq!(encode(&mut container, &b"`END`".to_vec()), Ok(()));
    assert_eq!(decode(&container), Ok(vec![]));
    let mut container = bitmap(54, 54, &[0u8; 400]);
    assert_eq!(encode(&mut container, &b"END`".to_vec()), Ok(()));
    assert_eq!(decode(&container), Ok(b"END`".to_vec()));
}

#[test]
fn encode_twice_keeps_the_later_payload() {
    let mut container = bitmap(54, 54, &[0u8; 400]);
    assert_eq!(encode(&mut container, &b"first message".to_vec()), Ok(()));
    assert_eq!(encode(&mut container, &b"second".to_vec()), Ok(()));
    assert_eq!(decode(&container), Ok(b"second".to_vec()));
}

#[test]
fn capacity_counts_whole_bytes_less_the_markers() {
    assert_eq!(capacity(&bitmap(62, 54, &[0u8; 200])), Ok(14));
    assert_eq!(capacity(&bitmap(54, 54, &[0u8; 96])), Ok(0));
    assert_eq!(capacity(&bitmap(54, 54, &[0u8; 103])), Ok(0));
    assert_eq!(capacity(&bitmap(54, 54, &[0u8; 104])), Ok(1));
}

#[test]
fn capacity_of_what_cannot_hold_the_markers() {
    assert_eq!(
        capacity(&bitmap(54, 54, &[0u8; 95])),
        Err(StegoError::CapacityExceeded)
    );
    assert_eq!(
        capacity(&bitmap(54, 54, &[])),
        Err(StegoError::CapacityExceeded)
    );
    assert_eq!(
        capacity(&bitmap(54, 55, &[])),
        Err(StegoError::CapacityExceeded)
    );
    assert_eq!(capacity(&vec![0x42, 0x4d]), Err(StegoError::TruncatedContainer));
    assert_eq!(
        capacity(&vec![0u8; 200]),
        Err(StegoError::InvalidContainer)
    );
}

#[test]
fn encode_succeeds_up_to_the_capacity() {
    let pristine = bitmap(62, 54, &[0u8; 200]);
    let room = capacity(&pristine).unwrap();
    let mut container = pristine.clone();
    assert_eq!(encode(&mut container, &vec![0x61; room]), Ok(()));
    assert_eq!(decode(&container), Ok(vec![0x61; room]));
    let mut container = pristine.clone();
    assert_eq!(
        encode(&mut container, &vec![0x61; room + 1]),
        Err(StegoError::CapacityExceeded)
    );
    assert_eq!(container, pristine);
}
