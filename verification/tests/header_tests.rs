use stegosaurus::error::StegoError;
use stegosaurus::header::{
    decode_bytes, locate_pixel_array, read_field, FILE_LENGTH_FIELD, HEIGHT_FIELD,
    OFFSET_FIELD_START, WIDTH_FIELD,
};

fn header_with_offset(offset: u32, total_len: usize) -> Vec<u8> {
    let mut buffer: Vec<u8> = vec![0u8; total_len];
    buffer[0] = 0x42;
    buffer[1] = 0x4d;
    let field = offset.to_le_bytes();
    buffer[10] = field[0];
    buffer[11] = field[1];
    buffer[12] = field[2];
    buffer[13] = field[3];
    buffer
}

#[test]
fn decode_bytes_of_nothing_is_zero() {
    let none: [u8; 0] = [];
    assert_eq!(decode_bytes(&none), 0);
}

#[test]
fn decode_bytes_reads_little_endian() {
    assert_eq!(decode_bytes(&[0x36, 0x00, 0x00, 0x00]), 54);
    assert_eq!(decode_bytes(&[0x01, 0x02]), 0x0201);
    assert_eq!(decode_bytes(&[0x78, 0x56, 0x34, 0x12]), 0x1234_5678);
    assert_eq!(decode_bytes(&[0x00, 0x00, 0x00, 0x80]), 0x8000_0000);
}

#[test]
fn decode_bytes_takes_eight_bytes() {
    assert_eq!(decode_bytes(&[0xff; 8]), u64::MAX);
    assert_eq!(
        decode_bytes(&[0x08, 0x07, 0x06, 0x05, 0x04, 0x03, 0x02, 0x01]),
        0x0102_0304_0506_0708
    );
}

#[test]
fn locate_reads_the_offset_field() {
    assert_eq!(locate_pixel_array(&header_with_offset(54, 62)), Ok(54));
    assert_eq!(locate_pixel_array(&header_with_offset(0, 14)), Ok(0));
    assert_eq!(
        locate_pixel_array(&header_with_offset(0xfedc_ba98, 14)),
        Ok(0xfedc_ba98)
    );
}

#[test]
fn locate_ignores_bytes_behind_the_field() {
    let mut buffer = header_with_offset(1078, 64);
    let before = locate_pixel_array(&buffer);
    buffer[14] = 0xff;
    buffer[63] = 0xff;
    assert_eq!(locate_pixel_array(&buffer), before);
    assert_eq!(before, Ok(1078));
}

#[test]
fn locate_twice_gives_the_same() {
    let buffer = header_with_offset(54, 262);
    let first = locate_pixel_array(&buffer);
    let second = locate_pixel_array(&buffer);
    assert_eq!(first, second);
    let bad: Vec<u8> = vec![0x50, 0x4b, 3, 4, 0, 0, 0, 0, 0, 0, 0, 0, 0, 0];
    assert_eq!(locate_pixel_array(&bad), locate_pixel_array(&bad));
}

#[test]
fn locate_refuses_a_wrong_signature() {
    let mut buffer = header_with_offset(54, 62);
    buffer[0] = 0x89;
    assert_eq!(locate_pixel_array(&buffer), Err(StegoError::InvalidContainer));
    let mut buffer = header_with_offset(54, 62);
    buffer[1] = 0x4e;
    assert_eq!(locate_pixel_array(&buffer), Err(StegoError::InvalidContainer));
    assert_eq!(
        locate_pixel_array(&vec![0x4d, 0x42, 0, 0]),
        Err(StegoError::InvalidContainer)
    );
}

#[test]
fn locate_refuses_a_short_buffer() {
    assert_eq!(locate_pixel_array(&vec![]), Err(StegoError::TruncatedContainer));
    assert_eq!(locate_pixel_array(&vec![0x42]), Err(StegoError::TruncatedContainer));
    assert_eq!(
        locate_pixel_array(&vec![0x42, 0x4d]),
        Err(StegoError::TruncatedContainer)
    );
    assert_eq!(
        locate_pixel_array(&header_with_offset(54, 14)[..13].to_vec()),
        Err(StegoError::TruncatedContainer)
    );
}

#[test]
fn read_field_reads_each_header_field() {
    let mut buffer = header_with_offset(54, 62);
    buffer[2..6].copy_from_slice(&[0x06, 0x01, 0x00, 0x00]);
    buffer[0x12..0x16].copy_from_slice(&[0x0a, 0x00, 0x00, 0x00]);
    buffer[0x16..0x1a].copy_from_slice(&[0x00, 0x02, 0x00, 0x00]);
    assert_eq!(read_field(&buffer, FILE_LENGTH_FIELD), Ok(262));
    assert_eq!(read_field(&buffer, OFFSET_FIELD_START), Ok(54));
    assert_eq!(read_field(&buffer, WIDTH_FIELD), Ok(10));
    assert_eq!(read_field(&buffer, HEIGHT_FIELD), Ok(512));
    assert_eq!(read_field(&buffer, 0), Ok(0x0106_4d42));
}

#[test]
fn read_field_needs_four_bytes() {
    let buffer = header_with_offset(54, 24);
    assert_eq!(read_field(&buffer, 20), Ok(0));
    assert_eq!(read_field(&buffer, 21), Err(StegoError::TruncatedContainer));
    assert_eq!(read_field(&buffer, HEIGHT_FIELD), Err(StegoError::TruncatedContainer));
    assert_eq!(read_field(&buffer, usize::MAX), Err(StegoError::TruncatedContainer));
    assert_eq!(read_field(&vec![1, 2, 3], 0), Err(StegoError::TruncatedContainer));
}
