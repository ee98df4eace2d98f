use paktool::util::{copy_data, decode_text, string_length, u32_from_str};
use paktool::{BinaryStream, FormatError, MemoryStream, PakError, StreamError, RESOURCE_MAGIC};

#[test]
fn tag_packs_first_byte_highest() {
    assert_eq!(u32_from_str("RES1"), 0x52455331);
    assert_eq!(u32_from_str("RES1"), RESOURCE_MAGIC);
    assert_eq!(u32_from_str("ABCDEF"), 0x41424344);
}

#[test]
fn string_length_stops_at_first_zero() {
    assert_eq!(string_length(b"pak\0\0\0"), 3);
    assert_eq!(string_length(b"\0abc"), 0);
    assert_eq!(string_length(b"abc"), 3);
    assert_eq!(string_length(b""), 0);
    assert_eq!(string_length(b"a\0b\0"), 1);
}

#[test]
fn decode_text_accepts_exactly_valid_utf8() {
    assert_eq!(decode_text(vec![0x68, 0x69]), Some("hi".to_string()));
    assert_eq!(decode_text(vec![0xc3, 0xa9]), Some("\u{e9}".to_string()));
    assert_eq!(decode_text(vec![0xff, 0xfe]), None);
    assert_eq!(decode_text(vec![0xc3]), None);
    assert_eq!(decode_text(vec![]), Some(String::new()));
}

#[test]
fn words_are_little_endian() {
    let mut out = MemoryStream::new(Vec::new());
    out.write_u8(0x01).unwrap();
    out.write_u16(0x0203).unwrap();
    out.write_u32(0x04050607).unwrap();
    out.write_u64(0x08090a0b0c0d0e0f).unwrap();
    out.write_u128(0x101112131415161718191a1b1c1d1e1f).unwrap();
    let bytes = out.into_bytes();
    assert_eq!(
        bytes,
        vec![
            0x01, 0x03, 0x02, 0x07, 0x06, 0x05, 0x04, 0x0f, 0x0e, 0x0d, 0x0c, 0x0b, 0x0a, 0x09,
            0x08, 0x1f, 0x1e, 0x1d, 0x1c, 0x1b, 0x1a, 0x19, 0x18, 0x17, 0x16, 0x15, 0x14, 0x13,
            0x12, 0x11, 0x10
        ]
    );
    let mut input = MemoryStream::new(bytes);
    assert_eq!(input.read_u8(), Ok(0x01));
    assert_eq!(input.read_u16(), Ok(0x0203));
    assert_eq!(input.read_u32(), Ok(0x04050607));
    assert_eq!(input.read_u64(), Ok(0x08090a0b0c0d0e0f));
    assert_eq!(input.read_u128(), Ok(0x101112131415161718191a1b1c1d1e1f));
    assert_eq!(input.position(), Ok(31));
    assert_eq!(input.read_u8(), Err(PakError::Io(StreamError::UnexpectedEof)));
}

#[test]
fn strings_carry_a_length_prefix() {
    let mut out = MemoryStream::new(Vec::new());
    out.write_string(&"abc".to_string()).unwrap();
    assert_eq!(out.bytes(), &vec![3, 0, 0, 0, b'a', b'b', b'c']);
    out.seek(0).unwrap();
    assert_eq!(out.read_string(), Ok("abc".to_string()));
    assert_eq!(out.position(), Ok(7));
}

#[test]
fn malformed_string_is_a_format_error() {
    let mut input = MemoryStream::new(vec![2, 0, 0, 0, 0xff, 0xfe]);
    assert_eq!(input.read_string(), Err(PakError::Format(FormatError::BadName)));
}

#[test]
fn short_string_is_an_io_error() {
    let mut input = MemoryStream::new(vec![5, 0, 0, 0, b'a']);
    assert_eq!(input.read_string(), Err(PakError::Io(StreamError::UnexpectedEof)));
    let mut input = MemoryStream::new(vec![5, 0]);
    assert_eq!(input.read_string(), Err(PakError::Io(StreamError::UnexpectedEof)));
}

#[test]
fn read_bytes_fills_the_buffer() {
    let mut input = MemoryStream::new(vec![1, 2, 3, 4, 5]);
    input.seek(1).unwrap();
    let mut buf = [0u8; 3];
    input.read_bytes(&mut buf).unwrap();
    assert_eq!(buf, [2, 3, 4]);
    assert_eq!(input.position(), Ok(4));
    let mut long = [0u8; 2];
    assert_eq!(input.read_bytes(&mut long), Err(PakError::Io(StreamError::UnexpectedEof)));
    assert_eq!(input.read_vector(1), Ok(vec![5]));
    assert_eq!(input.length(), Ok(5));
}

#[test]
fn reading_nothing_succeeds_anywhere() {
    let mut input = MemoryStream::new(vec![1, 2]);
    input.seek(10).unwrap();
    assert_eq!(input.read_vector(0), Ok(vec![]));
    assert_eq!(input.read_vector(1), Err(PakError::Io(StreamError::UnexpectedEof)));
}

#[test]
fn write_overwrites_and_extends() {
    let mut out = MemoryStream::new(vec![1, 2, 3, 4]);
    out.seek(2).unwrap();
    out.write_bytes(&[9, 8, 7]).unwrap();
    assert_eq!(out.bytes(), &vec![1, 2, 9, 8, 7]);
    assert_eq!(out.position(), Ok(5));
    out.seek(1).unwrap();
    out.write_bytes(&[6]).unwrap();
    assert_eq!(out.bytes(), &vec![1, 6, 9, 8, 7]);
}

#[test]
fn write_past_the_end_fills_the_gap_with_zeros() {
    let mut out = MemoryStream::new(vec![1]);
    out.seek(3).unwrap();
    out.write_bytes(&[5, 6]).unwrap();
    assert_eq!(out.bytes(), &vec![1, 0, 0, 5, 6]);
    out.seek(9).unwrap();
    out.write_bytes(&[]).unwrap();
    assert_eq!(out.bytes(), &vec![1, 0, 0, 5, 6]);
}

#[test]
fn copy_moves_a_span_between_streams() {
    let mut input = MemoryStream::new((0u8..100).collect());
    let mut out = MemoryStream::new(vec![0xaa; 4]);
    input.seek(10).unwrap();
    out.seek(2).unwrap();
    copy_data(&mut input, &mut out, 5).unwrap();
    assert_eq!(out.bytes(), &vec![0xaa, 0xaa, 10, 11, 12, 13, 14]);
    assert_eq!(input.position(), Ok(15));
    assert_eq!(out.position(), Ok(7));
}

#[test]
fn copy_works_across_chunks() {
    let size = 0x40000 * 2 + 17;
    let data: Vec<u8> = (0..size).map(|i| (i % 251) as u8).collect();
    let mut input = MemoryStream::new(data.clone());
    let mut out = MemoryStream::new(Vec::new());
    copy_data(&mut input, &mut out, size as u64).unwrap();
    assert_eq!(out.into_bytes(), data);
}

#[test]
fn copy_past_the_end_is_an_io_error() {
    let mut input = MemoryStream::new(vec![1, 2, 3]);
    let mut out = MemoryStream::new(Vec::new());
    input.seek(2).unwrap();
    assert_eq!(
        copy_data(&mut input, &mut out, 2),
        Err(PakError::Io(StreamError::UnexpectedEof))
    );
}

#[test]
fn write_beyond_the_address_space_is_out_of_range() {
    let mut out = MemoryStream::new(vec![1, 2]);
    out.seek(u64::MAX).unwrap();
    assert_eq!(out.write_bytes(&[1]), Err(PakError::Io(StreamError::OutOfRange)));
    assert_eq!(out.write_u32(7), Err(PakError::Io(StreamError::OutOfRange)));
    assert_eq!(out.bytes(), &vec![1, 2]);
    assert_eq!(out.write_bytes(&[]), Ok(()));
}

#[test]
fn long_read_past_the_end_is_refused_at_once() {
    let mut input = MemoryStream::new(vec![0xff, 0xff, 0xff, 0xff, b'a']);
    assert_eq!(input.read_string(), Err(PakError::Io(StreamError::UnexpectedEof)));
    let mut input = MemoryStream::new(vec![1, 2, 3]);
    assert_eq!(input.read_vector(0x4000_0000), Err(PakError::Io(StreamError::UnexpectedEof)));
}
