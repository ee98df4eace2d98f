use paktool::pakinterface::header::is_node_class;
use paktool::{
    BinaryStream, FormatError, MemoryStream, MetaData, PakError, ResourceHeader, StreamError,
    UsageError,
};

fn sample() -> ResourceHeader {
    ResourceHeader::new(
        "texture".to_string(),
        0x0102030405060708090a0b0c0d0e0f10,
        0xdeadbeef,
        vec![MetaData::new(1, 2, b"first".to_vec()), MetaData::new(3, 4, Vec::new())],
    )
}

#[test]
fn header_is_written_field_by_field() {
    let header = ResourceHeader::new("pak".to_string(), 1, 2, Vec::new());
    let mut out = MemoryStream::new(Vec::new());
    header.write(&mut out).unwrap();
    let bytes = out.into_bytes();
    assert_eq!(bytes.len(), 0x40);
    assert_eq!(&bytes[0..4], &[0x31, 0x53, 0x45, 0x52]);
    assert_eq!(&bytes[4..7], b"pak");
    assert!(bytes[7..0x24].iter().all(|b| *b == 0));
    assert_eq!(bytes[0x24], 1);
    assert!(bytes[0x25..0x34].iter().all(|b| *b == 0));
    assert_eq!(&bytes[0x34..0x38], &[2, 0, 0, 0]);
    assert_eq!(&bytes[0x38..0x40], &[0; 8]);
}

#[test]
fn metadata_is_written_with_its_name_length() {
    let mut out = MemoryStream::new(Vec::new());
    sample().write(&mut out).unwrap();
    let bytes = out.into_bytes();
    assert_eq!(bytes.len(), 0x40 + 24 + 5 + 24);
    assert_eq!(&bytes[0x38..0x3c], &[2, 0, 0, 0]);
    assert_eq!(&bytes[0x3c..0x40], &[53, 0, 0, 0]);
    assert_eq!(&bytes[0x40..0x44], &[1, 0, 0, 0]);
    assert_eq!(bytes[0x44], 2);
    assert_eq!(&bytes[0x54..0x58], &[5, 0, 0, 0]);
    assert_eq!(&bytes[0x58..0x5d], b"first");
    assert_eq!(&bytes[0x5d..0x61], &[3, 0, 0, 0]);
    assert_eq!(sample().written_len(), Ok(bytes.len() as u32));
}

#[test]
fn header_reads_back_as_written() {
    let mut stream = MemoryStream::new(vec![0xaa; 5]);
    stream.seek(5).unwrap();
    sample().write(&mut stream).unwrap();
    let end = stream.position().unwrap();
    stream.seek(5).unwrap();
    let back = ResourceHeader::read(&mut stream).unwrap().unwrap();
    assert_eq!(back.class(), "texture");
    assert_eq!(*back.uuid(), 0x0102030405060708090a0b0c0d0e0f10);
    assert_eq!(*back.unk0(), 0xdeadbeef);
    assert_eq!(back.meta_data().len(), 2);
    assert_eq!(*back.meta_data()[0].unk0(), 1);
    assert_eq!(*back.meta_data()[0].unk1(), 2);
    assert_eq!(back.meta_data()[0].name_data(), &b"first".to_vec());
    assert_eq!(*back.meta_data()[1].unk0(), 3);
    assert_eq!(*back.meta_data()[1].unk1(), 4);
    assert_eq!(back.meta_data()[1].name_data(), &Vec::<u8>::new());
    assert_eq!(*back.base(), 5);
    assert_eq!(*back.size() as u64, end - 5);
    assert_eq!(stream.position(), Ok(end));
}

#[test]
fn class_of_full_width_reads_back() {
    let class = "abcdefghijklmnopqrstuvwxyz012345".to_string();
    assert_eq!(class.len(), 32);
    let header = ResourceHeader::new(class.clone(), 0, 0, Vec::new());
    let mut stream = MemoryStream::new(Vec::new());
    header.write(&mut stream).unwrap();
    stream.seek(0).unwrap();
    let back = ResourceHeader::read(&mut stream).unwrap().unwrap();
    assert_eq!(back.class(), &class);
}

#[test]
fn other_magic_is_no_header() {
    let mut stream = MemoryStream::new(b"TEST and more bytes".to_vec());
    assert!(matches!(ResourceHeader::read(&mut stream), Ok(None)));
    let mut stream = MemoryStream::new(vec![0x52, 0x45, 0x53, 0x31, 0, 0, 0, 0]);
    assert!(matches!(ResourceHeader::read(&mut stream), Ok(None)));
}

#[test]
fn short_header_is_an_io_error() {
    let mut out = MemoryStream::new(Vec::new());
    sample().write(&mut out).unwrap();
    let bytes = out.into_bytes();
    for keep in [0usize, 3, 4, 0x23, 0x24, 0x3f, 0x40, 0x57, 0x5c, 0x70] {
        let mut stream = MemoryStream::new(bytes[..keep].to_vec());
        assert_eq!(
            ResourceHeader::read(&mut stream).err(),
            Some(PakError::Io(StreamError::UnexpectedEof)),
            "kept {}",
            keep
        );
    }
}

#[test]
fn wrong_payload_size_is_a_format_error() {
    let mut out = MemoryStream::new(Vec::new());
    sample().write(&mut out).unwrap();
    let mut bytes = out.into_bytes();
    bytes[0x3c] += 1;
    let mut stream = MemoryStream::new(bytes);
    assert_eq!(
        ResourceHeader::read(&mut stream).err(),
        Some(PakError::Format(FormatError::HeaderSizeMismatch))
    );
}

#[test]
fn payload_size_beyond_32_bits_is_a_format_error() {
    let mut out = MemoryStream::new(Vec::new());
    ResourceHeader::new("x".to_string(), 0, 0, Vec::new()).write(&mut out).unwrap();
    let mut bytes = out.into_bytes();
    bytes[0x3c..0x40].copy_from_slice(&0xffff_ffc0u32.to_le_bytes());
    let mut stream = MemoryStream::new(bytes);
    assert_eq!(
        ResourceHeader::read(&mut stream).err(),
        Some(PakError::Format(FormatError::HeaderTooLarge))
    );
}

#[test]
fn class_that_is_not_utf8_is_a_format_error() {
    let mut out = MemoryStream::new(Vec::new());
    ResourceHeader::new("x".to_string(), 0, 0, Vec::new()).write(&mut out).unwrap();
    let mut bytes = out.into_bytes();
    bytes[4] = 0xff;
    let mut stream = MemoryStream::new(bytes);
    assert_eq!(
        ResourceHeader::read(&mut stream).err(),
        Some(PakError::Format(FormatError::BadClass))
    );
}

#[test]
fn container_class_with_payload_is_a_format_error() {
    let mut out = MemoryStream::new(Vec::new());
    ResourceHeader::new("ssl_block".to_string(), 0, 0, vec![MetaData::new(1, 2, Vec::new())])
        .write(&mut out)
        .unwrap();
    out.seek(0).unwrap();
    assert_eq!(
        ResourceHeader::read(&mut out).err(),
        Some(PakError::Format(FormatError::ContainerWithPayload))
    );
}

#[test]
fn class_that_does_not_fit_is_refused() {
    let header = ResourceHeader::new("c".repeat(33), 0, 0, Vec::new());
    let mut out = MemoryStream::new(vec![7]);
    assert_eq!(header.write(&mut out), Err(PakError::Usage(UsageError::ClassTooLong)));
    assert_eq!(out.into_bytes(), vec![7]);
    assert_eq!(header.written_len(), Err(UsageError::ClassTooLong));
}

#[test]
fn class_outside_ascii_is_refused() {
    let header = ResourceHeader::new("caf\u{e9}".to_string(), 0, 0, Vec::new());
    let mut out = MemoryStream::new(Vec::new());
    assert_eq!(header.write(&mut out), Err(PakError::Usage(UsageError::ClassNotAscii)));
    assert_eq!(out.into_bytes(), Vec::<u8>::new());
}

#[test]
fn container_classes_are_three() {
    assert!(is_node_class("pak"));
    assert!(is_node_class("ssl_block"));
    assert!(is_node_class("cache_block"));
    assert!(!is_node_class("texture"));
    assert!(!is_node_class(""));
    assert!(!is_node_class("pak "));
    assert!(ResourceHeader::new("pak".to_string(), 0, 0, Vec::new()).is_node());
    assert!(!ResourceHeader::default().is_node());
}
