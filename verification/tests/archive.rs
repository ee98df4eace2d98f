use paktool::{
    BinaryStream, FormatError, MemoryStream, MetaData, PakError, PakInterface, ResourceHeader,
    ResourceType, StreamError, UsageError,
};

/// What a test archive holds under one name.
enum Item {
    Raw(Vec<u8>),
    Link(usize),
}

fn header_bytes(class: &str, uuid: u128, unk0: u32, meta: &[(u32, u128, &[u8])]) -> Vec<u8> {
    let mut out = vec![0x31, 0x53, 0x45, 0x52];
    let mut field = class.as_bytes().to_vec();
    field.resize(0x20, 0);
    out.extend_from_slice(&field);
    out.extend_from_slice(&uuid.to_le_bytes());
    out.extend_from_slice(&unk0.to_le_bytes());
    out.extend_from_slice(&(meta.len() as u32).to_le_bytes());
    let payload: usize = meta.iter().map(|m| 24 + m.2.len()).sum();
    out.extend_from_slice(&(payload as u32).to_le_bytes());
    for (tag, aux, name) in meta {
        out.extend_from_slice(&tag.to_le_bytes());
        out.extend_from_slice(&aux.to_le_bytes());
        out.extend_from_slice(&(name.len() as u32).to_le_bytes());
        out.extend_from_slice(name);
    }
    out
}

/// A container of class `class` whose entries follow its table in order.
fn container(class: &str, entries: &[(&str, Item)]) -> Vec<u8> {
    let mut head = header_bytes(class, 7, 9, &[]);
    head.extend_from_slice(&[0, 0, 0, 1]);
    head.extend_from_slice(&(entries.len() as u32).to_le_bytes());
    head.extend_from_slice(&4u32.to_le_bytes());
    head.push(1);
    for (name, _) in entries {
        head.extend_from_slice(&(name.len() as u32).to_le_bytes());
        head.extend_from_slice(name.as_bytes());
    }
    head.push(1);
    let head_len = head.len() + entries.len() * 16 + 2;
    let mut offsets: Vec<u64> = Vec::new();
    let mut sizes: Vec<u32> = Vec::new();
    let mut data: Vec<u8> = Vec::new();
    for (_, item) in entries {
        match item {
            Item::Raw(bytes) => {
                offsets.push((head_len + data.len()) as u64);
                sizes.push(bytes.len() as u32);
                data.extend_from_slice(bytes);
            }
            Item::Link(target) => {
                offsets.push(offsets[*target]);
                sizes.push(sizes[*target]);
            }
        }
    }
    for offset in &offsets {
        head.extend_from_slice(&offset.to_le_bytes());
    }
    head.push(1);
    for size in &sizes {
        head.extend_from_slice(&size.to_le_bytes());
    }
    head.push(1);
    for (_, item) in entries {
        let flag: u32 = match item {
            Item::Link(_) => 1,
            Item::Raw(_) => 0,
        };
        head.extend_from_slice(&flag.to_le_bytes());
    }
    assert_eq!(head.len(), head_len);
    head.extend_from_slice(&data);
    head
}

fn resource(class: &str, meta: &[(u32, u128, &[u8])], payload: &[u8]) -> Vec<u8> {
    let mut out = header_bytes(class, 0x11, 0x22, meta);
    out.extend_from_slice(payload);
    out
}

fn scenario() -> Vec<u8> {
    let inner = container("pak", &[("leaf", Item::Raw(b"TEST".to_vec()))]);
    container(
        "pak",
        &[("A", Item::Raw(b"HELLOWORLD".to_vec())), ("B", Item::Raw(inner))],
    )
}

fn open(bytes: Vec<u8>) -> PakInterface<MemoryStream> {
    PakInterface::open(MemoryStream::new(bytes)).unwrap()
}

fn save(pak: &mut PakInterface<MemoryStream>) -> Vec<u8> {
    let mut out = MemoryStream::new(Vec::new());
    pak.save(&mut out).unwrap();
    out.into_bytes()
}

fn data_of(pak: &mut PakInterface<MemoryStream>, index: usize) -> Result<Vec<u8>, PakError> {
    let (root, source) = pak.parts();
    root.children()[index].data(source)
}

#[test]
fn open_finds_the_tree() {
    let mut pak = open(scenario());
    {
        let root = pak.get_root_node();
        assert_eq!(root.header().class(), "pak");
        assert_eq!(*root.header().uuid(), 7);
        assert_eq!(*root.header().unk0(), 9);
        assert_eq!(root.children().len(), 2);
        let a = &root.children()[0];
        assert_eq!(a.name(), "A");
        assert_eq!(*a.size(), 10);
        assert!(matches!(a.contents(), ResourceType::Data));
        let b = &root.children()[1];
        assert_eq!(b.name(), "B");
        match b.contents() {
            ResourceType::Node(node) => {
                assert_eq!(node.children().len(), 1);
                assert_eq!(node.children()[0].name(), "leaf");
                assert_eq!(*node.children()[0].size(), 4);
            }
            other => panic!("B holds {}", other.label()),
        }
    }
    assert_eq!(data_of(&mut pak, 0), Ok(b"HELLOWORLD".to_vec()));
}

#[test]
fn unchanged_archive_saves_to_the_same_bytes() {
    let bytes = scenario();
    let mut pak = open(bytes.clone());
    assert_eq!(save(&mut pak), bytes);
}

#[test]
fn unchanged_archive_with_links_and_resources_saves_to_the_same_bytes() {
    let typed = resource("texture", &[(1, 2, b"meta"), (3, 4, b"")], b"pixels");
    let bytes = container(
        "cache_block",
        &[
            ("raw", Item::Raw(b"0123456789".to_vec())),
            ("alias", Item::Link(0)),
            ("typed", Item::Raw(typed)),
            ("tail", Item::Raw(b"the end.".to_vec())),
        ],
    );
    let mut pak = open(bytes.clone());
    assert_eq!(save(&mut pak), bytes);
}

#[test]
fn saving_twice_gives_the_same_bytes() {
    let mut pak = open(scenario());
    let first = save(&mut pak);
    let second = save(&mut pak);
    assert_eq!(first, second);
    pak.get_root_node_mut().children_mut()[0]
        .set_data(b"changed".to_vec())
        .unwrap();
    let third = save(&mut pak);
    let fourth = save(&mut pak);
    assert_eq!(third, fourth);
    assert_ne!(third, first);
}

#[test]
fn save_writes_at_the_cursor() {
    let bytes = scenario();
    let mut pak = open(bytes.clone());
    let mut out = MemoryStream::new(vec![0xee; 3]);
    out.seek(3).unwrap();
    pak.save(&mut out).unwrap();
    assert_eq!(out.position(), Ok(3 + bytes.len() as u64));
    let written = out.into_bytes();
    assert_eq!(&written[..3], &[0xee; 3]);
    assert_eq!(&written[3..], &bytes[..]);
}

#[test]
fn replaced_leaf_is_written_and_the_rest_is_kept() {
    let before = scenario();
    let mut pak = open(before.clone());
    pak.get_root_node_mut().children_mut()[0]
        .set_data(b"BYE".to_vec())
        .unwrap();
    assert_eq!(*pak.get_root_node().children()[0].size(), 3);
    assert_eq!(data_of(&mut pak, 0), Ok(b"BYE".to_vec()));
    let saved = save(&mut pak);
    assert_eq!(saved.len() + 7, before.len());
    let inner = container("pak", &[("leaf", Item::Raw(b"TEST".to_vec()))]);
    let expected = container("pak", &[("A", Item::Raw(b"BYE".to_vec())), ("B", Item::Raw(inner))]);
    assert_eq!(saved, expected);

    let mut again = open(saved);
    {
        let root = again.get_root_node();
        assert_eq!(root.children().len(), 2);
        assert_eq!(root.children()[0].name(), "A");
        assert_eq!(*root.children()[0].size(), 3);
        assert_eq!(root.children()[1].name(), "B");
    }
    assert_eq!(data_of(&mut again, 0), Ok(b"BYE".to_vec()));
    let (root, source) = again.parts();
    match root.children()[1].contents() {
        ResourceType::Node(node) => {
            assert_eq!(node.children().len(), 1);
            assert_eq!(node.children()[0].name(), "leaf");
            assert_eq!(node.children()[0].data(source), Ok(b"TEST".to_vec()));
        }
        other => panic!("B holds {}", other.label()),
    }
}

#[test]
fn replaced_leaf_in_a_nested_container_rewrites_the_path_to_it() {
    let inner = container(
        "ssl_block",
        &[("x", Item::Raw(b"0000".to_vec())), ("y", Item::Raw(b"1111".to_vec()))],
    );
    let bytes = container(
        "pak",
        &[
            ("first", Item::Raw(b"abcdefgh".to_vec())),
            ("inner", Item::Raw(inner)),
            ("last", Item::Raw(b"ijklmnop".to_vec())),
        ],
    );
    let mut pak = open(bytes.clone());
    match pak.get_root_node_mut().children_mut()[1].contents_mut() {
        ResourceType::Node(node) => {
            node.children_mut()[0].set_data(b"longer than before".to_vec()).unwrap();
        }
        _ => panic!("inner is no container"),
    }
    let saved = save(&mut pak);
    assert_eq!(saved.len(), bytes.len() + 14);

    let mut again = open(saved);
    assert_eq!(data_of(&mut again, 0), Ok(b"abcdefgh".to_vec()));
    assert_eq!(data_of(&mut again, 2), Ok(b"ijklmnop".to_vec()));
    let (root, source) = again.parts();
    match root.children()[1].contents() {
        ResourceType::Node(node) => {
            assert_eq!(node.children()[0].data(source), Ok(b"longer than before".to_vec()));
            assert_eq!(node.children()[1].data(source), Ok(b"1111".to_vec()));
        }
        _ => panic!("inner is no container"),
    }
}

#[test]
fn renamed_entry_is_written_under_its_new_name() {
    let mut pak = open(scenario());
    pak.get_root_node_mut().children_mut()[0].rename("renamed".to_string());
    let saved = save(&mut pak);
    let mut again = open(saved);
    assert_eq!(again.get_root_node().children()[0].name(), "renamed");
    assert_eq!(data_of(&mut again, 0), Ok(b"HELLOWORLD".to_vec()));
}

#[test]
fn link_resolves_to_the_earlier_entry_with_its_offset() {
    let bytes = container(
        "pak",
        &[
            ("zero", Item::Raw(b"first entry".to_vec())),
            ("one", Item::Raw(b"second entry".to_vec())),
            ("alias", Item::Link(1)),
        ],
    );
    let mut pak = open(bytes);
    {
        let root = pak.get_root_node();
        assert!(matches!(root.children()[2].contents(), ResourceType::Link(1)));
        assert!(root.children()[1].has_active_links());
        assert!(!root.children()[0].has_active_links());
        assert_eq!(root.children()[2].offset(), root.children()[1].offset());
    }
    let (root, source) = pak.parts();
    assert_eq!(root.child_data(2, source), Ok(b"second entry".to_vec()));
    assert_eq!(root.child_data(2, source), root.child_data(1, source));
    assert_eq!(root.children()[2].data(source), Err(PakError::Usage(UsageError::NotALeaf)));
    assert_eq!(root.child_data(3, source), Err(PakError::Usage(UsageError::NoSuchEntry)));
}

#[test]
fn link_follows_its_target_when_the_archive_is_rewritten() {
    let bytes = container(
        "pak",
        &[
            ("zero", Item::Raw(b"first entry".to_vec())),
            ("one", Item::Raw(b"second entry".to_vec())),
            ("alias", Item::Link(1)),
        ],
    );
    let mut pak = open(bytes);
    pak.get_root_node_mut().children_mut()[0].set_data(b"1".to_vec()).unwrap();
    pak.get_root_node_mut().children_mut()[1].set_data(b"second, changed".to_vec()).unwrap();
    let saved = save(&mut pak);
    let mut again = open(saved);
    {
        let root = again.get_root_node();
        assert!(matches!(root.children()[2].contents(), ResourceType::Link(1)));
        assert_eq!(root.children()[2].offset(), root.children()[1].offset());
        assert_eq!(*root.children()[2].size(), 15);
    }
    let (root, source) = again.parts();
    assert_eq!(root.child_data(0, source), Ok(b"1".to_vec()));
    assert_eq!(root.child_data(2, source), Ok(b"second, changed".to_vec()));
}

#[test]
fn link_without_target_is_a_format_error() {
    let mut bytes = container(
        "pak",
        &[("zero", Item::Raw(b"first entry".to_vec())), ("alias", Item::Link(0))],
    );
    // Move the link's offset away from that of its target.
    let offsets_at = 0x40 + 13 + (4 + 4) + (4 + 5) + 1;
    bytes[offsets_at + 8] ^= 0x40;
    let r = PakInterface::open(MemoryStream::new(bytes));
    assert_eq!(r.err(), Some(PakError::Format(FormatError::LinkTargetMissing)));
}

#[test]
fn link_to_a_later_entry_is_a_format_error() {
    let good = container(
        "pak",
        &[("zero", Item::Raw(b"first entry".to_vec())), ("alias", Item::Link(0))],
    );
    // Swap the two link flags: the link now stands before its target.
    let mut bytes = good.clone();
    let flags_at = 0x40 + 13 + (4 + 4) + (4 + 5) + 1 + 16 + 1 + 8 + 1;
    bytes[flags_at] = 1;
    bytes[flags_at + 4] = 0;
    let r = PakInterface::open(MemoryStream::new(bytes));
    assert_eq!(r.err(), Some(PakError::Format(FormatError::LinkTargetMissing)));
}

#[test]
fn typed_resource_is_read_behind_its_header() {
    let typed = resource("texture", &[(1, 2, b"meta")], b"pixels");
    let typed_len = typed.len() as u32;
    let bytes = container("pak", &[("typed", Item::Raw(typed)), ("pad", Item::Raw(b"....".to_vec()))]);
    let mut pak = open(bytes);
    {
        let child = &pak.get_root_node().children()[0];
        assert_eq!(*child.size(), typed_len);
        match child.contents() {
            ResourceType::Resource(header) => {
                assert_eq!(header.class(), "texture");
                assert_eq!(*header.uuid(), 0x11);
                assert_eq!(*header.unk0(), 0x22);
                assert_eq!(*header.size(), 0x40 + 28);
                assert_eq!(header.meta_data().len(), 1);
                assert_eq!(*header.meta_data()[0].unk0(), 1);
                assert_eq!(*header.meta_data()[0].unk1(), 2);
                assert_eq!(header.meta_data()[0].name_data(), &b"meta".to_vec());
            }
            other => panic!("typed holds {}", other.label()),
        }
    }
    assert_eq!(data_of(&mut pak, 0), Ok(b"pixels".to_vec()));
}

#[test]
fn replaced_resource_is_written_behind_its_header() {
    let typed = resource("texture", &[(1, 2, b"meta")], b"pixels");
    let bytes = container("pak", &[("typed", Item::Raw(typed)), ("pad", Item::Raw(b"....".to_vec()))]);
    let mut pak = open(bytes);
    pak.get_root_node_mut().children_mut()[0].set_data(b"new".to_vec()).unwrap();
    assert_eq!(*pak.get_root_node().children()[0].size(), 3);
    let saved = save(&mut pak);
    let expected = resource("texture", &[(1, 2, b"meta")], b"new");
    let at = saved.len() - 4 - expected.len();
    assert_eq!(&saved[at..saved.len() - 4], &expected[..]);
    assert_eq!(&saved[saved.len() - 4..], b"....");
}

#[test]
fn bad_magic_at_the_start_is_no_archive() {
    let mut bytes = scenario();
    bytes[0] = b'X';
    let r = PakInterface::open(MemoryStream::new(bytes));
    assert_eq!(r.err(), Some(PakError::Format(FormatError::NotAnArchive)));
}

#[test]
fn root_of_another_class_is_no_archive() {
    let bytes = resource("texture", &[], b"pixels");
    let r = PakInterface::open(MemoryStream::new(bytes));
    assert_eq!(r.err(), Some(PakError::Format(FormatError::NotAnArchive)));
}

#[test]
fn truncated_child_table_is_an_io_error() {
    let bytes = scenario();
    for keep in [0x40usize, 0x44, 0x4c, 0x4d, 0x50, 0x5c, 0x60, 0x6b, 0x70, 0x7b] {
        let r = PakInterface::open(MemoryStream::new(bytes[..keep].to_vec()));
        assert_eq!(r.err(), Some(PakError::Io(StreamError::UnexpectedEof)), "kept {}", keep);
    }
}

#[test]
fn empty_stream_is_an_io_error() {
    let r = PakInterface::open(MemoryStream::new(Vec::new()));
    assert_eq!(r.err(), Some(PakError::Io(StreamError::UnexpectedEof)));
}

#[test]
fn bad_delimiter_is_a_format_error() {
    let mut bytes = scenario();
    bytes[0x40 + 12] = 2;
    let r = PakInterface::open(MemoryStream::new(bytes));
    assert_eq!(r.err(), Some(PakError::Format(FormatError::BadDelimiter)));
}

#[test]
fn bad_marker_is_a_format_error() {
    let mut bytes = scenario();
    bytes[0x40] = 1;
    let r = PakInterface::open(MemoryStream::new(bytes));
    assert_eq!(r.err(), Some(PakError::Format(FormatError::BadMarker)));
    let mut bytes = scenario();
    bytes[0x48] = 5;
    let r = PakInterface::open(MemoryStream::new(bytes));
    assert_eq!(r.err(), Some(PakError::Format(FormatError::BadMarker)));
}

#[test]
fn malformed_name_is_a_format_error() {
    let mut bytes = scenario();
    bytes[0x40 + 13 + 4] = 0xff;
    let r = PakInterface::open(MemoryStream::new(bytes));
    assert_eq!(r.err(), Some(PakError::Format(FormatError::BadName)));
}

#[test]
fn container_header_with_metadata_is_a_format_error() {
    let mut bytes = header_bytes("pak", 0, 0, &[(1, 2, b"x")]);
    bytes.extend_from_slice(&[0u8; 64]);
    let r = PakInterface::open(MemoryStream::new(bytes));
    assert_eq!(r.err(), Some(PakError::Format(FormatError::ContainerWithPayload)));
}

#[test]
fn entry_shorter_than_its_container_is_a_format_error() {
    let inner = container("pak", &[("leaf", Item::Raw(b"TEST".to_vec()))]);
    let mut bytes = container("pak", &[("B", Item::Raw(inner))]);
    // Shrink the size of B below the length of its own header and table.
    let sizes_at = 0x40 + 13 + (4 + 1) + 1 + 8 + 1;
    bytes[sizes_at..sizes_at + 4].copy_from_slice(&10u32.to_le_bytes());
    let r = PakInterface::open(MemoryStream::new(bytes));
    assert_eq!(r.err(), Some(PakError::Format(FormatError::EntryTooSmall)));
}

#[test]
fn container_that_holds_itself_is_too_deep() {
    let inner = container("pak", &[("leaf", Item::Raw(b"TEST".to_vec()))]);
    let mut bytes = container("pak", &[("B", Item::Raw(inner))]);
    // Point B at the root itself.
    let offsets_at = 0x40 + 13 + (4 + 1) + 1;
    bytes[offsets_at..offsets_at + 8].copy_from_slice(&0u64.to_le_bytes());
    let r = PakInterface::open(MemoryStream::new(bytes));
    assert_eq!(r.err(), Some(PakError::Format(FormatError::TooDeep)));
}

#[test]
fn set_data_refuses_links_and_containers() {
    let inner = container("pak", &[("leaf", Item::Raw(b"TEST".to_vec()))]);
    let bytes = container(
        "pak",
        &[("a", Item::Raw(b"aaaa".to_vec())), ("b", Item::Raw(inner)), ("c", Item::Link(0))],
    );
    let mut pak = open(bytes);
    let children = pak.get_root_node_mut().children_mut();
    assert_eq!(children[1].set_data(vec![1]), Err(PakError::Usage(UsageError::NotALeaf)));
    assert_eq!(children[2].set_data(vec![1]), Err(PakError::Usage(UsageError::NotALeaf)));
    assert_eq!(*children[1].size() as usize > 1, true);
    assert_eq!(children[0].set_data(vec![1]), Ok(()));
    assert_eq!(*children[0].size(), 1);
    let (root, source) = pak.parts();
    assert_eq!(root.children()[1].data(source), Err(PakError::Usage(UsageError::NotALeaf)));
}

#[test]
fn released_stream_cannot_be_read_or_saved_from() {
    let mut pak = open(scenario());
    assert!(pak.is_live());
    pak.get_root_node_mut().children_mut()[0].set_data(b"kept".to_vec()).unwrap();
    let stream = pak.release();
    assert!(stream.is_some());
    assert!(!pak.is_live());
    assert_eq!(pak.get_root_node().children().len(), 2);
    assert_eq!(data_of(&mut pak, 0), Ok(b"kept".to_vec()));
    let (root, source) = pak.parts();
    match root.children()[1].contents() {
        ResourceType::Node(node) => {
            assert_eq!(node.children()[0].data(source), Err(PakError::Liveness));
        }
        _ => panic!("B is no container"),
    }
    let mut out = MemoryStream::new(Vec::new());
    assert_eq!(pak.save(&mut out), Err(PakError::Liveness));
    assert_eq!(out.into_bytes(), Vec::<u8>::new());
}

#[test]
fn broken_link_is_refused_before_anything_is_written() {
    let mut pak = open(scenario());
    *pak.get_root_node_mut().children_mut()[0].contents_mut() = ResourceType::Link(5);
    let mut out = MemoryStream::new(vec![1, 2, 3]);
    assert_eq!(pak.save(&mut out), Err(PakError::Usage(UsageError::BrokenLink)));
    assert_eq!(out.into_bytes(), vec![1, 2, 3]);
}

#[test]
fn unwritable_class_is_refused_before_anything_is_written() {
    let mut pak = open(scenario());
    let long = ResourceHeader::new("c".repeat(33), 0, 0, Vec::new());
    *pak.get_root_node_mut().children_mut()[0].contents_mut() = ResourceType::Resource(long);
    pak.get_root_node_mut().children_mut()[0].set_data(vec![1]).unwrap();
    let mut out = MemoryStream::new(Vec::new());
    assert_eq!(pak.save(&mut out), Err(PakError::Usage(UsageError::ClassTooLong)));
    assert_eq!(out.into_bytes(), Vec::<u8>::new());

    let accented = ResourceHeader::new("caf\u{e9}".to_string(), 0, 0, Vec::new());
    *pak.get_root_node_mut().children_mut()[0].contents_mut() = ResourceType::Resource(accented);
    let mut out = MemoryStream::new(Vec::new());
    assert_eq!(pak.save(&mut out), Err(PakError::Usage(UsageError::ClassNotAscii)));
}

#[test]
fn span_outside_the_source_is_an_io_error() {
    let mut bytes = scenario();
    // Let A claim more bytes than the archive holds, then change B's leaf so
    // that the root is written anew.
    let sizes_at = 0x40 + 13 + (4 + 1) + (4 + 1) + 1 + 16 + 1;
    bytes[sizes_at..sizes_at + 4].copy_from_slice(&100_000u32.to_le_bytes());
    let mut pak = open(bytes);
    match pak.get_root_node_mut().children_mut()[1].contents_mut() {
        ResourceType::Node(node) => node.children_mut()[0].rename("other".to_string()),
        _ => panic!("B is no container"),
    }
    let mut out = MemoryStream::new(vec![4, 2]);
    assert_eq!(pak.save(&mut out), Err(PakError::Io(StreamError::UnexpectedEof)));
    assert_eq!(out.into_bytes(), vec![4, 2]);
    assert!(!pak.get_root_node().sources_fit(1000));
    assert!(pak.get_root_node().sources_fit(1_000_000));
}

#[test]
fn labels_name_the_kinds() {
    assert_eq!(ResourceType::Data.label(), "Raw Data");
    assert_eq!(ResourceType::Link(0).label(), "Link");
    assert_eq!(
        ResourceType::Resource(ResourceHeader::new(String::new(), 0, 0, Vec::new())).label(),
        "Resource Data"
    );
    let mut pak = open(scenario());
    assert_eq!(pak.get_root_node_mut().children()[1].contents().label(), "Node");
    assert_eq!(ResourceType::default().label(), "Raw Data");
}

#[test]
fn metadata_keeps_what_it_was_given() {
    let entry = MetaData::new(5, 6, b"name".to_vec());
    assert_eq!(*entry.unk0(), 5);
    assert_eq!(*entry.unk1(), 6);
    assert_eq!(entry.name_data(), &b"name".to_vec());
    let empty = MetaData::default();
    assert_eq!(*empty.unk0(), 0);
    assert_eq!(empty.name_data().len(), 0);
}

#[test]
fn written_length_is_what_save_writes() {
    let mut pak = open(scenario());
    pak.get_root_node_mut().children_mut()[0].set_data(b"BYE".to_vec()).unwrap();
    let saved = save(&mut pak);
    assert_eq!(pak.get_root_node().written_len(), Ok(saved.len() as u64));
    assert!(!pak.get_root_node().is_clean());
    let mut fresh = open(saved.clone());
    assert_eq!(save(&mut fresh), saved);
    assert!(fresh.get_root_node().is_clean());
    assert_eq!(fresh.get_root_node().data_offset() + fresh.get_root_node().data_len(), saved.len() as u64);
}

#[test]
fn entries_are_found_by_name() {
    let inner = container("pak", &[("leaf", Item::Raw(b"TEST".to_vec()))]);
    let bytes = container(
        "pak",
        &[
            ("same", Item::Raw(b"aaaa".to_vec())),
            ("same", Item::Raw(inner.clone())),
            ("other", Item::Raw(inner)),
        ],
    );
    let pak = open(bytes);
    let root = pak.get_root_node();
    assert_eq!(root.find_child("same"), Some(0));
    assert_eq!(root.find_child("other"), Some(2));
    assert_eq!(root.find_child("none"), None);
    assert_eq!(root.find_node("same"), Some(1));
    assert_eq!(root.find_node("other"), Some(2));
    assert_eq!(root.find_node("none"), None);
    assert!(root.children()[0].name_starts_with("sa"));
    assert!(root.children()[0].name_starts_with(""));
    assert!(root.children()[0].name_starts_with("same"));
    assert!(!root.children()[0].name_starts_with("samey"));
    assert!(!root.children()[0].name_starts_with("so"));
}

#[test]
fn paths_lead_to_nested_containers() {
    let innermost = container("pak", &[("leaf", Item::Raw(b"TEST".to_vec()))]);
    let inner = container(
        "ssl_block",
        &[("x", Item::Raw(b"0000".to_vec())), ("deep", Item::Raw(innermost))],
    );
    let bytes = container("pak", &[("a", Item::Raw(b"aaaa".to_vec())), ("in", Item::Raw(inner))]);
    let pak = open(bytes);
    let root = pak.get_root_node();
    assert_eq!(root.descend(&vec![]).unwrap().children().len(), 2);
    let inner = root.descend(&vec![1]).unwrap();
    assert_eq!(inner.header().class(), "ssl_block");
    let deep = root.descend(&vec![1, 1]).unwrap();
    assert_eq!(deep.children()[0].name(), "leaf");
    assert!(root.descend(&vec![0]).is_none());
    assert!(root.descend(&vec![7]).is_none());
    assert!(root.descend(&vec![1, 0]).is_none());
    assert!(root.descend(&vec![1, 1, 0]).is_none());
}

#[test]
fn rewritten_archive_with_a_link_is_laid_out_anew() {
    let bytes = container(
        "pak",
        &[
            ("zero", Item::Raw(b"first entry".to_vec())),
            ("one", Item::Raw(b"second entry".to_vec())),
            ("alias", Item::Link(1)),
            ("two", Item::Raw(b"third entry".to_vec())),
        ],
    );
    let mut pak = open(bytes);
    pak.get_root_node_mut().children_mut()[0].set_data(b"0".to_vec()).unwrap();
    let saved = save(&mut pak);
    let expected = container(
        "pak",
        &[
            ("zero", Item::Raw(b"0".to_vec())),
            ("one", Item::Raw(b"second entry".to_vec())),
            ("alias", Item::Link(1)),
            ("two", Item::Raw(b"third entry".to_vec())),
        ],
    );
    assert_eq!(saved, expected);
}

#[test]
fn resource_shorter_than_its_header_cannot_be_read() {
    let typed = resource("texture", &[(1, 2, b"meta")], b"pixels");
    let mut bytes =
        container("pak", &[("typed", Item::Raw(typed)), ("pad", Item::Raw(b"....".to_vec()))]);
    let sizes_at = 0x40 + 13 + (4 + 5) + (4 + 3) + 1 + 16 + 1;
    bytes[sizes_at..sizes_at + 4].copy_from_slice(&10u32.to_le_bytes());
    let mut pak = open(bytes);
    assert_eq!(data_of(&mut pak, 0), Err(PakError::Format(FormatError::EntryTooSmall)));
}

#[test]
fn entry_beyond_the_source_cannot_be_read() {
    let mut bytes = scenario();
    let sizes_at = 0x40 + 13 + (4 + 1) + (4 + 1) + 1 + 16 + 1;
    bytes[sizes_at..sizes_at + 4].copy_from_slice(&100_000u32.to_le_bytes());
    let mut pak = open(bytes);
    assert_eq!(data_of(&mut pak, 0), Err(PakError::Io(StreamError::UnexpectedEof)));
}

#[test]
fn nested_container_too_long_for_its_size_field_is_refused() {
    let inner = container(
        "pak",
        &[("x", Item::Raw(b"0000".to_vec())), ("y", Item::Raw(b"1111".to_vec()))],
    );
    let mut bytes = container("pak", &[("in", Item::Raw(inner))]);
    // Let both entries of the nested container claim the greatest size.
    let inner_at = 0x40 + 13 + (4 + 2) + 1 + 8 + 1 + 4 + 1 + 4;
    let sizes_at = inner_at + 0x40 + 13 + (4 + 1) + (4 + 1) + 1 + 16 + 1;
    bytes[sizes_at..sizes_at + 8].copy_from_slice(&[0xff; 8]);
    let mut pak = open(bytes);
    match pak.get_root_node_mut().children_mut()[0].contents_mut() {
        ResourceType::Node(node) => node.children_mut()[0].rename("other".to_string()),
        _ => panic!("in is no container"),
    }
    let mut out = MemoryStream::new(vec![9]);
    assert_eq!(pak.save(&mut out), Err(PakError::Usage(UsageError::TooLarge)));
    assert_eq!(out.into_bytes(), vec![9]);
}

#[test]
fn default_entries_are_empty() {
    let child = paktool::ResourceChild::default();
    assert_eq!(child.name(), "");
    assert_eq!(*child.size(), 0);
    assert!(matches!(child.contents(), ResourceType::Data));
    let node = paktool::ResourceNode::default();
    assert_eq!(node.children().len(), 0);
    assert!(node.is_clean());
}

#[test]
fn container_is_read_and_written_on_its_own() {
    let bytes = container(
        "ssl_block",
        &[("x", Item::Raw(b"0000".to_vec())), ("y", Item::Raw(b"1111".to_vec()))],
    );
    let mut padded = vec![0xabu8; 5];
    padded.extend_from_slice(&bytes);
    let mut source = MemoryStream::new(padded.clone());
    source.seek(5).unwrap();
    let header = ResourceHeader::read(&mut source).unwrap().unwrap();
    assert_eq!(*header.base(), 5);
    let mut node = paktool::ResourceNode::read(&mut source, header, 0).unwrap();
    assert_eq!(node.children().len(), 2);
    assert_eq!(*node.children()[0].offset(), (bytes.len() - 8) as u64);
    assert_eq!(node.data_offset(), (5 + bytes.len() - 8) as u64);
    assert_eq!(node.data_len(), 0);

    node.children_mut()[1].set_data(b"22".to_vec()).unwrap();
    node.update_state();
    assert_eq!(node.written_len(), Ok((bytes.len() - 2) as u64));
    let length = source.length().unwrap();
    let mut out = MemoryStream::new(Vec::new());
    assert_eq!(node.write(&mut source, &mut out, length), Ok((bytes.len() - 2) as u64));
    let expected = container(
        "ssl_block",
        &[("x", Item::Raw(b"0000".to_vec())), ("y", Item::Raw(b"22".to_vec()))],
    );
    assert_eq!(out.into_bytes(), expected);
}

#[test]
fn destination_without_room_is_out_of_range() {
    let mut pak = open(scenario());
    let mut out = MemoryStream::new(Vec::new());
    out.seek(u64::MAX - 10).unwrap();
    assert_eq!(pak.save(&mut out), Err(PakError::Io(StreamError::OutOfRange)));
}
