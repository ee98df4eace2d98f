//! Reading a container and its entries from a stream.

use crate::error::{is_fault, FormatError, PakError, StreamError};
use crate::pakinterface::header::{header_len, ResourceHeader};
use crate::pakinterface::layout::{
    first_target, lemma_parse_children_error_stays, lemma_parse_names_advances,
    lemma_parse_names_error_stays, marked, parse_children, parse_contents, parse_delimiter,
    parse_names, parse_node, parse_offsets, parse_table, parse_words, parsed_child, TableView,
    DELIMITER, TABLE_MARKER, TABLE_WORD,
};
use crate::pakinterface::node::{
    children_view, lemma_node_children, names_view, ChildView, ContentsView, NodeModifiedState,
    NodeView, ResourceChild, ResourceNode, ResourceType,
};
use crate::span::span;
use crate::util::BinaryStream;
use vstd::bytes::{spec_u32_from_le_bytes, spec_u64_from_le_bytes};
use vstd::prelude::*;

verus! {

/// A child table as read from a stream.
struct Table {
    names: Vec<String>,
    offsets: Vec<u64>,
    sizes: Vec<u32>,
    links: Vec<bool>,
    end: u64,
}

impl View for Table {
    type V = TableView;

    closed spec fn view(&self) -> TableView {
        TableView {
            names: names_view(self.names@),
            offsets: self.offsets@,
            sizes: self.sizes@,
            links: self.links@,
            end: self.end as nat,
        }
    }
}

/// Reads one byte and holds it to be the delimiter.
pub fn check_stream_delimiter<T: BinaryStream>(file: &mut T) -> (r: Result<(), PakError>)
    ensures
        final(file).contents() == old(file).contents(),
        final(file).capacity() == old(file).capacity(),
        final(file).reliable() == old(file).reliable(),
        match r {
            Ok(()) => parse_delimiter(old(file).contents(), old(file).cursor()) == Ok::<
                nat,
                PakError,
            >(final(file).cursor()),
            Err(e) => parse_delimiter(old(file).contents(), old(file).cursor()) == Err::<
                nat,
                PakError,
            >(e) || is_fault(old(file).reliable(), e),
        },
{
    if file.read_u8()? != DELIMITER {
        Err(PakError::Format(FormatError::BadDelimiter))
    } else {
        Ok(())
    }
}

/// Reads `count` length-prefixed names.
fn read_names<T: BinaryStream>(file: &mut T, count: u32) -> (r: Result<Vec<String>, PakError>)
    ensures
        final(file).contents() == old(file).contents(),
        final(file).capacity() == old(file).capacity(),
        final(file).reliable() == old(file).reliable(),
        match r {
            Ok(names) => parse_names(old(file).contents(), old(file).cursor(), count as nat)
                == Ok::<(Seq<Seq<char>>, nat), PakError>((names_view(names@), final(file).cursor()))
                && names@.len() == count,
            Err(e) => parse_names(old(file).contents(), old(file).cursor(), count as nat) == Err::<
                (Seq<Seq<char>>, nat),
                PakError,
            >(e) || is_fault(old(file).reliable(), e),
        },
{
    let ghost bytes = file.contents();
    let ghost pos = file.cursor();
    let mut names: Vec<String> = Vec::new();
    let mut i: u32 = 0;
    proof {
        assert(names_view(names@) =~= Seq::<Seq<char>>::empty());
    }
    while i < count
        invariant
            i <= count,
            names@.len() == i,
            file.contents() == bytes,
            bytes == old(file).contents(),
            pos == old(file).cursor(),
            file.capacity() == old(file).capacity(),
            file.reliable() == old(file).reliable(),
            parse_names(bytes, pos, i as nat) == Ok::<(Seq<Seq<char>>, nat), PakError>(
                (names_view(names@), file.cursor()),
            ),
        decreases count - i,
    {
        let ghost before = names_view(names@);
        match file.read_string() {
            Ok(name) => {
                names.push(name);
                proof {
                    assert(names_view(names@) =~= before.push(name@));
                }
            },
            Err(e) => {
                proof {
                    if !is_fault(file.reliable(), e) {
                        lemma_parse_names_error_stays(bytes, pos, (i + 1) as nat, count as nat);
                    }
                }
                return Err(e);
            },
        }
        i += 1;
    }
    Ok(names)
}

/// Reads `count` 64-bit offsets.
fn read_offsets<T: BinaryStream>(file: &mut T, count: u32) -> (r: Result<Vec<u64>, PakError>)
    ensures
        final(file).contents() == old(file).contents(),
        final(file).capacity() == old(file).capacity(),
        final(file).reliable() == old(file).reliable(),
        match r {
            Ok(offsets) => parse_offsets(old(file).contents(), old(file).cursor(), count as nat)
                == Ok::<Seq<u64>, PakError>(offsets@) && final(file).cursor() == old(file).cursor()
                + 8 * count && offsets@.len() == count,
            Err(e) => parse_offsets(old(file).contents(), old(file).cursor(), count as nat)
                == Err::<Seq<u64>, PakError>(e) || is_fault(old(file).reliable(), e),
        },
{
    let ghost bytes = file.contents();
    let ghost pos = file.cursor();
    let mut offsets: Vec<u64> = Vec::new();
    let mut i: u32 = 0;
    while i < count
        invariant
            i <= count,
            offsets@.len() == i,
            file.contents() == bytes,
            bytes == old(file).contents(),
            pos == old(file).cursor(),
            file.capacity() == old(file).capacity(),
            file.reliable() == old(file).reliable(),
            file.cursor() == pos + 8 * i,
            i > 0 ==> pos + 8 * i <= bytes.len(),
            forall|k: int|
                0 <= k < i ==> offsets@[k] == spec_u64_from_le_bytes(
                    span(bytes, (pos + 8 * k) as nat, 8),
                ),
        decreases count - i,
    {
        let value = file.read_u64()?;
        offsets.push(value);
        i += 1;
    }
    proof {
        assert(offsets@ =~= Seq::new(
            count as nat,
            |k: int| spec_u64_from_le_bytes(span(bytes, (pos + 8 * k) as nat, 8)),
        ));
    }
    Ok(offsets)
}

/// Reads `count` 32-bit words.
fn read_words<T: BinaryStream>(file: &mut T, count: u32) -> (r: Result<Vec<u32>, PakError>)
    ensures
        final(file).contents() == old(file).contents(),
        final(file).capacity() == old(file).capacity(),
        final(file).reliable() == old(file).reliable(),
        match r {
            Ok(words) => parse_words(old(file).contents(), old(file).cursor(), count as nat)
                == Ok::<Seq<u32>, PakError>(words@) && final(file).cursor() == old(file).cursor()
                + 4 * count && words@.len() == count,
            Err(e) => parse_words(old(file).contents(), old(file).cursor(), count as nat) == Err::<
                Seq<u32>,
                PakError,
            >(e) || is_fault(old(file).reliable(), e),
        },
{
    let ghost bytes = file.contents();
    let ghost pos = file.cursor();
    let mut words: Vec<u32> = Vec::new();
    let mut i: u32 = 0;
    while i < count
        invariant
            i <= count,
            words@.len() == i,
            file.contents() == bytes,
            bytes == old(file).contents(),
            pos == old(file).cursor(),
            file.capacity() == old(file).capacity(),
            file.reliable() == old(file).reliable(),
            file.cursor() == pos + 4 * i,
            i > 0 ==> pos + 4 * i <= bytes.len(),
            forall|k: int|
                0 <= k < i ==> words@[k] == spec_u32_from_le_bytes(
                    span(bytes, (pos + 4 * k) as nat, 4),
                ),
        decreases count - i,
    {
        let value = file.read_u32()?;
        words.push(value);
        i += 1;
    }
    proof {
        assert(words@ =~= Seq::new(
            count as nat,
            |k: int| spec_u32_from_le_bytes(span(bytes, (pos + 4 * k) as nat, 4)),
        ));
    }
    Ok(words)
}

/// Turns link flags into booleans: a word above zero marks a link.
fn flags_to_links(flags: &Vec<u32>) -> (links: Vec<bool>)
    ensures
        links@ == Seq::new(flags@.len(), |i: int| flags@[i] > 0),
{
    let mut links: Vec<bool> = Vec::new();
    let mut i: usize = 0;
    while i < flags.len()
        invariant
            i <= flags@.len(),
            links@.len() == i,
            forall|k: int| 0 <= k < i ==> links@[k] == (flags@[k] > 0),
        decreases flags@.len() - i,
    {
        links.push(flags[i] > 0);
        i += 1;
    }
    assert(links@ =~= Seq::new(flags@.len(), |i: int| flags@[i] > 0));
    links
}

/// Reads the child table that stands at the cursor.
fn read_table<T: BinaryStream>(file: &mut T) -> (r: Result<Table, PakError>)
    ensures
        final(file).contents() == old(file).contents(),
        final(file).capacity() == old(file).capacity(),
        final(file).reliable() == old(file).reliable(),
        match r {
            Ok(table) => {
                &&& parse_table(old(file).contents(), old(file).cursor()) == Ok::<
                    TableView,
                    PakError,
                >(table@)
                &&& final(file).cursor() == table@.end
                &&& table@.end >= old(file).cursor()
                &&& table@.end <= old(file).contents().len()
                &&& table@.names.len() <= u32::MAX
                &&& table@.offsets.len() == table@.names.len()
                &&& table@.sizes.len() == table@.names.len()
                &&& table@.links.len() == table@.names.len()
            },
            Err(e) => parse_table(old(file).contents(), old(file).cursor()) == Err::<
                TableView,
                PakError,
            >(e) || is_fault(old(file).reliable(), e),
        },
{
    let ghost bytes = file.contents();
    let ghost pos = file.cursor();
    if file.read_u32()? != TABLE_MARKER {
        return Err(PakError::Format(FormatError::BadMarker));
    }
    let child_count = file.read_u32()?;
    if file.read_u32()? != TABLE_WORD {
        return Err(PakError::Format(FormatError::BadMarker));
    }
    check_stream_delimiter(file)?;
    let names = read_names(file, child_count)?;
    check_stream_delimiter(file)?;
    let offsets = read_offsets(file, child_count)?;
    check_stream_delimiter(file)?;
    let sizes = read_words(file, child_count)?;
    check_stream_delimiter(file)?;
    let flags = read_words(file, child_count)?;
    let links = flags_to_links(&flags);
    let end = file.position()?;
    proof {
        lemma_parse_names_advances(bytes, pos + 13, child_count as nat);
    }
    Ok(Table { names, offsets, sizes, links, end })
}

/// The first real entry before entry `i` that has the offset of entry `i`.
fn find_target(offsets: &Vec<u64>, links: &Vec<bool>, i: usize) -> (r: Option<usize>)
    requires
        i < offsets@.len(),
        links@.len() == offsets@.len(),
    ensures
        match r {
            Some(target) => first_target(offsets@, links@, i as int, 0) == Some(target as int)
                && target < i,
            None => first_target(offsets@, links@, i as int, 0) is None,
        },
{
    let mut j: usize = 0;
    while j < i
        invariant
            j <= i,
            i < offsets@.len(),
            links@.len() == offsets@.len(),
            first_target(offsets@, links@, i as int, 0) == first_target(
                offsets@,
                links@,
                i as int,
                j as int,
            ),
        decreases i - j,
    {
        if !links[j] && offsets[j] == offsets[i] {
            return Some(j);
        }
        j += 1;
    }
    None
}

/// Reads what a real entry at `offset` from `node_base` holds.
fn read_contents<T: BinaryStream>(
    file: &mut T,
    node_base: u64,
    offset: u64,
    size: u32,
    depth: u32,
) -> (r: Result<ResourceType, PakError>)
    ensures
        final(file).contents() == old(file).contents(),
        final(file).capacity() == old(file).capacity(),
        final(file).reliable() == old(file).reliable(),
        match r {
            Ok(contents) => parse_contents(
                old(file).contents(),
                node_base,
                offset,
                size,
                depth as nat,
            ) == Ok::<ContentsView, PakError>(contents@),
            Err(e) => parse_contents(old(file).contents(), node_base, offset, size, depth as nat)
                == Err::<ContentsView, PakError>(e) || is_fault(old(file).reliable(), e),
        },
    decreases depth, 0nat,
{
    if offset > u64::MAX - node_base {
        return Err(PakError::Io(StreamError::UnexpectedEof));
    }
    let node_file_offset = node_base + offset;
    file.seek(node_file_offset)?;
    match ResourceHeader::read(file)? {
        None => Ok(ResourceType::Data),
        Some(header) => {
            if !header.is_node() {
                Ok(ResourceType::Resource(header))
            } else if depth == 0 {
                Err(PakError::Format(FormatError::TooDeep))
            } else {
                let mut child_node = ResourceNode::read(file, header, depth - 1)?;
                let used = child_node.data_offset - node_file_offset;
                if (size as u64) < used {
                    return Err(PakError::Format(FormatError::EntryTooSmall));
                }
                child_node.data_len = size as u64 - used;
                Ok(ResourceType::Node(child_node))
            }
        },
    }
}

impl ResourceChild {
    /// Entry `i` of `table` with the contents found for it.
    fn parsed(name: String, offset: u64, size: u32, node_base: u64, contents: ResourceType) -> (r:
        Self)
        ensures
            r@ == (ChildView {
                name: name@,
                offset,
                size,
                contents: contents@,
                new_data: None,
                node_base,
                meta_data_dirty: false,
                has_active_links: false,
                is_new_entry: false,
            }),
    {
        ResourceChild {
            name,
            offset,
            size,
            contents,
            new_data: None,
            node_base,
            meta_data_dirty: false,
            has_active_links: false,
            is_new_entry: false,
        }
    }

    /// Marks the entry as the target of a link.
    fn mark_linked(&mut self)
        ensures
            final(self)@ == marked(old(self)@),
    {
        self.has_active_links = true;
    }
}

impl ResourceNode {
    /// Reads the container whose header was just read: the child table
    /// behind the header, then every entry in table order. Containers may
    /// be nested `depth` levels below this one. The data length is left at
    /// 0 for the caller to set.
    pub fn read<T: BinaryStream>(file: &mut T, header: ResourceHeader, depth: u32) -> (r:
        Result<ResourceNode, PakError>)
        requires
            old(file).cursor() == header@.base + header@.size,
        ensures
            final(file).contents() == old(file).contents(),
            final(file).capacity() == old(file).capacity(),
            final(file).reliable() == old(file).reliable(),
            match r {
                Ok(node) => parse_node(old(file).contents(), header@, depth as nat) == Ok::<
                    NodeView,
                    PakError,
                >(node@) && node@.data_offset >= header@.base + header@.size && node@.data_offset
                    <= old(file).contents().len(),
                Err(e) => parse_node(old(file).contents(), header@, depth as nat) == Err::<
                    NodeView,
                    PakError,
                >(e) || is_fault(old(file).reliable(), e),
            },
        decreases depth, 1nat,
    {
        let ghost bytes = file.contents();
        let node_base = file.position()? - *header.size() as u64;
        let table = read_table(file)?;
        let child_count = table.names.len();
        let ghost t = table@;
        let mut children: Vec<ResourceChild> = Vec::new();
        let mut i: usize = 0;
        proof {
            assert(children_view(children@) =~= Seq::<ChildView>::empty());
        }
        while i < child_count
            invariant
                i <= child_count,
                child_count == t.names.len(),
                t.offsets.len() == child_count,
                t.sizes.len() == child_count,
                t.links.len() == child_count,
                table.offsets@ == t.offsets,
                table.sizes@ == t.sizes,
                table.links@ == t.links,
                names_view(table.names@) == t.names,
                node_base == header@.base,
                parse_table(bytes, (header@.base + header@.size) as nat) == Ok::<
                    TableView,
                    PakError,
                >(t),
                children@.len() == i,
                file.contents() == bytes,
                bytes == old(file).contents(),
                file.capacity() == old(file).capacity(),
                file.reliable() == old(file).reliable(),
                parse_children(bytes, node_base, t, i as nat, depth as nat) == Ok::<
                    Seq<ChildView>,
                    PakError,
                >(children_view(children@)),
            decreases child_count - i,
        {
            let ghost before = children_view(children@);
            let name = table.names[i].clone();
            assert(name@ == t.names[i as int]);
            let offset = table.offsets[i];
            let size = table.sizes[i];
            if table.links[i] {
                match find_target(&table.offsets, &table.links, i) {
                    Some(target) => {
                        children[target].mark_linked();
                        children.push(
                            ResourceChild::parsed(
                                name,
                                offset,
                                size,
                                node_base,
                                ResourceType::Link(target),
                            ),
                        );
                        proof {
                            assert(children_view(children@) =~= before.update(
                                target as int,
                                marked(before[target as int]),
                            ).push(
                                parsed_child(
                                    t,
                                    i as int,
                                    node_base,
                                    ContentsView::Link(target),
                                ),
                            ));
                        }
                    },
                    None => {
                        proof {
                            assert(parse_children(
                                bytes,
                                node_base,
                                t,
                                (i + 1) as nat,
                                depth as nat,
                            ) is Err);
                            lemma_parse_children_error_stays(
                                bytes,
                                node_base,
                                t,
                                (i + 1) as nat,
                                child_count as nat,
                                depth as nat,
                            );
                        }
                        return Err(PakError::Format(FormatError::LinkTargetMissing));
                    },
                }
            } else {
                match read_contents(file, node_base, offset, size, depth) {
                    Ok(contents) => {
                        children.push(
                            ResourceChild::parsed(name, offset, size, node_base, contents),
                        );
                        proof {
                            assert(children_view(children@) =~= before.push(
                                parsed_child(t, i as int, node_base, contents@),
                            ));
                        }
                    },
                    Err(e) => {
                        proof {
                            if !is_fault(file.reliable(), e) {
                                assert(parse_children(
                                    bytes,
                                    node_base,
                                    t,
                                    (i + 1) as nat,
                                    depth as nat,
                                ) is Err);
                                lemma_parse_children_error_stays(
                                    bytes,
                                    node_base,
                                    t,
                                    (i + 1) as nat,
                                    child_count as nat,
                                    depth as nat,
                                );
                            }
                        }
                        return Err(e);
                    },
                }
            }
            i += 1;
        }
        let node = ResourceNode {
            header,
            children,
            state: NodeModifiedState::Clean,
            data_offset: table.end,
            header_len: table.end - node_base,
            data_len: 0,
        };
        proof {
            lemma_node_children(node);
        }
        Ok(node)
    }
}

} // verus!
