//! What a stream of bytes holds when it is read as an archive.

use crate::error::{eof, FormatError, PakError};
use crate::pakinterface::header::{parse_header, spec_is_node_class, HeaderView};
use crate::pakinterface::node::{ChildView, ContentsView, NodeModifiedState, NodeView};
use crate::span::span;
use crate::util::parse_string;
use vstd::bytes::{spec_u32_from_le_bytes, spec_u64_from_le_bytes};
use vstd::prelude::*;

verus! {

/// The first word of every child table.
pub const TABLE_MARKER: u32 = 0x0100_0000;

/// The word that follows the child count.
pub const TABLE_WORD: u32 = 4;

/// The byte that closes each part of a child table.
pub const DELIMITER: u8 = 0x01;

/// How deeply containers may be nested below the root.
pub const MAX_DEPTH: u32 = 64;

/// The child table of a container, as read: four arrays of one length, and
/// the position behind the last of them.
pub struct TableView {
    pub names: Seq<Seq<char>>,
    pub offsets: Seq<u64>,
    pub sizes: Seq<u32>,
    pub links: Seq<bool>,
    pub end: nat,
}

/// A delimiter byte at `pos`; gives the position behind it.
pub open spec fn parse_delimiter(bytes: Seq<u8>, pos: nat) -> Result<nat, PakError> {
    if pos + 1 > bytes.len() {
        Err(eof())
    } else if bytes[pos as int] != DELIMITER {
        Err(PakError::Format(FormatError::BadDelimiter))
    } else {
        Ok(pos + 1)
    }
}

/// `count` length-prefixed names from `pos` on, and the position behind them.
pub open spec fn parse_names(bytes: Seq<u8>, pos: nat, count: nat) -> Result<
    (Seq<Seq<char>>, nat),
    PakError,
>
    decreases count,
{
    if count == 0 {
        Ok((Seq::empty(), pos))
    } else {
        match parse_names(bytes, pos, (count - 1) as nat) {
            Err(e) => Err(e),
            Ok((names, at)) => match parse_string(bytes, at) {
                Err(e) => Err(e),
                Ok((name, end)) => Ok((names.push(name), end)),
            },
        }
    }
}

/// `count` 64-bit offsets from `pos` on.
pub open spec fn parse_offsets(bytes: Seq<u8>, pos: nat, count: nat) -> Result<Seq<u64>, PakError> {
    if count > 0 && pos + 8 * count > bytes.len() {
        Err(eof())
    } else {
        Ok(Seq::new(count, |i: int| spec_u64_from_le_bytes(span(bytes, (pos + 8 * i) as nat, 8))))
    }
}

/// `count` 32-bit words from `pos` on.
pub open spec fn parse_words(bytes: Seq<u8>, pos: nat, count: nat) -> Result<Seq<u32>, PakError> {
    if count > 0 && pos + 4 * count > bytes.len() {
        Err(eof())
    } else {
        Ok(Seq::new(count, |i: int| spec_u32_from_le_bytes(span(bytes, (pos + 4 * i) as nat, 4))))
    }
}

/// The arrays of a table of `count` entries, from the names on.
pub open spec fn parse_arrays(bytes: Seq<u8>, pos: nat, count: nat) -> Result<TableView, PakError> {
    match parse_names(bytes, pos, count) {
        Err(e) => Err(e),
        Ok((names, after_names)) => match parse_delimiter(bytes, after_names) {
            Err(e) => Err(e),
            Ok(offsets_at) => match parse_offsets(bytes, offsets_at, count) {
                Err(e) => Err(e),
                Ok(offsets) => match parse_delimiter(bytes, offsets_at + 8 * count) {
                    Err(e) => Err(e),
                    Ok(sizes_at) => match parse_words(bytes, sizes_at, count) {
                        Err(e) => Err(e),
                        Ok(sizes) => match parse_delimiter(bytes, sizes_at + 4 * count) {
                            Err(e) => Err(e),
                            Ok(flags_at) => match parse_words(bytes, flags_at, count) {
                                Err(e) => Err(e),
                                Ok(flags) => Ok(
                                    TableView {
                                        names,
                                        offsets,
                                        sizes,
                                        links: Seq::new(count, |i: int| flags[i] > 0),
                                        end: flags_at + 4 * count,
                                    },
                                ),
                            },
                        },
                    },
                },
            },
        },
    }
}

/// The child table at `pos`: the marker, the child count, the fixed word, a
/// delimiter, then the names, offsets, sizes and link flags, a delimiter
/// between each two arrays.
pub open spec fn parse_table(bytes: Seq<u8>, pos: nat) -> Result<TableView, PakError> {
    if pos + 4 > bytes.len() {
        Err(eof())
    } else if spec_u32_from_le_bytes(span(bytes, pos, 4)) != TABLE_MARKER {
        Err(PakError::Format(FormatError::BadMarker))
    } else if pos + 12 > bytes.len() {
        Err(eof())
    } else if spec_u32_from_le_bytes(span(bytes, pos + 8, 4)) != TABLE_WORD {
        Err(PakError::Format(FormatError::BadMarker))
    } else {
        match parse_delimiter(bytes, pos + 12) {
            Err(e) => Err(e),
            Ok(names_at) => parse_arrays(
                bytes,
                names_at,
                spec_u32_from_le_bytes(span(bytes, pos + 4, 4)) as nat,
            ),
        }
    }
}

/// The first real entry from `from` on and before `i` that has the offset
/// of entry `i`.
pub open spec fn first_target(offsets: Seq<u64>, links: Seq<bool>, i: int, from: int) -> Option<int>
    decreases i - from,
{
    if from >= i {
        None
    } else if !links[from] && offsets[from] == offsets[i] {
        Some(from)
    } else {
        first_target(offsets, links, i, from + 1)
    }
}

/// Entry `i` of a table with the contents found for it, as it stands right
/// after parsing.
pub open spec fn parsed_child(table: TableView, i: int, node_base: u64, contents: ContentsView) -> ChildView {
    ChildView {
        name: table.names[i],
        offset: table.offsets[i],
        size: table.sizes[i],
        contents,
        new_data: None,
        node_base,
        meta_data_dirty: false,
        has_active_links: false,
        is_new_entry: false,
    }
}

/// The entry marked as the target of a link.
pub open spec fn marked(child: ChildView) -> ChildView {
    ChildView { has_active_links: true, ..child }
}

/// What a real entry at `offset` from `node_base` holds: raw data where no
/// header stands there, a nested container where the header's class is a
/// container class, a typed resource otherwise.
pub open spec fn parse_contents(
    bytes: Seq<u8>,
    node_base: u64,
    offset: u64,
    size: u32,
    depth: nat,
) -> Result<ContentsView, PakError>
    decreases depth, 0nat, 0nat,
{
    let at = node_base + offset;
    if at > u64::MAX {
        Err(eof())
    } else {
        match parse_header(bytes, at as nat) {
            Err(e) => Err(e),
            Ok(None) => Ok(ContentsView::Data),
            Ok(Some(header)) => if !spec_is_node_class(header.class) {
                Ok(ContentsView::Resource(header))
            } else if depth == 0 {
                Err(PakError::Format(FormatError::TooDeep))
            } else {
                match parse_node(bytes, header, (depth - 1) as nat) {
                    Err(e) => Err(e),
                    Ok(node) => if size < node.data_offset - at {
                        Err(PakError::Format(FormatError::EntryTooSmall))
                    } else {
                        Ok(
                            ContentsView::Node(
                                NodeView {
                                    data_len: (size - (node.data_offset - at)) as u64,
                                    ..node
                                },
                            ),
                        )
                    },
                }
            },
        }
    }
}

/// The first `count` entries of a table, resolved in table order: each real
/// entry by what stands at its offset, each link by the first earlier real
/// entry with its offset, which is marked as a target.
pub open spec fn parse_children(
    bytes: Seq<u8>,
    node_base: u64,
    table: TableView,
    count: nat,
    depth: nat,
) -> Result<Seq<ChildView>, PakError>
    decreases depth, 1nat, count,
{
    if count == 0 {
        Ok(Seq::empty())
    } else {
        match parse_children(bytes, node_base, table, (count - 1) as nat, depth) {
            Err(e) => Err(e),
            Ok(before) => {
                let i = count - 1;
                if table.links[i] {
                    match first_target(table.offsets, table.links, i, 0) {
                        None => Err(PakError::Format(FormatError::LinkTargetMissing)),
                        Some(target) => Ok(
                            before.update(target, marked(before[target])).push(
                                parsed_child(
                                    table,
                                    i,
                                    node_base,
                                    ContentsView::Link(target as usize),
                                ),
                            ),
                        ),
                    }
                } else {
                    match parse_contents(
                        bytes,
                        node_base,
                        table.offsets[i],
                        table.sizes[i],
                        depth,
                    ) {
                        Err(e) => Err(e),
                        Ok(contents) => Ok(before.push(parsed_child(table, i, node_base, contents))),
                    }
                }
            },
        }
    }
}

/// The container whose header was read at `header.base`: its table stands
/// right behind the header, and its entries' offsets count from the
/// header's start. Its data length is left at 0 for the caller to set.
pub open spec fn parse_node(bytes: Seq<u8>, header: HeaderView, depth: nat) -> Result<
    NodeView,
    PakError,
>
    decreases depth, 2nat, 0nat,
{
    match parse_table(bytes, (header.base + header.size) as nat) {
        Err(e) => Err(e),
        Ok(table) => match parse_children(bytes, header.base, table, table.names.len(), depth) {
            Err(e) => Err(e),
            Ok(children) => Ok(
                NodeView {
                    header,
                    children,
                    state: NodeModifiedState::Clean,
                    data_offset: table.end as u64,
                    header_len: (table.end - header.base) as u64,
                    data_len: 0,
                },
            ),
        },
    }
}

/// Once a name fails to parse, so does every longer run of names.
pub proof fn lemma_parse_names_error_stays(bytes: Seq<u8>, pos: nat, failed: nat, count: nat)
    requires
        failed <= count,
        parse_names(bytes, pos, failed) is Err,
    ensures
        parse_names(bytes, pos, count) == parse_names(bytes, pos, failed),
    decreases count,
{
    if failed < count {
        lemma_parse_names_error_stays(bytes, pos, failed, (count - 1) as nat);
    }
}

/// Parsing names never moves backwards.
pub proof fn lemma_parse_names_advances(bytes: Seq<u8>, pos: nat, count: nat)
    ensures
        parse_names(bytes, pos, count) matches Ok((_, end)) ==> pos <= end,
    decreases count,
{
    if count > 0 {
        lemma_parse_names_advances(bytes, pos, (count - 1) as nat);
    }
}

/// Once an entry fails to resolve, so does every longer run of entries.
pub proof fn lemma_parse_children_error_stays(
    bytes: Seq<u8>,
    node_base: u64,
    table: TableView,
    failed: nat,
    count: nat,
    depth: nat,
)
    requires
        failed <= count,
        parse_children(bytes, node_base, table, failed, depth) is Err,
    ensures
        parse_children(bytes, node_base, table, count, depth) == parse_children(
            bytes,
            node_base,
            table,
            failed,
            depth,
        ),
    decreases count,
{
    if failed < count {
        lemma_parse_children_error_stays(
            bytes,
            node_base,
            table,
            failed,
            (count - 1) as nat,
            depth,
        );
    }
}

/// Resolving entries keeps their number.
pub proof fn lemma_parse_children_len(
    bytes: Seq<u8>,
    node_base: u64,
    table: TableView,
    count: nat,
    depth: nat,
)
    ensures
        parse_children(bytes, node_base, table, count, depth) matches Ok(children)
            ==> children.len() == count,
    decreases count,
{
    if count > 0 {
        lemma_parse_children_len(bytes, node_base, table, (count - 1) as nat, depth);
        lemma_first_target(table.offsets, table.links, count - 1, 0);
    }
}

/// A link's target, where it has one, is an earlier real entry with the
/// link's offset, and the first such from `from` on.
pub proof fn lemma_first_target(offsets: Seq<u64>, links: Seq<bool>, i: int, from: int)
    requires
        0 <= from,
    ensures
        match first_target(offsets, links, i, from) {
            Some(target) => {
                &&& from <= target < i
                &&& !links[target]
                &&& offsets[target] == offsets[i]
                &&& forall|j: int| from <= j < target ==> links[j] || offsets[j] != offsets[i]
            },
            None => forall|j: int| from <= j < i ==> links[j] || offsets[j] != offsets[i],
        },
    decreases i - from,
{
    if from < i && !(!links[from] && offsets[from] == offsets[i]) {
        lemma_first_target(offsets, links, i, from + 1);
    }
}

/// The archive that a stream holds: a container header at the very start,
/// then the root container, whose data runs to the end of the stream.
pub open spec fn parse_archive(bytes: Seq<u8>) -> Result<NodeView, PakError> {
    match parse_header(bytes, 0) {
        Err(e) => Err(e),
        Ok(None) => Err(PakError::Format(FormatError::NotAnArchive)),
        Ok(Some(header)) => if !spec_is_node_class(header.class) {
            Err(PakError::Format(FormatError::NotAnArchive))
        } else {
            match parse_node(bytes, header, MAX_DEPTH as nat) {
                Err(e) => Err(e),
                Ok(node) => Ok(
                    NodeView { data_len: (bytes.len() - node.data_offset) as u64, ..node },
                ),
            }
        },
    }
}

} // verus!
