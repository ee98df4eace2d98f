//! The bytes that writing a container emits.

use crate::error::UsageError;
use crate::pakinterface::header::{header_bytes, header_len, header_refusal, lemma_header_bytes_len};
use crate::pakinterface::layout::{DELIMITER, TABLE_MARKER, TABLE_WORD};
use crate::pakinterface::node::{ChildView, ContentsView, NodeModifiedState, NodeView};
use crate::span::{readable, span, zeros};
use crate::util::{lemma_word_lengths, string_bytes};
use vstd::bytes::{spec_u32_to_le_bytes, spec_u64_to_le_bytes};
use vstd::prelude::*;
use vstd::utf8::encode_utf8;

verus! {

/// Whether a container is written by copying its data as it stands.
pub open spec fn is_clean(node: NodeView) -> bool {
    node.state == NodeModifiedState::Clean
}

/// The bytes that the names of the first `count` entries take in a table.
pub open spec fn names_len(children: Seq<ChildView>, count: nat) -> nat
    decreases count,
{
    if count == 0 {
        0
    } else {
        names_len(children, (count - 1) as nat) + 4 + encode_utf8(children[count - 1].name).len()
    }
}

/// The names of the first `count` entries as they stand in a table.
pub open spec fn names_bytes(children: Seq<ChildView>, count: nat) -> Seq<u8>
    decreases count,
{
    if count == 0 {
        Seq::empty()
    } else {
        names_bytes(children, (count - 1) as nat) + string_bytes(children[count - 1].name)
    }
}

/// How many bytes an entry adds to a container that is written anew: none
/// for a link, the replacement (behind its header, for a resource) where
/// one was set, a nested container's own written length where that
/// container is not clean, and the entry's size otherwise.
pub open spec fn payload_len(child: ChildView) -> nat
    decreases child,
{
    match child.contents {
        ContentsView::Link(_) => 0,
        ContentsView::Data => match child.new_data {
            Some(data) => data.len(),
            None => child.size as nat,
        },
        ContentsView::Resource(header) => match child.new_data {
            Some(data) => header_len(header) + data.len(),
            None => child.size as nat,
        },
        ContentsView::Node(node) => if is_clean(node) {
            child.size as nat
        } else {
            written_len(node)
        },
    }
}

/// How many bytes the first `count` entries add.
pub open spec fn body_len(children: Seq<ChildView>, count: nat) -> nat
    decreases children, count,
{
    if count == 0 || count > children.len() {
        0
    } else {
        body_len(children, (count - 1) as nat) + payload_len(children[count - 1])
    }
}

/// How many bytes a container's header and child table take.
pub open spec fn head_len(node: NodeView) -> nat {
    header_len(node.header) + 16 + names_len(node.children, node.children.len()) + 16
        * node.children.len()
}

/// How many bytes writing a container emits.
pub open spec fn written_len(node: NodeView) -> nat
    decreases node,
{
    head_len(node) + if is_clean(node) {
        node.data_len as nat
    } else {
        body_len(node.children, node.children.len())
    }
}

/// The size that the table of a container written anew gives for a real
/// entry.
pub open spec fn real_size(child: ChildView) -> u32 {
    match child.contents {
        ContentsView::Node(node) => if is_clean(node) {
            child.size
        } else {
            written_len(node) as u32
        },
        _ => child.size,
    }
}

/// The offset that the written table gives for entry `i`: the old one in a
/// clean container; in one written anew, the place where the entry's bytes
/// start, and for a link that of its target.
pub open spec fn entry_offset(node: NodeView, i: int) -> u64 {
    if is_clean(node) {
        node.children[i].offset
    } else {
        match node.children[i].contents {
            ContentsView::Link(target) => (head_len(node) + body_len(
                node.children,
                target as nat,
            )) as u64,
            _ => (head_len(node) + body_len(node.children, i as nat)) as u64,
        }
    }
}

/// The size that the written table gives for entry `i`: the old one in a
/// clean container; in one written anew, the entry's size as written, and
/// for a link that of its target.
pub open spec fn entry_size(node: NodeView, i: int) -> u32 {
    if is_clean(node) {
        node.children[i].size
    } else {
        match node.children[i].contents {
            ContentsView::Link(target) => real_size(node.children[target as int]),
            _ => real_size(node.children[i]),
        }
    }
}

/// The link flag of an entry: 1 for a link, 0 for a real entry.
pub open spec fn entry_flag(child: ChildView) -> u32 {
    if child.contents is Link {
        1
    } else {
        0
    }
}

/// The first `count` of `values` as little-endian 64-bit words.
pub open spec fn words64_bytes(values: Seq<u64>, count: nat) -> Seq<u8>
    decreases count,
{
    if count == 0 {
        Seq::empty()
    } else {
        words64_bytes(values, (count - 1) as nat) + spec_u64_to_le_bytes(values[count - 1])
    }
}

/// The first `count` of `values` as little-endian 32-bit words.
pub open spec fn words32_bytes(values: Seq<u32>, count: nat) -> Seq<u8>
    decreases count,
{
    if count == 0 {
        Seq::empty()
    } else {
        words32_bytes(values, (count - 1) as nat) + spec_u32_to_le_bytes(values[count - 1])
    }
}

/// The offsets of the written table.
pub open spec fn table_offsets(node: NodeView) -> Seq<u64> {
    Seq::new(node.children.len(), |i: int| entry_offset(node, i))
}

/// The sizes of the written table.
pub open spec fn table_sizes(node: NodeView) -> Seq<u32> {
    Seq::new(node.children.len(), |i: int| entry_size(node, i))
}

/// The link flags of the written table.
pub open spec fn table_flags(children: Seq<ChildView>) -> Seq<u32> {
    Seq::new(children.len(), |i: int| entry_flag(children[i]))
}

/// What is written before the offsets: the header, the marker, the child
/// count, the fixed word, a delimiter, the names and a delimiter.
pub open spec fn table_prefix(node: NodeView) -> Seq<u8> {
    header_bytes(node.header) + spec_u32_to_le_bytes(TABLE_MARKER) + spec_u32_to_le_bytes(
        node.children.len() as u32,
    ) + spec_u32_to_le_bytes(TABLE_WORD) + seq![DELIMITER] + names_bytes(
        node.children,
        node.children.len(),
    ) + seq![DELIMITER]
}

/// The part of the table that is known only once the entries are written:
/// the offsets, a delimiter, and the sizes.
pub open spec fn table_patch(node: NodeView) -> Seq<u8> {
    words64_bytes(table_offsets(node), node.children.len()) + seq![DELIMITER] + words32_bytes(
        table_sizes(node),
        node.children.len(),
    )
}

/// What is written behind the sizes: a delimiter and the link flags.
pub open spec fn table_suffix(node: NodeView) -> Seq<u8> {
    seq![DELIMITER] + words32_bytes(table_flags(node.children), node.children.len())
}

/// A container's header and child table as first written, with zeros in
/// place of the offsets and sizes.
pub open spec fn placeholder_head(node: NodeView) -> Seq<u8> {
    table_prefix(node) + zeros((12 * node.children.len() + 1) as nat) + table_suffix(node)
}

/// A container's header and child table as written.
pub open spec fn head(node: NodeView) -> Seq<u8> {
    table_prefix(node) + table_patch(node) + table_suffix(node)
}

/// The span of its archive's stream that an entry takes.
pub open spec fn child_span(child: ChildView, source: Seq<u8>) -> Seq<u8> {
    span(source, (child.node_base + child.offset) as nat, child.size as nat)
}

/// The bytes that an entry adds to a container written anew: nothing for a
/// link; the replacement (behind its header, for a resource) where one was
/// set; a nested container's own image where that container is not clean;
/// and the entry's span of the source otherwise.
pub open spec fn payload(child: ChildView, source: Seq<u8>) -> Seq<u8>
    decreases child,
{
    match child.contents {
        ContentsView::Link(_) => Seq::empty(),
        ContentsView::Data => match child.new_data {
            Some(data) => data,
            None => child_span(child, source),
        },
        ContentsView::Resource(header) => match child.new_data {
            Some(data) => header_bytes(header) + data,
            None => child_span(child, source),
        },
        ContentsView::Node(node) => if is_clean(node) {
            child_span(child, source)
        } else {
            image(node, source)
        },
    }
}

/// The bytes that the first `count` entries add, in table order.
pub open spec fn body(children: Seq<ChildView>, source: Seq<u8>, count: nat) -> Seq<u8>
    decreases children, count,
{
    if count == 0 || count > children.len() {
        Seq::empty()
    } else {
        body(children, source, (count - 1) as nat) + payload(children[count - 1], source)
    }
}

/// The bytes that writing a container emits: its header and table, then
/// its data as it stands in the source where the container is clean, and
/// the bytes of its entries in table order otherwise.
pub open spec fn image(node: NodeView, source: Seq<u8>) -> Seq<u8>
    decreases node,
{
    head(node) + if is_clean(node) {
        span(source, node.data_offset as nat, node.data_len as nat)
    } else {
        body(node.children, source, node.children.len())
    }
}

/// Why entry `i` cannot be written, if it cannot. In a clean container only
/// the name and the link count; in one written anew also what the entry
/// holds.
pub open spec fn entry_refusal(children: Seq<ChildView>, i: int, clean: bool) -> Option<UsageError>
    decreases children, 0nat, 0nat,
{
    let child = children[i];
    if !(0 <= i < children.len()) {
        None
    } else if encode_utf8(child.name).len() > u32::MAX {
        Some(UsageError::TooLarge)
    } else {
        match child.contents {
            ContentsView::Link(target) => if target >= i || children[target as int].contents
                is Link {
                Some(UsageError::BrokenLink)
            } else {
                None
            },
            ContentsView::Data => None,
            ContentsView::Resource(header) => if !clean && child.new_data is Some {
                header_refusal(header)
            } else {
                None
            },
            ContentsView::Node(node) => if clean || is_clean(node) {
                None
            } else {
                match node_refusal(node) {
                    Some(e) => Some(e),
                    None => if written_len(node) > u32::MAX {
                        Some(UsageError::TooLarge)
                    } else {
                        None
                    },
                }
            },
        }
    }
}

/// Why the first `count` entries cannot be written, if they cannot: the
/// first refusal in table order, where a sum of lengths that passes 64 bits
/// counts as one.
pub open spec fn entries_refusal(children: Seq<ChildView>, count: nat, clean: bool) -> Option<
    UsageError,
>
    decreases children, 1nat, count,
{
    if count == 0 || count > children.len() {
        None
    } else {
        match entries_refusal(children, (count - 1) as nat, clean) {
            Some(e) => Some(e),
            None => match entry_refusal(children, count - 1, clean) {
                Some(e) => Some(e),
                None => if names_len(children, count) > u64::MAX || (!clean && body_len(
                    children,
                    count,
                ) > u64::MAX) {
                    Some(UsageError::TooLarge)
                } else {
                    None
                },
            },
        }
    }
}

/// Why a container cannot be written, if it cannot: its header is refused,
/// it has more entries than the table can count or hold in memory, one of
/// its entries is refused, or it does not fit 64 bits.
pub open spec fn node_refusal(node: NodeView) -> Option<UsageError>
    decreases node,
{
    match header_refusal(node.header) {
        Some(e) => Some(e),
        None => if node.children.len() > u32::MAX || node.children.len() > (usize::MAX - 1) / 12 {
            Some(UsageError::TooLarge)
        } else {
            match entries_refusal(node.children, node.children.len(), is_clean(node)) {
                Some(e) => Some(e),
                None => if written_len(node) > u64::MAX {
                    Some(UsageError::TooLarge)
                } else {
                    None
                },
            }
        },
    }
}

/// Every span of the source that writing the first `count` entries reads
/// lies inside a source of `len` bytes.
pub open spec fn entries_in_range(children: Seq<ChildView>, count: nat, len: nat) -> bool
    decreases children, count,
{
    if count == 0 || count > children.len() {
        true
    } else {
        entries_in_range(children, (count - 1) as nat, len) && entry_in_range(
            children[count - 1],
            len,
        )
    }
}

/// The span that an entry takes lies inside a source of `len` bytes.
pub open spec fn span_in_range(child: ChildView, len: nat) -> bool {
    readable(len, (child.node_base + child.offset) as nat, child.size as nat)
}

/// Every span of the source that writing an entry reads lies inside a
/// source of `len` bytes.
pub open spec fn entry_in_range(child: ChildView, len: nat) -> bool
    decreases child,
{
    match child.contents {
        ContentsView::Link(_) => true,
        ContentsView::Data => child.new_data is Some || span_in_range(child, len),
        ContentsView::Resource(_) => child.new_data is Some || span_in_range(child, len),
        ContentsView::Node(node) => if is_clean(node) {
            span_in_range(child, len)
        } else {
            sources_in_range(node, len)
        },
    }
}

/// Every span of the source that writing a container reads lies inside a
/// source of `len` bytes.
pub open spec fn sources_in_range(node: NodeView, len: nat) -> bool
    decreases node,
{
    if is_clean(node) {
        readable(len, node.data_offset as nat, node.data_len as nat)
    } else {
        entries_in_range(node.children, node.children.len(), len)
    }
}


/// The names in a table take as many bytes as `names_len` says.
pub proof fn lemma_names_bytes_len(children: Seq<ChildView>, count: nat)
    ensures
        names_bytes(children, count).len() == names_len(children, count),
    decreases count,
{
    if count > 0 {
        lemma_names_bytes_len(children, (count - 1) as nat);
        lemma_word_lengths(encode_utf8(children[count - 1].name).len() as u32, 0, 0);
    }
}

/// Words take eight bytes each, or four.
pub proof fn lemma_words_len(wide: Seq<u64>, narrow: Seq<u32>, count: nat)
    ensures
        words64_bytes(wide, count).len() == 8 * count,
        words32_bytes(narrow, count).len() == 4 * count,
    decreases count,
{
    if count > 0 {
        lemma_words_len(wide, narrow, (count - 1) as nat);
        lemma_word_lengths(narrow[count - 1], wide[count - 1], 0);
    }
}

/// The parts of a written table have the lengths that `head_len` adds up.
pub proof fn lemma_head_len(node: NodeView)
    requires
        header_refusal(node.header) is None,
    ensures
        table_prefix(node).len() == header_len(node.header) + 14 + names_len(
            node.children,
            node.children.len(),
        ),
        table_patch(node).len() == 12 * node.children.len() + 1,
        table_suffix(node).len() == 4 * node.children.len() + 1,
        head(node).len() == head_len(node),
{
    lemma_header_bytes_len(node.header);
    lemma_names_bytes_len(node.children, node.children.len());
    lemma_words_len(table_offsets(node), table_sizes(node), node.children.len());
    lemma_words_len(table_offsets(node), table_flags(node.children), node.children.len());
    lemma_word_lengths(TABLE_MARKER, 0, 0);
    lemma_word_lengths(node.children.len() as u32, 0, 0);
    lemma_word_lengths(TABLE_WORD, 0, 0);
}

/// Among entries that can be written, each one can.
pub proof fn lemma_entries_refusal(children: Seq<ChildView>, count: nat, clean: bool, i: int)
    requires
        count <= children.len(),
        entries_refusal(children, count, clean) is None,
        0 <= i < count,
    ensures
        entry_refusal(children, i, clean) is None,
        entries_refusal(children, i as nat, clean) is None,
        entries_refusal(children, (i + 1) as nat, clean) is None,
        names_len(children, (i + 1) as nat) <= u64::MAX,
        !clean ==> body_len(children, (i + 1) as nat) <= u64::MAX,
    decreases count,
{
    if i < count - 1 {
        lemma_entries_refusal(children, (count - 1) as nat, clean, i);
    }
}

/// The bytes of an entry that can be written are as many as `payload_len`
/// says.
pub proof fn lemma_payload_len(children: Seq<ChildView>, i: int, source: Seq<u8>)
    requires
        0 <= i < children.len(),
        entry_refusal(children, i, false) is None,
    ensures
        payload(children[i], source).len() == payload_len(children[i]),
    decreases children, 0nat, 0nat,
{
    let child = children[i];
    match child.contents {
        ContentsView::Resource(header) => {
            if child.new_data is Some {
                lemma_header_bytes_len(header);
            }
        },
        ContentsView::Node(node) => {
            if !is_clean(node) {
                lemma_image_len(node, source);
            }
        },
        _ => {},
    }
}

/// The bytes of entries that can be written are as many as `body_len` says.
pub proof fn lemma_body_len(children: Seq<ChildView>, source: Seq<u8>, count: nat)
    requires
        count <= children.len(),
        entries_refusal(children, count, false) is None,
    ensures
        body(children, source, count).len() == body_len(children, count),
    decreases children, 1nat, count,
{
    if count > 0 {
        lemma_entries_refusal(children, count, false, count - 1);
        lemma_body_len(children, source, (count - 1) as nat);
        lemma_payload_len(children, count - 1, source);
    }
}

/// The image of a container that can be written is as long as
/// `written_len` says.
pub proof fn lemma_image_len(node: NodeView, source: Seq<u8>)
    requires
        node_refusal(node) is None,
    ensures
        image(node, source).len() == written_len(node),
    decreases node,
{
    lemma_head_len(node);
    if !is_clean(node) {
        lemma_body_len(node.children, source, node.children.len());
    }
}


/// Once an entry is refused, so is every longer run of entries.
pub proof fn lemma_entries_refusal_stays(
    children: Seq<ChildView>,
    failed: nat,
    count: nat,
    clean: bool,
)
    requires
        failed <= count <= children.len(),
        entries_refusal(children, failed, clean) is Some,
    ensures
        entries_refusal(children, count, clean) == entries_refusal(children, failed, clean),
    decreases count,
{
    if failed < count {
        lemma_entries_refusal_stays(children, failed, (count - 1) as nat, clean);
    }
}


/// A longer run of entries adds no fewer bytes.
pub proof fn lemma_body_len_grows(children: Seq<ChildView>, shorter: nat, count: nat)
    requires
        shorter <= count <= children.len(),
    ensures
        body_len(children, shorter) <= body_len(children, count),
    decreases count,
{
    if shorter < count {
        lemma_body_len_grows(children, shorter, (count - 1) as nat);
    }
}

/// Where a run of entries reads only inside the source, so does every
/// shorter run, and so does each of its entries.
pub proof fn lemma_entries_in_range(children: Seq<ChildView>, count: nat, len: nat, i: int)
    requires
        count <= children.len(),
        entries_in_range(children, count, len),
        0 <= i < count,
    ensures
        entries_in_range(children, i as nat, len),
        entries_in_range(children, (i + 1) as nat, len),
        entry_in_range(children[i], len),
    decreases count,
{
    if i < count - 1 {
        lemma_entries_in_range(children, (count - 1) as nat, len, i);
    }
}

/// When writing a container may end in `e`: at the end of the source, where
/// one of the spans it reads does not lie inside the source; beyond the
/// capacity of the destination, where what it writes does not fit; or with
/// a fault of one of the two media.
pub open spec fn write_error(
    node: NodeView,
    source_len: nat,
    source_reliable: bool,
    capacity: nat,
    start: nat,
    reliable: bool,
    e: crate::error::PakError,
) -> bool {
    ||| e == crate::error::eof() && !sources_in_range(node, source_len)
    ||| crate::util::write_failure(capacity, start, written_len(node), reliable, e)
    ||| crate::error::is_fault(source_reliable, e)
}


/// A longer run of names takes no fewer bytes.
pub proof fn lemma_names_len_grows(children: Seq<ChildView>, shorter: nat, count: nat)
    requires
        shorter <= count,
    ensures
        names_len(children, shorter) <= names_len(children, count),
    decreases count,
{
    if shorter < count {
        lemma_names_len_grows(children, shorter, (count - 1) as nat);
    }
}

/// Writing the offsets and sizes over their placeholder turns what was
/// first written into the container's image.
pub proof fn lemma_patched_image(node: NodeView, rest: Seq<u8>)
    requires
        header_refusal(node.header) is None,
    ensures
        (placeholder_head(node) + rest).subrange(0, table_prefix(node).len() as int)
            + table_patch(node) + (placeholder_head(node) + rest).subrange(
            (table_prefix(node).len() + table_patch(node).len()) as int,
            (placeholder_head(node) + rest).len() as int,
        ) == head(node) + rest,
        table_prefix(node).len() + table_patch(node).len() <= (placeholder_head(node)
            + rest).len(),
{
    lemma_head_len(node);
    let first = placeholder_head(node) + rest;
    let prefix = table_prefix(node);
    let patch = table_patch(node);
    assert(first.subrange(0, prefix.len() as int) + patch + first.subrange(
        (prefix.len() + patch.len()) as int,
        first.len() as int,
    ) =~= head(node) + rest);
}

} // verus!
