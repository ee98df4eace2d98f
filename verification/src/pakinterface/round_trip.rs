//! Round-trip identity: an archive saved unchanged is written as it was read.

use crate::error::PakError;
use crate::pakinterface::header::{
    class_bytes, class_field, header_bytes, header_len, header_refusal, parse_header,
    spec_is_node_class, HeaderView,
};
use crate::pakinterface::image::{
    entries_refusal, entry_refusal, head, head_len, image, is_clean, lemma_head_len, names_bytes,
    names_len, node_refusal, sources_in_range, table_flags, table_offsets, table_patch,
    table_prefix, table_sizes, table_suffix, words32_bytes, words64_bytes, written_len,
};
use crate::pakinterface::layout::{
    first_target, lemma_first_target, lemma_parse_children_len, marked, parse_archive, parse_arrays,
    parse_children, parse_contents, parse_names, parse_node, parse_table, TableView, DELIMITER,
    MAX_DEPTH, TABLE_MARKER, TABLE_WORD,
};
use crate::pakinterface::layout_laws::{
    entry_as_parsed, lemma_parse_names_len, lemma_parsed_children,
};
use crate::pakinterface::node::{ChildView, ContentsView, NodeView};
use crate::pakinterface::state::{
    child_dirty, dirty_upto, lemma_refresh_upto, node_dirty, refresh, refresh_child,
};
use crate::span::{lemma_span_concat, span, zeros};
use crate::util::{parse_string, spec_string_length, string_bytes};
use vstd::bytes::{
    spec_u128_from_le_bytes, spec_u128_to_le_bytes, spec_u32_from_le_bytes, spec_u32_to_le_bytes,
    spec_u64_from_le_bytes, spec_u64_to_le_bytes,
};
use vstd::prelude::*;
use vstd::utf8::{encode_utf8, is_ascii_chars};

verus! {

/// Whether one of the first `count` entries carries a sign of change
/// depends only on whether each of them does.
proof fn lemma_dirty_upto_pointwise(a: Seq<ChildView>, b: Seq<ChildView>, count: nat)
    requires
        count <= a.len(),
        count <= b.len(),
        forall|i: int| 0 <= i < count ==> child_dirty(a[i]) == child_dirty(b[i]),
    ensures
        dirty_upto(a, count) == dirty_upto(b, count),
    decreases count,
{
    if count > 0 {
        lemma_dirty_upto_pointwise(a, b, (count - 1) as nat);
    }
}

/// What was just parsed at an entry's offset carries no sign of change.
proof fn lemma_parsed_contents_clean(
    bytes: Seq<u8>,
    node_base: u64,
    offset: u64,
    size: u32,
    depth: nat,
)
    requires
        parse_contents(bytes, node_base, offset, size, depth) is Ok,
    ensures
        parse_contents(bytes, node_base, offset, size, depth)->Ok_0 matches ContentsView::Node(node)
            ==> !node_dirty(node),
    decreases depth, 0nat, 0nat,
{
    let at = (node_base + offset) as nat;
    match parse_header(bytes, at) {
        Ok(Some(header)) => {
            if spec_is_node_class(header.class) && depth > 0 {
                lemma_parsed_node_clean(bytes, header, (depth - 1) as nat);
            }
        },
        _ => {},
    }
}

/// Entries that were just parsed carry no sign of change.
proof fn lemma_parsed_children_clean(
    bytes: Seq<u8>,
    node_base: u64,
    table: TableView,
    count: nat,
    depth: nat,
)
    requires
        parse_children(bytes, node_base, table, count, depth) is Ok,
    ensures
        !dirty_upto(parse_children(bytes, node_base, table, count, depth)->Ok_0, count),
    decreases depth, 1nat, count,
{
    lemma_parse_children_len(bytes, node_base, table, count, depth);
    if count > 0 {
        let last = count - 1;
        let before = parse_children(bytes, node_base, table, (count - 1) as nat, depth)->Ok_0;
        let after = parse_children(bytes, node_base, table, count, depth)->Ok_0;
        lemma_parsed_children_clean(bytes, node_base, table, (count - 1) as nat, depth);
        lemma_parse_children_len(bytes, node_base, table, (count - 1) as nat, depth);
        if table.links[last] {
            lemma_first_target(table.offsets, table.links, last, 0);
            let target = first_target(table.offsets, table.links, last, 0)->0;
            assert(child_dirty(marked(before[target])) == child_dirty(before[target]));
            assert forall|i: int| 0 <= i < last implies child_dirty(after[i]) == child_dirty(
                before[i],
            ) by {}
            lemma_dirty_upto_pointwise(after, before, last as nat);
            assert(!child_dirty(after[last]));
        } else {
            lemma_parsed_contents_clean(
                bytes,
                node_base,
                table.offsets[last],
                table.sizes[last],
                depth,
            );
            assert forall|i: int| 0 <= i < last implies child_dirty(after[i]) == child_dirty(
                before[i],
            ) by {}
            lemma_dirty_upto_pointwise(after, before, last as nat);
            assert(!child_dirty(after[last]));
        }
    }
}

/// A container that was just parsed carries no sign of change.
pub proof fn lemma_parsed_node_clean(bytes: Seq<u8>, header: HeaderView, depth: nat)
    requires
        parse_node(bytes, header, depth) is Ok,
    ensures
        !node_dirty(parse_node(bytes, header, depth)->Ok_0),
    decreases depth, 2nat, 0nat,
{
    let table = parse_table(bytes, (header.base + header.size) as nat)->Ok_0;
    lemma_parsed_children_clean(bytes, header.base, table, table.names.len(), depth);
    lemma_parse_children_len(bytes, header.base, table, table.names.len(), depth);
}

proof fn lemma_le32(word: Seq<u8>)
    requires
        word.len() == 4,
    ensures
        spec_u32_to_le_bytes(spec_u32_from_le_bytes(word)) == word,
{
    vstd::bytes::lemma_auto_spec_u32_to_from_le_bytes();
}

proof fn lemma_le64(word: Seq<u8>)
    requires
        word.len() == 8,
    ensures
        spec_u64_to_le_bytes(spec_u64_from_le_bytes(word)) == word,
{
    vstd::bytes::lemma_auto_spec_u64_to_from_le_bytes();
}

proof fn lemma_le128(word: Seq<u8>)
    requires
        word.len() == 16,
    ensures
        spec_u128_to_le_bytes(spec_u128_from_le_bytes(word)) == word,
{
    vstd::bytes::lemma_auto_spec_u128_to_from_le_bytes();
}

/// A name that was parsed is written back as the bytes it was parsed from.
proof fn lemma_string_round_trip(bytes: Seq<u8>, pos: nat)
    requires
        parse_string(bytes, pos) is Ok,
    ensures
        ({
            let (name, end) = parse_string(bytes, pos)->Ok_0;
            &&& string_bytes(name) == span(bytes, pos, (end - pos) as nat)
            &&& end == pos + 4 + encode_utf8(name).len()
            &&& encode_utf8(name).len() <= u32::MAX
            &&& (end > pos + 4 ==> end <= bytes.len())
            &&& pos + 4 <= bytes.len()
        }),
{
    let count = spec_u32_from_le_bytes(span(bytes, pos, 4)) as nat;
    let text = span(bytes, pos + 4, count);
    vstd::utf8::decode_utf8_encode_utf8(text);
    lemma_le32(span(bytes, pos, 4));
    lemma_span_concat(bytes, pos, 4, count);
}

/// Names that were parsed are written back as the bytes they were parsed
/// from.
proof fn lemma_names_round_trip(bytes: Seq<u8>, pos: nat, count: nat, children: Seq<ChildView>)
    requires
        parse_names(bytes, pos, count) is Ok,
        count <= children.len(),
        pos <= bytes.len(),
        forall|i: int|
            0 <= i < count ==> (#[trigger] children[i]).name == parse_names(
                bytes,
                pos,
                count,
            )->Ok_0.0[i],
    ensures
        ({
            let end = parse_names(bytes, pos, count)->Ok_0.1;
            &&& pos <= end <= bytes.len()
            &&& names_bytes(children, count) == span(bytes, pos, (end - pos) as nat)
            &&& names_len(children, count) == end - pos
            &&& forall|i: int|
                0 <= i < count ==> encode_utf8((#[trigger] children[i]).name).len() <= u32::MAX
        }),
    decreases count,
{
    if count > 0 {
        let (names, at) = parse_names(bytes, pos, (count - 1) as nat)->Ok_0;
        lemma_parse_names_len(bytes, pos, (count - 1) as nat);
        lemma_parse_names_len(bytes, pos, count);
        assert forall|i: int| 0 <= i < count - 1 implies (#[trigger] children[i]).name
            == names[i] by {
            assert(parse_names(bytes, pos, count)->Ok_0.0[i] == names[i]);
        }
        lemma_names_round_trip(bytes, pos, (count - 1) as nat, children);
        lemma_string_round_trip(bytes, at);
        let (name, end) = parse_string(bytes, at)->Ok_0;
        assert(children[count - 1].name == name);
        lemma_span_concat(bytes, pos, (at - pos) as nat, (end - at) as nat);
    } else {
        assert(span(bytes, pos, 0) =~= Seq::<u8>::empty());
    }
}

/// Offsets that were parsed are written back as the bytes they were parsed
/// from.
proof fn lemma_words64_round_trip(bytes: Seq<u8>, pos: nat, values: Seq<u64>, count: nat)
    requires
        count <= values.len(),
        forall|i: int|
            0 <= i < count ==> #[trigger] values[i] == spec_u64_from_le_bytes(
                span(bytes, (pos + 8 * i) as nat, 8),
            ),
    ensures
        words64_bytes(values, count) == span(bytes, pos, 8 * count),
    decreases count,
{
    if count > 0 {
        lemma_words64_round_trip(bytes, pos, values, (count - 1) as nat);
        lemma_le64(span(bytes, (pos + 8 * (count - 1)) as nat, 8));
        assert(values[count - 1] == spec_u64_from_le_bytes(
            span(bytes, (pos + 8 * (count - 1)) as nat, 8),
        ));
        lemma_span_concat(bytes, pos, (8 * (count - 1)) as nat, 8);
    } else {
        assert(span(bytes, pos, 0) =~= Seq::<u8>::empty());
    }
}

/// Sizes and flags that were parsed are written back as the bytes they
/// were parsed from.
proof fn lemma_words32_round_trip(bytes: Seq<u8>, pos: nat, values: Seq<u32>, count: nat)
    requires
        count <= values.len(),
        forall|i: int|
            0 <= i < count ==> #[trigger] values[i] == spec_u32_from_le_bytes(
                span(bytes, (pos + 4 * i) as nat, 4),
            ),
    ensures
        words32_bytes(values, count) == span(bytes, pos, 4 * count),
    decreases count,
{
    if count > 0 {
        lemma_words32_round_trip(bytes, pos, values, (count - 1) as nat);
        lemma_le32(span(bytes, (pos + 4 * (count - 1)) as nat, 4));
        assert(values[count - 1] == spec_u32_from_le_bytes(
            span(bytes, (pos + 4 * (count - 1)) as nat, 4),
        ));
        lemma_span_concat(bytes, pos, (4 * (count - 1)) as nat, 4);
    } else {
        assert(span(bytes, pos, 0) =~= Seq::<u8>::empty());
    }
}

/// The container classes are plain ASCII and fit the class field.
proof fn lemma_node_class_is_ascii(class: Seq<char>)
    requires
        spec_is_node_class(class),
    ensures
        is_ascii_chars(class),
        class.len() <= 0x20,
{
    reveal_strlit("pak");
    reveal_strlit("ssl_block");
    reveal_strlit("cache_block");
}

/// The class field of the header at `pos` holds nothing but zeros behind
/// the class.
pub open spec fn class_padding_is_zero(bytes: Seq<u8>, pos: nat) -> bool {
    forall|i: int|
        spec_string_length(span(bytes, pos + 4, 0x20)) <= i < 0x20 ==> #[trigger] span(
            bytes,
            pos + 4,
            0x20,
        )[i] == 0
}

/// Where the link flags of the table at `pos` stand.
pub open spec fn flags_position(bytes: Seq<u8>, pos: nat) -> nat {
    (parse_table(bytes, pos)->Ok_0.end - 4 * parse_table(bytes, pos)->Ok_0.names.len()) as nat
}

/// Every link flag of the table at `pos` is 0 or 1.
pub open spec fn flags_are_bits(bytes: Seq<u8>, pos: nat) -> bool {
    forall|k: int|
        0 <= k < parse_table(bytes, pos)->Ok_0.names.len() ==> spec_u32_from_le_bytes(
            #[trigger] span(bytes, (flags_position(bytes, pos) + 4 * k) as nat, 4),
        ) <= 1
}

/// An archive in the form that writing gives it: the root's class field is
/// padded with zeros, and the root's link flags are 0 or 1.
pub open spec fn canonical(bytes: Seq<u8>) -> bool {
    class_padding_is_zero(bytes, 0) && flags_are_bits(bytes, 0x40)
}

/// The header of a container that was parsed is written back as the bytes
/// it was parsed from, where its class field is padded with zeros.
proof fn lemma_container_header_round_trip(bytes: Seq<u8>, pos: nat)
    requires
        parse_header(bytes, pos) matches Ok(Some(header)) && spec_is_node_class(header.class),
        class_padding_is_zero(bytes, pos),
        pos <= u64::MAX,
    ensures
        ({
            let header = parse_header(bytes, pos)->Ok_0->0;
            &&& header_bytes(header) == span(bytes, pos, 0x40)
            &&& header_refusal(header) is None
            &&& header_len(header) == 0x40
            &&& header.size == 0x40
            &&& header.base == pos
            &&& pos + 0x40 <= bytes.len()
        }),
{
    let header = parse_header(bytes, pos)->Ok_0->0;
    let field = span(bytes, pos + 4, 0x20);
    let name = class_bytes(field);
    lemma_node_class_is_ascii(header.class);
    crate::util::lemma_string_length_bound(field);
    vstd::utf8::decode_utf8_encode_utf8(name);
    lemma_le32(span(bytes, pos, 4));
    lemma_le128(span(bytes, pos + 0x24, 16));
    lemma_le32(span(bytes, pos + 0x34, 4));
    lemma_le32(span(bytes, pos + 0x38, 4));
    lemma_le32(span(bytes, pos + 0x3c, 4));
    assert(header.meta_data.len() == 0);
    assert(header.meta_data =~= Seq::empty());
    assert(class_field(header.class) =~= field) by {
        assert(encode_utf8(header.class) == name);
        assert forall|i: int| 0 <= i < 0x20 implies class_field(header.class)[i] == field[i] by {
            if i >= name.len() {
                assert(field[i] == 0);
            }
        }
    }
    lemma_span_concat(bytes, pos, 4, 0x20);
    lemma_span_concat(bytes, pos, 0x24, 16);
    lemma_span_concat(bytes, pos, 0x34, 4);
    lemma_span_concat(bytes, pos, 0x38, 4);
    lemma_span_concat(bytes, pos, 0x3c, 4);
    assert(header_bytes(header) =~= span(bytes, pos, 0x40));
}

/// Entries that can each be written, and whose names fit, can be written
/// together where the container is clean.
proof fn lemma_clean_entries_accepted(children: Seq<ChildView>, count: nat)
    requires
        count <= children.len(),
        forall|i: int| 0 <= i < count ==> entry_refusal(children, i, true) is None,
        names_len(children, count) <= u64::MAX,
    ensures
        entries_refusal(children, count, true) is None,
    decreases count,
{
    if count > 0 {
        assert(names_len(children, count) == names_len(children, (count - 1) as nat) + 4
            + encode_utf8(children[count - 1].name).len());
        lemma_clean_entries_accepted(children, (count - 1) as nat);
        assert(entry_refusal(children, count - 1, true) is None);
    }
}

/// How many entries the table at `pos` counts.
pub open spec fn count_at(bytes: Seq<u8>, pos: nat) -> nat {
    spec_u32_from_le_bytes(span(bytes, pos + 4, 4)) as nat
}

/// Where the names of the table at `pos` end.
pub open spec fn names_end(bytes: Seq<u8>, pos: nat) -> nat {
    parse_names(bytes, pos + 13, count_at(bytes, pos))->Ok_0.1
}

/// Where the parts of a parsed table stand, and what they hold.
proof fn lemma_table_layout(bytes: Seq<u8>, pos: nat)
    requires
        parse_table(bytes, pos) is Ok,
    ensures
        ({
            let table = parse_table(bytes, pos)->Ok_0;
            let count = count_at(bytes, pos);
            let after_names = names_end(bytes, pos);
            let offsets_at = after_names + 1;
            let sizes_at = offsets_at + 8 * count + 1;
            let flags_at = sizes_at + 4 * count + 1;
            &&& table.names.len() == count
            &&& table.offsets.len() == count
            &&& table.sizes.len() == count
            &&& table.links.len() == count
            &&& parse_names(bytes, pos + 13, count) is Ok
            &&& table.names == parse_names(bytes, pos + 13, count)->Ok_0.0
            &&& pos + 13 <= after_names
            &&& table.end == flags_at + 4 * count
            &&& table.end <= bytes.len()
            &&& spec_u32_from_le_bytes(span(bytes, pos, 4)) == TABLE_MARKER
            &&& spec_u32_from_le_bytes(span(bytes, pos + 8, 4)) == TABLE_WORD
            &&& bytes[(pos + 12) as int] == DELIMITER
            &&& bytes[after_names as int] == DELIMITER
            &&& bytes[(offsets_at + 8 * count) as int] == DELIMITER
            &&& bytes[(sizes_at + 4 * count) as int] == DELIMITER
            &&& forall|i: int|
                0 <= i < count ==> #[trigger] table.offsets[i] == spec_u64_from_le_bytes(
                    span(bytes, (offsets_at + 8 * i) as nat, 8),
                )
            &&& forall|i: int|
                0 <= i < count ==> #[trigger] table.sizes[i] == spec_u32_from_le_bytes(
                    span(bytes, (sizes_at + 4 * i) as nat, 4),
                )
            &&& forall|i: int|
                0 <= i < count ==> #[trigger] table.links[i] == (spec_u32_from_le_bytes(
                    span(bytes, (flags_at + 4 * i) as nat, 4),
                ) > 0)
        }),
{
    let count = count_at(bytes, pos);
    lemma_parse_names_len(bytes, pos + 13, count);
    crate::pakinterface::layout::lemma_parse_names_advances(bytes, pos + 13, count);
    assert(parse_arrays(bytes, pos + 13, count) is Ok);
}

/// What stands before the offsets of a clean container that was parsed is
/// written back as the bytes it was parsed from.
proof fn lemma_prefix_round_trip(bytes: Seq<u8>, header: HeaderView, tree: NodeView)
    requires
        parse_header(bytes, header.base as nat) == Ok::<Option<HeaderView>, PakError>(
            Some(header),
        ),
        spec_is_node_class(header.class),
        class_padding_is_zero(bytes, header.base as nat),
        parse_table(bytes, (header.base + 0x40) as nat) is Ok,
        tree.header == header,
        tree.children.len() == count_at(bytes, (header.base + 0x40) as nat),
        forall|i: int|
            0 <= i < tree.children.len() ==> (#[trigger] tree.children[i]).name == parse_table(
                bytes,
                (header.base + 0x40) as nat,
            )->Ok_0.names[i],
    ensures
        table_prefix(tree) == span(
            bytes,
            header.base as nat,
            (names_end(bytes, (header.base + 0x40) as nat) + 1 - header.base) as nat,
        ),
        names_len(tree.children, tree.children.len()) <= bytes.len(),
        forall|i: int|
            0 <= i < tree.children.len() ==> encode_utf8((#[trigger] tree.children[i]).name).len()
                <= u32::MAX,
{
    let base = header.base as nat;
    let at = base + 0x40;
    lemma_container_header_round_trip(bytes, base);
    lemma_table_layout(bytes, at);
    let count = count_at(bytes, at);
    let after_names = names_end(bytes, at);
    lemma_names_round_trip(bytes, at + 13, count, tree.children);
    let names_total = (after_names - (at + 13)) as nat;
    lemma_le32(span(bytes, at, 4));
    lemma_le32(span(bytes, at + 4, 4));
    lemma_le32(span(bytes, at + 8, 4));
    assert(seq![DELIMITER] =~= span(bytes, at + 12, 1));
    assert(seq![DELIMITER] =~= span(bytes, after_names, 1));
    lemma_span_concat(bytes, base, 0x40, 4);
    lemma_span_concat(bytes, base, 0x44, 4);
    lemma_span_concat(bytes, base, 0x48, 4);
    lemma_span_concat(bytes, base, 0x4c, 1);
    lemma_span_concat(bytes, base, 0x4d, names_total);
    lemma_span_concat(bytes, base, 0x4d + names_total, 1);
}

/// The offsets and sizes of a clean container that was parsed are written
/// back as the bytes they were parsed from.
proof fn lemma_patch_round_trip(bytes: Seq<u8>, pos: nat, tree: NodeView)
    requires
        parse_table(bytes, pos) is Ok,
        is_clean(tree),
        tree.children.len() == count_at(bytes, pos),
        forall|i: int|
            0 <= i < tree.children.len() ==> {
                &&& (#[trigger] tree.children[i]).offset == parse_table(
                    bytes,
                    pos,
                )->Ok_0.offsets[i]
                &&& tree.children[i].size == parse_table(bytes, pos)->Ok_0.sizes[i]
            },
    ensures
        table_patch(tree) == span(
            bytes,
            names_end(bytes, pos) + 1,
            (12 * count_at(bytes, pos) + 1) as nat,
        ),
{
    lemma_table_layout(bytes, pos);
    let table = parse_table(bytes, pos)->Ok_0;
    let count = count_at(bytes, pos);
    let offsets_at = names_end(bytes, pos) + 1;
    let sizes_at = offsets_at + 8 * count + 1;
    let offsets = table_offsets(tree);
    let sizes = table_sizes(tree);
    assert forall|i: int| 0 <= i < count implies #[trigger] offsets[i]
        == spec_u64_from_le_bytes(span(bytes, (offsets_at + 8 * i) as nat, 8)) by {
        assert(tree.children[i].offset == table.offsets[i]);
    }
    lemma_words64_round_trip(bytes, offsets_at, offsets, count);
    assert forall|i: int| 0 <= i < count implies #[trigger] sizes[i] == spec_u32_from_le_bytes(
        span(bytes, (sizes_at + 4 * i) as nat, 4),
    ) by {
        assert(tree.children[i].size == table.sizes[i]);
    }
    lemma_words32_round_trip(bytes, sizes_at, sizes, count);
    assert(seq![DELIMITER] =~= span(bytes, (offsets_at + 8 * count) as nat, 1));
    lemma_span_concat(bytes, offsets_at, 8 * count, 1);
    lemma_span_concat(bytes, offsets_at, 8 * count + 1, 4 * count);
}

/// The link flags of a container that was parsed are written back as the
/// bytes they were parsed from, where each of them is 0 or 1.
proof fn lemma_suffix_round_trip(bytes: Seq<u8>, pos: nat, tree: NodeView)
    requires
        parse_table(bytes, pos) is Ok,
        flags_are_bits(bytes, pos),
        tree.children.len() == count_at(bytes, pos),
        forall|i: int|
            0 <= i < tree.children.len() ==> (#[trigger] tree.children[i]).contents is Link
                == parse_table(bytes, pos)->Ok_0.links[i],
    ensures
        table_suffix(tree) == span(
            bytes,
            (names_end(bytes, pos) + 1 + 12 * count_at(bytes, pos) + 1) as nat,
            (4 * count_at(bytes, pos) + 1) as nat,
        ),
{
    lemma_table_layout(bytes, pos);
    let table = parse_table(bytes, pos)->Ok_0;
    let count = count_at(bytes, pos);
    let delimiter_at = (names_end(bytes, pos) + 1 + 12 * count + 1) as nat;
    let flags_at = delimiter_at + 1;
    let flags = table_flags(tree.children);
    assert(flags_position(bytes, pos) == flags_at);
    assert forall|i: int| 0 <= i < count implies #[trigger] flags[i] == spec_u32_from_le_bytes(
        span(bytes, (flags_at + 4 * i) as nat, 4),
    ) by {
        let word = span(bytes, (flags_at + 4 * i) as nat, 4);
        assert(word == span(bytes, (flags_position(bytes, pos) + 4 * i) as nat, 4));
        assert(spec_u32_from_le_bytes(word) <= 1);
        assert(table.links[i] == (spec_u32_from_le_bytes(word) > 0));
        assert(tree.children[i].contents is Link == table.links[i]);
    }
    lemma_words32_round_trip(bytes, flags_at, flags, count);
    assert(seq![DELIMITER] =~= span(bytes, delimiter_at, 1));
    lemma_span_concat(bytes, delimiter_at, 1, 4 * count);
}

/// The entries of an archive that was just opened, with their states set
/// anew, are as the root's table gives them, and every link among them
/// names an earlier real entry.
proof fn lemma_opened_entries(bytes: Seq<u8>)
    requires
        parse_archive(bytes) is Ok,
    ensures
        ({
            let tree = refresh(parse_archive(bytes)->Ok_0);
            let table = parse_table(bytes, 0x40)->Ok_0;
            &&& parse_table(bytes, 0x40) is Ok
            &&& is_clean(tree)
            &&& tree.header == parse_header(bytes, 0)->Ok_0->0
            &&& tree.data_offset == parse_archive(bytes)->Ok_0.data_offset
            &&& tree.data_len == parse_archive(bytes)->Ok_0.data_len
            &&& tree.children.len() == count_at(bytes, 0x40)
            &&& parse_archive(bytes)->Ok_0.children.len() == count_at(bytes, 0x40)
            &&& forall|i: int|
                0 <= i < tree.children.len() ==> {
                    &&& (#[trigger] tree.children[i]).name == table.names[i]
                    &&& tree.children[i].offset == table.offsets[i]
                    &&& tree.children[i].size == table.sizes[i]
                    &&& tree.children[i].contents is Link == table.links[i]
                    &&& tree.children[i].contents matches ContentsView::Link(target) ==> target
                        < i && !(tree.children[target as int].contents is Link)
                }
        }),
{
    let header = parse_header(bytes, 0)->Ok_0->0;
    let depth = MAX_DEPTH as nat;
    let node = parse_node(bytes, header, depth)->Ok_0;
    let root = parse_archive(bytes)->Ok_0;
    let tree = refresh(root);
    lemma_parsed_node_clean(bytes, header, depth);
    assert(root.children == node.children);
    assert(!node_dirty(root));
    assert(header.base == 0 && header.size == 0x40);
    let table = parse_table(bytes, 0x40)->Ok_0;
    lemma_table_layout(bytes, 0x40);
    let count = count_at(bytes, 0x40);
    lemma_parsed_children(bytes, 0, table, count, depth);
    lemma_refresh_upto(root.children, root.children.len());
    assert forall|i: int| 0 <= i < count implies {
        &&& (#[trigger] tree.children[i]).name == table.names[i]
        &&& tree.children[i].offset == table.offsets[i]
        &&& tree.children[i].size == table.sizes[i]
        &&& tree.children[i].contents is Link == table.links[i]
        &&& tree.children[i].contents matches ContentsView::Link(target) ==> target < i && !(
        tree.children[target as int].contents is Link)
    } by {
        assert(tree.children[i] == refresh_child(root.children[i]));
        assert(entry_as_parsed(bytes, 0, table, depth, i, node.children[i]));
        if table.links[i] {
            lemma_first_target(table.offsets, table.links, i, 0);
            let target = first_target(table.offsets, table.links, i, 0)->0;
            assert(tree.children[target] == refresh_child(root.children[target]));
            assert(entry_as_parsed(bytes, 0, table, depth, target, node.children[target]));
        }
    }
}

/// The head of an archive that was just opened, with its states set anew,
/// is written back as the bytes it was read from.
proof fn lemma_opened_head(bytes: Seq<u8>)
    requires
        parse_archive(bytes) is Ok,
        canonical(bytes),
    ensures
        ({
            let tree = refresh(parse_archive(bytes)->Ok_0);
            let end = parse_table(bytes, 0x40)->Ok_0.end;
            &&& head(tree) == span(bytes, 0, end)
            &&& head_len(tree) == end
            &&& end <= bytes.len()
            &&& header_refusal(tree.header) is None
            &&& tree.children.len() <= u32::MAX
            &&& names_len(tree.children, tree.children.len()) <= bytes.len()
            &&& forall|i: int|
                0 <= i < tree.children.len() ==> encode_utf8(
                    (#[trigger] tree.children[i]).name,
                ).len() <= u32::MAX
        }),
{
    let header = parse_header(bytes, 0)->Ok_0->0;
    let tree = refresh(parse_archive(bytes)->Ok_0);
    let table = parse_table(bytes, 0x40)->Ok_0;
    let count = count_at(bytes, 0x40);
    lemma_container_header_round_trip(bytes, 0);
    lemma_opened_entries(bytes);
    lemma_table_layout(bytes, 0x40);
    lemma_prefix_round_trip(bytes, header, tree);
    lemma_patch_round_trip(bytes, 0x40, tree);
    lemma_suffix_round_trip(bytes, 0x40, tree);
    lemma_head_len(tree);
    let after_names = names_end(bytes, 0x40);
    lemma_span_concat(bytes, 0, after_names + 1, (12 * count + 1) as nat);
    lemma_span_concat(
        bytes,
        0,
        (after_names + 1 + 12 * count + 1) as nat,
        (4 * count + 1) as nat,
    );
}

/// The entries of an archive that was just opened, with their states set
/// anew, can be written.
proof fn lemma_opened_accepted(bytes: Seq<u8>)
    requires
        parse_archive(bytes) is Ok,
        canonical(bytes),
        bytes.len() <= u64::MAX,
    ensures
        entries_refusal(
            refresh(parse_archive(bytes)->Ok_0).children,
            refresh(parse_archive(bytes)->Ok_0).children.len(),
            true,
        ) is None,
{
    let tree = refresh(parse_archive(bytes)->Ok_0);
    lemma_opened_entries(bytes);
    lemma_opened_head(bytes);
    assert forall|i: int| 0 <= i < tree.children.len() implies entry_refusal(
        tree.children,
        i,
        true,
    ) is None by {
        assert(encode_utf8(tree.children[i].name).len() <= u32::MAX);
    }
    lemma_clean_entries_accepted(tree.children, tree.children.len());
}

/// Round-trip identity: an archive that is opened and saved with nothing
/// changed is written as the bytes it was read from.
///
/// `bytes` is any stream that opens as an archive and is in canonical form
/// (see `canonical`). The tree that `save` writes is the opened tree with
/// its states set anew. That tree is accepted, all it reads lies inside
/// the source, and its image is `bytes`. The number of entries of the root
/// must be one that a table in memory can hold.
pub proof fn lemma_round_trip(bytes: Seq<u8>)
    requires
        parse_archive(bytes) is Ok,
        canonical(bytes),
        bytes.len() <= u64::MAX,
        parse_archive(bytes)->Ok_0.children.len() <= (usize::MAX - 1) / 12,
    ensures
        is_clean(refresh(parse_archive(bytes)->Ok_0)),
        node_refusal(refresh(parse_archive(bytes)->Ok_0)) is None,
        sources_in_range(refresh(parse_archive(bytes)->Ok_0), bytes.len()),
        written_len(refresh(parse_archive(bytes)->Ok_0)) == bytes.len(),
        image(refresh(parse_archive(bytes)->Ok_0), bytes) == bytes,
{
    let tree = refresh(parse_archive(bytes)->Ok_0);
    let end = parse_table(bytes, 0x40)->Ok_0.end;
    lemma_opened_entries(bytes);
    lemma_opened_head(bytes);
    lemma_opened_accepted(bytes);
    lemma_opened_data(bytes);
    lemma_clean_image(tree, bytes, end);
}

/// A clean container whose head is the start of the source and whose data
/// is the rest of it is written as the source.
proof fn lemma_clean_image(tree: NodeView, bytes: Seq<u8>, end: nat)
    requires
        is_clean(tree),
        head(tree) == span(bytes, 0, end),
        head_len(tree) == end,
        end <= bytes.len(),
        bytes.len() <= u64::MAX,
        tree.data_offset == end,
        tree.data_len == bytes.len() - end,
        header_refusal(tree.header) is None,
        tree.children.len() <= u32::MAX,
        tree.children.len() <= (usize::MAX - 1) / 12,
        entries_refusal(tree.children, tree.children.len(), true) is None,
    ensures
        node_refusal(tree) is None,
        sources_in_range(tree, bytes.len()),
        written_len(tree) == bytes.len(),
        image(tree, bytes) == bytes,
{
    assert(image(tree, bytes) =~= bytes);
}

/// The data of an archive that was just opened runs from the end of the
/// root's table to the end of the stream.
proof fn lemma_opened_data(bytes: Seq<u8>)
    requires
        parse_archive(bytes) is Ok,
        bytes.len() <= u64::MAX,
    ensures
        parse_archive(bytes)->Ok_0.data_offset == parse_table(bytes, 0x40)->Ok_0.end,
        parse_archive(bytes)->Ok_0.data_len == bytes.len() - parse_table(bytes, 0x40)->Ok_0.end,
        parse_table(bytes, 0x40)->Ok_0.end <= bytes.len(),
{
    let header = parse_header(bytes, 0)->Ok_0->0;
    assert(header.base == 0 && header.size == 0x40);
    lemma_table_layout(bytes, 0x40);
}

} // verus!
