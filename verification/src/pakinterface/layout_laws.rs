//! Laws of reading: parsed entries, link resolution, truncated tables.

use crate::error::{eof, PakError};
use crate::pakinterface::layout::{
    first_target, lemma_first_target, lemma_parse_children_len, lemma_parse_names_advances,
    parse_arrays, parse_children, parse_contents, parse_delimiter, parse_names, parse_node,
    parse_offsets, parse_table, parse_words, TableView,
};
use crate::pakinterface::node::{entry_data, ChildView, ContentsView};
use crate::pakinterface::state::child_data;
use crate::span::span;
use crate::util::parse_string;
use vstd::bytes::spec_u32_from_le_bytes;
use vstd::prelude::*;

verus! {

/// Entry `k` of a table stands in the parsed entries as the table gives it:
/// with its name, offset and size, counted from the container's base, with
/// no replacement and no mark of change; a link where its flag is set, and
/// then to the first earlier real entry with its offset; else with what
/// stands at its offset.
pub open spec fn entry_as_parsed(
    bytes: Seq<u8>,
    node_base: u64,
    table: TableView,
    depth: nat,
    k: int,
    child: ChildView,
) -> bool {
    &&& child.name == table.names[k]
    &&& child.offset == table.offsets[k]
    &&& child.size == table.sizes[k]
    &&& child.node_base == node_base
    &&& child.new_data is None
    &&& !child.meta_data_dirty
    &&& !child.is_new_entry
    &&& (child.contents is Link) == table.links[k]
    &&& table.links[k] ==> (first_target(table.offsets, table.links, k, 0) matches Some(target)
        && child.contents == ContentsView::Link(target as usize))
    &&& !table.links[k] ==> parse_contents(bytes, node_base, table.offsets[k], table.sizes[k], depth)
        == Ok::<ContentsView, PakError>(child.contents)
}

/// Every parsed entry is as the table gives it, and the target of every
/// link among the parsed entries is marked.
pub proof fn lemma_parsed_children(
    bytes: Seq<u8>,
    node_base: u64,
    table: TableView,
    count: nat,
    depth: nat,
)
    requires
        count <= u32::MAX,
        parse_children(bytes, node_base, table, count, depth) is Ok,
    ensures
        parse_children(bytes, node_base, table, count, depth)->Ok_0.len() == count,
        forall|k: int|
            0 <= k < count ==> entry_as_parsed(
                bytes,
                node_base,
                table,
                depth,
                k,
                #[trigger] parse_children(bytes, node_base, table, count, depth)->Ok_0[k],
            ),
        forall|i: int|
            0 <= i < count && table.links[i] ==> ((#[trigger] first_target(
                table.offsets,
                table.links,
                i,
                0,
            )) matches Some(target) && parse_children(
                bytes,
                node_base,
                table,
                count,
                depth,
            )->Ok_0[target].has_active_links),
    decreases count,
{
    lemma_parse_children_len(bytes, node_base, table, count, depth);
    if count > 0 {
        let before = parse_children(bytes, node_base, table, (count - 1) as nat, depth)->Ok_0;
        let after = parse_children(bytes, node_base, table, count, depth)->Ok_0;
        lemma_parsed_children(bytes, node_base, table, (count - 1) as nat, depth);
        lemma_parse_children_len(bytes, node_base, table, (count - 1) as nat, depth);
        let last = count - 1;
        lemma_first_target(table.offsets, table.links, last, 0);
        assert forall|k: int| 0 <= k < count implies entry_as_parsed(
            bytes,
            node_base,
            table,
            depth,
            k,
            #[trigger] after[k],
        ) by {
            if k < last {
                assert(entry_as_parsed(bytes, node_base, table, depth, k, before[k]));
            }
        }
        assert forall|i: int| 0 <= i < count && table.links[i] implies ((#[trigger] first_target(
            table.offsets,
            table.links,
            i,
            0,
        )) matches Some(target) && after[target].has_active_links) by {
            lemma_first_target(table.offsets, table.links, i, 0);
            let target = first_target(table.offsets, table.links, i, 0)->0;
            if i < last {
                assert(before[target].has_active_links);
                if table.links[last] {
                    let marked_at = first_target(table.offsets, table.links, last, 0)->0;
                    if marked_at == target {
                        assert(after[target].has_active_links);
                    } else {
                        assert(after[target] == before[target]);
                    }
                } else {
                    assert(after[target] == before[target]);
                }
            } else {
                assert(after[target].has_active_links);
            }
        }
    }
}

/// Link resolution: in a parsed container, an entry marked as a link
/// stands for the first earlier real entry with its offset. That entry is
/// marked as a target, and reading the link's bytes gives what reading the
/// target's bytes gives.
pub proof fn lemma_link_resolution(
    bytes: Seq<u8>,
    header: crate::pakinterface::header::HeaderView,
    depth: nat,
    link: int,
    source: Option<Seq<u8>>,
)
    requires
        parse_node(bytes, header, depth) is Ok,
        0 <= link < parse_node(bytes, header, depth)->Ok_0.children.len(),
        parse_node(bytes, header, depth)->Ok_0.children[link].contents is Link,
    ensures
        ({
            let node = parse_node(bytes, header, depth)->Ok_0;
            let target = node.children[link].contents->Link_0 as int;
            &&& 0 <= target < link
            &&& !(node.children[target].contents is Link)
            &&& node.children[target].offset == node.children[link].offset
            &&& node.children[target].has_active_links
            &&& forall|j: int|
                0 <= j < target ==> node.children[j].contents is Link || node.children[j].offset
                    != node.children[link].offset
            &&& entry_data(node, link, source) == child_data(node.children[target], source)
            &&& entry_data(node, link, source) == entry_data(node, target, source)
        }),
{
    let table = parse_table(bytes, (header.base + header.size) as nat)->Ok_0;
    let count = table.names.len();
    let node = parse_node(bytes, header, depth)->Ok_0;
    lemma_table_count(bytes, (header.base + header.size) as nat);
    lemma_parsed_children(bytes, header.base, table, count, depth);
    lemma_first_target(table.offsets, table.links, link, 0);
    let target = first_target(table.offsets, table.links, link, 0)->0;
    assert(entry_as_parsed(bytes, header.base, table, depth, link, node.children[link]));
    assert(entry_as_parsed(bytes, header.base, table, depth, target, node.children[target]));
    assert forall|j: int| 0 <= j < target implies node.children[j].contents is Link
        || node.children[j].offset != node.children[link].offset by {
        assert(entry_as_parsed(bytes, header.base, table, depth, j, node.children[j]));
    }
}

/// A parsed table has as many names, offsets, sizes and flags as its count
/// word says, which fits 32 bits.
pub proof fn lemma_table_count(bytes: Seq<u8>, pos: nat)
    requires
        parse_table(bytes, pos) is Ok,
    ensures
        parse_table(bytes, pos)->Ok_0.names.len() <= u32::MAX,
        parse_table(bytes, pos)->Ok_0.offsets.len() == parse_table(bytes, pos)->Ok_0.names.len(),
        parse_table(bytes, pos)->Ok_0.sizes.len() == parse_table(bytes, pos)->Ok_0.names.len(),
        parse_table(bytes, pos)->Ok_0.links.len() == parse_table(bytes, pos)->Ok_0.names.len(),
{
    let count = vstd::bytes::spec_u32_from_le_bytes(crate::span::span(bytes, pos + 4, 4)) as nat;
    lemma_parse_names_len(bytes, pos + 13, count);
}

/// Parsing `count` names gives `count` names.
pub proof fn lemma_parse_names_len(bytes: Seq<u8>, pos: nat, count: nat)
    ensures
        crate::pakinterface::layout::parse_names(bytes, pos, count) matches Ok((names, _))
            ==> names.len() == count,
    decreases count,
{
    if count > 0 {
        lemma_parse_names_len(bytes, pos, (count - 1) as nat);
    }
}

/// What lies wholly inside the part of a stream that is kept is the same
/// in the stream cut short.
proof fn lemma_span_of_cut(bytes: Seq<u8>, keep: nat, pos: nat, count: nat)
    requires
        pos + count <= keep <= bytes.len(),
    ensures
        span(bytes.take(keep as int), pos, count) == span(bytes, pos, count),
{
    assert(span(bytes.take(keep as int), pos, count) =~= span(bytes, pos, count));
}

/// A name that parses in the whole stream parses alike in the stream cut
/// short where it ends inside it, and ends in end-of-stream otherwise.
proof fn lemma_cut_string(bytes: Seq<u8>, keep: nat, pos: nat)
    requires
        keep <= bytes.len(),
        parse_string(bytes, pos) is Ok,
    ensures
        parse_string(bytes, pos)->Ok_0.1 <= keep ==> parse_string(bytes.take(keep as int), pos)
            == parse_string(bytes, pos),
        parse_string(bytes, pos)->Ok_0.1 > keep ==> parse_string(bytes.take(keep as int), pos)
            == Err::<(Seq<char>, nat), PakError>(eof()),
{
    if pos + 4 <= keep {
        lemma_span_of_cut(bytes, keep, pos, 4);
        let count = spec_u32_from_le_bytes(span(bytes, pos, 4)) as nat;
        if pos + 4 + count <= keep {
            lemma_span_of_cut(bytes, keep, pos + 4, count);
        }
    }
}

/// Names that parse in the whole stream parse alike in the stream cut
/// short where they end inside it, and end in end-of-stream otherwise.
proof fn lemma_cut_names(bytes: Seq<u8>, keep: nat, pos: nat, count: nat)
    requires
        keep <= bytes.len(),
        parse_names(bytes, pos, count) is Ok,
    ensures
        parse_names(bytes, pos, count)->Ok_0.1 <= keep ==> parse_names(
            bytes.take(keep as int),
            pos,
            count,
        ) == parse_names(bytes, pos, count),
        (count > 0 && parse_names(bytes, pos, count)->Ok_0.1 > keep) ==> parse_names(
            bytes.take(keep as int),
            pos,
            count,
        ) == Err::<(Seq<Seq<char>>, nat), PakError>(eof()),
    decreases count,
{
    if count > 0 {
        let at = parse_names(bytes, pos, (count - 1) as nat)->Ok_0.1;
        lemma_cut_names(bytes, keep, pos, (count - 1) as nat);
        lemma_cut_string(bytes, keep, at);
        let end = parse_string(bytes, at)->Ok_0.1;
        assert(at <= end);
        if at > keep {
            if count - 1 == 0 {
                assert(at == pos);
                assert(parse_string(bytes.take(keep as int), pos) == Err::<
                    (Seq<char>, nat),
                    PakError,
                >(eof()));
            }
        }
    }
}

/// A delimiter that parses in the whole stream parses alike in the stream
/// cut short where it stands inside it, and ends in end-of-stream
/// otherwise.
proof fn lemma_cut_delimiter(bytes: Seq<u8>, keep: nat, pos: nat)
    requires
        keep <= bytes.len(),
        parse_delimiter(bytes, pos) is Ok,
    ensures
        pos + 1 <= keep ==> parse_delimiter(bytes.take(keep as int), pos) == parse_delimiter(
            bytes,
            pos,
        ),
        pos + 1 > keep ==> parse_delimiter(bytes.take(keep as int), pos) == Err::<nat, PakError>(
            eof(),
        ),
{
}

/// Offsets that parse in the whole stream parse alike in the stream cut
/// short where they end inside it, and end in end-of-stream otherwise.
proof fn lemma_cut_offsets(bytes: Seq<u8>, keep: nat, pos: nat, count: nat)
    requires
        keep <= bytes.len(),
        parse_offsets(bytes, pos, count) is Ok,
    ensures
        pos + 8 * count <= keep ==> parse_offsets(bytes.take(keep as int), pos, count)
            == parse_offsets(bytes, pos, count),
        (count > 0 && pos + 8 * count > keep) ==> parse_offsets(
            bytes.take(keep as int),
            pos,
            count,
        ) == Err::<Seq<u64>, PakError>(eof()),
{
    if pos + 8 * count <= keep {
        let cut = parse_offsets(bytes.take(keep as int), pos, count)->Ok_0;
        let whole = parse_offsets(bytes, pos, count)->Ok_0;
        assert forall|i: int| 0 <= i < count implies #[trigger] cut[i] == whole[i] by {
            lemma_span_of_cut(bytes, keep, (pos + 8 * i) as nat, 8);
        }
        assert(cut =~= whole);
    }
}

/// Words that parse in the whole stream parse alike in the stream cut
/// short where they end inside it, and end in end-of-stream otherwise.
proof fn lemma_cut_words(bytes: Seq<u8>, keep: nat, pos: nat, count: nat)
    requires
        keep <= bytes.len(),
        parse_words(bytes, pos, count) is Ok,
    ensures
        pos + 4 * count <= keep ==> parse_words(bytes.take(keep as int), pos, count)
            == parse_words(bytes, pos, count),
        (count > 0 && pos + 4 * count > keep) ==> parse_words(
            bytes.take(keep as int),
            pos,
            count,
        ) == Err::<Seq<u32>, PakError>(eof()),
{
    if pos + 4 * count <= keep {
        let cut = parse_words(bytes.take(keep as int), pos, count)->Ok_0;
        let whole = parse_words(bytes, pos, count)->Ok_0;
        assert forall|i: int| 0 <= i < count implies #[trigger] cut[i] == whole[i] by {
            lemma_span_of_cut(bytes, keep, (pos + 4 * i) as nat, 4);
        }
        assert(cut =~= whole);
    }
}

/// The arrays of a table that parse in the whole stream end in
/// end-of-stream in a stream cut short before their end.
proof fn lemma_cut_arrays(bytes: Seq<u8>, keep: nat, pos: nat, count: nat)
    requires
        keep <= bytes.len(),
        pos <= keep,
        parse_arrays(bytes, pos, count) is Ok,
        keep < parse_arrays(bytes, pos, count)->Ok_0.end,
    ensures
        parse_arrays(bytes.take(keep as int), pos, count) == Err::<TableView, PakError>(eof()),
{
    let short = bytes.take(keep as int);
    let after_names = parse_names(bytes, pos, count)->Ok_0.1;
    lemma_parse_names_advances(bytes, pos, count);
    lemma_cut_names(bytes, keep, pos, count);
    if count == 0 {
        assert(after_names == pos);
    }
    if after_names <= keep {
        lemma_cut_delimiter(bytes, keep, after_names);
        let offsets_at = after_names + 1;
        if offsets_at <= keep {
            lemma_cut_offsets(bytes, keep, offsets_at, count);
            let delimiter_at = offsets_at + 8 * count;
            if delimiter_at <= keep {
                lemma_cut_delimiter(bytes, keep, delimiter_at);
                let sizes_at = delimiter_at + 1;
                if sizes_at <= keep {
                    lemma_cut_words(bytes, keep, sizes_at, count);
                    let second_at = sizes_at + 4 * count;
                    if second_at <= keep {
                        lemma_cut_delimiter(bytes, keep, second_at);
                        let flags_at = second_at + 1;
                        if flags_at <= keep {
                            lemma_cut_words(bytes, keep, flags_at, count);
                        }
                    }
                }
            }
        }
    }
}

/// A truncated child table is an end-of-stream failure: where the table at
/// `pos` parses in a stream, it ends in end-of-stream, and in nothing
/// else, in the same stream cut short anywhere before the table's end.
pub proof fn lemma_truncated_table(bytes: Seq<u8>, keep: nat, pos: nat)
    requires
        parse_table(bytes, pos) is Ok,
        keep < parse_table(bytes, pos)->Ok_0.end,
        keep <= bytes.len(),
    ensures
        parse_table(bytes.take(keep as int), pos) == Err::<TableView, PakError>(eof()),
{
    let short = bytes.take(keep as int);
    if pos + 4 <= keep {
        lemma_span_of_cut(bytes, keep, pos, 4);
        if pos + 12 <= keep {
            lemma_span_of_cut(bytes, keep, pos + 4, 4);
            lemma_span_of_cut(bytes, keep, pos + 8, 4);
            lemma_cut_delimiter(bytes, keep, pos + 12);
            if pos + 13 <= keep {
                let count = spec_u32_from_le_bytes(span(bytes, pos + 4, 4)) as nat;
                lemma_cut_arrays(bytes, keep, pos + 13, count);
            }
        }
    }
}

} // verus!
