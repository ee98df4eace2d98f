//! Selective rewrite: what was written anew reads back as the changed tree.

use crate::error::PakError;
use crate::pakinterface::embedding::{
    embedded, lemma_embedded_contents, lemma_rebase_upto, rebase_contents, rebase_node, rebase_upto,
};
use crate::pakinterface::header::{
    header_bytes, header_len, header_refusal, lemma_header_bytes_len, parse_header,
    spec_is_node_class, HeaderView,
};
use crate::pakinterface::header_laws::{
    header_as_read, header_round_trips, lemma_header_symmetry, lemma_parse_meta_len,
};
use crate::pakinterface::image::{
    body_len, child_span, entry_offset, entry_size, head, head_len, image, is_clean,
    lemma_entries_refusal, lemma_head_len, lemma_image_len, lemma_names_bytes_len,
    lemma_payload_len, lemma_words_len, names_bytes, names_len, node_refusal, payload, payload_len,
    table_flags, table_offsets, table_sizes, words32_bytes, words64_bytes, written_len,
};
use crate::pakinterface::laws::{
    lemma_body_holds_payload, lemma_rewritten_entry, lemma_rewritten_link,
};
use crate::pakinterface::layout::{
    first_target, lemma_first_target, marked, parse_archive, parse_arrays, parse_children,
    parse_contents, parse_names, parse_node, parse_offsets, parse_table, parse_words, parsed_child,
    TableView, DELIMITER, MAX_DEPTH, TABLE_MARKER, TABLE_WORD,
};
use crate::pakinterface::layout_laws::{entry_as_parsed, lemma_parsed_children, lemma_table_count};
use crate::pakinterface::node::{ChildView, ContentsView, NodeModifiedState, NodeView};
use crate::pakinterface::state::{
    child_data, lemma_dirty_entry, lemma_refresh_upto, refresh, with_data,
};
use crate::span::{lemma_span_of_span, span};
use crate::util::{lemma_word_lengths, parse_string, string_bytes};
use vstd::bytes::{
    spec_u32_from_le_bytes, spec_u32_to_le_bytes, spec_u64_from_le_bytes, spec_u64_to_le_bytes,
};
use vstd::prelude::*;
use vstd::utf8::encode_utf8;

verus! {

proof fn lemma_word32(x: u32)
    ensures
        spec_u32_from_le_bytes(spec_u32_to_le_bytes(x)) == x,
        spec_u32_to_le_bytes(x).len() == 4,
{
    vstd::bytes::lemma_auto_spec_u32_to_from_le_bytes();
}

proof fn lemma_word64(x: u64)
    ensures
        spec_u64_from_le_bytes(spec_u64_to_le_bytes(x)) == x,
        spec_u64_to_le_bytes(x).len() == 8,
{
    vstd::bytes::lemma_auto_spec_u64_to_from_le_bytes();
}

/// The written form of a name parses back to the name.
proof fn lemma_string_symmetry(bytes: Seq<u8>, pos: nat, name: Seq<char>)
    requires
        encode_utf8(name).len() <= u32::MAX,
        pos + 4 + encode_utf8(name).len() <= bytes.len(),
        span(bytes, pos, 4 + encode_utf8(name).len()) == string_bytes(name),
    ensures
        parse_string(bytes, pos) == Ok::<(Seq<char>, nat), PakError>(
            (name, pos + 4 + encode_utf8(name).len()),
        ),
{
    let encoded = encode_utf8(name);
    let total = 4 + encoded.len();
    lemma_word32(encoded.len() as u32);
    lemma_span_of_span(bytes, pos, total, 0, 4);
    lemma_span_of_span(bytes, pos, total, 4, encoded.len());
    assert(string_bytes(name).subrange(0, 4) =~= spec_u32_to_le_bytes(encoded.len() as u32));
    assert(string_bytes(name).subrange(4, total as int) =~= encoded);
    vstd::utf8::encode_utf8_valid_utf8(name);
    vstd::utf8::encode_utf8_decode_utf8(name);
}

/// The names of the first `count` entries.
pub open spec fn names_of(children: Seq<ChildView>, count: nat) -> Seq<Seq<char>> {
    Seq::new(count, |i: int| children[i].name)
}

/// The written form of the names of entries parses back to the names.
proof fn lemma_names_symmetry(bytes: Seq<u8>, pos: nat, children: Seq<ChildView>, count: nat)
    requires
        count <= children.len(),
        forall|i: int| 0 <= i < count ==> encode_utf8((#[trigger] children[i]).name).len() <= u32::MAX,
        pos + names_len(children, count) <= bytes.len(),
        span(bytes, pos, names_len(children, count)) == names_bytes(children, count),
    ensures
        parse_names(bytes, pos, count) == Ok::<(Seq<Seq<char>>, nat), PakError>(
            (names_of(children, count), pos + names_len(children, count)),
        ),
    decreases count,
{
    if count > 0 {
        let shorter = (count - 1) as nat;
        let name = children[count - 1].name;
        let total = names_len(children, count);
        let before = names_len(children, shorter);
        lemma_names_bytes_len(children, shorter);
        lemma_names_bytes_len(children, count);
        lemma_span_of_span(bytes, pos, total, 0, before);
        lemma_span_of_span(bytes, pos, total, before, 4 + encode_utf8(name).len());
        assert(names_bytes(children, count).subrange(0, before as int) =~= names_bytes(
            children,
            shorter,
        ));
        assert(names_bytes(children, count).subrange(before as int, total as int) =~= string_bytes(
            name,
        ));
        lemma_names_symmetry(bytes, pos, children, shorter);
        lemma_string_symmetry(bytes, pos + before, name);
        assert(names_of(children, shorter).push(name) =~= names_of(children, count));
    } else {
        assert(names_of(children, 0) =~= Seq::<Seq<char>>::empty());
    }
}

/// The written form of 64-bit words parses back to the words.
proof fn lemma_words64_symmetry(bytes: Seq<u8>, pos: nat, values: Seq<u64>, count: nat)
    requires
        count <= values.len(),
        pos + 8 * count <= bytes.len(),
        span(bytes, pos, 8 * count) == words64_bytes(values, count),
    ensures
        parse_offsets(bytes, pos, count) == Ok::<Seq<u64>, PakError>(values.take(count as int)),
    decreases count,
{
    let parsed = parse_offsets(bytes, pos, count)->Ok_0;
    assert forall|i: int| 0 <= i < count implies #[trigger] parsed[i] == values[i] by {
        lemma_words64_at(bytes, pos, values, count, i);
    }
    assert(parsed =~= values.take(count as int));
}

/// Word `i` of the written form of 64-bit words is word `i`.
proof fn lemma_words64_at(bytes: Seq<u8>, pos: nat, values: Seq<u64>, count: nat, i: int)
    requires
        count <= values.len(),
        span(bytes, pos, 8 * count) == words64_bytes(values, count),
        0 <= i < count,
    ensures
        spec_u64_from_le_bytes(span(bytes, (pos + 8 * i) as nat, 8)) == values[i],
    decreases count,
{
    let shorter = (count - 1) as nat;
    lemma_words_len(values, Seq::empty(), shorter);
    lemma_words_len(values, Seq::empty(), count);
    lemma_word64(values[count - 1]);
    if i < count - 1 {
        lemma_span_of_span(bytes, pos, 8 * count, 0, 8 * shorter);
        assert(words64_bytes(values, count).subrange(0, (8 * shorter) as int) =~= words64_bytes(
            values,
            shorter,
        ));
        lemma_words64_at(bytes, pos, values, shorter, i);
    } else {
        lemma_span_of_span(bytes, pos, 8 * count, 8 * shorter, 8);
        assert(words64_bytes(values, count).subrange((8 * shorter) as int, (8 * count) as int)
            =~= spec_u64_to_le_bytes(values[count - 1]));
    }
}

/// Word `i` of the written form of 32-bit words is word `i`.
proof fn lemma_words32_at(bytes: Seq<u8>, pos: nat, values: Seq<u32>, count: nat, i: int)
    requires
        count <= values.len(),
        span(bytes, pos, 4 * count) == words32_bytes(values, count),
        0 <= i < count,
    ensures
        spec_u32_from_le_bytes(span(bytes, (pos + 4 * i) as nat, 4)) == values[i],
    decreases count,
{
    let shorter = (count - 1) as nat;
    lemma_words_len(Seq::empty(), values, shorter);
    lemma_words_len(Seq::empty(), values, count);
    lemma_word32(values[count - 1]);
    if i < count - 1 {
        lemma_span_of_span(bytes, pos, 4 * count, 0, 4 * shorter);
        assert(words32_bytes(values, count).subrange(0, (4 * shorter) as int) =~= words32_bytes(
            values,
            shorter,
        ));
        lemma_words32_at(bytes, pos, values, shorter, i);
    } else {
        lemma_span_of_span(bytes, pos, 4 * count, 4 * shorter, 4);
        assert(words32_bytes(values, count).subrange((4 * shorter) as int, (4 * count) as int)
            =~= spec_u32_to_le_bytes(values[count - 1]));
    }
}

/// The written form of 32-bit words parses back to the words.
proof fn lemma_words32_symmetry(bytes: Seq<u8>, pos: nat, values: Seq<u32>, count: nat)
    requires
        count <= values.len(),
        pos + 4 * count <= bytes.len(),
        span(bytes, pos, 4 * count) == words32_bytes(values, count),
    ensures
        parse_words(bytes, pos, count) == Ok::<Seq<u32>, PakError>(values.take(count as int)),
{
    let parsed = parse_words(bytes, pos, count)->Ok_0;
    assert forall|i: int| 0 <= i < count implies #[trigger] parsed[i] == values[i] by {
        lemma_words32_at(bytes, pos, values, count, i);
    }
    assert(parsed =~= values.take(count as int));
}

/// The table that the written head of a container holds: the names of its
/// entries, the offsets and sizes that writing gave them, and a link flag
/// for each link. It ends where the head ends.
pub open spec fn written_table(tree: NodeView, base: nat) -> TableView {
    TableView {
        names: names_of(tree.children, tree.children.len()),
        offsets: table_offsets(tree),
        sizes: table_sizes(tree),
        links: Seq::new(tree.children.len(), |i: int| tree.children[i].contents is Link),
        end: base + head_len(tree),
    }
}

/// Where the parts of a written head stand in it.
proof fn lemma_head_parts(tree: NodeView)
    requires
        header_refusal(tree.header) is None,
    ensures
        ({
            let whole = head(tree);
            let count = tree.children.len() as int;
            let at = header_len(tree.header) as int;
            let names_at = at + 13;
            let names_end = names_at + names_len(tree.children, count as nat);
            let offsets_at = names_end + 1;
            let sizes_at = offsets_at + 8 * count + 1;
            let flags_at = sizes_at + 4 * count + 1;
            &&& whole.len() == head_len(tree)
            &&& flags_at + 4 * count == head_len(tree)
            &&& whole.subrange(0, at) == header_bytes(tree.header)
            &&& whole.subrange(at, at + 4) == spec_u32_to_le_bytes(TABLE_MARKER)
            &&& whole.subrange(at + 4, at + 8) == spec_u32_to_le_bytes(count as u32)
            &&& whole.subrange(at + 8, at + 12) == spec_u32_to_le_bytes(TABLE_WORD)
            &&& whole[at + 12] == DELIMITER
            &&& whole.subrange(names_at, names_end) == names_bytes(tree.children, count as nat)
            &&& whole[names_end] == DELIMITER
            &&& whole.subrange(offsets_at, offsets_at + 8 * count) == words64_bytes(
                table_offsets(tree),
                count as nat,
            )
            &&& whole[offsets_at + 8 * count] == DELIMITER
            &&& whole.subrange(sizes_at, sizes_at + 4 * count) == words32_bytes(
                table_sizes(tree),
                count as nat,
            )
            &&& whole[sizes_at + 4 * count] == DELIMITER
            &&& whole.subrange(flags_at, flags_at + 4 * count) == words32_bytes(
                table_flags(tree.children),
                count as nat,
            )
        }),
{
    let whole = head(tree);
    let count = tree.children.len() as int;
    let at = header_len(tree.header) as int;
    let names_at = at + 13;
    let names_end = names_at + names_len(tree.children, count as nat);
    let offsets_at = names_end + 1;
    let sizes_at = offsets_at + 8 * count + 1;
    let flags_at = sizes_at + 4 * count + 1;
    lemma_head_len(tree);
    lemma_header_bytes_len(tree.header);
    lemma_names_bytes_len(tree.children, count as nat);
    lemma_words_len(table_offsets(tree), table_sizes(tree), count as nat);
    lemma_words_len(table_offsets(tree), table_flags(tree.children), count as nat);
    lemma_word_lengths(TABLE_MARKER, 0, 0);
    lemma_word_lengths(count as u32, 0, 0);
    lemma_word_lengths(TABLE_WORD, 0, 0);
    assert(whole.subrange(0, at) =~= header_bytes(tree.header));
    assert(whole.subrange(at, at + 4) =~= spec_u32_to_le_bytes(TABLE_MARKER));
    assert(whole.subrange(at + 4, at + 8) =~= spec_u32_to_le_bytes(count as u32));
    assert(whole.subrange(at + 8, at + 12) =~= spec_u32_to_le_bytes(TABLE_WORD));
    assert(whole.subrange(names_at, names_end) =~= names_bytes(tree.children, count as nat));
    assert(whole.subrange(offsets_at, offsets_at + 8 * count) =~= words64_bytes(
        table_offsets(tree),
        count as nat,
    ));
    assert(whole.subrange(sizes_at, sizes_at + 4 * count) =~= words32_bytes(
        table_sizes(tree),
        count as nat,
    ));
    assert(whole.subrange(flags_at, flags_at + 4 * count) =~= words32_bytes(
        table_flags(tree.children),
        count as nat,
    ));
}

/// The arrays of a written table parse back to what was written.
proof fn lemma_arrays_symmetry(tree: NodeView, bytes: Seq<u8>, base: nat)
    requires
        header_refusal(tree.header) is None,
        tree.children.len() <= u32::MAX,
        forall|i: int|
            0 <= i < tree.children.len() ==> encode_utf8((#[trigger] tree.children[i]).name).len()
                <= u32::MAX,
        base + head_len(tree) <= bytes.len(),
        span(bytes, base, head_len(tree)) == head(tree),
    ensures
        parse_arrays(bytes, base + header_len(tree.header) + 13, tree.children.len()) == Ok::<
            TableView,
            PakError,
        >(written_table(tree, base)),
{
    let whole = head(tree);
    let total = head_len(tree);
    let count = tree.children.len();
    let at = header_len(tree.header);
    let names_at = at + 13;
    let names_total = names_len(tree.children, count);
    let names_end = names_at + names_total;
    let offsets_at = names_end + 1;
    let sizes_at = offsets_at + 8 * count + 1;
    let flags_at = sizes_at + 4 * count + 1;
    lemma_head_parts(tree);
    lemma_span_of_span(bytes, base, total, names_at, names_total);
    lemma_span_of_span(bytes, base, total, offsets_at, 8 * count);
    lemma_span_of_span(bytes, base, total, sizes_at, 4 * count);
    lemma_span_of_span(bytes, base, total, flags_at, 4 * count);
    lemma_names_symmetry(bytes, base + names_at, tree.children, count);
    assert(bytes[(base + names_end) as int] == span(bytes, base, total)[names_end as int]);
    lemma_words64_symmetry(bytes, base + offsets_at, table_offsets(tree), count);
    assert(table_offsets(tree).take(count as int) =~= table_offsets(tree));
    assert(bytes[(base + offsets_at + 8 * count) as int] == span(bytes, base, total)[(offsets_at
        + 8 * count) as int]);
    lemma_words32_symmetry(bytes, base + sizes_at, table_sizes(tree), count);
    assert(table_sizes(tree).take(count as int) =~= table_sizes(tree));
    assert(bytes[(base + sizes_at + 4 * count) as int] == span(bytes, base, total)[(sizes_at + 4
        * count) as int]);
    lemma_words32_symmetry(bytes, base + flags_at, table_flags(tree.children), count);
    let flags = table_flags(tree.children).take(count as int);
    assert(Seq::new(count, |i: int| flags[i] > 0) =~= written_table(tree, base).links);
}

/// Table symmetry: the written head of a container parses back to the
/// table that was written.
pub proof fn lemma_table_symmetry(tree: NodeView, bytes: Seq<u8>, base: nat)
    requires
        header_refusal(tree.header) is None,
        tree.children.len() <= u32::MAX,
        forall|i: int|
            0 <= i < tree.children.len() ==> encode_utf8((#[trigger] tree.children[i]).name).len()
                <= u32::MAX,
        base + head_len(tree) <= bytes.len(),
        span(bytes, base, head_len(tree)) == head(tree),
    ensures
        parse_table(bytes, base + header_len(tree.header)) == Ok::<TableView, PakError>(
            written_table(tree, base),
        ),
{
    let total = head_len(tree);
    let count = tree.children.len();
    let at = header_len(tree.header);
    lemma_head_parts(tree);
    lemma_arrays_symmetry(tree, bytes, base);
    lemma_span_of_span(bytes, base, total, at, 4);
    lemma_span_of_span(bytes, base, total, at + 4, 4);
    lemma_span_of_span(bytes, base, total, at + 8, 4);
    lemma_word32(TABLE_MARKER);
    lemma_word32(count as u32);
    lemma_word32(TABLE_WORD);
    assert(bytes[(base + at + 12) as int] == span(bytes, base, total)[(at + 12) as int]);
}

/// What was written from the start of entry `i` on.
pub open spec fn tail(tree: NodeView, source: Seq<u8>, i: int) -> Seq<u8> {
    image(tree, source).skip(entry_offset(tree, i) as int)
}

/// What was written from the start of a real entry on, taken on its own,
/// starts with an entry: what `open` would find at its start is raw data,
/// a resource or a container.
pub open spec fn stands_alone(tree: NodeView, source: Seq<u8>, i: int, depth: nat) -> bool {
    parse_contents(tail(tree, source, i), 0, 0, entry_size(tree, i), depth) is Ok
}

/// What stands at the start of a real entry in what was written.
pub open spec fn alone(tree: NodeView, source: Seq<u8>, i: int, depth: nat) -> ContentsView {
    parse_contents(tail(tree, source, i), 0, 0, entry_size(tree, i), depth)->Ok_0
}

/// A container that is written anew and can be read again: it is
/// accepted, each of its real entries adds at least one byte, and what was
/// written from the start of each real entry on starts with an entry.
pub open spec fn rewritable(tree: NodeView, source: Seq<u8>, depth: nat) -> bool {
    &&& !is_clean(tree)
    &&& node_refusal(tree) is None
    &&& forall|i: int|
        0 <= i < tree.children.len() && !(tree.children[i].contents is Link) ==> {
            &&& #[trigger] stands_alone(tree, source, i, depth)
            &&& payload_len(tree.children[i]) >= 1
        }
}

/// One of the entries after `i` and before `count` is a link to `i`.
pub open spec fn linked_before(tree: NodeView, i: int, count: nat) -> bool {
    exists|j: int|
        i < j < count && #[trigger] tree.children[j].contents == ContentsView::Link(i as usize)
}

/// Entry `i` as it is found when the first `count` entries of what was
/// written are read again: under its name, at the offset and with the
/// size that writing gave it, counted from the start of the image; a link
/// as the link it was, a real entry holding what its bytes hold on their
/// own, found where they now stand; marked where a link before `count`
/// names it.
pub open spec fn reread_child(
    tree: NodeView,
    source: Seq<u8>,
    i: int,
    count: nat,
    depth: nat,
) -> ChildView {
    ChildView {
        name: tree.children[i].name,
        offset: entry_offset(tree, i),
        size: entry_size(tree, i),
        contents: match tree.children[i].contents {
            ContentsView::Link(target) => ContentsView::Link(target),
            _ => rebase_contents(alone(tree, source, i, depth), entry_offset(tree, i) as nat),
        },
        new_data: None,
        node_base: 0,
        meta_data_dirty: false,
        has_active_links: linked_before(tree, i, count),
        is_new_entry: false,
    }
}

/// The first `count` entries as they are found when what was written is
/// read again.
pub open spec fn reread_children(
    tree: NodeView,
    source: Seq<u8>,
    count: nat,
    depth: nat,
) -> Seq<ChildView> {
    Seq::new(count, |i: int| reread_child(tree, source, i, count, depth))
}

/// What stands at an entry's offset depends only on where that is.
proof fn lemma_contents_place(
    bytes: Seq<u8>,
    node_base: u64,
    offset: u64,
    other_base: u64,
    other_offset: u64,
    size: u32,
    depth: nat,
)
    requires
        node_base + offset == other_base + other_offset,
    ensures
        parse_contents(bytes, node_base, offset, size, depth) == parse_contents(
            bytes,
            other_base,
            other_offset,
            size,
            depth,
        ),
{
}

/// In a container that can be read again, the bytes of a real entry stand
/// in the image where the table says, and the bytes of every later entry
/// stand behind them.
proof fn lemma_written_place(tree: NodeView, source: Seq<u8>, depth: nat, i: int)
    requires
        rewritable(tree, source, depth),
        0 <= i < tree.children.len(),
        !(tree.children[i].contents is Link),
    ensures
        embedded(tail(tree, source, i), image(tree, source), entry_offset(tree, i) as nat),
        payload(tree.children[i], source).len() == payload_len(tree.children[i]),
        entry_offset(tree, i) == head_len(tree) + body_len(tree.children, i as nat),
        forall|j: int|
            i < j <= tree.children.len() ==> body_len(tree.children, i as nat) + 1 <= #[trigger] body_len(
                tree.children,
                j as nat,
            ),
{
    let bytes = image(tree, source);
    lemma_rewritten_entry(tree, source, i);
    lemma_image_len(tree, source);
    lemma_entries_refusal(tree.children, tree.children.len(), false, i);
    lemma_payload_len(tree.children, i, source);
    assert(stands_alone(tree, source, i, depth));
    let place = entry_offset(tree, i) as nat;
    assert(span(bytes, place, tail(tree, source, i).len()) =~= tail(tree, source, i));
    assert forall|j: int| i < j <= tree.children.len() implies body_len(
        tree.children,
        i as nat,
    ) + 1 <= #[trigger] body_len(tree.children, j as nat) by {
        lemma_entries_refusal(tree.children, tree.children.len(), false, j - 1);
        lemma_body_holds_payload(
            tree.children,
            source,
            j as nat,
            i,
        );
    }
}

/// In a container that can be read again, a written link is resolved to
/// the entry it named: no other real entry before it has its offset.
proof fn lemma_written_target(tree: NodeView, source: Seq<u8>, depth: nat, i: int)
    requires
        rewritable(tree, source, depth),
        0 <= i < tree.children.len(),
        tree.children[i].contents is Link,
    ensures
        first_target(
            written_table(tree, 0).offsets,
            written_table(tree, 0).links,
            i,
            0,
        ) == Some(tree.children[i].contents->Link_0 as int),
        0 <= tree.children[i].contents->Link_0 < i,
        !(tree.children[tree.children[i].contents->Link_0 as int].contents is Link),
{
    let table = written_table(tree, 0);
    let target = tree.children[i].contents->Link_0 as int;
    lemma_rewritten_link(tree, i);
    lemma_first_target(table.offsets, table.links, i, 0);
    lemma_written_place(tree, source, depth, target);
    assert(table.offsets[target] == table.offsets[i]);
    assert(!table.links[target]);
    let found = first_target(table.offsets, table.links, i, 0);
    assert(found is Some);
    let first = found->0;
    if first != target {
        assert(first < target);
        lemma_written_place(tree, source, depth, first);
        assert(table.offsets[first] == entry_offset(tree, first));
        assert(body_len(tree.children, first as nat) + 1 <= body_len(
            tree.children,
            target as nat,
        ));
    }
}

/// The entries of a container that can be read again are found again
/// when its image is read.
proof fn lemma_rewritten_children(tree: NodeView, source: Seq<u8>, count: nat, depth: nat)
    requires
        rewritable(tree, source, depth),
        count <= tree.children.len(),
    ensures
        parse_children(image(tree, source), 0, written_table(tree, 0), count, depth) == Ok::<
            Seq<ChildView>,
            PakError,
        >(reread_children(tree, source, count, depth)),
    decreases count,
{
    let bytes = image(tree, source);
    let table = written_table(tree, 0);
    if count > 0 {
        let i = count - 1;
        let shorter = (count - 1) as nat;
        lemma_rewritten_children(tree, source, shorter, depth);
        let before = reread_children(tree, source, shorter, depth);
        let after = reread_children(tree, source, count, depth);
        let entry = tree.children[i];
        assert(table.links[i] == (entry.contents is Link));
        if entry.contents is Link {
            lemma_written_target(tree, source, depth, i);
            let target = entry.contents->Link_0 as int;
            let link = parsed_child(table, i, 0, ContentsView::Link(target as usize));
            let built = before.update(target, marked(before[target])).push(link);
            assert(built.len() == after.len());
            assert forall|k: int| 0 <= k < count implies built[k] == after[k] by {
                if k == i {
                    assert(!linked_before(tree, i, count));
                } else if k == target {
                    assert(tree.children[i].contents == ContentsView::Link(target as usize));
                    assert(linked_before(tree, target, count));
                } else {
                    if linked_before(tree, k, count) {
                        let j = choose|j: int|
                            k < j < count && #[trigger] tree.children[j].contents
                                == ContentsView::Link(k as usize);
                        assert(j != i);
                        assert(linked_before(tree, k, shorter));
                    }
                    if linked_before(tree, k, shorter) {
                        assert(linked_before(tree, k, count));
                    }
                }
            }
            assert(built =~= after);
        } else {
            lemma_written_place(tree, source, depth, i);
            let place = entry_offset(tree, i);
            assert(stands_alone(tree, source, i, depth));
            lemma_embedded_contents(
                tail(tree, source, i),
                bytes,
                place as nat,
                0,
                0,
                entry_size(tree, i),
                depth,
            );
            lemma_contents_place(bytes, place, 0, 0, place, entry_size(tree, i), depth);
            let contents = rebase_contents(alone(tree, source, i, depth), place as nat);
            let built = before.push(parsed_child(table, i, 0, contents));
            assert(built.len() == after.len());
            assert forall|k: int| 0 <= k < count implies built[k] == after[k] by {
                if k == i {
                    assert(!linked_before(tree, i, count));
                } else {
                    if linked_before(tree, k, count) {
                        let j = choose|j: int|
                            k < j < count && #[trigger] tree.children[j].contents
                                == ContentsView::Link(k as usize);
                        assert(j != i);
                        assert(linked_before(tree, k, shorter));
                    }
                    if linked_before(tree, k, shorter) {
                        assert(linked_before(tree, k, count));
                    }
                }
            }
            assert(built =~= after);
        }
    } else {
        assert(reread_children(tree, source, 0, depth) =~= Seq::<ChildView>::empty());
    }
}

/// The tree that is found when the image of a container that can be read
/// again is read: the header as it reads back, the entries as they are
/// found again, and the data behind the head.
pub open spec fn reread(tree: NodeView, source: Seq<u8>, depth: nat) -> NodeView {
    NodeView {
        header: header_as_read(tree.header, 0),
        children: reread_children(tree, source, tree.children.len(), depth),
        state: NodeModifiedState::Clean,
        data_offset: head_len(tree) as u64,
        header_len: head_len(tree) as u64,
        data_len: 0,
    }
}

/// The head of a written container, found at the start of its image,
/// parses back to its table.
proof fn lemma_rewritten_table(tree: NodeView, source: Seq<u8>)
    requires
        node_refusal(tree) is None,
    ensures
        parse_table(image(tree, source), header_len(tree.header)) == Ok::<TableView, PakError>(
            written_table(tree, 0),
        ),
        span(image(tree, source), 0, header_len(tree.header)) == header_bytes(tree.header),
        head_len(tree) <= written_len(tree),
        image(tree, source).len() == written_len(tree),
        written_len(tree) <= u64::MAX,
{
    let bytes = image(tree, source);
    lemma_head_len(tree);
    lemma_head_parts(tree);
    lemma_image_len(tree, source);
    assert(span(bytes, 0, head_len(tree)) =~= head(tree));
    lemma_span_of_span(bytes, 0, head_len(tree), 0, header_len(tree.header));
    assert forall|i: int| 0 <= i < tree.children.len() implies encode_utf8(
        (#[trigger] tree.children[i]).name,
    ).len() <= u32::MAX by {
        lemma_entries_refusal(tree.children, tree.children.len(), is_clean(tree), i);
    }
    lemma_table_symmetry(tree, bytes, 0);
}

/// Selective rewrite, one container: the image of a container that can be
/// read again parses back to a container with the same entries under the
/// same names, each at the offset and with the size that writing gave it.
/// A link is the link it was. A real entry holds what its bytes hold on
/// their own: for an entry that was copied, what it held in the source;
/// for a leaf whose bytes were replaced, the replacement.
pub proof fn lemma_rewritten_node(tree: NodeView, source: Seq<u8>, depth: nat)
    requires
        rewritable(tree, source, depth),
        header_round_trips(tree.header),
    ensures
        parse_header(image(tree, source), 0) == Ok::<Option<HeaderView>, PakError>(
            Some(header_as_read(tree.header, 0)),
        ),
        parse_node(image(tree, source), header_as_read(tree.header, 0), depth) == Ok::<
            NodeView,
            PakError,
        >(reread(tree, source, depth)),
{
    let bytes = image(tree, source);
    lemma_rewritten_table(tree, source);
    lemma_header_symmetry(tree.header, bytes, 0);
    lemma_header_bytes_len(tree.header);
    lemma_rewritten_children(tree, source, tree.children.len(), depth);
    let header = header_as_read(tree.header, 0);
    assert(header.base == 0 && header.size == header_len(tree.header));
}

/// Reading a leaf's bytes from the new archive gives the bytes the leaf
/// added when it was written: for raw data the replacement where one was
/// set, and its span of the source otherwise.
pub proof fn lemma_rewritten_leaf(tree: NodeView, source: Seq<u8>, depth: nat, i: int)
    requires
        rewritable(tree, source, depth),
        0 <= i < tree.children.len(),
        tree.children[i].contents is Data,
        alone(tree, source, i, depth) is Data,
        tree.children[i].size == payload_len(tree.children[i]),
    ensures
        reread(tree, source, depth).children[i].contents is Data,
        reread(tree, source, depth).children[i].name == tree.children[i].name,
        reread(tree, source, depth).children[i].size == tree.children[i].size,
        child_data(reread(tree, source, depth).children[i], Some(image(tree, source))) == Ok::<
            Seq<u8>,
            PakError,
        >(payload(tree.children[i], source)),
{
    lemma_rewritten_entry(tree, source, i);
    lemma_image_len(tree, source);
}

/// What an entry holds does not move when it is moved by nothing.
proof fn lemma_rebase_by_nothing(contents: ContentsView)
    ensures
        rebase_contents(contents, 0) == contents,
    decreases contents,
{
    match contents {
        ContentsView::Node(node) => {
            lemma_rebase_node_by_nothing(node);
        },
        _ => {},
    }
}

proof fn lemma_rebase_node_by_nothing(node: NodeView)
    ensures
        rebase_node(node, 0) == node,
    decreases node,
{
    let moved = rebase_upto(node.children, node.children.len(), 0);
    lemma_rebase_upto(node.children, node.children.len(), 0);
    assert forall|i: int| 0 <= i < node.children.len() implies moved[i] == node.children[i] by {
        lemma_rebase_by_nothing(node.children[i].contents);
    }
    assert(moved =~= node.children);
}

/// Bytes that hold an entry on their own hold the same entry where they
/// stand in a stream.
proof fn lemma_held_in_place(
    bytes: Seq<u8>,
    stream: Seq<u8>,
    node_base: u64,
    offset: u64,
    size: u32,
    depth: nat,
)
    requires
        embedded(bytes, stream, (node_base + offset) as nat),
        parse_contents(bytes, 0, 0, size, depth) is Ok,
    ensures
        parse_contents(stream, node_base, offset, size, depth) == Ok::<ContentsView, PakError>(
            rebase_contents(
                parse_contents(bytes, 0, 0, size, depth)->Ok_0,
                (node_base + offset) as nat,
            ),
        ),
{
    let place = (node_base + offset) as nat;
    lemma_embedded_contents(bytes, stream, place, 0, 0, size, depth);
    lemma_contents_place(stream, place as u64, 0, node_base, offset, size, depth);
}

/// What the bytes that an entry adds hold on their own is what stands at
/// the start of the entry in what was written.
proof fn lemma_alone_is_held(tree: NodeView, source: Seq<u8>, depth: nat, i: int)
    requires
        !is_clean(tree),
        node_refusal(tree) is None,
        0 <= i < tree.children.len(),
        !(tree.children[i].contents is Link),
        parse_contents(payload(tree.children[i], source), 0, 0, entry_size(tree, i), depth) is Ok,
    ensures
        stands_alone(tree, source, i, depth),
        alone(tree, source, i, depth) == parse_contents(
            payload(tree.children[i], source),
            0,
            0,
            entry_size(tree, i),
            depth,
        )->Ok_0,
{
    let bytes = payload(tree.children[i], source);
    let rest = tail(tree, source, i);
    lemma_rewritten_entry(tree, source, i);
    lemma_image_len(tree, source);
    lemma_entries_refusal(tree.children, tree.children.len(), false, i);
    lemma_payload_len(tree.children, i, source);
    assert(span(rest, 0, bytes.len()) =~= bytes);
    assert(embedded(bytes, rest, 0));
    lemma_held_in_place(bytes, rest, 0, 0, entry_size(tree, i), depth);
    lemma_rebase_by_nothing(parse_contents(bytes, 0, 0, entry_size(tree, i), depth)->Ok_0);
}

/// An entry that is copied when its container is written anew, and whose
/// span of the source holds an entry on its own, is found in the new
/// archive as it was in the old: in both it is what its span holds on its
/// own, found where the span stands.
pub proof fn lemma_copied_entry(tree: NodeView, source: Seq<u8>, depth: nat, i: int)
    requires
        rewritable(tree, source, depth),
        0 <= i < tree.children.len(),
        !(tree.children[i].contents is Link),
        payload(tree.children[i], source) == child_span(
            tree.children[i],
            source,
        ),
        tree.children[i].node_base + tree.children[i].offset + tree.children[i].size
            <= source.len(),
        source.len() <= u64::MAX,
        entry_size(tree, i) == tree.children[i].size,
        parse_contents(payload(tree.children[i], source), 0, 0, tree.children[i].size, depth)
            is Ok,
    ensures
        parse_contents(
            source,
            tree.children[i].node_base,
            tree.children[i].offset,
            tree.children[i].size,
            depth,
        ) == Ok::<ContentsView, PakError>(
            rebase_contents(
                parse_contents(
                    payload(tree.children[i], source),
                    0,
                    0,
                    tree.children[i].size,
                    depth,
                )->Ok_0,
                (tree.children[i].node_base + tree.children[i].offset) as nat,
            ),
        ),
        reread(tree, source, depth).children[i].contents == rebase_contents(
            parse_contents(
                payload(tree.children[i], source),
                0,
                0,
                tree.children[i].size,
                depth,
            )->Ok_0,
            entry_offset(tree, i) as nat,
        ),
{
    let entry = tree.children[i];
    let bytes = payload(entry, source);
    assert(embedded(bytes, source, (entry.node_base + entry.offset) as nat));
    lemma_held_in_place(bytes, source, entry.node_base, entry.offset, entry.size, depth);
    lemma_alone_is_held(tree, source, depth, i);
}

/// The header of a container that is accepted and carries no metadata
/// reads back as written.
proof fn lemma_container_header_reads_back(header: HeaderView)
    requires
        header_refusal(header) is None,
        spec_is_node_class(header.class),
        header.meta_data.len() == 0,
    ensures
        header_round_trips(header),
        header_len(header) == 0x40,
{
    reveal_strlit("pak");
    reveal_strlit("ssl_block");
    reveal_strlit("cache_block");
    assert(header.meta_data =~= Seq::empty());
}

/// Selective rewrite, the whole archive: where the root is a container
/// that is written anew and can be read again, what `save` writes opens
/// again as an archive with the same entries under the same names, each
/// holding what its bytes hold on their own (see `lemma_rewritten_node`,
/// `lemma_rewritten_leaf` and `lemma_copied_entry`), and the root's data
/// runs from the end of its table to the end of what was written.
pub proof fn lemma_rewritten_archive(tree: NodeView, source: Seq<u8>)
    requires
        rewritable(tree, source, MAX_DEPTH as nat),
        spec_is_node_class(tree.header.class),
        tree.header.meta_data.len() == 0,
    ensures
        parse_archive(image(tree, source)) == Ok::<NodeView, PakError>(
            NodeView {
                data_len: (written_len(tree) - head_len(tree)) as u64,
                ..reread(tree, source, MAX_DEPTH as nat)
            },
        ),
{
    let depth = MAX_DEPTH as nat;
    lemma_container_header_reads_back(tree.header);
    lemma_rewritten_node(tree, source, depth);
    lemma_rewritten_table(tree, source);
}


/// An archive after the bytes of its root entry `k` were replaced by
/// `data`, with the states set anew: the tree that `save` then writes.
pub open spec fn after_set_data(root: NodeView, k: int, data: Seq<u8>) -> NodeView {
    refresh(
        NodeView {
            children: root.children.update(
                k,
                with_data(root.children[k], data),
            ),
            ..root
        },
    )
}

/// The tree that `save` writes after the bytes of the raw root entry `k`
/// of an archive that was just opened were replaced: the root is written
/// anew, its header is that of a container without metadata, entry `k`
/// holds the replacement and has its length as size, and every other raw
/// entry is as it was opened.
proof fn lemma_after_set_data(source: Seq<u8>, k: int, data: Seq<u8>)
    requires
        parse_archive(source) is Ok,
        0 <= k < parse_archive(source)->Ok_0.children.len(),
        parse_archive(source)->Ok_0.children[k].contents is Data,
        data.len() <= u32::MAX,
    ensures
        ({
            let root = parse_archive(source)->Ok_0;
            let tree = after_set_data(root, k, data);
            &&& !is_clean(tree)
            &&& spec_is_node_class(tree.header.class)
            &&& tree.header.meta_data.len() == 0
            &&& tree.children.len() == root.children.len()
            &&& tree.children[k] == with_data(root.children[k], data)
            &&& forall|i: int|
                0 <= i < tree.children.len() && i != k && root.children[i].contents is Data
                    ==> #[trigger] tree.children[i] == root.children[i]
            &&& forall|i: int|
                0 <= i < tree.children.len() ==> (#[trigger] tree.children[i]).name
                    == root.children[i].name
            &&& forall|i: int|
                0 <= i < root.children.len() ==> (#[trigger] root.children[i]).new_data is None
        }),
{
    let root = parse_archive(source)->Ok_0;
    let changed = NodeView {
        children: root.children.update(
            k,
            with_data(root.children[k], data),
        ),
        ..root
    };
    lemma_dirty_entry(changed.children, changed.children.len(), k);
    lemma_refresh_upto(changed.children, changed.children.len());
    let header = parse_header(source, 0)->Ok_0->0;
    assert(header.meta_data.len() == 0) by {
        lemma_parse_meta_len(source, 0x40, 0);
    }
    let table = parse_table(source, 0x40)->Ok_0;
    lemma_table_count(source, 0x40);
    lemma_parsed_children(
        source,
        0,
        table,
        table.names.len(),
        MAX_DEPTH as nat,
    );
    let parsed = parse_node(source, header, MAX_DEPTH as nat)->Ok_0;
    assert(root.children == parsed.children);
    assert forall|i: int| 0 <= i < root.children.len() implies (#[trigger] root.children[i]).new_data
        is None by {
        assert(entry_as_parsed(
            source,
            0,
            table,
            MAX_DEPTH as nat,
            i,
            parsed.children[i],
        ));
    }
}

/// Selective rewrite: an archive is opened, the bytes of one raw entry of
/// its root are replaced, and it is saved. Where what was written can be
/// read again (see `rewritable`) and every raw entry is taken for raw data
/// again where it now stands, the new archive opens with the same entries
/// under the same names; reading the changed entry gives the replacement,
/// and its size is the replacement's length; reading any other raw entry
/// gives the bytes it had in the old archive, and its size is as it was.
pub proof fn lemma_selective_rewrite(source: Seq<u8>, k: int, data: Seq<u8>)
    requires
        parse_archive(source) is Ok,
        0 <= k < parse_archive(source)->Ok_0.children.len(),
        parse_archive(source)->Ok_0.children[k].contents is Data,
        data.len() <= u32::MAX,
        rewritable(
            after_set_data(parse_archive(source)->Ok_0, k, data),
            source,
            MAX_DEPTH as nat,
        ),
        forall|i: int|
            0 <= i < parse_archive(source)->Ok_0.children.len()
                && parse_archive(source)->Ok_0.children[i].contents
                is Data ==> #[trigger] alone(
                after_set_data(parse_archive(source)->Ok_0, k, data),
                source,
                i,
                MAX_DEPTH as nat,
            ) is Data,
    ensures
        ({
            let root = parse_archive(source)->Ok_0;
            let tree = after_set_data(root, k, data);
            let written = image(tree, source);
            let again = parse_archive(written);
            &&& again is Ok
            &&& again->Ok_0.children.len() == root.children.len()
            &&& forall|i: int|
                0 <= i < root.children.len() ==> (#[trigger] again->Ok_0.children[i]).name
                    == root.children[i].name
            &&& again->Ok_0.children[k].size == data.len()
            &&& child_data(again->Ok_0.children[k], Some(written)) == Ok::<Seq<u8>, PakError>(data)
            &&& forall|i: int|
                0 <= i < root.children.len() && i != k && root.children[i].contents is Data ==> {
                    &&& (#[trigger] again->Ok_0.children[i]).size == root.children[i].size
                    &&& again->Ok_0.children[i].contents is Data
                    &&& child_data(again->Ok_0.children[i], Some(written)) == Ok::<
                        Seq<u8>,
                        PakError,
                    >(child_span(root.children[i], source))
                }
        }),
{
    let depth = MAX_DEPTH as nat;
    let root = parse_archive(source)->Ok_0;
    let tree = after_set_data(root, k, data);
    let written = image(tree, source);
    lemma_after_set_data(source, k, data);
    lemma_rewritten_archive(tree, source);
    let again = parse_archive(written)->Ok_0;
    assert(again.children == reread(tree, source, depth).children);
    lemma_rewritten_leaf(tree, source, depth, k);
    assert forall|i: int|
        0 <= i < root.children.len() && i != k && root.children[i].contents is Data implies {
        &&& (#[trigger] again.children[i]).size == root.children[i].size
        &&& again.children[i].contents is Data
        &&& child_data(again.children[i], Some(written)) == Ok::<Seq<u8>, PakError>(
            child_span(root.children[i], source),
        )
    } by {
        assert(tree.children[i] == root.children[i]);
        lemma_rewritten_leaf(tree, source, depth, i);
    }
}


/// A container that is written anew, with every container below it that
/// is written anew, can be read again: each such container is accepted and
/// has the header of a container without metadata; each of its real
/// entries adds at least one byte; and what was written from the start of
/// each entry that is not itself a container written anew starts with an
/// entry. Containers may be nested `depth` levels below this one.
pub open spec fn rewritable_below(tree: NodeView, source: Seq<u8>, depth: nat) -> bool
    decreases tree,
{
    &&& !is_clean(tree)
    &&& node_refusal(tree) is None
    &&& spec_is_node_class(tree.header.class)
    &&& tree.header.meta_data.len() == 0
    &&& entries_rewritable(tree, source, depth, tree.children.len())
}

/// The first `count` entries of a container are as `rewritable_below`
/// asks.
pub open spec fn entries_rewritable(tree: NodeView, source: Seq<u8>, depth: nat, count: nat) -> bool
    decreases tree, count,
{
    if count == 0 || count > tree.children.len() {
        true
    } else {
        &&& entries_rewritable(tree, source, depth, (count - 1) as nat)
        &&& match tree.children[count - 1].contents {
            ContentsView::Link(_) => true,
            ContentsView::Node(inner) => payload_len(tree.children[count - 1]) >= 1 && if is_clean(
                inner,
            ) {
                stands_alone(tree, source, count - 1, depth)
            } else {
                depth > 0 && rewritable_below(inner, source, (depth - 1) as nat)
            },
            _ => payload_len(tree.children[count - 1]) >= 1 && stands_alone(
                tree,
                source,
                count - 1,
                depth,
            ),
        }
    }
}

/// What `entries_rewritable` says of a run of entries, it says of each.
proof fn lemma_entry_rewritable(tree: NodeView, source: Seq<u8>, depth: nat, count: nat, i: int)
    requires
        count <= tree.children.len(),
        entries_rewritable(tree, source, depth, count),
        0 <= i < count,
    ensures
        entries_rewritable(tree, source, depth, (i + 1) as nat),
    decreases count,
{
    if i < count - 1 {
        lemma_entry_rewritable(tree, source, depth, (count - 1) as nat, i);
    }
}

/// The image of a container that can be read again, taken on its own as
/// the bytes of an entry, holds that container as it reads back, with the
/// data behind its head.
proof fn lemma_image_holds_node(inner: NodeView, source: Seq<u8>, below: nat)
    requires
        rewritable(inner, source, below),
        spec_is_node_class(inner.header.class),
        inner.header.meta_data.len() == 0,
        written_len(inner) <= u32::MAX,
    ensures
        parse_contents(image(inner, source), 0, 0, written_len(inner) as u32, below + 1) == Ok::<
            ContentsView,
            PakError,
        >(
            ContentsView::Node(
                NodeView {
                    data_len: (written_len(inner) - head_len(inner)) as u64,
                    ..reread(inner, source, below)
                },
            ),
        ),
{
    lemma_container_header_reads_back(inner.header);
    lemma_rewritten_node(inner, source, below);
    lemma_rewritten_table(inner, source);
}

/// A container written anew inside a container written anew stands alone
/// where it was written: read from its start, it is the nested container
/// as it reads back, with the data behind its head.
pub proof fn lemma_nested_stands_alone(tree: NodeView, source: Seq<u8>, depth: nat, i: int)
    requires
        !is_clean(tree),
        node_refusal(tree) is None,
        0 <= i < tree.children.len(),
        depth > 0,
        tree.children[i].contents matches ContentsView::Node(inner) && !is_clean(inner)
            && rewritable(inner, source, (depth - 1) as nat) && spec_is_node_class(
            inner.header.class,
        ) && inner.header.meta_data.len() == 0,
    ensures
        stands_alone(tree, source, i, depth),
        alone(tree, source, i, depth) == ContentsView::Node(
            NodeView {
                data_len: (written_len(tree.children[i].contents->Node_0) - head_len(
                    tree.children[i].contents->Node_0,
                )) as u64,
                ..reread(tree.children[i].contents->Node_0, source, (depth - 1) as nat)
            },
        ),
{
    let inner = tree.children[i].contents->Node_0;
    let below = (depth - 1) as nat;
    lemma_entries_refusal(tree.children, tree.children.len(), false, i);
    assert(written_len(inner) <= u32::MAX);
    lemma_image_holds_node(inner, source, below);
    assert(below + 1 == depth);
    assert(payload(tree.children[i], source) == image(inner, source));
    assert(entry_size(tree, i) == written_len(inner) as u32);
    lemma_alone_is_held(tree, source, depth, i);
}

/// Selective rewrite at any depth: a container that is written anew, with
/// every container below it that is written anew as `rewritable_below`
/// asks, can be read again, so that `lemma_rewritten_node` and
/// `lemma_rewritten_archive` hold of it and of each of those containers.
pub proof fn lemma_rewritable_below(tree: NodeView, source: Seq<u8>, depth: nat)
    requires
        rewritable_below(tree, source, depth),
    ensures
        rewritable(tree, source, depth),
    decreases tree,
{
    assert forall|i: int|
        0 <= i < tree.children.len() && !(tree.children[i].contents is Link) implies {
        &&& #[trigger] stands_alone(tree, source, i, depth)
        &&& payload_len(tree.children[i]) >= 1
    } by {
        lemma_entry_rewritable(tree, source, depth, tree.children.len(), i);
        match tree.children[i].contents {
            ContentsView::Node(inner) => {
                if !is_clean(inner) {
                    assert(depth > 0);
                    assert(rewritable_below(inner, source, (depth - 1) as nat));
                    lemma_rewritable_below(inner, source, (depth - 1) as nat);
                    lemma_nested_stands_alone(tree, source, depth, i);
                }
            },
            _ => {},
        }
    }
}

} // verus!
