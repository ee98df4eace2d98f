//! Position independence: what is read does not depend on where it stands.

use crate::error::PakError;
use crate::pakinterface::header::{
    parse_header, parse_meta, parse_meta_entry, spec_is_node_class, HeaderView, MetaDataView,
};
use crate::pakinterface::layout::{
    first_target, lemma_first_target, lemma_parse_children_len, marked, parse_arrays,
    parse_children, parse_contents, parse_delimiter, parse_names, parse_node, parse_offsets,
    parse_table, parse_words, parsed_child, TableView,
};
use crate::pakinterface::node::{ChildView, ContentsView, NodeView};
use crate::pakinterface::state::child_data;
use crate::span::span;
use crate::util::parse_string;
use vstd::bytes::spec_u32_from_le_bytes;
use vstd::prelude::*;

verus! {

/// `inner` stands in `outer` at `at`, byte for byte, and `outer` is no
/// longer than a 64-bit offset can express.
pub open spec fn embedded(inner: Seq<u8>, outer: Seq<u8>, at: nat) -> bool {
    &&& at + inner.len() <= outer.len()
    &&& outer.len() <= u64::MAX
    &&& span(outer, at, inner.len()) == inner
}

/// What stands at a place in `inner` stands at that place, counted from
/// `at`, in `outer`.
pub proof fn lemma_embedded_span(inner: Seq<u8>, outer: Seq<u8>, at: nat, pos: nat, count: nat)
    requires
        embedded(inner, outer, at),
        pos + count <= inner.len(),
    ensures
        span(outer, at + pos, count) == span(inner, pos, count),
{
    assert forall|i: int| 0 <= i < count implies span(outer, at + pos, count)[i] == span(
        inner,
        pos,
        count,
    )[i] by {
        assert(span(outer, at, inner.len())[pos + i] == inner[pos + i]);
    }
    assert(span(outer, at + pos, count) =~= span(inner, pos, count));
}

/// A name found in `inner` is found alike in `outer`.
proof fn lemma_embedded_string(inner: Seq<u8>, outer: Seq<u8>, at: nat, pos: nat)
    requires
        embedded(inner, outer, at),
        parse_string(inner, pos) is Ok,
    ensures
        parse_string(outer, at + pos) == Ok::<(Seq<char>, nat), PakError>(
            (parse_string(inner, pos)->Ok_0.0, at + parse_string(inner, pos)->Ok_0.1),
        ),
        pos + 4 <= parse_string(inner, pos)->Ok_0.1 <= inner.len(),
{
    lemma_embedded_span(inner, outer, at, pos, 4);
    let count = spec_u32_from_le_bytes(span(inner, pos, 4)) as nat;
    if count > 0 {
        lemma_embedded_span(inner, outer, at, pos + 4, count);
    } else {
        assert(span(outer, at + pos + 4, 0) =~= span(inner, pos + 4, 0));
    }
}

/// Names found in `inner` are found alike in `outer`.
proof fn lemma_embedded_names(inner: Seq<u8>, outer: Seq<u8>, at: nat, pos: nat, count: nat)
    requires
        embedded(inner, outer, at),
        parse_names(inner, pos, count) is Ok,
        pos <= inner.len(),
    ensures
        parse_names(outer, at + pos, count) == Ok::<(Seq<Seq<char>>, nat), PakError>(
            (parse_names(inner, pos, count)->Ok_0.0, at + parse_names(inner, pos, count)->Ok_0.1),
        ),
        pos <= parse_names(inner, pos, count)->Ok_0.1 <= inner.len(),
    decreases count,
{
    if count > 0 {
        lemma_embedded_names(inner, outer, at, pos, (count - 1) as nat);
        let middle = parse_names(inner, pos, (count - 1) as nat)->Ok_0.1;
        lemma_embedded_string(inner, outer, at, middle);
    }
}

/// A delimiter found in `inner` is found alike in `outer`.
proof fn lemma_embedded_delimiter(inner: Seq<u8>, outer: Seq<u8>, at: nat, pos: nat)
    requires
        embedded(inner, outer, at),
        parse_delimiter(inner, pos) is Ok,
    ensures
        parse_delimiter(outer, at + pos) == Ok::<nat, PakError>(at + pos + 1),
        pos + 1 <= inner.len(),
{
    lemma_embedded_span(inner, outer, at, pos, 1);
    assert(span(outer, at + pos, 1)[0] == span(inner, pos, 1)[0]);
}

/// Offsets found in `inner` are found alike in `outer`.
proof fn lemma_embedded_offsets(inner: Seq<u8>, outer: Seq<u8>, at: nat, pos: nat, count: nat)
    requires
        embedded(inner, outer, at),
        parse_offsets(inner, pos, count) is Ok,
        pos <= inner.len(),
    ensures
        parse_offsets(outer, at + pos, count) == parse_offsets(inner, pos, count),
        pos + 8 * count <= inner.len(),
{
    let found = parse_offsets(outer, at + pos, count)->Ok_0;
    let known = parse_offsets(inner, pos, count)->Ok_0;
    assert forall|i: int| 0 <= i < count implies #[trigger] found[i] == known[i] by {
        lemma_embedded_span(inner, outer, at, (pos + 8 * i) as nat, 8);
    }
    assert(found =~= known);
}

/// Words found in `inner` are found alike in `outer`.
proof fn lemma_embedded_words(inner: Seq<u8>, outer: Seq<u8>, at: nat, pos: nat, count: nat)
    requires
        embedded(inner, outer, at),
        parse_words(inner, pos, count) is Ok,
        pos <= inner.len(),
    ensures
        parse_words(outer, at + pos, count) == parse_words(inner, pos, count),
        pos + 4 * count <= inner.len(),
{
    let found = parse_words(outer, at + pos, count)->Ok_0;
    let known = parse_words(inner, pos, count)->Ok_0;
    assert forall|i: int| 0 <= i < count implies #[trigger] found[i] == known[i] by {
        lemma_embedded_span(inner, outer, at, (pos + 4 * i) as nat, 4);
    }
    assert(found =~= known);
}

/// A table moved by `at`: the same entries, ending `at` later.
pub open spec fn rebase_table(table: TableView, at: nat) -> TableView {
    TableView { end: table.end + at, ..table }
}

/// The arrays of a table found in `inner` are found alike in `outer`.
proof fn lemma_embedded_arrays(inner: Seq<u8>, outer: Seq<u8>, at: nat, pos: nat, count: nat)
    requires
        embedded(inner, outer, at),
        parse_arrays(inner, pos, count) is Ok,
        pos <= inner.len(),
    ensures
        parse_arrays(outer, at + pos, count) == Ok::<TableView, PakError>(
            rebase_table(parse_arrays(inner, pos, count)->Ok_0, at),
        ),
        pos <= parse_arrays(inner, pos, count)->Ok_0.end <= inner.len(),
{
    lemma_embedded_names(inner, outer, at, pos, count);
    let after_names = parse_names(inner, pos, count)->Ok_0.1;
    lemma_embedded_delimiter(inner, outer, at, after_names);
    let offsets_at = after_names + 1;
    lemma_embedded_offsets(inner, outer, at, offsets_at, count);
    lemma_embedded_delimiter(inner, outer, at, offsets_at + 8 * count);
    let sizes_at = offsets_at + 8 * count + 1;
    lemma_embedded_words(inner, outer, at, sizes_at, count);
    lemma_embedded_delimiter(inner, outer, at, sizes_at + 4 * count);
    let flags_at = sizes_at + 4 * count + 1;
    lemma_embedded_words(inner, outer, at, flags_at, count);
}

/// A table found in `inner` is found alike in `outer`.
pub proof fn lemma_embedded_table(inner: Seq<u8>, outer: Seq<u8>, at: nat, pos: nat)
    requires
        embedded(inner, outer, at),
        parse_table(inner, pos) is Ok,
    ensures
        parse_table(outer, at + pos) == Ok::<TableView, PakError>(
            rebase_table(parse_table(inner, pos)->Ok_0, at),
        ),
        pos + 13 <= parse_table(inner, pos)->Ok_0.end <= inner.len(),
{
    lemma_embedded_span(inner, outer, at, pos, 4);
    lemma_embedded_span(inner, outer, at, pos + 4, 4);
    lemma_embedded_span(inner, outer, at, pos + 8, 4);
    lemma_embedded_delimiter(inner, outer, at, pos + 12);
    let count = spec_u32_from_le_bytes(span(inner, pos + 4, 4)) as nat;
    lemma_embedded_arrays(inner, outer, at, pos + 13, count);
}

/// A metadata record found in `inner` is found alike in `outer`.
proof fn lemma_embedded_meta_entry(inner: Seq<u8>, outer: Seq<u8>, at: nat, pos: nat)
    requires
        embedded(inner, outer, at),
        parse_meta_entry(inner, pos) is Ok,
    ensures
        parse_meta_entry(outer, at + pos) == Ok::<(MetaDataView, nat), PakError>(
            (parse_meta_entry(inner, pos)->Ok_0.0, at + parse_meta_entry(inner, pos)->Ok_0.1),
        ),
        pos <= parse_meta_entry(inner, pos)->Ok_0.1 <= inner.len(),
{
    lemma_embedded_span(inner, outer, at, pos, 4);
    lemma_embedded_span(inner, outer, at, pos + 4, 16);
    lemma_embedded_span(inner, outer, at, pos + 20, 4);
    let count = spec_u32_from_le_bytes(span(inner, pos + 20, 4)) as nat;
    lemma_embedded_span(inner, outer, at, pos + 24, count);
}

/// Metadata records found in `inner` are found alike in `outer`.
proof fn lemma_embedded_meta(inner: Seq<u8>, outer: Seq<u8>, at: nat, pos: nat, count: nat)
    requires
        embedded(inner, outer, at),
        parse_meta(inner, pos, count) is Ok,
        pos <= inner.len(),
    ensures
        parse_meta(outer, at + pos, count) == Ok::<(Seq<MetaDataView>, nat), PakError>(
            (parse_meta(inner, pos, count)->Ok_0.0, at + parse_meta(inner, pos, count)->Ok_0.1),
        ),
        pos <= parse_meta(inner, pos, count)->Ok_0.1 <= inner.len(),
    decreases count,
{
    if count > 0 {
        lemma_embedded_meta(inner, outer, at, pos, (count - 1) as nat);
        let middle = parse_meta(inner, pos, (count - 1) as nat)->Ok_0.1;
        lemma_embedded_meta_entry(inner, outer, at, middle);
    }
}

/// A header moved by `at`: the same header, found `at` later.
pub open spec fn rebase_header(header: HeaderView, at: nat) -> HeaderView {
    HeaderView { base: (header.base + at) as u64, ..header }
}

/// What is found at a place in `inner`, a header or none, is found alike
/// in `outer`.
pub proof fn lemma_embedded_header(inner: Seq<u8>, outer: Seq<u8>, at: nat, pos: nat)
    requires
        embedded(inner, outer, at),
        parse_header(inner, pos) is Ok,
    ensures
        pos + 4 <= inner.len(),
        parse_header(inner, pos)->Ok_0 is None ==> parse_header(outer, at + pos) == Ok::<
            Option<HeaderView>,
            PakError,
        >(None),
        parse_header(inner, pos)->Ok_0 matches Some(header) ==> {
            &&& parse_header(outer, at + pos) == Ok::<Option<HeaderView>, PakError>(
                Some(rebase_header(header, at)),
            )
            &&& header.base == pos
            &&& header.base + header.size <= inner.len()
            &&& header.size >= 0x40
        },
{
    lemma_embedded_span(inner, outer, at, pos, 4);
    if parse_header(inner, pos)->Ok_0 is Some {
        lemma_embedded_span(inner, outer, at, pos + 4, 0x20);
        lemma_embedded_span(inner, outer, at, pos + 0x24, 16);
        lemma_embedded_span(inner, outer, at, pos + 0x34, 4);
        lemma_embedded_span(inner, outer, at, pos + 0x38, 4);
        lemma_embedded_span(inner, outer, at, pos + 0x3c, 4);
        let count = spec_u32_from_le_bytes(span(inner, pos + 0x38, 4)) as nat;
        lemma_embedded_meta(inner, outer, at, pos + 0x40, count);
    }
}

/// What an entry holds, moved by `at`.
pub open spec fn rebase_contents(contents: ContentsView, at: nat) -> ContentsView
    decreases contents,
{
    match contents {
        ContentsView::Data => ContentsView::Data,
        ContentsView::Link(target) => ContentsView::Link(target),
        ContentsView::Resource(header) => ContentsView::Resource(rebase_header(header, at)),
        ContentsView::Node(node) => ContentsView::Node(rebase_node(node, at)),
    }
}

/// An entry moved by `at`: the same entry, its container's base and
/// everything below it `at` later.
pub open spec fn rebase_child(child: ChildView, at: nat) -> ChildView
    decreases child,
{
    ChildView {
        node_base: (child.node_base + at) as u64,
        contents: rebase_contents(child.contents, at),
        ..child
    }
}

/// The first `count` entries, each moved by `at`.
pub open spec fn rebase_upto(children: Seq<ChildView>, count: nat, at: nat) -> Seq<ChildView>
    decreases children, count,
{
    if count == 0 || count > children.len() {
        Seq::empty()
    } else {
        rebase_upto(children, (count - 1) as nat, at).push(rebase_child(children[count - 1], at))
    }
}

/// A container moved by `at`: the same names, offsets, sizes and lengths,
/// found `at` later.
pub open spec fn rebase_node(node: NodeView, at: nat) -> NodeView
    decreases node,
{
    NodeView {
        header: rebase_header(node.header, at),
        children: rebase_upto(node.children, node.children.len(), at),
        data_offset: (node.data_offset + at) as u64,
        ..node
    }
}

/// Moving keeps the number of entries, and each entry is the moved entry
/// at its place.
pub proof fn lemma_rebase_upto(children: Seq<ChildView>, count: nat, at: nat)
    requires
        count <= children.len(),
    ensures
        rebase_upto(children, count, at).len() == count,
        forall|i: int|
            0 <= i < count ==> #[trigger] rebase_upto(children, count, at)[i] == rebase_child(
                children[i],
                at,
            ),
    decreases count,
{
    if count > 0 {
        lemma_rebase_upto(children, (count - 1) as nat, at);
    }
}

/// What is found at an entry's offset in `inner` is found alike in `outer`,
/// moved by `at`.
pub proof fn lemma_embedded_contents(
    inner: Seq<u8>,
    outer: Seq<u8>,
    at: nat,
    node_base: u64,
    offset: u64,
    size: u32,
    depth: nat,
)
    requires
        embedded(inner, outer, at),
        node_base <= inner.len(),
        parse_contents(inner, node_base, offset, size, depth) is Ok,
    ensures
        parse_contents(outer, (node_base + at) as u64, offset, size, depth) == Ok::<
            ContentsView,
            PakError,
        >(rebase_contents(parse_contents(inner, node_base, offset, size, depth)->Ok_0, at)),
        node_base + offset + 4 <= inner.len(),
    decreases depth, 0nat, 0nat,
{
    let place = (node_base + offset) as nat;
    lemma_embedded_header(inner, outer, at, place);
    match parse_header(inner, place)->Ok_0 {
        Some(header) => {
            if spec_is_node_class(header.class) {
                lemma_embedded_node(inner, outer, at, header, (depth - 1) as nat);
                let node = parse_node(inner, header, (depth - 1) as nat)->Ok_0;
                let moved = rebase_node(node, at);
                assert(moved.data_offset - (place + at) == node.data_offset - place);
            }
        },
        None => {},
    }
}

/// The entries found in `inner` are found alike in `outer`, moved by `at`.
pub proof fn lemma_embedded_children(
    inner: Seq<u8>,
    outer: Seq<u8>,
    at: nat,
    node_base: u64,
    table: TableView,
    count: nat,
    depth: nat,
)
    requires
        embedded(inner, outer, at),
        node_base <= inner.len(),
        parse_children(inner, node_base, table, count, depth) is Ok,
    ensures
        parse_children(outer, (node_base + at) as u64, rebase_table(table, at), count, depth)
            == Ok::<Seq<ChildView>, PakError>(
            rebase_upto(
                parse_children(inner, node_base, table, count, depth)->Ok_0,
                count,
                at,
            ),
        ),
    decreases depth, 1nat, count,
{
    lemma_parse_children_len(inner, node_base, table, count, depth);
    if count > 0 {
        let last = count - 1;
        let shorter = (count - 1) as nat;
        let before = parse_children(inner, node_base, table, shorter, depth)->Ok_0;
        let after = parse_children(inner, node_base, table, count, depth)->Ok_0;
        let moved_table = rebase_table(table, at);
        let moved_base = (node_base + at) as u64;
        lemma_embedded_children(inner, outer, at, node_base, table, shorter, depth);
        lemma_parse_children_len(inner, node_base, table, shorter, depth);
        lemma_rebase_upto(before, shorter, at);
        lemma_rebase_upto(after, count, at);
        let moved_before = rebase_upto(before, shorter, at);
        if table.links[last] {
            lemma_first_target(table.offsets, table.links, last, 0);
            let target = first_target(table.offsets, table.links, last, 0)->0;
            let link = parsed_child(table, last, node_base, ContentsView::Link(target as usize));
            assert(rebase_child(link, at) == parsed_child(
                moved_table,
                last,
                moved_base,
                ContentsView::Link(target as usize),
            ));
            assert(rebase_child(marked(before[target]), at) == marked(moved_before[target]));
            assert(moved_before.update(target, marked(moved_before[target])).push(
                rebase_child(link, at),
            ) =~= rebase_upto(after, count, at));
        } else {
            lemma_embedded_contents(
                inner,
                outer,
                at,
                node_base,
                table.offsets[last],
                table.sizes[last],
                depth,
            );
            let contents = parse_contents(
                inner,
                node_base,
                table.offsets[last],
                table.sizes[last],
                depth,
            )->Ok_0;
            assert(rebase_child(parsed_child(table, last, node_base, contents), at)
                == parsed_child(moved_table, last, moved_base, rebase_contents(contents, at)));
            assert(moved_before.push(
                rebase_child(parsed_child(table, last, node_base, contents), at),
            ) =~= rebase_upto(after, count, at));
        }
    } else {
        assert(rebase_upto(Seq::<ChildView>::empty(), 0, at) =~= Seq::<ChildView>::empty());
    }
}

/// Position independence: a container found in `inner` is found alike in
/// `outer`, moved by `at`.
pub proof fn lemma_embedded_node(
    inner: Seq<u8>,
    outer: Seq<u8>,
    at: nat,
    header: HeaderView,
    depth: nat,
)
    requires
        embedded(inner, outer, at),
        header.base + header.size <= inner.len(),
        parse_node(inner, header, depth) is Ok,
    ensures
        parse_node(outer, rebase_header(header, at), depth) == Ok::<NodeView, PakError>(
            rebase_node(parse_node(inner, header, depth)->Ok_0, at),
        ),
        header.base + header.size <= parse_node(inner, header, depth)->Ok_0.data_offset
            <= inner.len(),
    decreases depth, 2nat, 0nat,
{
    let pos = (header.base + header.size) as nat;
    lemma_embedded_table(inner, outer, at, pos);
    let table = parse_table(inner, pos)->Ok_0;
    lemma_embedded_children(inner, outer, at, header.base, table, table.names.len(), depth);
    lemma_parse_children_len(inner, header.base, table, table.names.len(), depth);
}


/// Reading an entry's bytes gives the same in `outer`, from the entry moved
/// by `at`, as in `inner`, where the entry's span lies inside `inner`.
pub proof fn lemma_embedded_data(inner: Seq<u8>, outer: Seq<u8>, at: nat, child: ChildView)
    requires
        embedded(inner, outer, at),
        child.node_base + child.offset + child.size <= inner.len(),
    ensures
        child_data(rebase_child(child, at), Some(outer)) == child_data(child, Some(inner)),
{
    let moved = rebase_child(child, at);
    let skip: nat = match child.contents {
        ContentsView::Resource(header) => header.size as nat,
        _ => 0,
    };
    if child.size >= skip {
        let place = (child.node_base + child.offset + skip) as nat;
        lemma_embedded_span(inner, outer, at, place, (child.size - skip) as nat);
    }
}

} // verus!
