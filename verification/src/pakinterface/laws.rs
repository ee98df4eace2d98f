//! Laws of writing: idempotent save, and where the bytes of entries stand.

use crate::error::PakError;
use crate::pakinterface::header::{parse_header, HeaderView, RESOURCE_MAGIC};
use crate::pakinterface::image::{
    body, body_len, entries_refusal, entry_offset, entry_size, head, head_len, image, is_clean,
    lemma_body_len, lemma_entries_refusal, lemma_head_len, lemma_payload_len, node_refusal, payload,
    payload_len, real_size, sources_in_range, written_len,
};
use crate::pakinterface::node::{ChildView, NodeView};
use crate::pakinterface::state::{
    child_data, lemma_refresh_idempotent, refresh, set_data_refusal, with_data,
};
use crate::span::span;
use vstd::bytes::spec_u32_from_le_bytes;
use vstd::prelude::*;

verus! {

/// Idempotent save: saving sets the states anew and writes the image of
/// the tree it then holds; a second save, of the tree that the first one
/// left, finds the same states, accepts or refuses the same, reads the
/// same spans and writes the same bytes.
pub proof fn lemma_save_idempotent(tree: NodeView, source: Seq<u8>)
    ensures
        refresh(refresh(tree)) == refresh(tree),
        node_refusal(refresh(refresh(tree))) == node_refusal(refresh(tree)),
        sources_in_range(refresh(refresh(tree)), source.len()) == sources_in_range(
            refresh(tree),
            source.len(),
        ),
        image(refresh(refresh(tree)), source) == image(refresh(tree), source),
{
    lemma_refresh_idempotent(tree);
}

/// A leaf whose bytes were replaced gives the replacement when read,
/// whatever the source holds, and has the replacement's length as its
/// size.
pub proof fn lemma_replaced_leaf_reads_back(
    child: ChildView,
    data: Seq<u8>,
    source: Option<Seq<u8>>,
)
    requires
        set_data_refusal(child, data.len()) is None,
    ensures
        child_data(with_data(child, data), source) == Ok::<Seq<u8>, PakError>(data),
        with_data(child, data).size == data.len(),
{
}

/// The bytes of the first `count` entries start with those of every
/// shorter run, and each entry's bytes follow those of the entries before
/// it.
pub proof fn lemma_body_holds_payload(
    children: Seq<ChildView>,
    source: Seq<u8>,
    count: nat,
    i: int,
)
    requires
        count <= children.len(),
        entries_refusal(children, count, false) is None,
        0 <= i < count,
    ensures
        body_len(children, i as nat) + payload_len(children[i]) <= body_len(children, count),
        span(body(children, source, count), body_len(children, i as nat), payload_len(children[i]))
            == payload(children[i], source),
    decreases count,
{
    lemma_entries_refusal(children, count, false, count - 1);
    lemma_body_len(children, source, (count - 1) as nat);
    lemma_payload_len(children, count - 1, source);
    let shorter = body(children, source, (count - 1) as nat);
    let last = payload(children[count - 1], source);
    if i < count - 1 {
        lemma_body_holds_payload(children, source, (count - 1) as nat, i);
        assert(span(shorter + last, body_len(children, i as nat), payload_len(children[i]))
            =~= span(shorter, body_len(children, i as nat), payload_len(children[i])));
    } else {
        assert(span(shorter + last, shorter.len(), last.len()) =~= last);
    }
}

/// Selective rewrite, as far as the written bytes go: in the image of a
/// container that is written anew, the bytes of every real entry stand at
/// the offset that the written table gives for it, as many as the entry
/// adds. For a leaf whose bytes were replaced they are the replacement
/// (behind its header, for a resource); for any other leaf, and for a
/// nested container that is clean, they are the entry's span of the
/// source, byte for byte.
pub proof fn lemma_rewritten_entry(node: NodeView, source: Seq<u8>, i: int)
    requires
        node_refusal(node) is None,
        !is_clean(node),
        0 <= i < node.children.len(),
        !(node.children[i].contents is Link),
    ensures
        entry_offset(node, i) == head_len(node) + body_len(node.children, i as nat),
        entry_offset(node, i) + payload_len(node.children[i]) <= written_len(node),
        span(image(node, source), entry_offset(node, i) as nat, payload_len(node.children[i]))
            == payload(node.children[i], source),
        entry_size(node, i) == real_size(node.children[i]),
{
    let count = node.children.len();
    lemma_head_len(node);
    lemma_body_len(node.children, source, count);
    lemma_body_holds_payload(node.children, source, count, i);
    let rest = body(node.children, source, count);
    let at = body_len(node.children, i as nat);
    let size = payload_len(node.children[i]);
    assert(span(head(node) + rest, head_len(node) + at, size) =~= span(rest, at, size));
}

/// A link in a container that is written anew is written with the offset
/// and the size of its target.
pub proof fn lemma_rewritten_link(node: NodeView, i: int)
    requires
        node_refusal(node) is None,
        !is_clean(node),
        0 <= i < node.children.len(),
        node.children[i].contents is Link,
    ensures
        ({
            let target = node.children[i].contents->Link_0 as int;
            &&& 0 <= target < i
            &&& !(node.children[target].contents is Link)
            &&& entry_offset(node, i) == entry_offset(node, target)
            &&& entry_size(node, i) == entry_size(node, target)
        }),
{
    lemma_entries_refusal(node.children, node.children.len(), false, i);
}

/// Where the first word at `pos` is not the magic, there is no header at
/// `pos`: reading reports that, not a failure.
pub proof fn lemma_other_magic_is_no_header(bytes: Seq<u8>, pos: nat)
    requires
        pos + 4 <= bytes.len(),
        spec_u32_from_le_bytes(span(bytes, pos, 4)) != RESOURCE_MAGIC,
    ensures
        parse_header(bytes, pos) == Ok::<Option<HeaderView>, PakError>(None),
{
}

} // verus!
