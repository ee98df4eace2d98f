//! Signs of change, the states that a save sets, and reading an entry's bytes.

use crate::error::{eof, FormatError, PakError, UsageError};
use crate::pakinterface::node::{ChildView, ContentsView, NodeModifiedState, NodeView};
use crate::span::{readable, span};
use vstd::prelude::*;

verus! {

/// An entry carries a sign of change: it was renamed, its bytes were
/// replaced, or something below it carries such a sign.
pub open spec fn child_dirty(child: ChildView) -> bool
    decreases child,
{
    child.meta_data_dirty || child.new_data is Some || match child.contents {
        ContentsView::Node(node) => dirty_upto(node.children, node.children.len()),
        _ => false,
    }
}

/// One of the first `count` entries carries a sign of change.
pub open spec fn dirty_upto(children: Seq<ChildView>, count: nat) -> bool
    decreases children, count,
{
    if count == 0 || count > children.len() {
        false
    } else {
        dirty_upto(children, (count - 1) as nat) || child_dirty(children[count - 1])
    }
}

/// Something in or below the container carries a sign of change.
pub open spec fn node_dirty(node: NodeView) -> bool {
    dirty_upto(node.children, node.children.len())
}

/// The state that a save gives a container: `Clean` where nothing in or
/// below it has changed, `Full` otherwise.
pub open spec fn state_of(node: NodeView) -> NodeModifiedState {
    if node_dirty(node) {
        NodeModifiedState::Full
    } else {
        NodeModifiedState::Clean
    }
}

/// An entry with the states of all containers below it set anew.
pub open spec fn refresh_child(child: ChildView) -> ChildView
    decreases child,
{
    match child.contents {
        ContentsView::Node(node) => ChildView {
            contents: ContentsView::Node(refresh(node)),
            ..child
        },
        _ => child,
    }
}

/// The first `count` entries, each refreshed.
pub open spec fn refresh_upto(children: Seq<ChildView>, count: nat) -> Seq<ChildView>
    decreases children, count,
{
    if count == 0 || count > children.len() {
        Seq::empty()
    } else {
        refresh_upto(children, (count - 1) as nat).push(refresh_child(children[count - 1]))
    }
}

/// A container with its state and the states of all containers below it
/// set anew. Nothing else changes.
pub open spec fn refresh(node: NodeView) -> NodeView
    decreases node,
{
    NodeView {
        children: refresh_upto(node.children, node.children.len()),
        state: state_of(node),
        ..node
    }
}

/// What reading an entry's bytes gives. `source` holds the bytes of the
/// archive's stream, or nothing where that stream is gone.
pub open spec fn child_data(child: ChildView, source: Option<Seq<u8>>) -> Result<Seq<u8>, PakError> {
    match child.contents {
        ContentsView::Link(_) => Err(PakError::Usage(UsageError::NotALeaf)),
        ContentsView::Node(_) => Err(PakError::Usage(UsageError::NotALeaf)),
        _ => match child.new_data {
            Some(data) => Ok(data),
            None => match source {
                None => Err(PakError::Liveness),
                Some(bytes) => {
                    let skip: nat = match child.contents {
                        ContentsView::Resource(header) => header.size as nat,
                        _ => 0,
                    };
                    let at = child.node_base + child.offset + skip;
                    if child.size < skip {
                        Err(PakError::Format(FormatError::EntryTooSmall))
                    } else if at > u64::MAX || !readable(
                        bytes.len(),
                        at as nat,
                        (child.size - skip) as nat,
                    ) {
                        Err(eof())
                    } else {
                        Ok(span(bytes, at as nat, (child.size - skip) as nat))
                    }
                },
            },
        },
    }
}

/// The entry after its bytes were replaced by `data`.
pub open spec fn with_data(child: ChildView, data: Seq<u8>) -> ChildView {
    ChildView { size: data.len() as u32, new_data: Some(data), ..child }
}

/// Why an entry's bytes cannot be replaced by `count` bytes, if they cannot.
pub open spec fn set_data_refusal(child: ChildView, count: nat) -> Option<UsageError> {
    if child.contents is Link || child.contents is Node {
        Some(UsageError::NotALeaf)
    } else if count > u32::MAX {
        Some(UsageError::TooLarge)
    } else {
        None
    }
}

/// The entry after it was renamed.
pub open spec fn renamed(child: ChildView, name: Seq<char>) -> ChildView {
    ChildView { name, meta_data_dirty: true, ..child }
}

/// Refreshing keeps the number of entries, and each entry is the refreshed
/// entry at its place.
pub proof fn lemma_refresh_upto(children: Seq<ChildView>, count: nat)
    requires
        count <= children.len(),
    ensures
        refresh_upto(children, count).len() == count,
        forall|i: int|
            0 <= i < count ==> #[trigger] refresh_upto(children, count)[i] == refresh_child(
                children[i],
            ),
    decreases count,
{
    if count > 0 {
        lemma_refresh_upto(children, (count - 1) as nat);
    }
}

/// Refreshing changes no sign of change.
pub proof fn lemma_refresh_keeps_dirty(node: NodeView)
    ensures
        node_dirty(refresh(node)) == node_dirty(node),
    decreases node,
{
    lemma_refresh_dirty_upto(node.children, node.children.len());
    lemma_refresh_upto(node.children, node.children.len());
    assert(refresh(node).children =~= refresh_upto(node.children, node.children.len()));
}

proof fn lemma_refresh_dirty_upto(children: Seq<ChildView>, count: nat)
    requires
        count <= children.len(),
    ensures
        dirty_upto(refresh_upto(children, children.len()), count) == dirty_upto(children, count),
    decreases children, count,
{
    lemma_refresh_upto(children, children.len());
    let refreshed = refresh_upto(children, children.len());
    if count > 0 {
        lemma_refresh_dirty_upto(children, (count - 1) as nat);
        let child = children[count - 1];
        assert(refreshed[count - 1] == refresh_child(child));
        match child.contents {
            ContentsView::Node(node) => {
                lemma_refresh_keeps_dirty(node);
                assert(child_dirty(refresh_child(child)) == child_dirty(child));
            },
            _ => {
                assert(refresh_child(child) == child);
            },
        }
        assert(dirty_upto(refreshed, count) == (dirty_upto(refreshed, (count - 1) as nat)
            || child_dirty(refreshed[count - 1])));
    }
}

/// Refreshing twice is refreshing once.
pub proof fn lemma_refresh_idempotent(node: NodeView)
    ensures
        refresh(refresh(node)) == refresh(node),
    decreases node,
{
    lemma_refresh_keeps_dirty(node);
    lemma_refresh_upto(node.children, node.children.len());
    let once = refresh(node).children;
    lemma_refresh_upto(once, once.len());
    assert forall|i: int| 0 <= i < once.len() implies refresh_upto(once, once.len())[i]
        == once[i] by {
        let child = node.children[i];
        match child.contents {
            ContentsView::Node(inner) => {
                lemma_refresh_idempotent(inner);
            },
            _ => {},
        }
    }
    assert(refresh_upto(once, once.len()) =~= once);
}


/// A run of entries that holds one with a sign of change carries one.
pub proof fn lemma_dirty_entry(children: Seq<ChildView>, count: nat, i: int)
    requires
        0 <= i < count <= children.len(),
        child_dirty(children[i]),
    ensures
        dirty_upto(children, count),
    decreases count,
{
    if i < count - 1 {
        lemma_dirty_entry(children, (count - 1) as nat, i);
    }
}

} // verus!
