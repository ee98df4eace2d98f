//! Containers and their entries: reading, changing and writing them.
pub mod find;
pub mod reader;
pub mod writer;

use crate::error::{is_fault, FormatError, PakError, StreamError, UsageError};
use crate::pakinterface::header::{header_len, HeaderView, ResourceHeader};
use crate::pakinterface::image::is_clean;
use crate::pakinterface::state::{
    child_data, child_dirty, dirty_upto, lemma_refresh_upto, node_dirty, refresh, refresh_child,
    refresh_upto, renamed, set_data_refusal, state_of, with_data,
};
use crate::span::span;
use crate::util::BinaryStream;
use vstd::prelude::*;

verus! {

/// How much of a container has to be written anew when it is saved.
#[derive(Clone, Copy, Debug, PartialEq, Eq, Structural)]
pub enum NodeModifiedState {
    /// Nothing in or below the container has changed.
    Clean,
    /// Only the child table has changed.
    Header,
    /// Entries were added behind the existing ones.
    Append,
    /// The container is written anew.
    Full,
}

/// What an entry holds, as a value.
pub enum ContentsView {
    Data,
    Link(usize),
    Node(NodeView),
    Resource(HeaderView),
}

/// An entry of a container, as a value.
pub struct ChildView {
    pub name: Seq<char>,
    pub offset: u64,
    pub size: u32,
    pub contents: ContentsView,
    pub new_data: Option<Seq<u8>>,
    pub node_base: u64,
    pub meta_data_dirty: bool,
    pub has_active_links: bool,
    pub is_new_entry: bool,
}

/// A container, as a value.
pub struct NodeView {
    pub header: HeaderView,
    pub children: Seq<ChildView>,
    pub state: NodeModifiedState,
    pub data_offset: u64,
    pub header_len: u64,
    pub data_len: u64,
}

/// What an entry of a container holds.
#[derive(Debug)]
pub enum ResourceType {
    /// Raw bytes with no header.
    Data,
    /// Another name for the sibling with this index.
    Link(usize),
    /// A nested container.
    Node(ResourceNode),
    /// Bytes behind a resource header.
    Resource(ResourceHeader),
}

/// One named entry of a container.
#[derive(Debug)]
pub struct ResourceChild {
    name: String,
    offset: u64,
    size: u32,
    contents: ResourceType,
    new_data: Option<Vec<u8>>,
    node_base: u64,
    meta_data_dirty: bool,
    has_active_links: bool,
    is_new_entry: bool,
}

/// A container: a header and an ordered list of entries.
#[derive(Debug)]
pub struct ResourceNode {
    header: ResourceHeader,
    children: Vec<ResourceChild>,
    state: NodeModifiedState,
    data_offset: u64,
    header_len: u64,
    data_len: u64,
}

impl View for ResourceType {
    type V = ContentsView;

    closed spec fn view(&self) -> ContentsView {
        contents_view(*self)
    }
}

impl View for ResourceChild {
    type V = ChildView;

    closed spec fn view(&self) -> ChildView {
        child_view(*self)
    }
}

impl View for ResourceNode {
    type V = NodeView;

    closed spec fn view(&self) -> NodeView {
        node_view(*self)
    }
}

spec fn contents_view(contents: ResourceType) -> ContentsView
    decreases contents,
{
    match contents {
        ResourceType::Data => ContentsView::Data,
        ResourceType::Link(target) => ContentsView::Link(target),
        ResourceType::Node(node) => ContentsView::Node(node_view(node)),
        ResourceType::Resource(header) => ContentsView::Resource(header@),
    }
}

spec fn child_view(child: ResourceChild) -> ChildView
    decreases child,
{
    ChildView {
        name: child.name@,
        offset: child.offset,
        size: child.size,
        contents: contents_view(child.contents),
        new_data: match child.new_data {
            Some(data) => Some(data@),
            None => None,
        },
        node_base: child.node_base,
        meta_data_dirty: child.meta_data_dirty,
        has_active_links: child.has_active_links,
        is_new_entry: child.is_new_entry,
    }
}

spec fn views_upto(children: Seq<ResourceChild>, count: nat) -> Seq<ChildView>
    decreases children, count,
{
    if count == 0 || count > children.len() {
        Seq::empty()
    } else {
        views_upto(children, (count - 1) as nat).push(child_view(children[count - 1]))
    }
}

spec fn node_view(node: ResourceNode) -> NodeView
    decreases node,
{
    NodeView {
        header: node.header@,
        children: views_upto(node.children@, node.children@.len()),
        state: node.state,
        data_offset: node.data_offset,
        header_len: node.header_len,
        data_len: node.data_len,
    }
}

proof fn lemma_views_upto(children: Seq<ResourceChild>, count: nat)
    requires
        count <= children.len(),
    ensures
        views_upto(children, count) == children_view(children.take(count as int)),
    decreases count,
{
    if count > 0 {
        lemma_views_upto(children, (count - 1) as nat);
        assert(children_view(children.take(count as int)) =~= children_view(
            children.take(count - 1),
        ).push(children[count - 1]@));
    } else {
        assert(children_view(children.take(0)) =~= Seq::<ChildView>::empty());
    }
}

/// A container's entries, as values, are the values of its entries.
proof fn lemma_node_children(node: ResourceNode)
    ensures
        node@.children == children_view(node.children@),
{
    lemma_views_upto(node.children@, node.children@.len());
    assert(node.children@.take(node.children@.len() as int) =~= node.children@);
}

/// The views of a run of entries.
pub open spec fn children_view(children: Seq<ResourceChild>) -> Seq<ChildView> {
    Seq::new(children.len(), |i: int| children[i]@)
}

/// The views of a run of names.
pub open spec fn names_view(names: Seq<String>) -> Seq<Seq<char>> {
    Seq::new(names.len(), |i: int| names[i]@)
}

impl ResourceType {
    /// The name of the kind of contents.
    pub fn label(&self) -> (r: &'static str)
        ensures
            r@ == match self@ {
                ContentsView::Data => "Raw Data"@,
                ContentsView::Link(_) => "Link"@,
                ContentsView::Node(_) => "Node"@,
                ContentsView::Resource(_) => "Resource Data"@,
            },
    {
        match self {
            ResourceType::Data => "Raw Data",
            ResourceType::Link(_) => "Link",
            ResourceType::Node(_) => "Node",
            ResourceType::Resource(_) => "Resource Data",
        }
    }
}

impl Default for ResourceType {
    fn default() -> (r: Self)
        ensures
            r@ == ContentsView::Data,
    {
        ResourceType::Data
    }
}

impl Default for ResourceChild {
    /// An unnamed, empty entry of raw data.
    fn default() -> (r: Self)
        ensures
            r@ == (ChildView {
                name: Seq::empty(),
                offset: 0,
                size: 0,
                contents: ContentsView::Data,
                new_data: None,
                node_base: 0,
                meta_data_dirty: false,
                has_active_links: false,
                is_new_entry: false,
            }),
    {
        ResourceChild {
            name: String::new(),
            offset: 0,
            size: 0,
            contents: ResourceType::Data,
            new_data: None,
            node_base: 0,
            meta_data_dirty: false,
            has_active_links: false,
            is_new_entry: false,
        }
    }
}

impl Default for ResourceNode {
    /// A clean container without entries.
    fn default() -> (r: Self)
        ensures
            r@ == (NodeView {
                header: HeaderView {
                    class: Seq::empty(),
                    uuid: 0,
                    unk0: 0,
                    meta_data: Seq::empty(),
                    base: 0,
                    size: 0,
                },
                children: Seq::empty(),
                state: NodeModifiedState::Clean,
                data_offset: 0,
                header_len: 0,
                data_len: 0,
            }),
    {
        let r = ResourceNode {
            header: ResourceHeader::default(),
            children: Vec::new(),
            state: NodeModifiedState::Clean,
            data_offset: 0,
            header_len: 0,
            data_len: 0,
        };
        proof {
            lemma_node_children(r);
            assert(r@.children =~= Seq::<ChildView>::empty());
        }
        r
    }
}

impl Default for NodeModifiedState {
    fn default() -> (r: Self)
        ensures
            r == NodeModifiedState::Clean,
    {
        NodeModifiedState::Clean
    }
}

impl ResourceChild {
    pub fn name(&self) -> (r: &String)
        ensures
            r@ == self@.name,
    {
        &self.name
    }

    /// Where the entry's bytes start, counted from its container's base.
    pub fn offset(&self) -> (r: &u64)
        ensures
            *r == self@.offset,
    {
        &self.offset
    }

    /// How many bytes the entry takes.
    pub fn size(&self) -> (r: &u32)
        ensures
            *r == self@.size,
    {
        &self.size
    }

    pub fn contents(&self) -> (r: &ResourceType)
        ensures
            r@ == self@.contents,
    {
        &self.contents
    }

    pub fn contents_mut(&mut self) -> (r: &mut ResourceType)
        ensures
            r@ == old(self)@.contents,
            final(self)@ == (ChildView { contents: final(r)@, ..old(self)@ }),
    {
        &mut self.contents
    }

    /// Whether the entry is the target of a link.
    pub fn has_active_links(&self) -> (r: bool)
        ensures
            r == self@.has_active_links,
    {
        self.has_active_links
    }

    /// Gives the entry another name and marks it as changed.
    pub fn rename(&mut self, name: String)
        ensures
            final(self)@ == renamed(old(self)@, name@),
    {
        self.name = name;
        self.meta_data_dirty = true;
    }

    /// The entry's bytes: the replacement where one was set, else the
    /// entry's span of the archive's stream, without the resource header
    /// where it has one. `source` is the stream the archive was opened
    /// from, or `None` where that stream is gone.
    pub fn data<T: BinaryStream>(&self, source: &mut Option<T>) -> (r: Result<Vec<u8>, PakError>)
        ensures
            (*final(source)) is Some == (*old(source)) is Some,
            (*old(source)) matches Some(before) ==> {
                &&& (*final(source))->0.contents() == before.contents()
                &&& (*final(source))->0.capacity() == before.capacity()
                &&& (*final(source))->0.reliable() == before.reliable()
            },
            match r {
                Ok(data) => child_data(self@, source_bytes(*old(source))) == Ok::<
                    Seq<u8>,
                    PakError,
                >(data@),
                Err(e) => child_data(self@, source_bytes(*old(source))) == Err::<
                    Seq<u8>,
                    PakError,
                >(e) || ((*old(source)) matches Some(before) && is_fault(before.reliable(), e)),
            },
    {
        let read_offset: u32 = match &self.contents {
            ResourceType::Data => 0,
            ResourceType::Resource(header) => *header.size(),
            _ => {
                return Err(PakError::Usage(UsageError::NotALeaf));
            },
        };
        match &self.new_data {
            Some(data) => Ok(data.clone()),
            None => match source {
                None => Err(PakError::Liveness),
                Some(file) => {
                    if self.size < read_offset {
                        return Err(PakError::Format(FormatError::EntryTooSmall));
                    }
                    if self.offset > u64::MAX - self.node_base || self.offset + self.node_base
                        > u64::MAX - read_offset as u64 {
                        return Err(PakError::Io(StreamError::UnexpectedEof));
                    }
                    file.seek(self.offset + self.node_base + read_offset as u64)?;
                    file.read_vector((self.size - read_offset) as usize)
                },
            },
        }
    }

    /// Replaces the entry's bytes. The entry's size is the new length at
    /// once. A link or a container has no bytes to replace.
    pub fn set_data(&mut self, data: Vec<u8>) -> (r: Result<(), PakError>)
        ensures
            match r {
                Ok(()) => set_data_refusal(old(self)@, data@.len()) is None && final(self)@
                    == with_data(old(self)@, data@),
                Err(e) => set_data_refusal(old(self)@, data@.len()) == Some(e->Usage_0)
                    && e is Usage && final(self)@ == old(self)@,
            },
    {
        match &self.contents {
            ResourceType::Link(_) => {
                return Err(PakError::Usage(UsageError::NotALeaf));
            },
            ResourceType::Node(_) => {
                return Err(PakError::Usage(UsageError::NotALeaf));
            },
            _ => {},
        }
        if data.len() > u32::MAX as usize {
            return Err(PakError::Usage(UsageError::TooLarge));
        }
        self.size = data.len() as u32;
        self.new_data = Some(data);
        Ok(())
    }
}

/// The bytes of the stream behind `source`, if it is still there.
pub open spec fn source_bytes<T: BinaryStream>(source: Option<T>) -> Option<Seq<u8>> {
    match source {
        Some(stream) => Some(stream.contents()),
        None => None,
    }
}

impl ResourceNode {
    pub fn header(&self) -> (r: &ResourceHeader)
        ensures
            r@ == self@.header,
    {
        &self.header
    }

    pub fn children(&self) -> (r: &Vec<ResourceChild>)
        ensures
            children_view(r@) == self@.children,
    {
        proof {
            lemma_node_children(*self);
        }
        &self.children
    }

    pub fn children_mut(&mut self) -> (r: &mut Vec<ResourceChild>)
        ensures
            children_view(r@) == old(self)@.children,
            final(self)@ == (NodeView { children: children_view(final(r)@), ..old(self)@ }),
    {
        proof {
            assert forall|node: ResourceNode|
                (#[trigger] node.view()).children == children_view(node.children@) by {
                lemma_node_children(node);
            }
        }
        &mut self.children
    }
}

impl ResourceNode {
    /// Whether the container was found unchanged when its state was last
    /// set.
    pub fn is_clean(&self) -> (r: bool)
        ensures
            r == (self@.state == NodeModifiedState::Clean),
    {
        match self.state {
            NodeModifiedState::Clean => true,
            _ => false,
        }
    }

    /// Sets the state of this container and of every container below it
    /// anew: `Clean` where nothing in or below it was renamed or replaced,
    /// `Full` otherwise.
    pub fn update_state(&mut self)
        ensures
            final(self)@ == refresh(old(self)@),
        decreases *old(self),
    {
        let mut dirty = false;
        let mut i: usize = 0;
        let ghost start = *self;
        proof {
            lemma_node_children(start);
            assert forall|node: ResourceNode|
                (#[trigger] node.view()).children == children_view(node.children@) by {
                lemma_node_children(node);
            }
        }
        while i < self.children.len()
            invariant
                start == *old(self),
                i <= self.children@.len(),
                self.children@.len() == start.children@.len(),
                self.header == start.header,
                self.data_offset == start.data_offset,
                self.header_len == start.header_len,
                self.data_len == start.data_len,
                forall|j: int| i <= j < self.children@.len() ==> self.children@[j] == start.children@[j],
                forall|j: int|
                    0 <= j < i ==> (#[trigger] self.children@[j])@ == refresh_child(
                        start.children@[j]@,
                    ),
                dirty == dirty_upto(start@.children, i as nat),
                start@.children == children_view(start.children@),
                forall|node: ResourceNode|
                    (#[trigger] node.view()).children == children_view(node.children@),
            decreases self.children@.len() - i,
        {
            let ghost child_before = self.children@[i as int];
            let child = &mut self.children[i];
            if child.meta_data_dirty || child.new_data.is_some() {
                dirty = true;
            }
            match &mut child.contents {
                ResourceType::Node(node) => {
                    node.update_state();
                    if !node.is_clean() {
                        dirty = true;
                    }
                },
                _ => {},
            }
            proof {
                let before = child_before@;
                assert(self.children@[i as int]@ == refresh_child(before));
                assert(before == start@.children[i as int]);
                assert(dirty_upto(start@.children, (i + 1) as nat) == (dirty_upto(
                    start@.children,
                    i as nat,
                ) || child_dirty(before)));
                match before.contents {
                    ContentsView::Node(inner) => {
                        assert(refresh(inner).state == state_of(inner));
                        assert(child_dirty(before) == (before.meta_data_dirty
                            || before.new_data is Some || node_dirty(inner)));
                    },
                    _ => {
                        assert(child_dirty(before) == (before.meta_data_dirty
                            || before.new_data is Some));
                    },
                }
            }
            i += 1;
        }
        self.state = if dirty {
            NodeModifiedState::Full
        } else {
            NodeModifiedState::Clean
        };
        proof {
            lemma_refresh_upto(start@.children, start@.children.len());
            assert(self@.children =~= refresh_upto(start@.children, start@.children.len()));
        }
    }
}

impl ResourceChild {
    /// Whether the entry is a link.
    pub fn is_link(&self) -> (r: bool)
        ensures
            r == (self@.contents is Link),
    {
        match &self.contents {
            ResourceType::Link(_) => true,
            _ => false,
        }
    }
}

/// What reading the bytes of entry `index` of a container gives, a link
/// standing for its target.
pub open spec fn entry_data(node: NodeView, index: int, source: Option<Seq<u8>>) -> Result<
    Seq<u8>,
    PakError,
> {
    if !(0 <= index < node.children.len()) {
        Err(PakError::Usage(UsageError::NoSuchEntry))
    } else {
        match node.children[index].contents {
            ContentsView::Link(target) => if target < node.children.len() {
                child_data(node.children[target as int], source)
            } else {
                Err(PakError::Usage(UsageError::BrokenLink))
            },
            _ => child_data(node.children[index], source),
        }
    }
}

impl ResourceNode {
    /// Where the container's data starts in its stream.
    pub fn data_offset(&self) -> (r: u64)
        ensures
            r == self@.data_offset,
    {
        self.data_offset
    }

    /// How many bytes the container's data takes in its stream.
    pub fn data_len(&self) -> (r: u64)
        ensures
            r == self@.data_len,
    {
        self.data_len
    }

    pub(crate) fn set_data_len(&mut self, data_len: u64)
        ensures
            final(self)@ == (NodeView { data_len, ..old(self)@ }),
    {
        self.data_len = data_len;
    }

    /// The bytes of entry `index`; for a link, those of its target.
    pub fn child_data<T: BinaryStream>(&self, index: usize, source: &mut Option<T>) -> (r: Result<
        Vec<u8>,
        PakError,
    >)
        ensures
            (*final(source)) is Some == (*old(source)) is Some,
            (*old(source)) matches Some(before) ==> {
                &&& (*final(source))->0.contents() == before.contents()
                &&& (*final(source))->0.capacity() == before.capacity()
                &&& (*final(source))->0.reliable() == before.reliable()
            },
            match r {
                Ok(data) => entry_data(self@, index as int, source_bytes(*old(source))) == Ok::<
                    Seq<u8>,
                    PakError,
                >(data@),
                Err(e) => entry_data(self@, index as int, source_bytes(*old(source))) == Err::<
                    Seq<u8>,
                    PakError,
                >(e) || ((*old(source)) matches Some(before) && is_fault(before.reliable(), e)),
            },
    {
        proof {
            lemma_node_children(*self);
        }
        if index >= self.children.len() {
            return Err(PakError::Usage(UsageError::NoSuchEntry));
        }
        match &self.children[index].contents {
            ResourceType::Link(target) => {
                if *target < self.children.len() {
                    self.children[*target].data(source)
                } else {
                    Err(PakError::Usage(UsageError::BrokenLink))
                }
            },
            _ => self.children[index].data(source),
        }
    }
}

} // verus!
