//! Finding entries by name and containers by path.

use crate::pakinterface::node::{
    children_view, lemma_node_children, ContentsView, NodeView, ResourceChild, ResourceNode,
    ResourceType,
};
use vstd::prelude::*;
use vstd::utf8::encode_utf8;

verus! {

/// The container that a path of entry indices leads to from `node`, if
/// every index on the path names a nested container.
pub open spec fn spec_descend(node: NodeView, path: Seq<usize>) -> Option<NodeView>
    decreases path.len(),
{
    if path.len() == 0 {
        Some(node)
    } else if path[0] < node.children.len() {
        match node.children[path[0] as int].contents {
            ContentsView::Node(inner) => spec_descend(inner, path.drop_first()),
            _ => None,
        }
    } else {
        None
    }
}

impl ResourceChild {
    /// Whether the name starts with `prefix`, byte for byte.
    pub fn name_starts_with(&self, prefix: &str) -> (r: bool)
        ensures
            r == encode_utf8(prefix@).is_prefix_of(encode_utf8(self@.name)),
    {
        let name = self.name.as_str().as_bytes();
        let start = prefix.as_bytes();
        if start.len() > name.len() {
            return false;
        }
        let mut i: usize = 0;
        while i < start.len()
            invariant
                i <= start@.len(),
                start@.len() <= name@.len(),
                name@ == encode_utf8(self@.name),
                start@ == encode_utf8(prefix@),
                forall|k: int| 0 <= k < i ==> start@[k] == name@[k],
            decreases start@.len() - i,
        {
            if start[i] != name[i] {
                proof {
                    if start@.is_prefix_of(name@) {
                        assert(start@[i as int] == name@.subrange(0, start@.len() as int)[i as int]);
                    }
                }
                return false;
            }
            i += 1;
        }
        assert(start@ =~= name@.subrange(0, start@.len() as int));
        true
    }
}

impl ResourceNode {
    /// The index of the first entry with this name.
    pub fn find_child(&self, name: &str) -> (r: Option<usize>)
        ensures
            match r {
                Some(i) => {
                    &&& i < self@.children.len()
                    &&& self@.children[i as int].name == name@
                    &&& forall|j: int| 0 <= j < i ==> self@.children[j].name != name@
                },
                None => forall|j: int|
                    0 <= j < self@.children.len() ==> self@.children[j].name != name@,
            },
    {
        proof {
            lemma_node_children(*self);
        }
        let mut i: usize = 0;
        while i < self.children.len()
            invariant
                i <= self.children@.len(),
                self@.children == children_view(self.children@),
                forall|j: int| 0 <= j < i ==> self@.children[j].name != name@,
            decreases self.children@.len() - i,
        {
            proof {
                assert(self@.children[i as int] == self.children@[i as int]@);
            }
            if crate::util::same_text(self.children[i].name.as_str(), name) {
                return Some(i);
            }
            i += 1;
        }
        None
    }

    /// The index of the first nested container with this name.
    pub fn find_node(&self, name: &str) -> (r: Option<usize>)
        ensures
            match r {
                Some(i) => {
                    &&& i < self@.children.len()
                    &&& self@.children[i as int].name == name@
                    &&& self@.children[i as int].contents is Node
                    &&& forall|j: int|
                        0 <= j < i ==> self@.children[j].name != name@
                            || !(self@.children[j].contents is Node)
                },
                None => forall|j: int|
                    0 <= j < self@.children.len() ==> self@.children[j].name != name@
                        || !(self@.children[j].contents is Node),
            },
    {
        proof {
            lemma_node_children(*self);
        }
        let mut i: usize = 0;
        while i < self.children.len()
            invariant
                i <= self.children@.len(),
                self@.children == children_view(self.children@),
                forall|j: int|
                    0 <= j < i ==> self@.children[j].name != name@
                        || !(self@.children[j].contents is Node),
            decreases self.children@.len() - i,
        {
            proof {
                assert(self@.children[i as int] == self.children@[i as int]@);
            }
            if crate::util::same_text(self.children[i].name.as_str(), name) {
                match &self.children[i].contents {
                    ResourceType::Node(_) => {
                        return Some(i);
                    },
                    _ => {},
                }
            }
            i += 1;
        }
        None
    }

    /// The container that a path of entry indices leads to, if every index
    /// on the path names a nested container.
    pub fn descend(&self, path: &Vec<usize>) -> (r: Option<&ResourceNode>)
        ensures
            match r {
                Some(node) => spec_descend(self@, path@) == Some(node@),
                None => spec_descend(self@, path@) is None,
            },
    {
        let mut current: &ResourceNode = self;
        let mut i: usize = 0;
        proof {
            assert(path@.skip(0) =~= path@);
        }
        while i < path.len()
            invariant
                i <= path@.len(),
                spec_descend(self@, path@) == spec_descend(current@, path@.skip(i as int)),
            decreases path@.len() - i,
        {
            let index = path[i];
            proof {
                lemma_node_children(*current);
                assert(path@.skip(i as int)[0] == index);
                assert(path@.skip(i as int).drop_first() =~= path@.skip(i + 1));
            }
            if index >= current.children.len() {
                return None;
            }
            proof {
                assert(current@.children[index as int] == current.children@[index as int]@);
            }
            match &current.children[index].contents {
                ResourceType::Node(node) => {
                    current = node;
                },
                _ => {
                    return None;
                },
            }
            i += 1;
        }
        Some(current)
    }
}

} // verus!
