//! The nodes that the store holds.

use crate::model::{lemma_position_is, lookup, position, without, Content, Entry, Node};
use vstd::prelude::*;

verus! {

/// What kind of node this is. Only a directory has children: each entry
/// pairs a child's name with its identifier, in the order of creation.
///
/// The entries are a list that is searched by name, not a hash map keyed by
/// the name: what a lookup gives is then proved from the characters of the
/// names alone, and the order of creation is kept.
#[derive(Debug)]
pub enum NodeType {
    File,
    Dir { children: Vec<(String, usize)> },
}

/// A file or a directory, with its name and the identifier of its parent.
#[derive(Debug)]
pub struct FsNode {
    pub name: String,
    pub parent: usize,
    pub node_type: NodeType,
}

/// The entries of a directory as the model sees them.
pub open spec fn entries(children: Seq<(String, usize)>) -> Seq<Entry> {
    Seq::new(children.len(), |i: int| Entry { name: children[i].0@, id: children[i].1 })
}

/// The names of a list of strings.
pub open spec fn names_of(v: Seq<String>) -> Seq<Seq<char>> {
    Seq::new(v.len(), |i: int| v[i]@)
}

/// The nodes of a store as the model sees them.
pub open spec fn view_nodes(m: Map<usize, FsNode>) -> Map<usize, Node> {
    Map::new(|id: usize| m.contains_key(id), |id: usize| m[id]@)
}

impl View for NodeType {
    type V = Content;

    open spec fn view(&self) -> Content {
        match self {
            NodeType::File => Content::File,
            NodeType::Dir { children } => Content::Dir { children: entries(children@) },
        }
    }
}

impl View for FsNode {
    type V = Node;

    open spec fn view(&self) -> Node {
        Node { name: self.name@, parent: self.parent, content: self.node_type@ }
    }
}

/// Index of the first entry called `name`, or the number of entries if none
/// is.
pub fn child_index(children: &Vec<(String, usize)>, name: &String) -> (k: usize)
    ensures
        k == position(entries(children@), name@),
        k <= children.len(),
{
    let mut i: usize = 0;
    while i < children.len()
        invariant
            i <= children.len(),
            forall|j: int| 0 <= j < i ==> entries(children@)[j].name != name@,
        decreases children.len() - i,
    {
        if children[i].0 == *name {
            proof {
                lemma_position_is(entries(children@), name@, i as int);
            }
            return i;
        }
        i += 1;
    }
    proof {
        lemma_position_is(entries(children@), name@, i as int);
    }
    i
}

impl FsNode {
    /// A file called `name` under the node `parent`.
    pub fn new_file_node(name: &str, parent: usize) -> (node: FsNode)
        ensures
            node@ == (Node { name: name@, parent, content: Content::File }),
    {
        FsNode { name: name.to_owned(), parent, node_type: NodeType::File }
    }

    /// A directory without children, called `name`, under the node `parent`.
    pub fn new_dir_node(name: &str, parent: usize) -> (node: FsNode)
        ensures
            node@ == (Node {
                name: name@,
                parent,
                content: Content::Dir { children: Seq::empty() },
            }),
    {
        let node = FsNode {
            name: name.to_owned(),
            parent,
            node_type: NodeType::Dir { children: Vec::new() },
        };
        assert(entries(Seq::<(String, usize)>::empty()) =~= Seq::<Entry>::empty());
        node
    }

    /// Whether the node is a file.
    pub fn is_file_node(&self) -> (b: bool)
        ensures
            b == !self@.is_dir(),
    {
        match self.node_type {
            NodeType::File => true,
            NodeType::Dir { .. } => false,
        }
    }

    /// Whether the node is a directory.
    pub fn is_dir_node(&self) -> (b: bool)
        ensures
            b == self@.is_dir(),
    {
        !self.is_file_node()
    }

    /// The identifier that this directory lists under `name`.
    pub fn child(&self, name: &String) -> (r: Option<usize>)
        ensures
            r == lookup(self@.children(), name@),
    {
        match &self.node_type {
            NodeType::File => {
                assert(position(Seq::<Entry>::empty(), name@) == 0);
                None
            },
            NodeType::Dir { children } => {
                let k = child_index(children, name);
                if k < children.len() {
                    Some(children[k].1)
                } else {
                    None
                }
            },
        }
    }

    /// How many children this node lists.
    pub fn child_count(&self) -> (n: usize)
        ensures
            n == self@.children().len(),
    {
        match &self.node_type {
            NodeType::File => 0,
            NodeType::Dir { children } => children.len(),
        }
    }

    /// Lists `id` under `name` as the last child, if this is a directory.
    pub fn add_child(&mut self, name: String, id: usize)
        ensures
            final(self)@ == old(self)@.with_children(
                old(self)@.children().push(Entry { name: name@, id }),
            ),
    {
        match &mut self.node_type {
            NodeType::File => {},
            NodeType::Dir { children } => {
                children.push((name, id));
                assert(entries(children@) =~= entries(old(self).node_type->children@).push(
                    Entry { name: name@, id },
                ));
            },
        }
    }

    /// Takes the first child called `name` off the list, if there is one.
    pub fn remove_child(&mut self, name: &String)
        ensures
            final(self)@ == old(self)@.with_children(without(old(self)@.children(), name@)),
    {
        match &mut self.node_type {
            NodeType::File => {
                assert(position(Seq::<Entry>::empty(), name@) == 0);
            },
            NodeType::Dir { children } => {
                let k = child_index(children, name);
                if k < children.len() {
                    children.remove(k);
                    assert(entries(children@) =~= entries(
                        old(self).node_type->children@,
                    ).remove(k as int));
                }
            },
        }
    }
}

} // verus!
