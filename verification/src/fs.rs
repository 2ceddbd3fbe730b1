//! The store of nodes and the operations on the tree.

use crate::error::FsError;
use crate::laws::{
    lemma_create_then_locate, lemma_create_wf, lemma_enter_wf, lemma_path_to_found,
    lemma_remove_wf,
};
use crate::model::{
    entry_names, lemma_path_complete, lemma_path_error, names_to, path_to, reaches_root, resolve,
    segments, slashed, Tree,
};
use crate::node::{entries, names_of, view_nodes, FsNode, NodeType};
use crate::path::{split_path, starts_at_root};
use crate::order::{ascending, lemma_ascending_distinct, lemma_ascending_unique, sorted};
use crate::snapshot::{
    ascending_ids, is_snapshot, lists, read_snapshot, render, restored, snapshot_of,
    snapshot_text,
};
use std::collections::HashMap;
use vstd::prelude::*;
use vstd::std_specs::iter::IteratorSpec;
use vstd::string::StringExecFns;

verus! {

/// The tree: every node under its identifier, the highest identifier given
/// out so far, and the current directory.
pub struct FileSystem {
    counter: usize,
    cwd: usize,
    nodes: HashMap<usize, FsNode>,
}

impl View for FileSystem {
    type V = Tree;

    closed spec fn view(&self) -> Tree {
        Tree { counter: self.counter, cwd: self.cwd, nodes: view_nodes(self.nodes@) }
    }
}

impl FileSystem {
    /// A tree that holds only the root directory, which is also the current
    /// directory.
    pub fn new() -> (fs: FileSystem)
        ensures
            fs@ == Tree::initial(),
            fs@.wf(),
    {
        broadcast use vstd::std_specs::hash::group_hash_axioms;

        let counter: usize = 0;
        let root = FsNode::new_dir_node("/", counter);
        let mut nodes: HashMap<usize, FsNode> = HashMap::new();
        nodes.insert(counter, root);
        let fs = FileSystem { counter, cwd: counter, nodes };
        proof {
            reveal_strlit("/");
            assert("/"@ =~= seq!['/']);
            assert(fs@.nodes =~= Tree::initial().nodes);
            assert(path_to(fs@.nodes, 0, 0) is Ok);
        }
        fs
    }

    /// The highest identifier given out so far.
    pub fn counter(&self) -> (n: usize)
        ensures
            n == self@.counter,
    {
        self.counter
    }

    /// The identifier of the current directory.
    pub fn cwd(&self) -> (id: usize)
        ensures
            id == self@.cwd,
    {
        self.cwd
    }

    /// How many nodes the store holds, those out of reach included.
    pub fn node_count(&self) -> (n: usize)
        ensures
            n == self@.nodes.dom().len(),
    {
        broadcast use vstd::std_specs::hash::group_hash_axioms;

        assert(self@.nodes.dom() =~= self.nodes@.dom());
        self.nodes.len()
    }

    /// The node stored under `id`.
    pub fn get(&self, id: usize) -> (r: Result<&FsNode, FsError>)
        ensures
            match r {
                Ok(node) => self@.nodes.contains_key(id) && node@ == self@.nodes[id],
                Err(e) => e == FsError::NotFound && !self@.nodes.contains_key(id),
            },
    {
        broadcast use vstd::std_specs::hash::group_hash_axioms;

        match self.nodes.get(&id) {
            Some(node) => Ok(node),
            None => Err(FsError::NotFound),
        }
    }

    /// Stores `node` under `id`, in place of any node stored there before.
    pub fn insert(&mut self, id: usize, node: FsNode)
        ensures
            final(self)@ == (Tree { nodes: old(self)@.nodes.insert(id, node@), ..old(self)@ }),
    {
        broadcast use vstd::std_specs::hash::group_hash_axioms;

        self.nodes.insert(id, node);
        assert(self@.nodes =~= old(self)@.nodes.insert(id, node@));
    }

    /// Gives out the next identifier: one more than the last.
    pub fn next_id(&mut self) -> (id: usize)
        requires
            old(self)@.counter < usize::MAX,
        ensures
            id == old(self)@.counter + 1,
            final(self)@ == (Tree { counter: id, ..old(self)@ }),
            old(self)@.wf() ==> final(self)@.wf(),
    {
        self.counter = self.counter + 1;
        self.counter
    }

    /// Follows the first `count` names of `path` downwards from `start_id`.
    fn walk(&self, start_id: usize, path: &Vec<String>, count: usize) -> (r: Result<
        usize,
        FsError,
    >)
        requires
            count <= path.len(),
        ensures
            r == resolve(self@.nodes, start_id, names_of(path@).subrange(0, count as int)),
    {
        broadcast use vstd::std_specs::hash::group_hash_axioms;

        let ghost names = names_of(path@).subrange(0, count as int);
        let mut cur: usize = start_id;
        let mut i: usize = 0;
        assert(names.subrange(0, count as int) =~= names);
        while i < count
            invariant
                i <= count <= path.len(),
                names == names_of(path@).subrange(0, count as int),
                resolve(self@.nodes, start_id, names) == resolve(
                    self@.nodes,
                    cur,
                    names.subrange(i as int, count as int),
                ),
            decreases count - i,
        {
            let ghost rest = names.subrange(i as int, count as int);
            assert(rest.drop_first() =~= names.subrange(i + 1, count as int));
            assert(rest[0] == path@[i as int]@);
            match self.nodes.get(&cur) {
                None => {
                    return Err(FsError::NotFound);
                },
                Some(node) => {
                    if node.is_dir_node() {
                        match node.child(&path[i]) {
                            Some(next) => {
                                cur = next;
                            },
                            None => {
                                return Err(FsError::NoSuchEntry);
                            },
                        }
                    } else {
                        return Err(FsError::NotADirectory);
                    }
                },
            }
            i += 1;
        }
        Ok(cur)
    }

    /// Follows `path` downwards from the node `start_id` and returns the
    /// node reached, which may be a file.
    ///
    /// Fails with `NoSuchEntry` where a directory does not list the next
    /// name, and with `NotADirectory` where a name is left to follow at a
    /// file.
    pub fn find(&self, start_id: usize, path: &Vec<String>) -> (r: Result<usize, FsError>)
        ensures
            r == resolve(self@.nodes, start_id, names_of(path@)),
    {
        assert(names_of(path@).subrange(0, path@.len() as int) =~= names_of(path@));
        self.walk(start_id, path, path.len())
    }

    /// Where the resolution of `path_name` starts: at the root for a path
    /// with a leading slash, else at the current directory.
    fn start_id(&self, path_name: &str) -> (id: usize)
        ensures
            id == self@.start(path_name@),
    {
        if starts_at_root(path_name) {
            0
        } else {
            self.cwd
        }
    }

    /// The node that `path_name` leads to.
    pub fn locate(&self, path_name: &str) -> (r: Result<usize, FsError>)
        ensures
            r == self@.locate(path_name@),
    {
        let path = split_path(path_name);
        let start = self.start_id(path_name);
        self.find(start, &path)
    }

    /// The directory in which a node can be created at `path_name`, whose
    /// names are `path`, or the reason why none can be.
    fn create_site(&self, path_name: &str, path: &Vec<String>) -> (r: Result<usize, FsError>)
        requires
            names_of(path@) == segments(path_name@),
        ensures
            r == self@.create_site(path_name@),
    {
        broadcast use vstd::std_specs::hash::group_hash_axioms;

        let n = path.len();
        if n == 0 {
            return Err(FsError::MissingOperand);
        }
        let start = self.start_id(path_name);
        let ghost names = names_of(path@);
        assert(names.subrange(0, n - 1) =~= names.drop_last());
        let parent_id = match self.walk(start, path, n - 1) {
            Ok(p) => p,
            Err(e) => {
                return Err(e);
            },
        };
        match self.nodes.get(&parent_id) {
            None => Err(FsError::NotFound),
            Some(node) => {
                if !node.is_dir_node() {
                    Err(FsError::NotADirectory)
                } else if node.child(&path[n - 1]).is_some() {
                    Err(FsError::AlreadyExists)
                } else {
                    Ok(parent_id)
                }
            },
        }
    }

    /// Why `mkdir` and `creat` would refuse `path_name`, if they would.
    /// `None` means that a node can be created there.
    pub fn creation_error(&self, path_name: &str) -> (r: Option<FsError>)
        ensures
            match self@.create_site(path_name@) {
                Ok(_) => r is None,
                Err(e) => r == Some(e),
            },
    {
        let path = split_path(path_name);
        match self.create_site(path_name, &path) {
            Ok(_) => None,
            Err(e) => Some(e),
        }
    }

    /// Creates a directory (`dir`) or a file at `path_name`.
    fn create_node(&mut self, path_name: &str, dir: bool) -> (r: Result<(), FsError>)
        requires
            old(self)@.counter < usize::MAX || old(self)@.create_site(path_name@) is Err,
        ensures
            match old(self)@.create(path_name@, dir) {
                Ok(tree) => r is Ok && final(self)@ == tree,
                Err(e) => r == Err::<(), FsError>(e) && *final(self) == *old(self),
            },
            old(self)@.wf() ==> final(self)@.wf(),
            old(self)@.wf() && r is Ok ==> final(self)@.locate(path_name@) == Ok::<usize, FsError>(
                final(self)@.counter,
            ),
            r is Ok ==> final(self)@.counter == old(self)@.counter + 1,
            old(self)@.wf() && r is Ok ==> !old(self)@.nodes.contains_key(final(self)@.counter),
    {
        broadcast use vstd::std_specs::hash::group_hash_axioms;

        let path = split_path(path_name);
        let parent_id = match self.create_site(path_name, &path) {
            Ok(p) => p,
            Err(e) => {
                return Err(e);
            },
        };
        let n = path.len();
        let id = self.next_id();
        let name = path[n - 1].clone();
        let child = if dir {
            FsNode::new_dir_node(name.as_str(), parent_id)
        } else {
            FsNode::new_file_node(name.as_str(), parent_id)
        };
        match self.nodes.remove(&parent_id) {
            Some(mut parent) => {
                parent.add_child(name, id);
                self.nodes.insert(parent_id, parent);
            },
            None => {},
        }
        self.insert(id, child);
        proof {
            let tree = old(self)@.create(path_name@, dir)->Ok_0;
            assert(self@.nodes =~= tree.nodes);
            if old(self)@.wf() {
                lemma_create_wf(old(self)@, path_name@, dir, id);
                lemma_create_then_locate(old(self)@, path_name@, dir, id);
            }
        }
        Ok(())
    }

    /// Creates an empty directory at `path_name`. In a consistent store the
    /// path then leads to the new directory, whose identifier is the new
    /// value of the counter.
    ///
    /// A new node needs a new identifier, so the counter must have room for
    /// one more; a call that is refused needs none.
    ///
    /// Fails with `MissingOperand` if the path holds no name, with the
    /// resolver's error if the names before the last lead nowhere, with
    /// `NotADirectory` if they lead to a file, and with `AlreadyExists` if
    /// the last name is taken.
    pub fn mkdir(&mut self, path_name: &str) -> (r: Result<(), FsError>)
        requires
            old(self)@.counter < usize::MAX || old(self)@.create_site(path_name@) is Err,
        ensures
            match old(self)@.create(path_name@, true) {
                Ok(tree) => r is Ok && final(self)@ == tree,
                Err(e) => r == Err::<(), FsError>(e) && *final(self) == *old(self),
            },
            old(self)@.wf() ==> final(self)@.wf(),
            old(self)@.wf() && r is Ok ==> final(self)@.locate(path_name@) == Ok::<usize, FsError>(
                final(self)@.counter,
            ),
            r is Ok ==> final(self)@.counter == old(self)@.counter + 1,
            old(self)@.wf() && r is Ok ==> !old(self)@.nodes.contains_key(final(self)@.counter),
    {
        self.create_node(path_name, true)
    }

    /// Creates a file at `path_name`. Fails as `mkdir` does.
    pub fn creat(&mut self, path_name: &str) -> (r: Result<(), FsError>)
        requires
            old(self)@.counter < usize::MAX || old(self)@.create_site(path_name@) is Err,
        ensures
            match old(self)@.create(path_name@, false) {
                Ok(tree) => r is Ok && final(self)@ == tree,
                Err(e) => r == Err::<(), FsError>(e) && *final(self) == *old(self),
            },
            old(self)@.wf() ==> final(self)@.wf(),
            old(self)@.wf() && r is Ok ==> final(self)@.locate(path_name@) == Ok::<usize, FsError>(
                final(self)@.counter,
            ),
            r is Ok ==> final(self)@.counter == old(self)@.counter + 1,
            old(self)@.wf() && r is Ok ==> !old(self)@.nodes.contains_key(final(self)@.counter),
    {
        self.create_node(path_name, false)
    }

    /// Takes the node `id`, which the store holds, out of its parent's
    /// entries.
    fn unlink(&mut self, id: usize, name: &String, parent_id: usize) -> (r: Result<(), FsError>)
        requires
            old(self)@.nodes.contains_key(id),
            old(self)@.nodes[id].name == name@,
            old(self)@.nodes[id].parent == parent_id,
        ensures
            match old(self)@.unlink(id) {
                Ok(tree) => r is Ok && final(self)@ == tree,
                Err(e) => r == Err::<(), FsError>(e) && *final(self) == *old(self),
            },
    {
        broadcast use vstd::std_specs::hash::group_hash_axioms;

        if !self.nodes.contains_key(&parent_id) {
            return Err(FsError::NotFound);
        }
        match self.nodes.remove(&parent_id) {
            Some(mut parent) => {
                parent.remove_child(name);
                self.nodes.insert(parent_id, parent);
            },
            None => {},
        }
        proof {
            let tree = old(self)@.unlink(id)->Ok_0;
            assert(self@.nodes =~= tree.nodes);
        }
        Ok(())
    }

    /// Removes the empty directory at `path_name` from its parent.
    ///
    /// Fails with the resolver's error if the path leads nowhere, with
    /// `NotADirectory` if it leads to a file, and with `DirectoryNotEmpty`
    /// if the directory lists a child.
    pub fn rmdir(&mut self, path_name: &str) -> (r: Result<(), FsError>)
        ensures
            match old(self)@.remove_dir(path_name@) {
                Ok(tree) => r is Ok && final(self)@ == tree,
                Err(e) => r == Err::<(), FsError>(e) && *final(self) == *old(self),
            },
            old(self)@.wf() ==> final(self)@.wf(),
    {
        broadcast use vstd::std_specs::hash::group_hash_axioms;

        proof {
            if old(self)@.wf() {
                lemma_remove_wf(old(self)@, path_name@);
            }
        }

        let id = match self.locate(path_name) {
            Ok(id) => id,
            Err(e) => {
                return Err(e);
            },
        };
        let (name, parent_id) = match self.nodes.get(&id) {
            None => {
                return Err(FsError::NotFound);
            },
            Some(node) => {
                if !node.is_dir_node() {
                    return Err(FsError::NotADirectory);
                }
                if node.child_count() > 0 {
                    return Err(FsError::DirectoryNotEmpty);
                }
                (node.name.clone(), node.parent)
            },
        };
        self.unlink(id, &name, parent_id)
    }

    /// Removes the file at `path_name` from its parent.
    ///
    /// Fails with the resolver's error if the path leads nowhere and with
    /// `NotAFile` if it leads to a directory.
    pub fn rm(&mut self, path_name: &str) -> (r: Result<(), FsError>)
        ensures
            match old(self)@.remove_file(path_name@) {
                Ok(tree) => r is Ok && final(self)@ == tree,
                Err(e) => r == Err::<(), FsError>(e) && *final(self) == *old(self),
            },
            old(self)@.wf() ==> final(self)@.wf(),
    {
        broadcast use vstd::std_specs::hash::group_hash_axioms;

        proof {
            if old(self)@.wf() {
                lemma_remove_wf(old(self)@, path_name@);
            }
        }

        let id = match self.locate(path_name) {
            Ok(id) => id,
            Err(e) => {
                return Err(e);
            },
        };
        let (name, parent_id) = match self.nodes.get(&id) {
            None => {
                return Err(FsError::NotFound);
            },
            Some(node) => {
                if node.is_dir_node() {
                    return Err(FsError::NotAFile);
                }
                (node.name.clone(), node.parent)
            },
        };
        self.unlink(id, &name, parent_id)
    }

    /// The directory to list or to enter: the current one if no path is
    /// given, else the one that the path leads to.
    fn directory(&self, path: &Option<String>) -> (r: Result<usize, FsError>)
        ensures
            r == self@.target(view_path(*path)),
    {
        broadcast use vstd::std_specs::hash::group_hash_axioms;

        let id = match path {
            Some(p) => match self.locate(p.as_str()) {
                Ok(id) => id,
                Err(e) => {
                    return Err(e);
                },
            },
            None => self.cwd,
        };
        match self.nodes.get(&id) {
            None => Err(FsError::NotFound),
            Some(node) => if node.is_dir_node() {
                Ok(id)
            } else {
                Err(FsError::NotADirectory)
            },
        }
    }

    /// The identifiers of all nodes of the store, each once, in ascending
    /// order.
    pub fn node_ids(&self) -> (ids: Vec<usize>)
        ensures
            ids@ == ascending_ids(self@.nodes),
            lists(self@.nodes, ids@),
            ascending(ids@),
    {
        broadcast use vstd::std_specs::hash::group_hash_axioms;

        let mut found: Vec<usize> = Vec::new();
        let keys = self.nodes.keys();
        let ghost all: Seq<&usize> = keys.remaining();
        for id in it: keys
            invariant
                it.seq() == all,
                found@ == all.subrange(0, it.index() as int).unref(),
        {
            found.push(*id);
        }
        let ids = sorted(&found);
        proof {
            assert(found@ =~= all.unref());
            assert(self@.nodes.dom() =~= self.nodes@.dom());
            lemma_ascending_distinct(ids@);
            assert(lists(self@.nodes, ids@));
            lemma_ascending_unique(ids@, ascending_ids(self@.nodes));
        }
        ids
    }

    /// The snapshot of the store: the counter and the number of nodes, a
    /// name line for every node, then a node line for every node, both in
    /// ascending order of the identifiers.
    pub fn save(&self) -> (text: String)
        ensures
            text@ == snapshot_of(self@),
            is_snapshot(self@, text@),
    {
        let order = self.node_ids();
        proof {
            assert forall|i: int| 0 <= i < order@.len() implies self.nodes@.contains_key(
                order@[i],
            ) by {
                assert(order@.to_set().contains(order@[i]));
                assert(self@.nodes.dom().contains(order@[i]));
            }
        }
        let text = render(self.counter, &self.nodes, &order);
        assert(lists(self@.nodes, order@) && text@ == snapshot_text(
            self@.counter,
            self@.nodes,
            order@,
        ));
        text
    }

    /// Replaces the whole store by the one that the snapshot `text` gives,
    /// with the root as the current directory.
    ///
    /// Fails with `MalformedHeader`, `MalformedIndexLine`,
    /// `MalformedBodyLine`, `DanglingSelfReference` or
    /// `DanglingChildReference`, whichever the first faulty line calls
    /// for, and then leaves the store as it was.
    pub fn reload(&mut self, text: &str) -> (r: Result<(), FsError>)
        ensures
            match restored(text@) {
                Ok(tree) => r is Ok && final(self)@ == tree,
                Err(e) => r == Err::<(), FsError>(e) && *final(self) == *old(self),
            },
    {
        match read_snapshot(text) {
            Ok((counter, nodes)) => {
                self.nodes = nodes;
                self.cwd = 0;
                self.counter = counter;
                Ok(())
            },
            Err(e) => Err(e),
        }
    }

    /// Whether the parents of the node `id` lead up to the root: none of
    /// them is missing from the store, and they do not run in a circle.
    pub fn reaches_root(&self, id: usize) -> (b: bool)
        ensures
            b == reaches_root(self@.nodes, id),
    {
        broadcast use vstd::std_specs::hash::group_hash_axioms;

        let ghost nodes = self@.nodes;
        let ghost total = nodes.dom().len();
        proof {
            assert(nodes.dom() =~= self.nodes@.dom());
            if reaches_root(nodes, id) {
                let steps = choose|steps: nat| path_to(nodes, id, steps) is Ok;
                lemma_path_complete(nodes, id, steps);
            }
        }
        let mut cur: usize = id;
        let mut left: usize = self.nodes.len();
        while cur != 0
            invariant
                nodes == self@.nodes,
                reaches_root(nodes, id) == (path_to(nodes, id, total) is Ok),
                (path_to(nodes, id, total) is Ok) == (path_to(nodes, cur, left as nat) is Ok),
            decreases left,
        {
            if left == 0 {
                return false;
            }
            match self.nodes.get(&cur) {
                None => {
                    return false;
                },
                Some(node) => {
                    cur = node.parent;
                    left -= 1;
                },
            }
        }
        true
    }

    /// Whether the node `id`, which is `node`, is as consistency asks.
    fn node_consistent(&self, id: usize, node: &FsNode) -> (b: bool)
        requires
            self@.nodes.contains_key(id),
            node@ == self@.nodes[id],
        ensures
            b == self@.node_ok(id),
    {
        broadcast use vstd::std_specs::hash::group_hash_axioms;

        if id > self.counter {
            return false;
        }
        if !self.reaches_root(id) {
            return false;
        }
        if id != 0 {
            match self.nodes.get(&node.parent) {
                None => {
                    return false;
                },
                Some(parent) => {
                    if !parent.is_dir_node() {
                        return false;
                    }
                },
            }
        }
        match &node.node_type {
            NodeType::File => true,
            NodeType::Dir { children } => {
                let ghost es = self@.nodes[id].children();
                let mut i: usize = 0;
                while i < children.len()
                    invariant
                        i <= children.len(),
                        es == entries(children@),
                        es == self@.nodes[id].children(),
                        forall|k: int| 0 <= k < i ==> self@.entry_ok(id, #[trigger] es[k]),
                        forall|a: int, b: int|
                            0 <= a < b < i ==> (#[trigger] es[a]).name != (#[trigger] es[b]).name,
                    decreases children.len() - i,
                {
                    let child_id = children[i].1;
                    if child_id == 0 {
                        assert(!self@.entry_ok(id, es[i as int]));
                        return false;
                    }
                    match self.nodes.get(&child_id) {
                        None => {
                            assert(!self@.entry_ok(id, es[i as int]));
                            return false;
                        },
                        Some(child) => {
                            if !(child.name == children[i].0) || child.parent != id {
                                assert(!self@.entry_ok(id, es[i as int]));
                                return false;
                            }
                        },
                    }
                    let mut j: usize = 0;
                    while j < i
                        invariant
                            j <= i < children.len(),
                            es == entries(children@),
                            es == self@.nodes[id].children(),
                            forall|a: int| 0 <= a < j ==> (#[trigger] es[a]).name != es[i as int].name,
                        decreases i - j,
                    {
                        if children[j].0 == children[i].0 {
                            assert(es[j as int].name == es[i as int].name);
                            return false;
                        }
                        j += 1;
                    }
                    i += 1;
                }
                true
            },
        }
    }

    /// Whether the store is consistent: the root and the current directory
    /// are in order, no identifier exceeds the counter, every parent is a
    /// directory, the parents of every node lead up to the root, and every
    /// directory lists existing nodes under their own names, each name
    /// once.
    ///
    /// Every store that the operations make from a new one is consistent;
    /// one that `reload` took from a text need not be.
    pub fn is_consistent(&self) -> (b: bool)
        ensures
            b == self@.wf(),
    {
        broadcast use vstd::std_specs::hash::group_hash_axioms;

        proof {
            self@.lemma_wf_by_node();
            assert(self@.nodes.dom() =~= self.nodes@.dom());
        }
        match self.nodes.get(&0) {
            None => {
                return false;
            },
            Some(root) => {
                let slash = "/".to_owned();
                proof {
                    reveal_strlit("/");
                    assert("/"@ =~= seq!['/']);
                }
                if !root.is_dir_node() || root.parent != 0 || !(root.name == slash) {
                    return false;
                }
            },
        }
        match self.nodes.get(&self.cwd) {
            None => {
                return false;
            },
            Some(dir) => {
                if !dir.is_dir_node() {
                    return false;
                }
            },
        }
        let ids = self.node_ids();
        let mut i: usize = 0;
        while i < ids.len()
            invariant
                i <= ids.len(),
                lists(self@.nodes, ids@),
                forall|k: int| 0 <= k < i ==> self@.node_ok(#[trigger] ids@[k]),
            decreases ids.len() - i,
        {
            let id = ids[i];
            proof {
                assert(ids@.to_set().contains(ids@[i as int]));
                assert(self@.nodes.contains_key(id));
            }
            match self.nodes.get(&id) {
                None => {
                    return false;
                },
                Some(node) => {
                    if !self.node_consistent(id, node) {
                        return false;
                    }
                },
            }
            i += 1;
        }
        proof {
            assert forall|id: usize| #[trigger] self@.nodes.contains_key(id) implies self@.node_ok(
                id,
            ) by {
                assert(ids@.to_set().contains(id));
                let k = choose|k: int| 0 <= k < ids@.len() && ids@[k] == id;
                assert(self@.node_ok(ids@[k]));
            }
        }
        true
    }

    /// The names of the children of a directory, in the order of their
    /// creation: of the current directory if no path is given, else of the
    /// directory that the path leads to.
    ///
    /// Fails with the resolver's error if the path leads nowhere and with
    /// `NotADirectory` if it leads to a file.
    pub fn ls(&self, path: Option<String>) -> (r: Result<Vec<String>, FsError>)
        ensures
            match self@.target(view_path(path)) {
                Ok(id) => r is Ok && names_of(r->Ok_0@) == entry_names(
                    self@.nodes[id].children(),
                ),
                Err(e) => r == Err::<Vec<String>, FsError>(e),
            },
    {
        broadcast use vstd::std_specs::hash::group_hash_axioms;

        let id = match self.directory(&path) {
            Ok(id) => id,
            Err(e) => {
                return Err(e);
            },
        };
        let mut names: Vec<String> = Vec::new();
        match self.nodes.get(&id) {
            None => {},
            Some(node) => match &node.node_type {
                NodeType::File => {},
                NodeType::Dir { children } => {
                    let mut i: usize = 0;
                    while i < children.len()
                        invariant
                            i <= children.len(),
                            names@.len() == i,
                            forall|j: int| 0 <= j < i ==> names@[j]@ == children@[j].0@,
                        decreases children.len() - i,
                    {
                        names.push(children[i].0.clone());
                        i += 1;
                    }
                    assert(names_of(names@) =~= entry_names(self@.nodes[id].children()));
                },
            },
        }
        Ok(names)
    }

    /// Changes the current directory: to the root if no path is given, else
    /// to the directory that the path leads to.
    ///
    /// Fails with the resolver's error if the path leads nowhere and with
    /// `NotADirectory` if it leads to a file.
    pub fn cd(&mut self, path: Option<String>) -> (r: Result<(), FsError>)
        ensures
            match old(self)@.enter(view_path(path)) {
                Ok(tree) => r is Ok && final(self)@ == tree,
                Err(e) => r == Err::<(), FsError>(e) && *final(self) == *old(self),
            },
            old(self)@.wf() ==> final(self)@.wf(),
    {
        proof {
            if old(self)@.wf() {
                lemma_enter_wf(old(self)@, view_path(path));
            }
        }
        match path {
            None => {
                self.cwd = 0;
                Ok(())
            },
            Some(_) => match self.directory(&path) {
                Ok(id) => {
                    self.cwd = id;
                    Ok(())
                },
                Err(e) => Err(e),
            },
        }
    }

    /// The path of the current directory: `/` for the root, else the names
    /// from the root down, each with a `/` before it.
    ///
    /// Fails with `NotFound` if the parents of the current directory do not
    /// lead up to the root, because one of them is missing from the store
    /// or because they run in a circle. That cannot happen in a consistent
    /// store.
    pub fn pwd(&self) -> (r: Result<String, FsError>)
        ensures
            match self@.working_path() {
                Ok(path) => r is Ok && r->Ok_0@ == path,
                Err(e) => r == Err::<String, FsError>(e),
            },
            self@.wf() ==> r is Ok,
    {
        broadcast use vstd::std_specs::hash::group_hash_axioms;

        let ghost nodes = self@.nodes;
        let ghost total = nodes.dom().len();
        proof {
            assert(nodes.dom() =~= self.nodes@.dom());
            if self@.wf() {
                lemma_path_to_found(self@, self@.cwd);
            }
            if reaches_root(nodes, self@.cwd) {
                let steps = choose|steps: nat| path_to(nodes, self@.cwd, steps) is Ok;
                lemma_path_complete(nodes, self@.cwd, steps);
            }
            if path_to(nodes, self@.cwd, total) is Ok {
                lemma_path_complete(nodes, self@.cwd, total);
            } else {
                lemma_path_error(nodes, self@.cwd, total);
            }
        }
        assert(names_to(nodes, self@.cwd) == path_to(nodes, self@.cwd, total));
        let mut found: Vec<String> = Vec::new();
        let ghost mut tail: Seq<Seq<char>> = Seq::empty();
        let mut cur: usize = self.cwd;
        let mut left: usize = self.nodes.len();
        assert(forall|up: Seq<Seq<char>>| up + tail =~= up);
        while cur != 0
            invariant
                nodes == self@.nodes,
                tail.len() == found@.len(),
                names_to(nodes, self@.cwd) == path_to(nodes, self@.cwd, total),
                self@.wf() ==> names_to(nodes, self@.cwd) is Ok,
                forall|j: int| 0 <= j < tail.len() ==> tail[j] == found@[tail.len() - 1 - j]@,
                path_to(nodes, self@.cwd, total) == match path_to(nodes, cur, left as nat) {
                    Ok(up) => Ok::<Seq<Seq<char>>, FsError>(up + tail),
                    Err(e) => Err(e),
                },
            decreases left,
        {
            if left == 0 {
                return Err(FsError::NotFound);
            }
            match self.nodes.get(&cur) {
                None => {
                    return Err(FsError::NotFound);
                },
                Some(node) => {
                    proof {
                        let up = path_to(nodes, node.parent, (left - 1) as nat);
                        if up is Ok {
                            assert(up->Ok_0.push(node.name@) + tail =~= up->Ok_0 + (seq![
                                node.name@,
                            ] + tail));
                        }
                        tail = seq![node.name@] + tail;
                    }
                    found.push(node.name.clone());
                    cur = node.parent;
                    left -= 1;
                },
            }
        }
        assert(Seq::<Seq<char>>::empty() + tail =~= tail);
        let mut out = String::new();
        if found.len() == 0 {
            crate::text::push_char(&mut out, '/');
            assert(out@ =~= seq!['/']);
            return Ok(out);
        }
        let mut k: usize = found.len();
        assert(tail.subrange(0, 0) =~= Seq::<Seq<char>>::empty());
        while k > 0
            invariant
                k <= found@.len(),
                tail.len() == found@.len(),
                forall|j: int| 0 <= j < tail.len() ==> tail[j] == found@[tail.len() - 1 - j]@,
                out@ == slashed(tail.subrange(0, found@.len() - k)),
            decreases k,
        {
            let ghost done = tail.subrange(0, found@.len() - k);
            let ghost next = tail.subrange(0, found@.len() - k + 1);
            assert(next.drop_last() =~= done);
            crate::text::push_char(&mut out, '/');
            out.append(found[k - 1].as_str());
            k -= 1;
        }
        assert(tail.subrange(0, found@.len() as int) =~= tail);
        Ok(out)
    }
}

/// An optional path as the model sees it.
pub open spec fn view_path(path: Option<String>) -> Option<Seq<char>> {
    match path {
        Some(p) => Some(p@),
        None => None,
    }
}

} // verus!
