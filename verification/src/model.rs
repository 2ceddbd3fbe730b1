//! The mathematical model of the tree: what a node is, when a store is
//! consistent, and what it means to follow a path.

use crate::error::FsError;
use crate::text::split;
use vstd::prelude::*;

verus! {

/// One line of a directory: the name of a child and the child's identifier.
pub struct Entry {
    pub name: Seq<char>,
    pub id: usize,
}

/// What a node holds besides its name and parent.
pub enum Content {
    File,
    Dir { children: Seq<Entry> },
}

/// A node of the tree.
pub struct Node {
    pub name: Seq<char>,
    pub parent: usize,
    pub content: Content,
}

/// The whole store: the nodes by identifier, the highest identifier ever
/// given out, and the directory that relative paths start from.
pub struct Tree {
    pub counter: usize,
    pub cwd: usize,
    pub nodes: Map<usize, Node>,
}

/// Index of the first entry called `name`, or `children.len()` if none is.
pub open spec fn position(children: Seq<Entry>, name: Seq<char>) -> int
    decreases children.len(),
{
    if children.len() == 0 || children[0].name == name {
        0
    } else {
        1 + position(children.drop_first(), name)
    }
}

/// The identifier listed under `name`, if any.
pub open spec fn lookup(children: Seq<Entry>, name: Seq<char>) -> Option<usize> {
    let k = position(children, name);
    if 0 <= k < children.len() {
        Some(children[k].id)
    } else {
        None
    }
}

/// `position` stands at the first entry called `name`, or at the end.
pub proof fn lemma_position(children: Seq<Entry>, name: Seq<char>)
    ensures
        0 <= position(children, name) <= children.len(),
        forall|j: int| 0 <= j < position(children, name) ==> children[j].name != name,
        position(children, name) < children.len() ==> children[position(children, name)].name
            == name,
    decreases children.len(),
{
    if children.len() == 0 || children[0].name == name {
    } else {
        let t = children.drop_first();
        lemma_position(t, name);
        assert forall|j: int| 0 <= j < position(children, name) implies children[j].name
            != name by {
            if j > 0 {
                assert(t[j - 1] == children[j]);
            }
        }
    }
}

/// `position` is the only index with no entry called `name` before it and
/// such an entry, or the end, at it.
pub proof fn lemma_position_is(children: Seq<Entry>, name: Seq<char>, k: int)
    requires
        0 <= k <= children.len(),
        forall|j: int| 0 <= j < k ==> children[j].name != name,
        k < children.len() ==> children[k].name == name,
    ensures
        position(children, name) == k,
    decreases children.len(),
{
    if children.len() == 0 || children[0].name == name {
    } else {
        let t = children.drop_first();
        assert forall|j: int| 0 <= j < k - 1 implies t[j].name != name by {
            assert(t[j] == children[j + 1]);
        }
        lemma_position_is(t, name, k - 1);
    }
}

/// The entries of `children` without the first one called `name`.
pub open spec fn without(children: Seq<Entry>, name: Seq<char>) -> Seq<Entry> {
    let k = position(children, name);
    if 0 <= k < children.len() {
        children.remove(k)
    } else {
        children
    }
}

/// The pieces of `parts` that are not empty, in order.
pub open spec fn drop_empty(parts: Seq<Seq<char>>) -> Seq<Seq<char>>
    decreases parts.len(),
{
    if parts.len() == 0 {
        Seq::empty()
    } else {
        let front = drop_empty(parts.drop_last());
        if parts.last().len() > 0 {
            front.push(parts.last())
        } else {
            front
        }
    }
}

/// The names that a path consists of: its pieces between slashes, empty
/// pieces left out. `.` and `..` are names like any other.
pub open spec fn segments(path: Seq<char>) -> Seq<Seq<char>> {
    drop_empty(split(path, '/'))
}

/// Whether a path starts at the root rather than at the current directory.
pub open spec fn is_absolute(path: Seq<char>) -> bool {
    path.len() > 0 && path[0] == '/'
}

/// Follows `names` downwards from the node `cur`.
///
/// In a directory the next name is looked up among the children, and a
/// name that is not listed is `NoSuchEntry`. A file has no children: with a
/// name left to follow it is `NotADirectory`. With no name left the node
/// reached is the result, be it a directory or a file.
pub open spec fn resolve(nodes: Map<usize, Node>, cur: usize, names: Seq<Seq<char>>) -> Result<
    usize,
    FsError,
>
    decreases names.len(),
{
    if names.len() == 0 {
        Ok(cur)
    } else if !nodes.contains_key(cur) {
        Err(FsError::NotFound)
    } else {
        match nodes[cur].content {
            Content::Dir { children } => match lookup(children, names[0]) {
                Some(next) => resolve(nodes, next, names.drop_first()),
                None => Err(FsError::NoSuchEntry),
            },
            Content::File => Err(FsError::NotADirectory),
        }
    }
}

/// The names on the way from the root down to the node `id`, the root's own
/// name left out, as far as `steps` steps from parent to parent lead up to
/// the root.
pub open spec fn path_to(nodes: Map<usize, Node>, id: usize, steps: nat) -> Result<
    Seq<Seq<char>>,
    FsError,
>
    decreases steps,
{
    if id == 0 {
        Ok(Seq::empty())
    } else if steps == 0 || !nodes.contains_key(id) {
        Err(FsError::NotFound)
    } else {
        match path_to(nodes, nodes[id].parent, (steps - 1) as nat) {
            Ok(names) => Ok(names.push(nodes[id].name)),
            Err(e) => Err(e),
        }
    }
}

/// Whether the parents of the node `id` lead up to the root: none of them
/// is missing from the store, and they do not run in a circle.
pub open spec fn reaches_root(nodes: Map<usize, Node>, id: usize) -> bool {
    exists|steps: nat| path_to(nodes, id, steps) is Ok
}

/// The names on the way from the root down to the node `id`, the root's own
/// name left out; `NotFound` if the parents of `id` do not lead up to the
/// root.
pub open spec fn names_to(nodes: Map<usize, Node>, id: usize) -> Result<Seq<Seq<char>>, FsError> {
    if reaches_root(nodes, id) {
        path_to(nodes, id, choose|steps: nat| path_to(nodes, id, steps) is Ok)
    } else {
        Err(FsError::NotFound)
    }
}

/// The way up depends on the parents and the names of the nodes alone: in
/// a store that holds the same nodes with the same parents and names, and
/// maybe more nodes, it is the same.
pub proof fn lemma_path_frame(
    nodes: Map<usize, Node>,
    other: Map<usize, Node>,
    id: usize,
    steps: nat,
)
    requires
        path_to(nodes, id, steps) is Ok,
        forall|k: usize| #[trigger]
            nodes.contains_key(k) ==> other.contains_key(k) && other[k].parent == nodes[k].parent
                && other[k].name == nodes[k].name,
    ensures
        path_to(other, id, steps) == path_to(nodes, id, steps),
    decreases steps,
{
    if id != 0 {
        lemma_path_frame(nodes, other, nodes[id].parent, (steps - 1) as nat);
    }
}

/// The only error on the way up is `NotFound`.
pub proof fn lemma_path_error(nodes: Map<usize, Node>, id: usize, steps: nat)
    ensures
        path_to(nodes, id, steps) is Err ==> path_to(nodes, id, steps) == Err::<
            Seq<Seq<char>>,
            FsError,
        >(FsError::NotFound),
    decreases steps,
{
    if id != 0 && steps > 0 && nodes.contains_key(id) {
        lemma_path_error(nodes, nodes[id].parent, (steps - 1) as nat);
    }
}

/// More steps than needed change nothing.
pub proof fn lemma_path_steps(nodes: Map<usize, Node>, id: usize, few: nat, many: nat)
    requires
        path_to(nodes, id, few) is Ok,
        few <= many,
    ensures
        path_to(nodes, id, many) == path_to(nodes, id, few),
    decreases few,
{
    if id != 0 {
        lemma_path_steps(nodes, nodes[id].parent, (few - 1) as nat, (many - 1) as nat);
    }
}

/// A way up takes as many steps as it has names.
pub proof fn lemma_path_len(nodes: Map<usize, Node>, id: usize, steps: nat)
    requires
        path_to(nodes, id, steps) is Ok,
    ensures
        path_to(nodes, id, steps)->Ok_0.len() <= steps,
        path_to(nodes, id, path_to(nodes, id, steps)->Ok_0.len()) == path_to(nodes, id, steps),
    decreases steps,
{
    if id != 0 {
        lemma_path_len(nodes, nodes[id].parent, (steps - 1) as nat);
    }
}

/// The nodes of the store, the root apart, from which at most `steps` steps
/// lead up to the root.
pub open spec fn near_root(nodes: Map<usize, Node>, steps: nat) -> Set<usize> {
    nodes.dom().filter(|id: usize| id != 0 && path_to(nodes, id, steps) is Ok)
}

/// A way up of `steps` names passes as many nodes of the store.
proof fn lemma_path_nodes(nodes: Map<usize, Node>, id: usize, steps: nat)
    requires
        nodes.dom().finite(),
        path_to(nodes, id, steps) is Ok,
        path_to(nodes, id, steps)->Ok_0.len() == steps,
    ensures
        near_root(nodes, steps).finite(),
        near_root(nodes, steps).len() >= steps,
    decreases steps,
{
    let near = near_root(nodes, steps);
    vstd::set_lib::lemma_len_subset(near, nodes.dom());
    if steps > 0 {
        let fewer = (steps - 1) as nat;
        let closer = near_root(nodes, fewer);
        lemma_path_nodes(nodes, nodes[id].parent, fewer);
        assert(near.contains(id));
        assert forall|x: usize| closer.contains(x) implies near.remove(id).contains(x) by {
            lemma_path_steps(nodes, x, fewer, steps);
            if x == id {
                lemma_path_len(nodes, id, fewer);
            }
        }
        vstd::set_lib::lemma_len_subset(closer, near.remove(id));
    }
}

/// Where the parents of a node lead up to the root at all, as many steps
/// as the store has nodes are enough.
pub proof fn lemma_path_complete(nodes: Map<usize, Node>, id: usize, steps: nat)
    requires
        nodes.dom().finite(),
        path_to(nodes, id, steps) is Ok,
    ensures
        path_to(nodes, id, nodes.dom().len()) == path_to(nodes, id, steps),
        names_to(nodes, id) == path_to(nodes, id, steps),
{
    let exact = path_to(nodes, id, steps)->Ok_0.len();
    lemma_path_len(nodes, id, steps);
    lemma_path_nodes(nodes, id, exact);
    vstd::set_lib::lemma_len_subset(near_root(nodes, exact), nodes.dom());
    lemma_path_steps(nodes, id, exact, nodes.dom().len());
    let chosen = choose|k: nat| path_to(nodes, id, k) is Ok;
    lemma_path_len(nodes, id, chosen);
    let other = path_to(nodes, id, chosen)->Ok_0.len();
    if other <= exact {
        lemma_path_steps(nodes, id, other, exact);
    } else {
        lemma_path_steps(nodes, id, exact, other);
    }
}

/// Every name with a `/` before it, one after the other.
pub open spec fn slashed(names: Seq<Seq<char>>) -> Seq<char>
    decreases names.len(),
{
    if names.len() == 0 {
        Seq::empty()
    } else {
        slashed(names.drop_last()) + seq!['/'] + names.last()
    }
}

/// The path that the names spell, from the root down: `/` alone for no
/// name, else every name with a `/` before it.
pub open spec fn join_path(names: Seq<Seq<char>>) -> Seq<char> {
    if names.len() == 0 {
        seq!['/']
    } else {
        slashed(names)
    }
}

/// The names of the entries, in order.
pub open spec fn entry_names(children: Seq<Entry>) -> Seq<Seq<char>> {
    Seq::new(children.len(), |i: int| children[i].name)
}

/// The node `id` if it is a directory of the store, or the reason why it is
/// not.
pub open spec fn directory_at(nodes: Map<usize, Node>, id: usize) -> Result<usize, FsError> {
    if !nodes.contains_key(id) {
        Err(FsError::NotFound)
    } else if !nodes[id].is_dir() {
        Err(FsError::NotADirectory)
    } else {
        Ok(id)
    }
}

impl Node {
    /// Whether the node is a directory.
    pub open spec fn is_dir(self) -> bool {
        self.content is Dir
    }

    /// The entries of a directory; a file has none.
    pub open spec fn children(self) -> Seq<Entry> {
        match self.content {
            Content::Dir { children } => children,
            Content::File => Seq::empty(),
        }
    }

    /// The same node with other entries, if it is a directory.
    pub open spec fn with_children(self, children: Seq<Entry>) -> Node {
        match self.content {
            Content::Dir { .. } => Node { content: Content::Dir { children }, ..self },
            Content::File => self,
        }
    }
}

impl Tree {
    /// A store that holds only the root directory.
    pub open spec fn initial() -> Tree {
        Tree {
            counter: 0,
            cwd: 0,
            nodes: Map::empty().insert(
                0usize,
                Node {
                    name: seq!['/'],
                    parent: 0,
                    content: Content::Dir { children: Seq::empty() },
                },
            ),
        }
    }

    /// The consistency of a store.
    ///
    /// The root is node 0, a directory called `/` and its own parent. The
    /// current directory is an existing directory. No identifier exceeds
    /// the counter. Every other node has an existing directory as its
    /// parent, and the parents of every node lead up to the root. Every
    /// entry of a directory names an existing node other than the root,
    /// which carries the entry's name and has that directory as its parent;
    /// no directory lists a name twice.
    pub open spec fn wf(self) -> bool {
        &&& self.nodes.dom().finite()
        &&& self.nodes.contains_key(0)
        &&& self.nodes[0].is_dir()
        &&& self.nodes[0].parent == 0
        &&& self.nodes[0].name == seq!['/']
        &&& self.nodes.contains_key(self.cwd)
        &&& self.nodes[self.cwd].is_dir()
        &&& forall|id: usize| #[trigger] self.nodes.contains_key(id) ==> id <= self.counter
        &&& forall|id: usize| #[trigger]
            self.nodes.contains_key(id) && id != 0 ==> {
                let p = self.nodes[id].parent;
                self.nodes.contains_key(p) && self.nodes[p].is_dir()
            }
        &&& forall|id: usize| #[trigger]
            self.nodes.contains_key(id) ==> reaches_root(self.nodes, id)
        &&& forall|id: usize, i: int|
            self.nodes.contains_key(id) && 0 <= i < self.nodes[id].children().len() ==> {
                let e = #[trigger] self.nodes[id].children()[i];
                &&& e.id != 0
                &&& self.nodes.contains_key(e.id)
                &&& self.nodes[e.id].name == e.name
                &&& self.nodes[e.id].parent == id
            }
        &&& forall|id: usize, i: int, j: int|
            self.nodes.contains_key(id) && 0 <= i < j < self.nodes[id].children().len()
                ==> (#[trigger] self.nodes[id].children()[i]).name
                != (#[trigger] self.nodes[id].children()[j]).name
    }

    /// What consistency asks of one entry of the directory `id`.
    pub open spec fn entry_ok(self, id: usize, e: Entry) -> bool {
        &&& e.id != 0
        &&& self.nodes.contains_key(e.id)
        &&& self.nodes[e.id].name == e.name
        &&& self.nodes[e.id].parent == id
    }

    /// What consistency asks of the node `id`.
    pub open spec fn node_ok(self, id: usize) -> bool {
        let node = self.nodes[id];
        &&& id <= self.counter
        &&& id != 0 ==> self.nodes.contains_key(node.parent) && self.nodes[node.parent].is_dir()
        &&& reaches_root(self.nodes, id)
        &&& forall|i: int|
            0 <= i < node.children().len() ==> self.entry_ok(id, #[trigger] node.children()[i])
        &&& forall|i: int, j: int|
            0 <= i < j < node.children().len() ==> (#[trigger] node.children()[i]).name != (
            #[trigger] node.children()[j]).name
    }

    /// What consistency asks of the root and of the current directory.
    pub open spec fn anchored(self) -> bool {
        &&& self.nodes.dom().finite()
        &&& self.nodes.contains_key(0)
        &&& self.nodes[0].is_dir()
        &&& self.nodes[0].parent == 0
        &&& self.nodes[0].name == seq!['/']
        &&& self.nodes.contains_key(self.cwd)
        &&& self.nodes[self.cwd].is_dir()
    }

    /// A store is consistent if and only if its root and current directory
    /// are in order and every node is.
    pub proof fn lemma_wf_by_node(self)
        ensures
            self.wf() <==> self.anchored() && forall|id: usize| #[trigger]
                self.nodes.contains_key(id) ==> self.node_ok(id),
    {
        if self.wf() {
            assert forall|id: usize| #[trigger] self.nodes.contains_key(id) implies self.node_ok(
                id,
            ) by {
                let node = self.nodes[id];
                assert forall|i: int| 0 <= i < node.children().len() implies self.entry_ok(
                    id,
                    #[trigger] node.children()[i],
                ) by {
                    let e = self.nodes[id].children()[i];
                }
                assert forall|i: int, j: int| 0 <= i < j < node.children().len() implies (
                #[trigger] node.children()[i]).name != (#[trigger] node.children()[j]).name by {
                    let a = self.nodes[id].children()[i];
                    let b = self.nodes[id].children()[j];
                }
            }
        }
        if self.anchored() && forall|id: usize| #[trigger]
            self.nodes.contains_key(id) ==> self.node_ok(id) {
            assert forall|id: usize, i: int|
                self.nodes.contains_key(id) && 0 <= i < self.nodes[id].children().len() implies {
                let e = #[trigger] self.nodes[id].children()[i];
                &&& e.id != 0
                &&& self.nodes.contains_key(e.id)
                &&& self.nodes[e.id].name == e.name
                &&& self.nodes[e.id].parent == id
            } by {
                assert(self.node_ok(id));
                assert(self.entry_ok(id, self.nodes[id].children()[i]));
            }
            assert forall|id: usize, i: int, j: int|
                self.nodes.contains_key(id) && 0 <= i < j < self.nodes[id].children().len() implies (
            #[trigger] self.nodes[id].children()[i]).name != (
            #[trigger] self.nodes[id].children()[j]).name by {
                assert(self.node_ok(id));
            }
            assert forall|id: usize| #[trigger] self.nodes.contains_key(id) && id != 0 implies {
                let p = self.nodes[id].parent;
                self.nodes.contains_key(p) && self.nodes[p].is_dir()
            } by {
                assert(self.node_ok(id));
            }
            assert forall|id: usize| #[trigger] self.nodes.contains_key(id) implies reaches_root(
                self.nodes,
                id,
            ) by {
                assert(self.node_ok(id));
            }
            assert forall|id: usize| #[trigger] self.nodes.contains_key(id) implies id
                <= self.counter by {
                assert(self.node_ok(id));
            }
        }
    }

    /// Where the resolution of `path` starts.
    pub open spec fn start(self, path: Seq<char>) -> usize {
        if is_absolute(path) {
            0
        } else {
            self.cwd
        }
    }

    /// The node that `path` leads to.
    pub open spec fn locate(self, path: Seq<char>) -> Result<usize, FsError> {
        resolve(self.nodes, self.start(path), segments(path))
    }

    /// The directory in which a node can be created at `path`: the one that
    /// the names before the last lead to, if it does not list the last name
    /// yet. Else the reason why no node can be created: `MissingOperand`
    /// for a path without a name, the resolver's error if the names before
    /// the last lead nowhere, `NotADirectory` if they lead to a file, and
    /// `AlreadyExists` if the last name is taken.
    pub open spec fn create_site(self, path: Seq<char>) -> Result<usize, FsError> {
        let names = segments(path);
        if names.len() == 0 {
            Err(FsError::MissingOperand)
        } else {
            match resolve(self.nodes, self.start(path), names.drop_last()) {
                Err(e) => Err(e),
                Ok(p) => if !self.nodes.contains_key(p) {
                    Err(FsError::NotFound)
                } else if !self.nodes[p].is_dir() {
                    Err(FsError::NotADirectory)
                } else if lookup(self.nodes[p].children(), names.last()) is Some {
                    Err(FsError::AlreadyExists)
                } else {
                    Ok(p)
                },
            }
        }
    }

    /// The store after a node called by the last name of `path` has been
    /// created, under the identifier `id`, in the directory that the names
    /// before it lead to, or the reason why none can be. The new node is
    /// the last entry of that directory, and the counter moves on to `id`.
    pub open spec fn create_at(self, path: Seq<char>, dir: bool, id: usize) -> Result<
        Tree,
        FsError,
    > {
        match self.create_site(path) {
            Err(e) => Err(e),
            Ok(p) => {
                let name = segments(path).last();
                let child = Node {
                    name,
                    parent: p,
                    content: if dir {
                        Content::Dir { children: Seq::empty() }
                    } else {
                        Content::File
                    },
                };
                let parent = self.nodes[p].with_children(
                    self.nodes[p].children().push(Entry { name, id }),
                );
                Ok(
                    Tree {
                        counter: id,
                        cwd: self.cwd,
                        nodes: self.nodes.insert(p, parent).insert(id, child),
                    },
                )
            },
        }
    }

    /// The store after a node has been created at `path` under the next
    /// identifier, one more than the counter, or the reason why none can
    /// be.
    pub open spec fn create(self, path: Seq<char>, dir: bool) -> Result<Tree, FsError> {
        self.create_at(path, dir, (self.counter + 1) as usize)
    }

    /// The store after the node `id` has been taken out of its parent's
    /// entries. The node itself stays in the store, out of reach.
    pub open spec fn unlink(self, id: usize) -> Result<Tree, FsError> {
        let p = self.nodes[id].parent;
        if !self.nodes.contains_key(p) {
            Err(FsError::NotFound)
        } else {
            let parent = self.nodes[p].with_children(
                without(self.nodes[p].children(), self.nodes[id].name),
            );
            Ok(Tree { nodes: self.nodes.insert(p, parent), ..self })
        }
    }

    /// The store after the directory at `path` has been removed, or the
    /// reason why it cannot be.
    pub open spec fn remove_dir(self, path: Seq<char>) -> Result<Tree, FsError> {
        match self.locate(path) {
            Err(e) => Err(e),
            Ok(id) => if !self.nodes.contains_key(id) {
                Err(FsError::NotFound)
            } else if !self.nodes[id].is_dir() {
                Err(FsError::NotADirectory)
            } else if self.nodes[id].children().len() > 0 {
                Err(FsError::DirectoryNotEmpty)
            } else {
                self.unlink(id)
            },
        }
    }

    /// The store after the file at `path` has been removed, or the reason
    /// why it cannot be.
    pub open spec fn remove_file(self, path: Seq<char>) -> Result<Tree, FsError> {
        match self.locate(path) {
            Err(e) => Err(e),
            Ok(id) => if !self.nodes.contains_key(id) {
                Err(FsError::NotFound)
            } else if self.nodes[id].is_dir() {
                Err(FsError::NotAFile)
            } else {
                self.unlink(id)
            },
        }
    }

    /// The directory that `path` leads to, or the reason why it leads to
    /// none.
    pub open spec fn directory(self, path: Seq<char>) -> Result<usize, FsError> {
        match self.locate(path) {
            Err(e) => Err(e),
            Ok(id) => directory_at(self.nodes, id),
        }
    }

    /// The directory that an optional path stands for: the current one if
    /// there is no path.
    pub open spec fn target(self, path: Option<Seq<char>>) -> Result<usize, FsError> {
        match path {
            Some(p) => self.directory(p),
            None => directory_at(self.nodes, self.cwd),
        }
    }

    /// The store after a change of the current directory: to the root if
    /// there is no path, else to the directory that the path leads to.
    pub open spec fn enter(self, path: Option<Seq<char>>) -> Result<Tree, FsError> {
        match path {
            None => Ok(Tree { cwd: 0, ..self }),
            Some(p) => match self.directory(p) {
                Ok(id) => Ok(Tree { cwd: id, ..self }),
                Err(e) => Err(e),
            },
        }
    }

    /// The path of the current directory; `NotFound` if its parents do not
    /// lead up to the root.
    pub open spec fn working_path(self) -> Result<Seq<char>, FsError> {
        match names_to(self.nodes, self.cwd) {
            Ok(names) => Ok(join_path(names)),
            Err(e) => Err(e),
        }
    }
}

} // verus!
