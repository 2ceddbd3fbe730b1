//! What holds of the operations on a consistent store.

use crate::error::FsError;
use crate::model::{
    lemma_path_complete, lemma_path_frame, lemma_position, lemma_position_is, lookup, names_to,
    path_to, position, reaches_root, resolve, segments, without, Entry, Node, Tree,
};
use vstd::prelude::*;

verus! {

/// How many steps lead up from the node `id` to the root.
pub open spec fn depth(nodes: Map<usize, Node>, id: usize) -> nat {
    names_to(nodes, id)->Ok_0.len()
}

/// In a consistent store, a node that a directory lists is one step
/// further from the root than the directory.
pub proof fn lemma_child_depth(tree: Tree, dir: usize, i: int)
    requires
        tree.wf(),
        tree.nodes.contains_key(dir),
        0 <= i < tree.nodes[dir].children().len(),
    ensures
        depth(tree.nodes, tree.nodes[dir].children()[i].id) == depth(tree.nodes, dir) + 1,
{
    let e = tree.nodes[dir].children()[i];
    assert(reaches_root(tree.nodes, dir));
    let steps = choose|steps: nat| path_to(tree.nodes, dir, steps) is Ok;
    lemma_path_complete(tree.nodes, dir, steps);
    assert(path_to(tree.nodes, e.id, steps + 1) is Ok);
    lemma_path_complete(tree.nodes, e.id, steps + 1);
}

/// In a consistent store, following names from a node of the store leads
/// to a node of the store, one step further from the root for every name.
pub proof fn lemma_resolve_deeper(tree: Tree, cur: usize, names: Seq<Seq<char>>)
    requires
        tree.wf(),
        tree.nodes.contains_key(cur),
        resolve(tree.nodes, cur, names) is Ok,
    ensures
        tree.nodes.contains_key(resolve(tree.nodes, cur, names)->Ok_0),
        depth(tree.nodes, resolve(tree.nodes, cur, names)->Ok_0) == depth(tree.nodes, cur)
            + names.len(),
    decreases names.len(),
{
    if names.len() > 0 {
        let children = tree.nodes[cur].children();
        let k = position(children, names[0]);
        lemma_position(children, names[0]);
        let e = tree.nodes[cur].children()[k];
        lemma_child_depth(tree, cur, k);
        lemma_resolve_deeper(tree, e.id, names.drop_first());
    }
}

/// In a consistent store, following names from a node of the store never
/// fails for want of a node.
pub proof fn lemma_resolve_found(tree: Tree, cur: usize, names: Seq<Seq<char>>)
    requires
        tree.wf(),
        tree.nodes.contains_key(cur),
    ensures
        resolve(tree.nodes, cur, names) != Err::<usize, FsError>(FsError::NotFound),
        resolve(tree.nodes, cur, names) matches Ok(id) ==> tree.nodes.contains_key(id),
    decreases names.len(),
{
    if names.len() > 0 && tree.nodes[cur].is_dir() {
        let children = tree.nodes[cur].children();
        let k = position(children, names[0]);
        lemma_position(children, names[0]);
        if k < children.len() {
            let e = tree.nodes[cur].children()[k];
            lemma_resolve_found(tree, e.id, names.drop_first());
        }
    }
}

/// In a consistent store, the names on the way from the root down to a
/// node of the store are to be had.
pub proof fn lemma_path_to_found(tree: Tree, id: usize)
    requires
        tree.wf(),
        tree.nodes.contains_key(id),
    ensures
        reaches_root(tree.nodes, id),
        names_to(tree.nodes, id) is Ok,
{
    assert(reaches_root(tree.nodes, id));
    let steps = choose|steps: nat| path_to(tree.nodes, id, steps) is Ok;
    lemma_path_complete(tree.nodes, id, steps);
}

/// Nothing is found under a file: from a file, any name to follow is
/// `NotADirectory`.
pub proof fn lemma_resolve_under_file(nodes: Map<usize, Node>, cur: usize, names: Seq<Seq<char>>)
    requires
        nodes.contains_key(cur),
        !nodes[cur].is_dir(),
        names.len() > 0,
    ensures
        resolve(nodes, cur, names) == Err::<usize, FsError>(FsError::NotADirectory),
{
}

/// In a consistent store no operation fails with `NotFound`, and the
/// current directory always has a path.
pub proof fn lemma_never_not_found(tree: Tree, path: Seq<char>, dir: bool)
    requires
        tree.wf(),
    ensures
        tree.locate(path) != Err::<usize, FsError>(FsError::NotFound),
        tree.create(path, dir) != Err::<Tree, FsError>(FsError::NotFound),
        tree.remove_dir(path) != Err::<Tree, FsError>(FsError::NotFound),
        tree.remove_file(path) != Err::<Tree, FsError>(FsError::NotFound),
        tree.target(Some(path)) != Err::<usize, FsError>(FsError::NotFound),
        tree.target(None) != Err::<usize, FsError>(FsError::NotFound),
        tree.enter(Some(path)) != Err::<Tree, FsError>(FsError::NotFound),
        tree.enter(None) is Ok,
        tree.working_path() is Ok,
{
    let names = segments(path);
    lemma_resolve_found(tree, tree.start(path), names);
    lemma_resolve_found(tree, tree.start(path), names.drop_last());
    lemma_path_to_found(tree, tree.cwd);
    if tree.locate(path) is Ok {
        let id = tree.locate(path)->Ok_0;
        lemma_unlink_wf(tree, id);
    }
}

/// Whether the directory `from` of the store lists `name` under `to`.
pub open spec fn leads(nodes: Map<usize, Node>, from: usize, name: Seq<char>, to: usize) -> bool {
    &&& nodes.contains_key(from)
    &&& nodes[from].is_dir()
    &&& lookup(nodes[from].children(), name) == Some(to)
}

/// Whether `way` holds the nodes that `names` lead along from `start`: one
/// node more than there are names, `start` first, and each node but the
/// last a directory that lists the next name under the next node.
pub open spec fn is_way(
    nodes: Map<usize, Node>,
    start: usize,
    names: Seq<Seq<char>>,
    way: Seq<usize>,
) -> bool {
    &&& way.len() == names.len() + 1
    &&& way[0] == start
    &&& forall|i: int|
        0 <= i < names.len() ==> leads(nodes, #[trigger] way[i], names[i], way[i + 1])
}

/// Names that lead somewhere lead along a way of directories, and the node
/// they lead to is its end.
pub proof fn lemma_resolve_way(nodes: Map<usize, Node>, start: usize, names: Seq<Seq<char>>) -> (way:
    Seq<usize>)
    requires
        resolve(nodes, start, names) is Ok,
    ensures
        is_way(nodes, start, names, way),
        way.last() == resolve(nodes, start, names)->Ok_0,
    decreases names.len(),
{
    if names.len() == 0 {
        seq![start]
    } else {
        let next = lookup(nodes[start].children(), names[0])->0;
        let rest = lemma_resolve_way(nodes, next, names.drop_first());
        let way = seq![start] + rest;
        assert forall|i: int| 0 <= i < names.len() implies leads(
            nodes,
            #[trigger] way[i],
            names[i],
            way[i + 1],
        ) by {
            if i > 0 {
                assert(way[i] == rest[i - 1]);
                assert(names[i] == names.drop_first()[i - 1]);
                assert(way[i + 1] == rest[i - 1 + 1]);
            } else {
                assert(way[1] == rest[0]);
            }
        }
        way
    }
}

/// Names lead to the end of the way of directories that they lead along,
/// and only where there is such a way do they lead anywhere.
pub proof fn lemma_way_resolves(
    nodes: Map<usize, Node>,
    start: usize,
    names: Seq<Seq<char>>,
    way: Seq<usize>,
)
    requires
        is_way(nodes, start, names, way),
    ensures
        resolve(nodes, start, names) == Ok::<usize, FsError>(way.last()),
    decreases names.len(),
{
    if names.len() > 0 {
        let rest = way.drop_first();
        let tail = names.drop_first();
        assert(leads(nodes, way[0], names[0], way[1]));
        assert forall|i: int| 0 <= i < tail.len() implies leads(
            nodes,
            #[trigger] rest[i],
            tail[i],
            rest[i + 1],
        ) by {
            assert(rest[i] == way[i + 1]);
            assert(leads(nodes, way[i + 1], names[i + 1], way[i + 1 + 1]));
        }
        lemma_way_resolves(nodes, way[1], tail, rest);
        assert(rest.last() == way.last());
    }
}

/// Whether following `names` from `start` breaks off after `k` names, at
/// the node `at`: the first `k` names lead to `at`, and the next name
/// cannot be followed there, because the store does not hold `at`
/// (`NotFound`), because the directory `at` does not list the name
/// (`NoSuchEntry`), or because `at` is a file (`NotADirectory`).
pub open spec fn breaks_at(
    nodes: Map<usize, Node>,
    start: usize,
    names: Seq<Seq<char>>,
    k: int,
    at: usize,
) -> bool {
    &&& 0 <= k < names.len()
    &&& resolve(nodes, start, names.subrange(0, k)) == Ok::<usize, FsError>(at)
    &&& resolve(nodes, start, names) == Err::<usize, FsError>(
        if !nodes.contains_key(at) {
            FsError::NotFound
        } else if nodes[at].is_dir() {
            FsError::NoSuchEntry
        } else {
            FsError::NotADirectory
        },
    )
    &&& nodes.contains_key(at) && nodes[at].is_dir() ==> lookup(nodes[at].children(), names[k])
        is None
}

/// Names that lead nowhere break off somewhere, and the error says why.
pub proof fn lemma_resolve_error(nodes: Map<usize, Node>, start: usize, names: Seq<Seq<char>>)
    requires
        resolve(nodes, start, names) is Err,
    ensures
        exists|k: int, at: usize| breaks_at(nodes, start, names, k, at),
    decreases names.len(),
{
    assert(names.subrange(0, 0) =~= Seq::<Seq<char>>::empty());
    if nodes.contains_key(start) && nodes[start].is_dir() && lookup(
        nodes[start].children(),
        names[0],
    ) is Some {
        let next = lookup(nodes[start].children(), names[0])->0;
        let tail = names.drop_first();
        lemma_resolve_error(nodes, next, tail);
        let (k, at) = choose|k: int, at: usize| breaks_at(nodes, next, tail, k, at);
        let front = names.subrange(0, k + 1);
        assert(front.drop_first() =~= tail.subrange(0, k));
        assert(front[0] == names[0]);
        assert(tail[k] == names[k + 1]);
        assert(breaks_at(nodes, start, names, k + 1, at));
    } else {
        assert(breaks_at(nodes, start, names, 0, start));
    }
}

/// Where names lead to a directory, one more name is followed from that
/// directory.
pub proof fn lemma_resolve_push(
    nodes: Map<usize, Node>,
    cur: usize,
    names: Seq<Seq<char>>,
    last: Seq<char>,
    dir: usize,
)
    requires
        resolve(nodes, cur, names) == Ok::<usize, FsError>(dir),
        nodes.contains_key(dir),
        nodes[dir].is_dir(),
    ensures
        resolve(nodes, cur, names.push(last)) == resolve(nodes, dir, seq![last]),
    decreases names.len(),
{
    if names.len() == 0 {
        assert(names.push(last) =~= seq![last]);
    } else {
        let full = names.push(last);
        assert(full[0] == names[0]);
        assert(full.drop_first() =~= names.drop_first().push(last));
        if nodes[cur].is_dir() {
            match lookup(nodes[cur].children(), names[0]) {
                Some(next) => {
                    lemma_resolve_push(nodes, next, names.drop_first(), last, dir);
                },
                None => {},
            }
        }
    }
}

/// The way to a directory of a consistent store does not depend on what
/// that directory holds, nor on nodes that the store does not hold.
pub proof fn lemma_resolve_frame(
    tree: Tree,
    other: Map<usize, Node>,
    cur: usize,
    names: Seq<Seq<char>>,
    dir: usize,
)
    requires
        tree.wf(),
        resolve(tree.nodes, cur, names) == Ok::<usize, FsError>(dir),
        tree.nodes.contains_key(dir),
        tree.nodes[dir].is_dir(),
        forall|k: usize| #[trigger]
            tree.nodes.contains_key(k) && k != dir ==> other.contains_key(k) && other[k]
                == tree.nodes[k],
    ensures
        resolve(other, cur, names) == Ok::<usize, FsError>(dir),
    decreases names.len(),
{
    if names.len() > 0 {
        let children = tree.nodes[cur].children();
        let k = position(children, names[0]);
        lemma_position(children, names[0]);
        if tree.nodes[cur].is_dir() {
            let e = tree.nodes[cur].children()[k];
            lemma_child_depth(tree, cur, k);
            lemma_resolve_deeper(tree, e.id, names.drop_first());
            if cur != dir {
                lemma_resolve_frame(tree, other, e.id, names.drop_first(), dir);
            }
        }
    }
}

/// Creating a node under an identifier above the counter keeps a
/// consistent store consistent.
pub proof fn lemma_create_wf(tree: Tree, path: Seq<char>, dir: bool, id: usize)
    requires
        tree.wf(),
        id > tree.counter,
        tree.create_at(path, dir, id) is Ok,
    ensures
        tree.create_at(path, dir, id)->Ok_0.wf(),
{
    let names = segments(path);
    let p = resolve(tree.nodes, tree.start(path), names.drop_last())->Ok_0;
    let after = tree.create_at(path, dir, id)->Ok_0;
    let old_children = tree.nodes[p].children();
    let entry = Entry { name: names.last(), id };
    lemma_position(old_children, names.last());
    assert(!tree.nodes.contains_key(id));
    assert(after.nodes[p].children() == old_children.push(entry));
    assert forall|k: usize| #[trigger] after.nodes.contains_key(k) && k != 0 implies {
        let q = after.nodes[k].parent;
        after.nodes.contains_key(q) && after.nodes[q].is_dir()
    } by {
        if k != id {
            assert(tree.nodes.contains_key(k));
        }
    }
    assert forall|k: usize| #[trigger] after.nodes.contains_key(k) implies reaches_root(
        after.nodes,
        k,
    ) by {
        let near = if k == id {
            p
        } else {
            k
        };
        assert(tree.nodes.contains_key(near));
        assert(reaches_root(tree.nodes, near));
        let steps = choose|steps: nat| path_to(tree.nodes, near, steps) is Ok;
        lemma_path_frame(tree.nodes, after.nodes, near, steps);
        if k == id {
            assert(path_to(after.nodes, id, steps + 1) is Ok);
        }
    }
    assert forall|k: usize, i: int|
        after.nodes.contains_key(k) && 0 <= i < after.nodes[k].children().len() implies {
        let e = #[trigger] after.nodes[k].children()[i];
        &&& e.id != 0
        &&& after.nodes.contains_key(e.id)
        &&& after.nodes[e.id].name == e.name
        &&& after.nodes[e.id].parent == k
    } by {
        if k == p {
            if i < old_children.len() {
                let e = tree.nodes[p].children()[i];
                assert(after.nodes[k].children()[i] == e);
            }
        } else if k != id {
            let e = tree.nodes[k].children()[i];
            assert(after.nodes[k].children()[i] == e);
        }
    }
    assert forall|k: usize, i: int, j: int|
        after.nodes.contains_key(k) && 0 <= i < j < after.nodes[k].children().len() implies (
    #[trigger] after.nodes[k].children()[i]).name != (#[trigger] after.nodes[k].children()[
        j
    ]).name by {
        if k == p {
            let a = tree.nodes[p].children()[i];
            if j < old_children.len() {
                let b = tree.nodes[p].children()[j];
            }
        } else if k != id {
            let a = tree.nodes[k].children()[i];
            let b = tree.nodes[k].children()[j];
        }
    }
}

/// Taking a node of a consistent store out of its parent's entries
/// succeeds and keeps the store consistent.
pub proof fn lemma_unlink_wf(tree: Tree, id: usize)
    requires
        tree.wf(),
        tree.nodes.contains_key(id),
    ensures
        tree.unlink(id) is Ok,
        tree.unlink(id)->Ok_0.wf(),
{
    let p = tree.nodes[id].parent;
    let name = tree.nodes[id].name;
    let after = tree.unlink(id)->Ok_0;
    let old_children = tree.nodes[p].children();
    let k = position(old_children, name);
    lemma_position(old_children, name);
    if k < old_children.len() {
        old_children.remove_ensures(k);
    }
    let new_children = without(old_children, name);
    assert(after.nodes[p].children() == new_children);
    assert forall|q: usize| #[trigger] after.nodes.contains_key(q) && q != 0 implies {
        let r = after.nodes[q].parent;
        after.nodes.contains_key(r) && after.nodes[r].is_dir()
    } by {
        assert(tree.nodes.contains_key(q));
    }
    assert forall|q: usize| #[trigger] after.nodes.contains_key(q) implies reaches_root(
        after.nodes,
        q,
    ) by {
        assert(tree.nodes.contains_key(q));
        assert(reaches_root(tree.nodes, q));
        let steps = choose|steps: nat| path_to(tree.nodes, q, steps) is Ok;
        lemma_path_frame(tree.nodes, after.nodes, q, steps);
    }
    assert forall|q: usize, i: int|
        after.nodes.contains_key(q) && 0 <= i < after.nodes[q].children().len() implies {
        let e = #[trigger] after.nodes[q].children()[i];
        &&& e.id != 0
        &&& after.nodes.contains_key(e.id)
        &&& after.nodes[e.id].name == e.name
        &&& after.nodes[e.id].parent == q
    } by {
        if q == p {
            let e = if i < k {
                tree.nodes[p].children()[i]
            } else {
                tree.nodes[p].children()[i + 1]
            };
            assert(after.nodes[q].children()[i] == e);
        } else {
            let e = tree.nodes[q].children()[i];
            assert(after.nodes[q].children()[i] == e);
        }
    }
    assert forall|q: usize, i: int, j: int|
        after.nodes.contains_key(q) && 0 <= i < j < after.nodes[q].children().len() implies (
    #[trigger] after.nodes[q].children()[i]).name != (#[trigger] after.nodes[q].children()[
        j
    ]).name by {
        if q == p {
            let a = if i < k {
                tree.nodes[p].children()[i]
            } else {
                tree.nodes[p].children()[i + 1]
            };
            let b = if j < k {
                tree.nodes[p].children()[j]
            } else {
                tree.nodes[p].children()[j + 1]
            };
        } else {
            let a = tree.nodes[q].children()[i];
            let b = tree.nodes[q].children()[j];
        }
    }
}

/// Removing a directory or a file keeps a consistent store consistent.
pub proof fn lemma_remove_wf(tree: Tree, path: Seq<char>)
    requires
        tree.wf(),
    ensures
        tree.remove_dir(path) is Ok ==> tree.remove_dir(path)->Ok_0.wf(),
        tree.remove_file(path) is Ok ==> tree.remove_file(path)->Ok_0.wf(),
{
    if tree.locate(path) is Ok {
        let id = tree.locate(path)->Ok_0;
        if tree.nodes.contains_key(id) {
            lemma_unlink_wf(tree, id);
        }
    }
}

/// Changing the current directory keeps a consistent store consistent.
pub proof fn lemma_enter_wf(tree: Tree, path: Option<Seq<char>>)
    requires
        tree.wf(),
    ensures
        tree.enter(path) is Ok ==> tree.enter(path)->Ok_0.wf(),
{
}

/// A path that has just been created leads to the new node. The new node
/// was not in the store before, carries the last name of the path, has no
/// children, and its identifier is the new value of the counter.
pub proof fn lemma_create_then_locate(tree: Tree, path: Seq<char>, dir: bool, id: usize)
    requires
        tree.wf(),
        id > tree.counter,
        tree.create_at(path, dir, id) is Ok,
    ensures
        ({
            let after = tree.create_at(path, dir, id)->Ok_0;
            &&& after.counter == id
            &&& after.locate(path) == Ok::<usize, FsError>(id)
            &&& !tree.nodes.contains_key(id)
            &&& after.nodes.contains_key(id)
            &&& after.nodes[id].is_dir() == dir
            &&& after.nodes[id].name == segments(path).last()
            &&& after.nodes[id].children().len() == 0
        }),
{
    let names = segments(path);
    let first = names.drop_last();
    let start = tree.start(path);
    let p = resolve(tree.nodes, start, first)->Ok_0;
    let after = tree.create_at(path, dir, id)->Ok_0;
    let old_children = tree.nodes[p].children();
    assert(!tree.nodes.contains_key(id));
    lemma_resolve_frame(tree, after.nodes, start, first, p);
    lemma_resolve_push(after.nodes, start, first, names.last(), p);
    assert(first.push(names.last()) =~= names);
    lemma_position(old_children, names.last());
    let new_children = after.nodes[p].children();
    assert(new_children == old_children.push(Entry { name: names.last(), id }));
    lemma_position_is(new_children, names.last(), old_children.len() as int);
    assert(seq![names.last()].drop_first() =~= Seq::<Seq<char>>::empty());
    assert(resolve(after.nodes, start, first) == Ok::<usize, FsError>(p));
    assert(lookup(new_children, names.last()) == Some(id));
    assert(resolve(after.nodes, id, Seq::empty()) == Ok::<usize, FsError>(id));
    assert(resolve(after.nodes, p, seq![names.last()]) == Ok::<usize, FsError>(id));
}

/// Creating the same path a second time fails with `AlreadyExists`,
/// whatever identifier would be next.
pub proof fn lemma_create_twice(
    tree: Tree,
    path: Seq<char>,
    first: bool,
    second: bool,
    id: usize,
    next: usize,
)
    requires
        tree.wf(),
        id > tree.counter,
        tree.create_at(path, first, id) is Ok,
    ensures
        tree.create_at(path, first, id)->Ok_0.create_at(path, second, next) == Err::<
            Tree,
            FsError,
        >(FsError::AlreadyExists),
        tree.create_at(path, first, id)->Ok_0.create(path, second) == Err::<Tree, FsError>(
            FsError::AlreadyExists,
        ),
{
    let names = segments(path);
    let front = names.drop_last();
    let start = tree.start(path);
    let p = resolve(tree.nodes, start, front)->Ok_0;
    let after = tree.create_at(path, first, id)->Ok_0;
    let old_children = tree.nodes[p].children();
    assert(!tree.nodes.contains_key(id));
    lemma_resolve_frame(tree, after.nodes, start, front, p);
    lemma_position(old_children, names.last());
    let new_children = after.nodes[p].children();
    assert(new_children == old_children.push(Entry { name: names.last(), id }));
    lemma_position_is(new_children, names.last(), old_children.len() as int);
}

/// A directory that lists a child cannot be removed.
pub proof fn lemma_remove_dir_not_empty(tree: Tree, path: Seq<char>)
    requires
        tree.directory(path) is Ok,
        tree.nodes[tree.directory(path)->Ok_0].children().len() > 0,
    ensures
        tree.remove_dir(path) == Err::<Tree, FsError>(FsError::DirectoryNotEmpty),
{
}

/// A directory whose only child has just been removed can be removed
/// itself.
pub proof fn lemma_remove_child_then_dir(tree: Tree, dir_path: Seq<char>, child_path: Seq<char>)
    requires
        tree.wf(),
        tree.directory(dir_path) is Ok,
        tree.locate(child_path) is Ok,
        ({
            let d = tree.directory(dir_path)->Ok_0;
            let c = tree.locate(child_path)->Ok_0;
            tree.nodes[d].children().len() == 1 && tree.nodes[d].children()[0].id == c
        }),
    ensures
        tree.remove_dir(dir_path) == Err::<Tree, FsError>(FsError::DirectoryNotEmpty),
        tree.remove_file(child_path) is Ok ==> tree.remove_file(child_path)->Ok_0.remove_dir(
            dir_path,
        ) is Ok,
        tree.remove_dir(child_path) is Ok ==> tree.remove_dir(child_path)->Ok_0.remove_dir(
            dir_path,
        ) is Ok,
{
    let d = tree.directory(dir_path)->Ok_0;
    let c = tree.locate(child_path)->Ok_0;
    let e = tree.nodes[d].children()[0];
    if tree.remove_file(child_path) is Ok || tree.remove_dir(child_path) is Ok {
        lemma_unlink_wf(tree, c);
        let after = tree.unlink(c)->Ok_0;
        let old_children = tree.nodes[d].children();
        lemma_position_is(old_children, tree.nodes[c].name, 0);
        assert(without(old_children, tree.nodes[c].name) =~= Seq::<Entry>::empty());
        lemma_resolve_frame(tree, after.nodes, tree.start(dir_path), segments(dir_path), d);
        lemma_unlink_wf(after, d);
    }
}

} // verus!
