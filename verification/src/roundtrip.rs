//! Reading back a snapshot gives the store that was written.

use crate::error::FsError;
use crate::model::{lemma_position_is, segments, Content, Entry, Node, Tree};
use crate::snapshot::{
    after_line, body_line, body_lines, body_row, fields, first_line, header_row, id_list,
    index_line, index_lines, index_row, is_snapshot, lists, parse_body, parse_body_line,
    parse_children, parse_header, parse_index, parse_index_line, put, restored, snapshot_text,
};
use crate::text::{
    decimal, free_of, is_space, lemma_decimal_chars, lemma_find_char_is, lemma_parse_decimal,
    lemma_split_concat, lemma_split_one, lemma_trim_plain, split,
};
use vstd::prelude::*;

verus! {

/// A name that a snapshot can carry: not empty, without a space or a line
/// break, and not ending in a blank.
pub open spec fn plain(name: Seq<char>) -> bool {
    &&& name.len() > 0
    &&& !is_space(name.last())
    &&& free_of(name, ' ')
    &&& free_of(name, '\n')
}

/// Whether every node of the store has a name that a snapshot can carry.
pub open spec fn plain_names(nodes: Map<usize, Node>) -> bool {
    forall|id: usize| #[trigger] nodes.contains_key(id) ==> plain(nodes[id].name)
}

/// The store that holds only the root has names that a snapshot can carry.
pub proof fn lemma_initial_plain()
    ensures
        plain_names(Tree::initial().nodes),
{
}

/// Creating a node whose name a snapshot can carry keeps the names of the
/// store such.
pub proof fn lemma_create_plain(tree: Tree, path: Seq<char>, dir: bool, id: usize)
    requires
        plain_names(tree.nodes),
        tree.create_at(path, dir, id) is Ok,
        plain(segments(path).last()),
    ensures
        plain_names(tree.create_at(path, dir, id)->Ok_0.nodes),
{
    let after = tree.create_at(path, dir, id)->Ok_0;
    assert forall|id: usize| #[trigger] after.nodes.contains_key(id) implies plain(
        after.nodes[id].name,
    ) by {
        if id != after.counter {
            assert(tree.nodes.contains_key(id));
        }
    }
}

/// Removing a node and changing the current directory leave the names of
/// the store as they are.
pub proof fn lemma_remove_plain(tree: Tree, path: Seq<char>)
    requires
        plain_names(tree.nodes),
    ensures
        tree.remove_dir(path) is Ok ==> plain_names(tree.remove_dir(path)->Ok_0.nodes),
        tree.remove_file(path) is Ok ==> plain_names(tree.remove_file(path)->Ok_0.nodes),
{
    if tree.locate(path) is Ok {
        let id = tree.locate(path)->Ok_0;
        if tree.unlink(id) is Ok {
            let after = tree.unlink(id)->Ok_0;
            assert forall|k: usize| #[trigger] after.nodes.contains_key(k) implies plain(
                after.nodes[k].name,
            ) by {
                assert(tree.nodes.contains_key(k));
            }
        }
    }
}

/// A row without a line break, followed by one, is the first line of the
/// text; what follows is the text after it.
proof fn lemma_first_line(row: Seq<char>, rest: Seq<char>)
    requires
        free_of(row, '\n'),
    ensures
        first_line(row + seq!['\n'] + rest) == row,
        after_line(row + seq!['\n'] + rest) == rest,
{
    let text = row + seq!['\n'] + rest;
    lemma_find_char_is(text, '\n', row.len() as int);
    assert(text.subrange(0, row.len() as int) =~= row);
    assert(text.subrange(row.len() as int + 1, text.len() as int) =~= rest);
}

/// Two words joined by a space are the two fields of that line.
proof fn lemma_fields2(a: Seq<char>, b: Seq<char>)
    requires
        a.len() > 0,
        b.len() > 0,
        !is_space(a[0]),
        !is_space(b.last()),
        free_of(a, ' '),
        free_of(b, ' '),
    ensures
        fields(a + seq![' '] + b) == seq![a, b],
{
    let row = a + seq![' '] + b;
    assert(row[0] == a[0]);
    assert(row.last() == b.last());
    lemma_trim_plain(row);
    lemma_split_concat(a, ' ', b);
    lemma_split_one(a, ' ');
    lemma_split_one(b, ' ');
    assert(seq![a] + seq![b] =~= seq![a, b]);
}

/// Three words joined by spaces are the three fields of that line.
proof fn lemma_fields3(a: Seq<char>, b: Seq<char>, c: Seq<char>)
    requires
        a.len() > 0,
        c.len() > 0,
        !is_space(a[0]),
        !is_space(c.last()),
        free_of(a, ' '),
        free_of(b, ' '),
        free_of(c, ' '),
    ensures
        fields(a + seq![' '] + b + seq![' '] + c) == seq![a, b, c],
{
    let row = a + seq![' '] + b + seq![' '] + c;
    assert(row[0] == a[0]);
    assert(row.last() == c.last());
    lemma_trim_plain(row);
    lemma_split_concat(a + seq![' '] + b, ' ', c);
    lemma_split_concat(a, ' ', b);
    lemma_split_one(a, ' ');
    lemma_split_one(b, ' ');
    lemma_split_one(c, ' ');
    assert(seq![a] + seq![b] + seq![c] =~= seq![a, b, c]);
}

/// Four words joined by spaces are the four fields of that line.
proof fn lemma_fields4(a: Seq<char>, b: Seq<char>, c: Seq<char>, d: Seq<char>)
    requires
        a.len() > 0,
        d.len() > 0,
        !is_space(a[0]),
        !is_space(d.last()),
        free_of(a, ' '),
        free_of(b, ' '),
        free_of(c, ' '),
        free_of(d, ' '),
    ensures
        fields(a + seq![' '] + b + seq![' '] + c + seq![' '] + d) == seq![a, b, c, d],
{
    let row = a + seq![' '] + b + seq![' '] + c + seq![' '] + d;
    assert(row[0] == a[0]);
    assert(row.last() == d.last());
    lemma_trim_plain(row);
    lemma_split_concat(a + seq![' '] + b + seq![' '] + c, ' ', d);
    lemma_split_concat(a + seq![' '] + b, ' ', c);
    lemma_split_concat(a, ' ', b);
    lemma_split_one(a, ' ');
    lemma_split_one(b, ' ');
    lemma_split_one(c, ' ');
    lemma_split_one(d, ' ');
    assert(seq![a] + seq![b] + seq![c] + seq![d] =~= seq![a, b, c, d]);
}

/// A written first line reads as the counter and the count it was written
/// from.
proof fn lemma_header_row(counter: usize, count: nat)
    requires
        count <= usize::MAX,
    ensures
        parse_header(header_row(counter, count)) == Some((counter, count as usize)),
        free_of(header_row(counter, count), '\n'),
{
    let a = decimal(counter as nat);
    let b = decimal(count);
    lemma_decimal_chars(counter as nat);
    lemma_decimal_chars(count);
    lemma_parse_decimal(counter as nat);
    lemma_parse_decimal(count);
    lemma_fields2(a, b);
}

/// A written name line reads as the identifier and the name it was written
/// from.
proof fn lemma_index_row(id: usize, node: Node)
    requires
        plain(node.name),
    ensures
        parse_index_line(index_row(id, node)) == Some((id, node.name)),
        free_of(index_row(id, node), '\n'),
{
    let a = decimal(id as nat);
    lemma_decimal_chars(id as nat);
    lemma_parse_decimal(id as nat);
    lemma_fields2(a, node.name);
}

/// The numerals of the identifiers of the entries.
spec fn id_items(children: Seq<Entry>) -> Seq<Seq<char>> {
    Seq::new(children.len(), |i: int| decimal(children[i].id as nat))
}

/// A written children field splits into the numerals of the identifiers,
/// and holds no blank.
proof fn lemma_id_list(children: Seq<Entry>)
    requires
        children.len() > 0,
    ensures
        split(id_list(children), ',') == id_items(children),
        id_list(children).len() > 0,
        !is_space(id_list(children).last()),
        free_of(id_list(children), ' '),
        free_of(id_list(children), '\n'),
    decreases children.len(),
{
    let last = decimal(children.last().id as nat);
    lemma_decimal_chars(children.last().id as nat);
    lemma_split_one(last, ',');
    if children.len() == 1 {
        assert(id_items(children) =~= seq![last]);
    } else {
        let front = children.drop_last();
        lemma_id_list(front);
        lemma_split_concat(id_list(front), ',', last);
        assert(id_items(front) + seq![last] =~= id_items(children));
        assert(id_list(children).last() == last.last());
    }
}

/// Whether the table gives every entry's identifier the entry's name, and
/// no two entries share a name.
spec fn entries_known(children: Seq<Entry>, index: Map<usize, Seq<char>>) -> bool {
    &&& forall|i: int|
        0 <= i < children.len() ==> index.contains_key((#[trigger] children[i]).id)
            && index[children[i].id] == children[i].name
    &&& forall|i: int, j: int|
        0 <= i < j < children.len() ==> (#[trigger] children[i]).name != (
        #[trigger] children[j]).name
}

/// The numerals of known entries read as those entries.
proof fn lemma_parse_children(children: Seq<Entry>, index: Map<usize, Seq<char>>)
    requires
        entries_known(children, index),
    ensures
        parse_children(id_items(children), index) == Ok::<Seq<Entry>, FsError>(children),
    decreases children.len(),
{
    if children.len() == 0 {
        assert(children =~= Seq::<Entry>::empty());
    } else {
        let front = children.drop_last();
        let e = children.last();
        assert(id_items(children).drop_last() =~= id_items(front));
        assert forall|i: int| 0 <= i < front.len() implies index.contains_key(
            (#[trigger] front[i]).id,
        ) && index[front[i].id] == front[i].name by {
            assert(front[i] == children[i]);
        }
        assert forall|i: int, j: int| 0 <= i < j < front.len() implies (#[trigger] front[i]).name
            != (#[trigger] front[j]).name by {
            assert(front[i] == children[i]);
            assert(front[j] == children[j]);
        }
        lemma_parse_children(front, index);
        lemma_parse_decimal(e.id as nat);
        assert forall|j: int| 0 <= j < front.len() implies front[j].name != e.name by {
            assert(front[j] == children[j]);
        }
        lemma_position_is(front, e.name, front.len() as int);
        assert(put(front, e.name, e.id) =~= children);
    }
}

/// A written node line reads as the node it was written from, given a
/// table that knows the node and its children.
proof fn lemma_body_row(id: usize, node: Node, index: Map<usize, Seq<char>>)
    requires
        index.contains_key(id),
        index[id] == node.name,
        entries_known(node.children(), index),
    ensures
        parse_body_line(body_row(id, node), index) == Ok::<(usize, Node), FsError>((id, node)),
        free_of(body_row(id, node), '\n'),
{
    let a = decimal(id as nat);
    let b = decimal(node.parent as nat);
    lemma_decimal_chars(id as nat);
    lemma_decimal_chars(node.parent as nat);
    lemma_parse_decimal(id as nat);
    lemma_parse_decimal(node.parent as nat);
    assert(seq!['D'][0] != seq!['F'][0]);
    match node.content {
        Content::File => {
            let row = seq!['F'] + seq![' '] + a + seq![' '] + b;
            assert(body_row(id, node) =~= row);
            lemma_fields3(seq!['F'], a, b);
        },
        Content::Dir { children } => {
            if children.len() == 0 {
                let row = seq!['D'] + seq![' '] + a + seq![' '] + b;
                assert(body_row(id, node) =~= row);
                lemma_fields3(seq!['D'], a, b);
                assert(children =~= Seq::<Entry>::empty());
            } else {
                let c = id_list(children);
                let row = seq!['D'] + seq![' '] + a + seq![' '] + b + seq![' '] + c;
                assert(body_row(id, node) =~= row);
                lemma_id_list(children);
                lemma_fields4(seq!['D'], a, b, c);
                lemma_parse_children(children, index);
            }
        },
    }
}

/// The name lines of some nodes are the line of the first node followed by
/// the lines of the others.
proof fn lemma_index_lines_front(nodes: Map<usize, Node>, order: Seq<usize>)
    requires
        order.len() > 0,
    ensures
        index_lines(nodes, order) == index_line(order[0], nodes[order[0]]) + index_lines(
            nodes,
            order.drop_first(),
        ),
    decreases order.len(),
{
    let front = order.drop_last();
    if order.len() == 1 {
        assert(index_lines(nodes, front) =~= Seq::<char>::empty());
        assert(index_lines(nodes, order.drop_first()) =~= Seq::<char>::empty());
        assert(index_lines(nodes, order) =~= index_line(order[0], nodes[order[0]])
            + Seq::<char>::empty());
    } else {
        lemma_index_lines_front(nodes, front);
        assert(order.drop_first().drop_last() =~= front.drop_first());
        assert(index_lines(nodes, order) =~= index_line(order[0], nodes[order[0]]) + index_lines(
            nodes,
            order.drop_first(),
        ));
    }
}

/// The node lines of some nodes are the line of the first node followed by
/// the lines of the others.
proof fn lemma_body_lines_front(nodes: Map<usize, Node>, order: Seq<usize>)
    requires
        order.len() > 0,
    ensures
        body_lines(nodes, order) == body_line(order[0], nodes[order[0]]) + body_lines(
            nodes,
            order.drop_first(),
        ),
    decreases order.len(),
{
    let front = order.drop_last();
    if order.len() == 1 {
        assert(body_lines(nodes, front) =~= Seq::<char>::empty());
        assert(body_lines(nodes, order.drop_first()) =~= Seq::<char>::empty());
        assert(body_lines(nodes, order) =~= body_line(order[0], nodes[order[0]])
            + Seq::<char>::empty());
    } else {
        lemma_body_lines_front(nodes, front);
        assert(order.drop_first().drop_last() =~= front.drop_first());
        assert(body_lines(nodes, order) =~= body_line(order[0], nodes[order[0]]) + body_lines(
            nodes,
            order.drop_first(),
        ));
    }
}

/// The table after the name lines of the nodes `order` have been read into
/// `index`.
spec fn indexed(nodes: Map<usize, Node>, order: Seq<usize>, index: Map<usize, Seq<char>>) -> Map<
    usize,
    Seq<char>,
>
    decreases order.len(),
{
    if order.len() == 0 {
        index
    } else {
        indexed(nodes, order.drop_first(), index.insert(order[0], nodes[order[0]].name))
    }
}

/// The nodes after the node lines of the nodes `order` have been read into
/// `acc`.
spec fn collected(nodes: Map<usize, Node>, order: Seq<usize>, acc: Map<usize, Node>) -> Map<
    usize,
    Node,
>
    decreases order.len(),
{
    if order.len() == 0 {
        acc
    } else {
        collected(nodes, order.drop_first(), acc.insert(order[0], nodes[order[0]]))
    }
}

/// An identifier occurs in a sequence if it is the first or occurs among
/// the others.
proof fn lemma_contains_front(order: Seq<usize>, id: usize)
    requires
        order.len() > 0,
    ensures
        order.contains(id) <==> id == order[0] || order.drop_first().contains(id),
{
    let rest = order.drop_first();
    if order.contains(id) {
        let i = choose|i: int| 0 <= i < order.len() && order[i] == id;
        if i > 0 {
            assert(rest[i - 1] == id);
        }
    }
    if rest.contains(id) {
        let i = choose|i: int| 0 <= i < rest.len() && rest[i] == id;
        assert(order[i + 1] == id);
    }
    if id == order[0] {
        assert(order[0] == id);
    }
}

/// What `indexed` holds for the identifier `id`.
proof fn lemma_indexed(
    nodes: Map<usize, Node>,
    order: Seq<usize>,
    index: Map<usize, Seq<char>>,
    id: usize,
)
    ensures
        indexed(nodes, order, index).contains_key(id) <==> index.contains_key(id)
            || order.contains(id),
        order.contains(id) ==> indexed(nodes, order, index)[id] == nodes[id].name,
        !order.contains(id) ==> indexed(nodes, order, index)[id] == index[id],
    decreases order.len(),
{
    if order.len() > 0 {
        let rest = order.drop_first();
        let next = index.insert(order[0], nodes[order[0]].name);
        lemma_indexed(nodes, rest, next, id);
        lemma_contains_front(order, id);
    }
}

/// What `collected` holds for the identifier `id`.
proof fn lemma_collected(
    nodes: Map<usize, Node>,
    order: Seq<usize>,
    acc: Map<usize, Node>,
    id: usize,
)
    ensures
        collected(nodes, order, acc).contains_key(id) <==> acc.contains_key(id) || order.contains(
            id,
        ),
        order.contains(id) ==> collected(nodes, order, acc)[id] == nodes[id],
        !order.contains(id) ==> collected(nodes, order, acc)[id] == acc[id],
    decreases order.len(),
{
    if order.len() > 0 {
        let rest = order.drop_first();
        let next = acc.insert(order[0], nodes[order[0]]);
        lemma_collected(nodes, rest, next, id);
        lemma_contains_front(order, id);
    }
}

/// Written name lines read as the table that `indexed` describes, and
/// leave the text after them.
proof fn lemma_parse_index(
    nodes: Map<usize, Node>,
    order: Seq<usize>,
    rest: Seq<char>,
    index: Map<usize, Seq<char>>,
)
    requires
        forall|i: int| 0 <= i < order.len() ==> plain(nodes[#[trigger] order[i]].name),
    ensures
        parse_index(index_lines(nodes, order) + rest, order.len(), index) == Ok::<
            (Map<usize, Seq<char>>, Seq<char>),
            FsError,
        >((indexed(nodes, order, index), rest)),
    decreases order.len(),
{
    if order.len() == 0 {
        assert(index_lines(nodes, order) + rest =~= rest);
    } else {
        let id = order[0];
        let row = index_row(id, nodes[id]);
        let tail = order.drop_first();
        let after = index_lines(nodes, tail) + rest;
        lemma_index_lines_front(nodes, order);
        assert(index_lines(nodes, order) + rest =~= row + seq!['\n'] + after);
        assert(plain(nodes[order[0]].name));
        lemma_index_row(id, nodes[id]);
        lemma_first_line(row, after);
        assert forall|i: int| 0 <= i < tail.len() implies plain(nodes[#[trigger] tail[i]].name) by {
            assert(tail[i] == order[i + 1]);
        }
        lemma_parse_index(nodes, tail, rest, index.insert(id, nodes[id].name));
    }
}

/// Written node lines read as the nodes that `collected` describes.
proof fn lemma_parse_body(
    nodes: Map<usize, Node>,
    order: Seq<usize>,
    rest: Seq<char>,
    index: Map<usize, Seq<char>>,
    acc: Map<usize, Node>,
)
    requires
        forall|i: int|
            0 <= i < order.len() ==> {
                let id = #[trigger] order[i];
                &&& index.contains_key(id)
                &&& index[id] == nodes[id].name
                &&& entries_known(nodes[id].children(), index)
            },
    ensures
        parse_body(body_lines(nodes, order) + rest, order.len(), index, acc) == Ok::<
            Map<usize, Node>,
            FsError,
        >(collected(nodes, order, acc)),
    decreases order.len(),
{
    if order.len() > 0 {
        let id = order[0];
        let row = body_row(id, nodes[id]);
        let tail = order.drop_first();
        let after = body_lines(nodes, tail) + rest;
        lemma_body_lines_front(nodes, order);
        assert(body_lines(nodes, order) + rest =~= row + seq!['\n'] + after);
        assert(index.contains_key(order[0]));
        lemma_body_row(id, nodes[id], index);
        lemma_first_line(row, after);
        assert forall|i: int| 0 <= i < tail.len() implies {
            let id = #[trigger] tail[i];
            &&& index.contains_key(id)
            &&& index[id] == nodes[id].name
            &&& entries_known(nodes[id].children(), index)
        } by {
            assert(tail[i] == order[i + 1]);
        }
        lemma_parse_body(nodes, tail, rest, index, acc.insert(id, nodes[id]));
    }
}

/// Reading back the snapshot of a consistent store whose names a snapshot
/// can carry, written in any order, gives the same nodes and the same
/// counter, with the root as the current directory.
pub proof fn lemma_round_trip(tree: Tree, order: Seq<usize>)
    requires
        tree.wf(),
        tree.nodes.dom().len() <= usize::MAX,
        plain_names(tree.nodes),
        lists(tree.nodes, order),
    ensures
        restored(snapshot_text(tree.counter, tree.nodes, order)) == Ok::<Tree, FsError>(
            Tree { cwd: 0, ..tree },
        ),
        (Tree { cwd: 0, ..tree }).wf(),
{
    let nodes = tree.nodes;
    let count = nodes.dom().len();
    order.unique_seq_to_set();
    assert(order.len() == count);
    let head = header_row(tree.counter, count);
    let names = index_lines(nodes, order);
    let body = body_lines(nodes, order);
    let text = snapshot_text(tree.counter, nodes, order);
    assert(text =~= head + seq!['\n'] + (names + body));
    lemma_header_row(tree.counter, count);
    lemma_first_line(head, names + body);
    assert forall|i: int| 0 <= i < order.len() implies plain(nodes[#[trigger] order[i]].name) by {
        assert(order.to_set().contains(order[i]));
        assert(nodes.contains_key(order[i]));
    }
    lemma_parse_index(nodes, order, body, Map::empty());
    let index = indexed(nodes, order, Map::empty());
    assert forall|id: usize| #[trigger] nodes.contains_key(id) implies index.contains_key(id)
        && index[id] == nodes[id].name by {
        assert(order.to_set().contains(id));
        lemma_indexed(nodes, order, Map::empty(), id);
    }
    assert forall|i: int| 0 <= i < order.len() implies {
        let id = #[trigger] order[i];
        &&& index.contains_key(id)
        &&& index[id] == nodes[id].name
        &&& entries_known(nodes[id].children(), index)
    } by {
        let id = order[i];
        assert(order.to_set().contains(id));
        assert(nodes.contains_key(id));
        let children = nodes[id].children();
        assert forall|k: int| 0 <= k < children.len() implies index.contains_key(
            (#[trigger] children[k]).id,
        ) && index[children[k].id] == children[k].name by {
            let e = tree.nodes[id].children()[k];
            assert(nodes.contains_key(e.id));
        }
        assert forall|k: int, j: int| 0 <= k < j < children.len() implies (
        #[trigger] children[k]).name != (#[trigger] children[j]).name by {
            let a = tree.nodes[id].children()[k];
            let b = tree.nodes[id].children()[j];
        }
    }
    assert(body + Seq::<char>::empty() =~= body);
    lemma_parse_body(nodes, order, Seq::empty(), index, Map::empty());
    let read = collected(nodes, order, Map::empty());
    assert forall|id: usize| read.contains_key(id) == nodes.contains_key(id) && (
    nodes.contains_key(id) ==> read[id] == nodes[id]) by {
        lemma_collected(nodes, order, Map::empty(), id);
        assert(order.to_set().contains(id) == order.contains(id));
    }
    assert(read =~= nodes);
}

/// Whatever order the nodes were written in: reloading a snapshot of a
/// consistent store whose names a snapshot can carry gives the same nodes
/// and the same counter, with the root as the current directory, and the
/// store that it gives is consistent.
pub proof fn lemma_save_then_reload(tree: Tree, text: Seq<char>)
    requires
        tree.wf(),
        tree.nodes.dom().len() <= usize::MAX,
        plain_names(tree.nodes),
        is_snapshot(tree, text),
    ensures
        restored(text) == Ok::<Tree, FsError>(Tree { cwd: 0, ..tree }),
        (Tree { cwd: 0, ..tree }).wf(),
{
    let order = choose|order: Seq<usize>| #[trigger]
        lists(tree.nodes, order) && text == snapshot_text(tree.counter, tree.nodes, order);
    lemma_round_trip(tree, order);
}

} // verus!
