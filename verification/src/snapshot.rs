//! The text snapshot of a store: how it is written and how it is read back.
//!
//! A snapshot is a sequence of lines. The first line holds the counter and
//! the number of nodes. Then comes, for every node, a line with its
//! identifier and its name. Then comes, for every node, a line with its
//! kind (`D` or `F`), its identifier and its parent's identifier; a
//! directory with children has a fourth field, the children's identifiers
//! joined by commas. A directory without children has no fourth field.
//! Fields are separated by one space.
//!
//! A snapshot is written with the nodes in ascending order of their
//! identifiers. It is read whatever the order of its lines within the two
//! tables; blanks at the two ends of a line are ignored.

use crate::error::FsError;
use crate::model::{position, Content, Entry, Node, Tree};
use crate::node::{child_index, entries, view_nodes, FsNode, NodeType};
use crate::order::ascending;
use crate::text::{
    decimal, find_char, lemma_find_char_is, marks, parse_number, push_char, push_decimal,
    read_number, split, split_range, string_of, to_chars, trim, trim_range,
};
use std::collections::HashMap;
use vstd::prelude::*;
use vstd::string::StringExecFns;

verus! {

/// The first line of a snapshot, without its line break.
pub open spec fn header_row(counter: usize, count: nat) -> Seq<char> {
    decimal(counter as nat) + seq![' '] + decimal(count)
}

/// The line that gives a node its name, without its line break.
pub open spec fn index_row(id: usize, node: Node) -> Seq<char> {
    decimal(id as nat) + seq![' '] + node.name
}

/// The identifiers of the entries, joined by commas.
pub open spec fn id_list(children: Seq<Entry>) -> Seq<char>
    decreases children.len(),
{
    if children.len() == 0 {
        Seq::empty()
    } else if children.len() == 1 {
        decimal(children[0].id as nat)
    } else {
        id_list(children.drop_last()) + seq![','] + decimal(children.last().id as nat)
    }
}

/// The line that gives a node its kind, its parent and its children,
/// without its line break. A directory without children has three fields.
pub open spec fn body_row(id: usize, node: Node) -> Seq<char> {
    let front = decimal(id as nat) + seq![' '] + decimal(node.parent as nat);
    match node.content {
        Content::File => seq!['F', ' '] + front,
        Content::Dir { children } => if children.len() == 0 {
            seq!['D', ' '] + front
        } else {
            seq!['D', ' '] + front + seq![' '] + id_list(children)
        },
    }
}

/// The first line of a snapshot.
pub open spec fn header_line(counter: usize, count: nat) -> Seq<char> {
    header_row(counter, count) + seq!['\n']
}

/// The line that gives a node its name.
pub open spec fn index_line(id: usize, node: Node) -> Seq<char> {
    index_row(id, node) + seq!['\n']
}

/// The line that gives a node its kind, its parent and its children.
pub open spec fn body_line(id: usize, node: Node) -> Seq<char> {
    body_row(id, node) + seq!['\n']
}

/// The name lines of the nodes `order`, in that order.
pub open spec fn index_lines(nodes: Map<usize, Node>, order: Seq<usize>) -> Seq<char>
    decreases order.len(),
{
    if order.len() == 0 {
        Seq::empty()
    } else {
        index_lines(nodes, order.drop_last()) + index_line(order.last(), nodes[order.last()])
    }
}

/// The node lines of the nodes `order`, in that order.
pub open spec fn body_lines(nodes: Map<usize, Node>, order: Seq<usize>) -> Seq<char>
    decreases order.len(),
{
    if order.len() == 0 {
        Seq::empty()
    } else {
        body_lines(nodes, order.drop_last()) + body_line(order.last(), nodes[order.last()])
    }
}

/// The snapshot of a store whose nodes are written in the given order.
pub open spec fn snapshot_text(counter: usize, nodes: Map<usize, Node>, order: Seq<usize>) -> Seq<
    char,
> {
    header_line(counter, nodes.dom().len()) + index_lines(nodes, order) + body_lines(
        nodes,
        order,
    )
}

/// Whether `order` names every node of the store exactly once.
pub open spec fn lists(nodes: Map<usize, Node>, order: Seq<usize>) -> bool {
    order.no_duplicates() && order.to_set() == nodes.dom()
}

/// The identifiers of the nodes in ascending order.
pub open spec fn ascending_ids(nodes: Map<usize, Node>) -> Seq<usize> {
    choose|order: Seq<usize>| lists(nodes, order) && ascending(order)
}

/// The snapshot of a store, its nodes written in ascending order of their
/// identifiers.
pub open spec fn snapshot_of(tree: Tree) -> Seq<char> {
    snapshot_text(tree.counter, tree.nodes, ascending_ids(tree.nodes))
}

/// Whether `text` is a snapshot of the store, its nodes written in some
/// order.
pub open spec fn is_snapshot(tree: Tree, text: Seq<char>) -> bool {
    exists|order: Seq<usize>| #[trigger]
        lists(tree.nodes, order) && text == snapshot_text(tree.counter, tree.nodes, order)
}

/// The store that a snapshot gives: its counter and its nodes, with the
/// root as the current directory.
pub open spec fn restored(text: Seq<char>) -> Result<Tree, FsError> {
    match parse_snapshot(text) {
        Ok((counter, nodes)) => Ok(Tree { counter, cwd: 0, nodes }),
        Err(e) => Err(e),
    }
}

/// The text up to the first line break, or all of it if there is none.
pub open spec fn first_line(text: Seq<char>) -> Seq<char> {
    text.subrange(0, find_char(text, '\n'))
}

/// The text after the first line break; nothing if there is none.
pub open spec fn after_line(text: Seq<char>) -> Seq<char> {
    let k = find_char(text, '\n');
    if 0 <= k < text.len() {
        text.subrange(k + 1, text.len() as int)
    } else {
        Seq::empty()
    }
}

/// The fields of a line: what stands between single spaces, once the
/// blanks at the two ends of the line are gone.
pub open spec fn fields(line: Seq<char>) -> Seq<Seq<char>> {
    split(trim(line), ' ')
}

/// The counter and the number of nodes that a first line gives.
pub open spec fn parse_header(line: Seq<char>) -> Option<(usize, usize)> {
    let f = fields(line);
    if f.len() == 2 && parse_number(f[0]) is Some && parse_number(f[1]) is Some {
        Some((parse_number(f[0])->0, parse_number(f[1])->0))
    } else {
        None
    }
}

/// The identifier and the name that a name line gives.
pub open spec fn parse_index_line(line: Seq<char>) -> Option<(usize, Seq<char>)> {
    let f = fields(line);
    if f.len() == 2 && parse_number(f[0]) is Some {
        Some((parse_number(f[0])->0, f[1]))
    } else {
        None
    }
}

/// Reads `n` name lines from the start of `text` into `index`, a later line
/// for an identifier replacing an earlier one. Gives the table and the text
/// that is left.
pub open spec fn parse_index(text: Seq<char>, n: nat, index: Map<usize, Seq<char>>) -> Result<
    (Map<usize, Seq<char>>, Seq<char>),
    FsError,
>
    decreases n,
{
    if n == 0 {
        Ok((index, text))
    } else {
        match parse_index_line(first_line(text)) {
            None => Err(FsError::MalformedIndexLine),
            Some((id, name)) => parse_index(
                after_line(text),
                (n - 1) as nat,
                index.insert(id, name),
            ),
        }
    }
}

/// The entries with `id` listed under `name`: in place of the entry of that
/// name if there is one, else at the end.
pub open spec fn put(children: Seq<Entry>, name: Seq<char>, id: usize) -> Seq<Entry> {
    let k = position(children, name);
    if 0 <= k < children.len() {
        children.update(k, Entry { name, id })
    } else {
        children.push(Entry { name, id })
    }
}

/// The entries that the items of a children field give, each identifier
/// under the name that the table has for it. The first item that is no
/// number, or that the table does not hold, decides the error.
pub open spec fn parse_children(items: Seq<Seq<char>>, index: Map<usize, Seq<char>>) -> Result<
    Seq<Entry>,
    FsError,
>
    decreases items.len(),
{
    if items.len() == 0 {
        Ok(Seq::empty())
    } else {
        match parse_children(items.drop_last(), index) {
            Err(e) => Err(e),
            Ok(front) => match parse_number(items.last()) {
                None => Err(FsError::MalformedBodyLine),
                Some(id) => if index.contains_key(id) {
                    Ok(put(front, index[id], id))
                } else {
                    Err(FsError::DanglingChildReference)
                },
            },
        }
    }
}

/// Whether the fields have one of the three shapes of a node line.
pub open spec fn has_shape(f: Seq<Seq<char>>) -> bool {
    ||| (f.len() == 3 || f.len() == 4) && f[0] == seq!['D']
    ||| f.len() == 3 && f[0] == seq!['F']
}

/// The identifier and the node that a node line gives.
pub open spec fn parse_body_line(line: Seq<char>, index: Map<usize, Seq<char>>) -> Result<
    (usize, Node),
    FsError,
> {
    let f = fields(line);
    if !has_shape(f) {
        Err(FsError::MalformedBodyLine)
    } else if parse_number(f[1]) is None {
        Err(FsError::MalformedBodyLine)
    } else if !index.contains_key(parse_number(f[1])->0) {
        Err(FsError::DanglingSelfReference)
    } else if parse_number(f[2]) is None {
        Err(FsError::MalformedBodyLine)
    } else {
        let id = parse_number(f[1])->0;
        let parent = parse_number(f[2])->0;
        let name = index[id];
        if f[0] == seq!['F'] {
            Ok((id, Node { name, parent, content: Content::File }))
        } else if f.len() == 3 {
            Ok((id, Node { name, parent, content: Content::Dir { children: Seq::empty() } }))
        } else {
            match parse_children(split(f[3], ','), index) {
                Err(e) => Err(e),
                Ok(children) => Ok((id, Node { name, parent, content: Content::Dir { children } })),
            }
        }
    }
}

/// Reads `n` node lines from the start of `text` into `nodes`, a later line
/// for an identifier replacing an earlier one.
pub open spec fn parse_body(
    text: Seq<char>,
    n: nat,
    index: Map<usize, Seq<char>>,
    nodes: Map<usize, Node>,
) -> Result<Map<usize, Node>, FsError>
    decreases n,
{
    if n == 0 {
        Ok(nodes)
    } else {
        match parse_body_line(first_line(text), index) {
            Err(e) => Err(e),
            Ok((id, node)) => parse_body(
                after_line(text),
                (n - 1) as nat,
                index,
                nodes.insert(id, node),
            ),
        }
    }
}

/// The counter and the nodes that a snapshot gives, or the reason why the
/// text is no snapshot. Text after the last node line is ignored; a line
/// that is missing at the end of the text reads as an empty line.
pub open spec fn parse_snapshot(text: Seq<char>) -> Result<(usize, Map<usize, Node>), FsError> {
    match parse_header(first_line(text)) {
        None => Err(FsError::MalformedHeader),
        Some((counter, n)) => match parse_index(after_line(text), n as nat, Map::empty()) {
            Err(e) => Err(e),
            Ok((index, rest)) => match parse_body(rest, n as nat, index, Map::empty()) {
                Err(e) => Err(e),
                Ok(nodes) => Ok((counter, nodes)),
            },
        },
    }
}

/// The names of a table as the model sees them.
pub open spec fn view_names(m: Map<usize, String>) -> Map<usize, Seq<char>> {
    Map::new(|id: usize| m.contains_key(id), |id: usize| m[id]@)
}

/// Appends the name line of a node.
fn push_index_line(out: &mut String, id: usize, node: &FsNode)
    ensures
        final(out)@ == old(out)@ + index_line(id, node@),
{
    push_decimal(out, id);
    push_char(out, ' ');
    out.append(node.name.as_str());
    push_char(out, '\n');
    assert(out@ =~= old(out)@ + index_line(id, node@));
}

/// Appends the identifiers of the children, joined by commas.
fn push_id_list(out: &mut String, children: &Vec<(String, usize)>)
    ensures
        final(out)@ == old(out)@ + id_list(entries(children@)),
{
    let ghost es = entries(children@);
    let mut i: usize = 0;
    assert(es.subrange(0, 0) =~= Seq::<Entry>::empty());
    assert(out@ =~= old(out)@ + Seq::<char>::empty());
    while i < children.len()
        invariant
            i <= children.len(),
            es == entries(children@),
            out@ == old(out)@ + id_list(es.subrange(0, i as int)),
        decreases children.len() - i,
    {
        let ghost done = es.subrange(0, i as int);
        let ghost next = es.subrange(0, i + 1);
        assert(next.drop_last() =~= done);
        assert(next.last().id == children@[i as int].1);
        if i > 0 {
            push_char(out, ',');
        }
        push_decimal(out, children[i].1);
        assert(out@ =~= old(out)@ + id_list(next));
        i += 1;
    }
    assert(es.subrange(0, children@.len() as int) =~= es);
}

/// Appends the node line of a node.
fn push_body_line(out: &mut String, id: usize, node: &FsNode)
    ensures
        final(out)@ == old(out)@ + body_line(id, node@),
{
    match &node.node_type {
        NodeType::File => {
            push_char(out, 'F');
        },
        NodeType::Dir { .. } => {
            push_char(out, 'D');
        },
    }
    push_char(out, ' ');
    push_decimal(out, id);
    push_char(out, ' ');
    push_decimal(out, node.parent);
    match &node.node_type {
        NodeType::File => {},
        NodeType::Dir { children } => {
            if children.len() > 0 {
                push_char(out, ' ');
                push_id_list(out, children);
            }
        },
    }
    push_char(out, '\n');
    assert(out@ =~= old(out)@ + body_line(id, node@));
}

/// Writes the snapshot of the given nodes, in the given order.
pub fn render(counter: usize, nodes: &HashMap<usize, FsNode>, order: &Vec<usize>) -> (s: String)
    requires
        forall|i: int| 0 <= i < order@.len() ==> nodes@.contains_key(order@[i]),
    ensures
        s@ == snapshot_text(counter, view_nodes(nodes@), order@),
{
    broadcast use vstd::std_specs::hash::group_hash_axioms;

    let ghost vn = view_nodes(nodes@);
    assert(vn.dom() =~= nodes@.dom());
    let mut out = String::new();
    push_decimal(&mut out, counter);
    push_char(&mut out, ' ');
    push_decimal(&mut out, nodes.len());
    push_char(&mut out, '\n');
    assert(out@ =~= header_line(counter, vn.dom().len()));
    let ghost head = out@;
    let mut i: usize = 0;
    assert(order@.subrange(0, 0) =~= Seq::<usize>::empty());
    assert(out@ =~= head + Seq::<char>::empty());
    while i < order.len()
        invariant
            i <= order.len(),
            vn == view_nodes(nodes@),
            forall|i: int| 0 <= i < order@.len() ==> nodes@.contains_key(order@[i]),
            out@ == head + index_lines(vn, order@.subrange(0, i as int)),
        decreases order.len() - i,
    {
        let id = order[i];
        assert(order@.subrange(0, i + 1).drop_last() =~= order@.subrange(0, i as int));
        match nodes.get(&id) {
            Some(node) => {
                push_index_line(&mut out, id, node);
            },
            None => {},
        }
        assert(out@ =~= head + index_lines(vn, order@.subrange(0, i + 1)));
        i += 1;
    }
    assert(order@.subrange(0, order@.len() as int) =~= order@);
    let ghost top = out@;
    let mut i: usize = 0;
    assert(out@ =~= top + Seq::<char>::empty());
    while i < order.len()
        invariant
            i <= order.len(),
            vn == view_nodes(nodes@),
            forall|i: int| 0 <= i < order@.len() ==> nodes@.contains_key(order@[i]),
            out@ == top + body_lines(vn, order@.subrange(0, i as int)),
        decreases order.len() - i,
    {
        let id = order[i];
        assert(order@.subrange(0, i + 1).drop_last() =~= order@.subrange(0, i as int));
        match nodes.get(&id) {
            Some(node) => {
                push_body_line(&mut out, id, node);
            },
            None => {},
        }
        assert(out@ =~= top + body_lines(vn, order@.subrange(0, i + 1)));
        i += 1;
    }
    out
}

/// The bounds of the first line of `chars[pos..]`, and where the text after
/// it starts.
fn next_line(chars: &Vec<char>, pos: usize) -> (r: (usize, usize))
    requires
        pos <= chars.len(),
    ensures
        pos <= r.0 <= r.1 <= chars.len(),
        chars@.subrange(pos as int, r.0 as int) == first_line(
            chars@.subrange(pos as int, chars@.len() as int),
        ),
        chars@.subrange(r.1 as int, chars@.len() as int) == after_line(
            chars@.subrange(pos as int, chars@.len() as int),
        ),
{
    let mut end: usize = pos;
    while end < chars.len() && chars[end] != '\n'
        invariant
            pos <= end <= chars.len(),
            forall|j: int| pos <= j < end ==> chars@[j] != '\n',
        decreases chars.len() - end,
    {
        end += 1;
    }
    let ghost rest = chars@.subrange(pos as int, chars@.len() as int);
    proof {
        lemma_find_char_is(rest, '\n', end - pos);
        assert(rest.subrange(0, end - pos) =~= chars@.subrange(pos as int, end as int));
    }
    if end < chars.len() {
        assert(rest.subrange(end - pos + 1, rest.len() as int) =~= chars@.subrange(
            end + 1,
            chars@.len() as int,
        ));
        (end, end + 1)
    } else {
        assert(chars@.subrange(end as int, chars@.len() as int) =~= Seq::<char>::empty());
        (end, end)
    }
}

/// The bounds of the fields of the line `chars[from..to]`.
fn line_fields(chars: &Vec<char>, from: usize, to: usize) -> (r: Vec<(usize, usize)>)
    requires
        from <= to <= chars.len(),
    ensures
        marks(chars@, r@, fields(chars@.subrange(from as int, to as int))),
{
    let (a, b) = trim_range(chars, from, to);
    split_range(chars, a, b, ' ')
}

/// Whether the field `chars[from..to]` is the single character `c`.
fn is_letter(chars: &Vec<char>, from: usize, to: usize, c: char) -> (b: bool)
    requires
        from <= to <= chars.len(),
    ensures
        b == (chars@.subrange(from as int, to as int) == seq![c]),
{
    if to - from == 1 && chars[from] == c {
        assert(chars@.subrange(from as int, to as int) =~= seq![c]);
        true
    } else {
        proof {
            if chars@.subrange(from as int, to as int) == seq![c] {
                assert(chars@.subrange(from as int, to as int).len() == 1);
                assert(chars@.subrange(from as int, to as int)[0] == c);
            }
        }
        false
    }
}

/// Lists `id` under `name`: in place of the entry of that name if there is
/// one, else at the end.
fn put_child(children: &mut Vec<(String, usize)>, name: String, id: usize)
    ensures
        entries(final(children)@) == put(entries(old(children)@), name@, id),
{
    let k = child_index(children, &name);
    if k < children.len() {
        children.set(k, (name, id));
        assert(entries(children@) =~= put(entries(old(children)@), name@, id));
    } else {
        children.push((name, id));
        assert(entries(children@) =~= put(entries(old(children)@), name@, id));
    }
}

/// Reads the children field `chars[from..to]`.
fn read_children(
    chars: &Vec<char>,
    from: usize,
    to: usize,
    index: &HashMap<usize, String>,
) -> (r: Result<Vec<(String, usize)>, FsError>)
    requires
        from <= to <= chars.len(),
    ensures
        match parse_children(
            split(chars@.subrange(from as int, to as int), ','),
            view_names(index@),
        ) {
            Ok(es) => r is Ok && entries(r->Ok_0@) == es,
            Err(e) => r is Err && r->Err_0 == e,
        },
{
    broadcast use vstd::std_specs::hash::group_hash_axioms;

    let items = split_range(chars, from, to, ',');
    let ghost pieces = split(chars@.subrange(from as int, to as int), ',');
    let ghost names = view_names(index@);
    let mut children: Vec<(String, usize)> = Vec::new();
    let mut i: usize = 0;
    assert(pieces.subrange(0, 0) =~= Seq::<Seq<char>>::empty());
    assert(entries(children@) =~= Seq::<Entry>::empty());
    while i < items.len()
        invariant
            i <= items.len(),
            from <= to <= chars.len(),
            pieces == split(chars@.subrange(from as int, to as int), ','),
            marks(chars@, items@, pieces),
            names == view_names(index@),
            parse_children(pieces.subrange(0, i as int), names) == Ok::<Seq<Entry>, FsError>(
                entries(children@),
            ),
        decreases items.len() - i,
    {
        let item = items[i];
        let ghost next = pieces.subrange(0, i + 1);
        proof {
            assert(next.drop_last() =~= pieces.subrange(0, i as int));
            assert(next.last() == pieces[i as int]);
        }
        let id = match read_number(chars, item.0, item.1) {
            Some(id) => id,
            None => {
                proof {
                    lemma_children_error(pieces, names, i + 1);
                }
                return Err(FsError::MalformedBodyLine);
            },
        };
        let name = match index.get(&id) {
            Some(name) => name.clone(),
            None => {
                proof {
                    lemma_children_error(pieces, names, i + 1);
                }
                return Err(FsError::DanglingChildReference);
            },
        };
        put_child(&mut children, name, id);
        i += 1;
    }
    assert(pieces.subrange(0, items@.len() as int) =~= pieces);
    Ok(children)
}

/// An error among the first `k` items is the error of the whole field.
proof fn lemma_children_error(items: Seq<Seq<char>>, index: Map<usize, Seq<char>>, k: int)
    requires
        0 <= k <= items.len(),
        parse_children(items.subrange(0, k), index) is Err,
    ensures
        parse_children(items, index) == parse_children(items.subrange(0, k), index),
    decreases items.len() - k,
{
    if k == items.len() {
        assert(items.subrange(0, k) =~= items);
    } else {
        assert(items.subrange(0, k + 1).drop_last() =~= items.subrange(0, k));
        lemma_children_error(items, index, k + 1);
    }
}

/// Reads the name line `chars[from..to]`.
fn read_index_line(chars: &Vec<char>, from: usize, to: usize) -> (r: Option<(usize, String)>)
    requires
        from <= to <= chars.len(),
    ensures
        match parse_index_line(chars@.subrange(from as int, to as int)) {
            Some(parsed) => r matches Some(found) && found.0 == parsed.0 && found.1@ == parsed.1,
            None => r is None,
        },
{
    let f = line_fields(chars, from, to);
    if f.len() != 2 {
        return None;
    }
    match read_number(chars, f[0].0, f[0].1) {
        Some(id) => Some((id, string_of(chars, f[1].0, f[1].1))),
        None => None,
    }
}

/// Reads `total` name lines from `chars[pos..]`: the table, and where the
/// text after them starts.
fn read_index(chars: &Vec<char>, pos: usize, total: usize) -> (r: Result<
    (HashMap<usize, String>, usize),
    FsError,
>)
    requires
        pos <= chars.len(),
    ensures
        match parse_index(
            chars@.subrange(pos as int, chars@.len() as int),
            total as nat,
            Map::empty(),
        ) {
            Ok(parsed) => r is Ok && view_names(r->Ok_0.0@) == parsed.0 && r->Ok_0.1
                <= chars.len() && chars@.subrange(r->Ok_0.1 as int, chars@.len() as int)
                == parsed.1,
            Err(e) => r is Err && r->Err_0 == e,
        },
{
    broadcast use vstd::std_specs::hash::group_hash_axioms;

    let mut index: HashMap<usize, String> = HashMap::new();
    assert(view_names(index@) =~= Map::<usize, Seq<char>>::empty());
    let mut cur: usize = pos;
    let mut i: usize = 0;
    while i < total
        invariant
            i <= total,
            pos <= cur <= chars.len(),
            parse_index(
                chars@.subrange(pos as int, chars@.len() as int),
                total as nat,
                Map::empty(),
            ) == parse_index(
                chars@.subrange(cur as int, chars@.len() as int),
                (total - i) as nat,
                view_names(index@),
            ),
        decreases total - i,
    {
        let (end, next) = next_line(chars, cur);
        match read_index_line(chars, cur, end) {
            None => {
                return Err(FsError::MalformedIndexLine);
            },
            Some((id, name)) => {
                let ghost before = view_names(index@);
                index.insert(id, name);
                assert(view_names(index@) =~= before.insert(id, name@));
            },
        }
        cur = next;
        i += 1;
    }
    Ok((index, cur))
}

/// Reads the node line `chars[from..to]`.
fn read_body_line(chars: &Vec<char>, from: usize, to: usize, index: &HashMap<usize, String>) -> (r:
    Result<(usize, FsNode), FsError>)
    requires
        from <= to <= chars.len(),
    ensures
        match parse_body_line(chars@.subrange(from as int, to as int), view_names(index@)) {
            Ok(parsed) => r is Ok && r->Ok_0.0 == parsed.0 && r->Ok_0.1@ == parsed.1,
            Err(e) => r is Err && r->Err_0 == e,
        },
{
    broadcast use vstd::std_specs::hash::group_hash_axioms;

    let f = line_fields(chars, from, to);
    let n = f.len();
    if n != 3 && n != 4 {
        return Err(FsError::MalformedBodyLine);
    }
    let file = is_letter(chars, f[0].0, f[0].1, 'F');
    let dir = is_letter(chars, f[0].0, f[0].1, 'D');
    if !(dir || (file && n == 3)) {
        return Err(FsError::MalformedBodyLine);
    }
    let id = match read_number(chars, f[1].0, f[1].1) {
        Some(n) => n,
        None => {
            return Err(FsError::MalformedBodyLine);
        },
    };
    let name = match index.get(&id) {
        Some(name) => name.clone(),
        None => {
            return Err(FsError::DanglingSelfReference);
        },
    };
    let parent = match read_number(chars, f[2].0, f[2].1) {
        Some(n) => n,
        None => {
            return Err(FsError::MalformedBodyLine);
        },
    };
    let node_type = if file {
        NodeType::File
    } else if n == 3 {
        let children: Vec<(String, usize)> = Vec::new();
        assert(entries(children@) =~= Seq::<Entry>::empty());
        NodeType::Dir { children }
    } else {
        match read_children(chars, f[3].0, f[3].1, index) {
            Ok(children) => NodeType::Dir { children },
            Err(e) => {
                return Err(e);
            },
        }
    };
    Ok((id, FsNode { name, parent, node_type }))
}

/// Reads `total` node lines from `chars[pos..]`.
fn read_body(chars: &Vec<char>, pos: usize, total: usize, index: &HashMap<usize, String>) -> (r:
    Result<HashMap<usize, FsNode>, FsError>)
    requires
        pos <= chars.len(),
    ensures
        match parse_body(
            chars@.subrange(pos as int, chars@.len() as int),
            total as nat,
            view_names(index@),
            Map::empty(),
        ) {
            Ok(parsed) => r is Ok && view_nodes(r->Ok_0@) == parsed,
            Err(e) => r is Err && r->Err_0 == e,
        },
{
    broadcast use vstd::std_specs::hash::group_hash_axioms;

    let ghost names = view_names(index@);
    let mut nodes: HashMap<usize, FsNode> = HashMap::new();
    assert(view_nodes(nodes@) =~= Map::<usize, Node>::empty());
    let mut cur: usize = pos;
    let mut i: usize = 0;
    while i < total
        invariant
            i <= total,
            pos <= cur <= chars.len(),
            names == view_names(index@),
            parse_body(
                chars@.subrange(pos as int, chars@.len() as int),
                total as nat,
                names,
                Map::empty(),
            ) == parse_body(
                chars@.subrange(cur as int, chars@.len() as int),
                (total - i) as nat,
                names,
                view_nodes(nodes@),
            ),
        decreases total - i,
    {
        let (end, next) = next_line(chars, cur);
        match read_body_line(chars, cur, end, index) {
            Err(e) => {
                return Err(e);
            },
            Ok((id, node)) => {
                let ghost before = view_nodes(nodes@);
                nodes.insert(id, node);
                assert(view_nodes(nodes@) =~= before.insert(id, node@));
            },
        }
        cur = next;
        i += 1;
    }
    Ok(nodes)
}

/// Reads a snapshot: the counter and the nodes that it gives.
pub fn read_snapshot(text: &str) -> (r: Result<(usize, HashMap<usize, FsNode>), FsError>)
    ensures
        match parse_snapshot(text@) {
            Ok(parsed) => r is Ok && r->Ok_0.0 == parsed.0 && view_nodes(r->Ok_0.1@) == parsed.1,
            Err(e) => r is Err && r->Err_0 == e,
        },
{
    let chars = to_chars(text);
    assert(chars@.subrange(0, chars@.len() as int) =~= text@);
    let (end, next) = next_line(&chars, 0);
    let f = line_fields(&chars, 0, end);
    if f.len() != 2 {
        return Err(FsError::MalformedHeader);
    }
    let counter = match read_number(&chars, f[0].0, f[0].1) {
        Some(n) => n,
        None => {
            return Err(FsError::MalformedHeader);
        },
    };
    let total = match read_number(&chars, f[1].0, f[1].1) {
        Some(n) => n,
        None => {
            return Err(FsError::MalformedHeader);
        },
    };
    let (index, pos) = match read_index(&chars, next, total) {
        Ok(found) => found,
        Err(e) => {
            return Err(e);
        },
    };
    match read_body(&chars, pos, total, &index) {
        Ok(nodes) => Ok((counter, nodes)),
        Err(e) => Err(e),
    }
}

} // verus!
