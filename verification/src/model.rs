//! The model that is stored, and its traversal sequence: the nodes in the
//! order in which they are written, with their directory numbers.

use vstd::prelude::*;
use crate::order::child_order;

verus! {

/// One node of the tree that is to be stored. The root directory itself is not
/// a node: a model is the list of the root's children.
#[derive(Debug)]
pub enum Node {
    /// A regular file with its content.
    File { name: Vec<u8>, data: Vec<u8> },
    /// A directory with what it holds, in any order.
    Dir { name: Vec<u8>, children: Vec<Node> },
    /// A symbolic link; the target is stored as written, it is not followed.
    Symlink { name: Vec<u8>, target: Vec<u8> },
}

impl Node {
    /// The node's own name, the last component of its path.
    pub open spec fn spec_name(self) -> Seq<u8> {
        match self {
            Node::File { name, .. } => name@,
            Node::Dir { name, .. } => name@,
            Node::Symlink { name, .. } => name@,
        }
    }

    /// The node's own name.
    pub fn name(&self) -> (n: &Vec<u8>)
        ensures
            n@ == self.spec_name(),
    {
        match self {
            Node::File { name, .. } => name,
            Node::Dir { name, .. } => name,
            Node::Symlink { name, .. } => name,
        }
    }
}

/// One entry of the traversal: a node together with the number of the directory
/// that holds it and, for a directory, its own number.
pub ghost enum Item {
    File { parent: int, name: Seq<u8>, data: Seq<u8> },
    Dir { parent: int, id: int, name: Seq<u8> },
    Symlink { parent: int, name: Seq<u8>, target: Seq<u8> },
}

/// Number of directories among `items`.
pub open spec fn dir_count(items: Seq<Item>) -> int
    decreases items.len(),
{
    if items.len() == 0 {
        0
    } else {
        dir_count(items.drop_last()) + if items.last() is Dir { 1int } else { 0int }
    }
}

/// The entries that `node` contributes, in the order they are written: the node
/// itself and, for a directory, everything below it. `parent` is the number of
/// the directory that holds the node, `counter` the last directory number given
/// out so far.
pub open spec fn flat_node(node: Node, parent: int, counter: int) -> Seq<Item>
    decreases node, 0nat,
{
    match node {
        Node::File { name, data } => seq![Item::File { parent, name: name@, data: data@ }],
        Node::Symlink { name, target } => seq![
            Item::Symlink { parent, name: name@, target: target@ },
        ],
        Node::Dir { name, children } => seq![Item::Dir { parent, id: counter + 1, name: name@ }]
            + flat_from(children@, child_order(children@), 0, counter + 1, counter + 1),
    }
}

/// The entries of the children at positions `order[k..]`, all held by directory
/// `parent`.
pub open spec fn flat_from(
    children: Seq<Node>,
    order: Seq<int>,
    k: int,
    parent: int,
    counter: int,
) -> Seq<Item>
    decreases children, order.len() - k,
{
    if 0 <= k < order.len() {
        if 0 <= order[k] < children.len() {
            let head = flat_node(children[order[k]], parent, counter);
            head + flat_from(children, order, k + 1, parent, counter + dir_count(head))
        } else {
            flat_from(children, order, k + 1, parent, counter)
        }
    } else {
        Seq::empty()
    }
}

/// The traversal sequence of a whole model: the root has number 0.
pub open spec fn flatten(model: Seq<Node>) -> Seq<Item> {
    flat_from(model, child_order(model), 0, 0, 0)
}

/// Every directory among `items` has the number that follows the numbers of the
/// directories before it, counted on from `counter`.
pub open spec fn ids_in_order(items: Seq<Item>, counter: int) -> bool {
    forall|k: int|
        0 <= k < items.len() && (#[trigger] items[k]) is Dir ==> items[k]->id == counter
            + dir_count(items.take(k)) + 1
}

/// The directories of two sequences in a row are those of both.
pub proof fn lemma_dir_count_concat(a: Seq<Item>, b: Seq<Item>)
    ensures
        dir_count(a + b) == dir_count(a) + dir_count(b),
    decreases b.len(),
{
    if b.len() == 0 {
    } else {
        assert((a + b).drop_last() =~= a + b.drop_last());
        lemma_dir_count_concat(a, b.drop_last());
    }
}

/// A single item counts as one directory or as none.
pub proof fn lemma_dir_count_one(item: Item)
    ensures
        dir_count(seq![item]) == if item is Dir {
            1int
        } else {
            0int
        },
{
    assert(dir_count(seq![item].drop_last()) == 0);
}

/// Two sequences numbered in order, the second from where the first ends, are
/// numbered in order as one.
pub proof fn lemma_ids_concat(a: Seq<Item>, b: Seq<Item>, counter: int)
    requires
        ids_in_order(a, counter),
        ids_in_order(b, counter + dir_count(a)),
    ensures
        ids_in_order(a + b, counter),
{
    let ab = a + b;
    assert forall|k: int| 0 <= k < ab.len() && (#[trigger] ab[k]) is Dir implies ab[k]->id
        == counter + dir_count(ab.take(k)) + 1 by {
        if k < a.len() {
            assert(ab.take(k) =~= a.take(k));
        } else {
            let j: int = k - a.len();
            assert(ab.take(k) =~= a + b.take(j));
            lemma_dir_count_concat(a, b.take(j));
        }
    }
}

/// Behind the first item the rest is numbered in order, counted on from the
/// first item's number where it is a directory.
pub proof fn lemma_ids_rest(items: Seq<Item>, counter: int)
    requires
        items.len() > 0,
        ids_in_order(items, counter),
    ensures
        items.first() is Dir ==> items.first()->id == counter + 1,
        dir_count(items) == dir_count(items.skip(1)) + dir_count(seq![items.first()]),
        ids_in_order(items.skip(1), counter + dir_count(seq![items.first()])),
{
    let first = items.first();
    let rest = items.skip(1);
    lemma_dir_count_one(first);
    assert(items.take(0) =~= Seq::<Item>::empty());
    assert(items =~= seq![first] + rest);
    lemma_dir_count_concat(seq![first], rest);
    assert forall|k: int| 0 <= k < rest.len() && (#[trigger] rest[k]) is Dir implies rest[k]->id
        == counter + dir_count(seq![first]) + dir_count(rest.take(k)) + 1 by {
        assert(rest[k] == items[k + 1]);
        assert(items.take(k + 1) =~= seq![first] + rest.take(k));
        lemma_dir_count_concat(seq![first], rest.take(k));
    }
}

/// The entries of one node are numbered in order.
pub proof fn lemma_flat_node_ids(node: Node, parent: int, counter: int)
    ensures
        ids_in_order(flat_node(node, parent, counter), counter),
    decreases node, 0nat,
{
    match node {
        Node::Dir { name, children } => {
            let own = seq![Item::Dir { parent, id: counter + 1, name: name@ }];
            let below = flat_from(children@, child_order(children@), 0, counter + 1, counter + 1);
            lemma_flat_from_ids(children@, child_order(children@), 0, counter + 1, counter + 1);
            lemma_dir_count_one(own[0]);
            lemma_ids_concat(own, below, counter);
        },
        _ => {},
    }
}

/// The entries of a run of children are numbered in order.
pub proof fn lemma_flat_from_ids(
    children: Seq<Node>,
    order: Seq<int>,
    k: int,
    parent: int,
    counter: int,
)
    ensures
        ids_in_order(flat_from(children, order, k, parent, counter), counter),
    decreases children, order.len() - k,
{
    if 0 <= k < order.len() {
        if 0 <= order[k] < children.len() {
            let head = flat_node(children[order[k]], parent, counter);
            lemma_flat_node_ids(children[order[k]], parent, counter);
            lemma_flat_from_ids(children, order, k + 1, parent, counter + dir_count(head));
            lemma_ids_concat(
                head,
                flat_from(children, order, k + 1, parent, counter + dir_count(head)),
                counter,
            );
        } else {
            lemma_flat_from_ids(children, order, k + 1, parent, counter);
        }
    }
}

} // verus!
