//! The directory numbers of a traversal sequence form a tree.

use vstd::prelude::*;
use crate::model::{
    dir_count, flat_from, flat_node, flatten, ids_in_order, lemma_dir_count_concat,
    lemma_dir_count_one, lemma_flat_from_ids, Item, Node,
};
use crate::order::child_order;

verus! {

/// The number of the directory that holds an item.
pub open spec fn parent_of(item: Item) -> int {
    match item {
        Item::File { parent, .. } => parent,
        Item::Dir { parent, .. } => parent,
        Item::Symlink { parent, .. } => parent,
    }
}

/// Whether the item at position `j` is the directory with number `id`.
pub open spec fn names_dir(items: Seq<Item>, j: int, id: int) -> bool {
    0 <= j < items.len() && items[j] is Dir && items[j]->id == id
}

/// Whether the item at position `k` is held by `root` or by a directory that
/// stands before it in `items`.
pub open spec fn parent_known(items: Seq<Item>, k: int, root: int) -> bool {
    parent_of(items[k]) == root || exists|j: int|
        j < k && #[trigger] names_dir(items, j, parent_of(items[k]))
}

/// Every item is held by `root` or by a directory that stands before it.
pub open spec fn parents_known(items: Seq<Item>, root: int) -> bool {
    forall|k: int| 0 <= k < items.len() ==> #[trigger] parent_known(items, k, root)
}

/// Two sequences in a row have every parent known from `root`, if the first
/// has, and the second has from a root that is `root` or a directory of the
/// first.
pub proof fn lemma_parents_concat(a: Seq<Item>, b: Seq<Item>, root: int, inner: int)
    requires
        parents_known(a, root),
        parents_known(b, inner),
        inner == root || exists|j: int| #[trigger] names_dir(a, j, inner),
    ensures
        parents_known(a + b, root),
{
    let ab = a + b;
    assert forall|k: int| 0 <= k < ab.len() implies #[trigger] parent_known(ab, k, root) by {
        let p = parent_of(ab[k]);
        if k < a.len() {
            assert(parent_known(a, k, root));
            if p != root {
                let j = choose|j: int| j < k && #[trigger] names_dir(a, j, p);
                assert(names_dir(ab, j, p));
            }
        } else {
            let kb: int = k - a.len();
            assert(parent_known(b, kb, inner));
            if p == inner {
                if inner != root {
                    let j = choose|j: int| #[trigger] names_dir(a, j, inner);
                    assert(names_dir(ab, j, p));
                }
            } else {
                let j = choose|j: int| j < kb && #[trigger] names_dir(b, j, p);
                assert(names_dir(ab, a.len() + j, p));
            }
        }
    }
}

/// In the entries of one node every parent is known from the directory that
/// holds the node.
pub proof fn lemma_flat_node_parents(node: Node, parent: int, counter: int)
    ensures
        parents_known(flat_node(node, parent, counter), parent),
    decreases node, 0nat,
{
    match node {
        Node::Dir { name, children } => {
            let own = seq![Item::Dir { parent, id: counter + 1, name: name@ }];
            let below = flat_from(children@, child_order(children@), 0, counter + 1, counter + 1);
            lemma_flat_from_parents(children@, child_order(children@), 0, counter + 1, counter + 1);
            assert(names_dir(own, 0, counter + 1));
            lemma_parents_concat(own, below, parent, counter + 1);
        },
        _ => {},
    }
}

/// In the entries of a run of children every parent is known from the directory
/// that holds them.
pub proof fn lemma_flat_from_parents(
    children: Seq<Node>,
    order: Seq<int>,
    k: int,
    parent: int,
    counter: int,
)
    ensures
        parents_known(flat_from(children, order, k, parent, counter), parent),
    decreases children, order.len() - k,
{
    if 0 <= k < order.len() {
        if 0 <= order[k] < children.len() {
            let head = flat_node(children[order[k]], parent, counter);
            let rest = flat_from(children, order, k + 1, parent, counter + dir_count(head));
            lemma_flat_node_parents(children[order[k]], parent, counter);
            lemma_flat_from_parents(children, order, k + 1, parent, counter + dir_count(head));
            lemma_parents_concat(head, rest, parent, parent);
        } else {
            lemma_flat_from_parents(children, order, k + 1, parent, counter);
        }
    }
}

/// There is never a negative number of directories.
pub proof fn lemma_dir_count_nonneg(items: Seq<Item>)
    ensures
        dir_count(items) >= 0,
    decreases items.len(),
{
    if items.len() > 0 {
        lemma_dir_count_nonneg(items.drop_last());
    }
}

/// The directories before position `k` include those before position `j`, and
/// the item at `j` itself if it is a directory.
pub proof fn lemma_dir_count_prefix(items: Seq<Item>, j: int, k: int)
    requires
        0 <= j < k <= items.len(),
    ensures
        dir_count(items.take(k)) >= dir_count(items.take(j)) + if items[j] is Dir {
            1int
        } else {
            0int
        },
{
    let mid = items.subrange(j + 1, k);
    assert(items.take(k) =~= items.take(j) + seq![items[j]] + mid);
    lemma_dir_count_concat(items.take(j) + seq![items[j]], mid);
    lemma_dir_count_concat(items.take(j), seq![items[j]]);
    lemma_dir_count_one(items[j]);
    lemma_dir_count_nonneg(mid);
}

/// The traversal sequence of a model numbers its directories 1, 2, 3, ... in
/// the order in which they are written; every item is held by the root, number
/// 0, or by a directory written before it; and every directory has a greater
/// number than the directory that holds it. So the numbers form a tree with
/// root 0.
pub proof fn lemma_tree(model: Seq<Node>)
    ensures
        ids_in_order(flatten(model), 0),
        parents_known(flatten(model), 0),
        forall|k: int|
            0 <= k < flatten(model).len() && (#[trigger] flatten(model)[k]) is Dir ==> 0
                <= parent_of(flatten(model)[k]) < flatten(model)[k]->id,
        forall|k: int|
            0 <= k < flatten(model).len() ==> 0 <= parent_of(#[trigger] flatten(model)[k])
                <= dir_count(flatten(model).take(k)),
{
    let items = flatten(model);
    lemma_flat_from_ids(model, child_order(model), 0, 0, 0);
    lemma_flat_from_parents(model, child_order(model), 0, 0, 0);
    assert forall|k: int| 0 <= k < items.len() implies 0 <= parent_of(#[trigger] items[k])
        <= dir_count(items.take(k)) by {
        lemma_dir_count_nonneg(items.take(k));
        assert(parent_known(items, k, 0));
        let p = parent_of(items[k]);
        if p != 0 {
            let j = choose|j: int| j < k && #[trigger] names_dir(items, j, p);
            lemma_dir_count_prefix(items, j, k);
            lemma_dir_count_nonneg(items.take(j));
        }
    }
}

} // verus!
