//! The order in which children are listed does not matter: models that hold
//! the same trees give the same image.

use vstd::prelude::*;
use crate::image::image;
use crate::model::{dir_count, flat_from, flat_node, flatten, Node};
use crate::order::{
    child_order, is_permutation, lemma_le_antisymmetric, lemma_order_sorted, lemma_order_unique,
    name_le, names_of,
};

verus! {

/// No two of `children` have the same name.
pub open spec fn distinct_names(children: Seq<Node>) -> bool {
    forall|i: int, j: int|
        0 <= i < j < children.len() ==> (#[trigger] children[i]).spec_name() != (
        #[trigger] children[j]).spec_name()
}

/// In `node` and everywhere below it, no directory holds two children of the
/// same name.
pub open spec fn well_named(node: Node) -> bool
    decreases node,
{
    match node {
        Node::Dir { children, .. } => {
            &&& distinct_names(children@)
            &&& forall|i: int|
                0 <= i < children@.len() ==> well_named(#[trigger] children@[i])
        },
        _ => true,
    }
}

/// Whether `y` is the tree `x` with the children of its directories listed in
/// some other order.
pub open spec fn same_tree(x: Node, y: Node) -> bool
    decreases x,
{
    match x {
        Node::File { name, data } => y is File && y->File_name@ == name@ && y->data@ == data@,
        Node::Symlink { name, target } => y is Symlink && y->Symlink_name@ == name@ && y->target@
            == target@,
        Node::Dir { name, children } => y is Dir && y->Dir_name@ == name@ && exists|pi: Seq<int>|
            #[trigger] is_permutation(pi, children@.len() as int) && y->children@.len()
                == children@.len() && forall|i: int|
                0 <= i < children@.len() ==> 0 <= pi[i] < children@.len() && same_tree(
                    children@[pi[i]],
                    #[trigger] y->children@[i],
                ),
    }
}

/// Whether `b` lists the trees of `a` in another order: position `i` of `b`
/// holds the tree at position `pi[i]` of `a`.
pub open spec fn relisted(a: Seq<Node>, b: Seq<Node>, pi: Seq<int>) -> bool {
    &&& is_permutation(pi, a.len() as int)
    &&& b.len() == a.len()
    &&& forall|i: int| 0 <= i < a.len() ==> same_tree(a[pi[i]], #[trigger] b[i])
}

/// The same tree has the same name.
pub proof fn lemma_same_tree_name(x: Node, y: Node)
    requires
        same_tree(x, y),
    ensures
        x.spec_name() == y.spec_name(),
{
}

/// Another listing is visited in the same order: position `k` of the visiting
/// order of `b` holds the tree that position `k` of the visiting order of `a`
/// holds.
pub proof fn lemma_relisted_order(a: Seq<Node>, b: Seq<Node>, pi: Seq<int>)
    requires
        relisted(a, b, pi),
        distinct_names(a),
    ensures
        child_order(a).len() == a.len(),
        child_order(b).len() == a.len(),
        forall|k: int|
            0 <= k < a.len() ==> 0 <= child_order(b)[k] < a.len() && #[trigger] child_order(a)[k]
                == pi[child_order(b)[k]],
{
    let n = a.len();
    let na = names_of(a);
    let nb = names_of(b);
    let ob = child_order(b);
    lemma_order_sorted(na, n);
    lemma_order_sorted(nb, n);
    let via = Seq::new(n, |k: int| pi[ob[k]]);
    assert forall|i: int| 0 <= i < n implies nb[i] == na[pi[i]] by {
        lemma_same_tree_name(a[pi[i]], b[i]);
    }
    assert forall|v: int| 0 <= v < n implies #[trigger] via.contains(v) by {
        assert(pi.contains(v));
        let i = choose|i: int| 0 <= i < pi.len() && pi[i] == v;
        assert(ob.contains(i));
        let k = choose|k: int| 0 <= k < ob.len() && ob[k] == i;
        assert(via[k] == v);
    }
    assert forall|x: int, y: int| 0 <= x < y < via.len() implies {
        &&& name_le(#[trigger] na[via[x]], #[trigger] na[via[y]])
        &&& name_le(na[via[y]], na[via[x]]) ==> via[x] < via[y]
    } by {
        assert(name_le(nb[ob[x]], nb[ob[y]]));
        if name_le(na[via[y]], na[via[x]]) {
            lemma_le_antisymmetric(na[via[x]], na[via[y]], 0);
            assert(na[via[x]].skip(0) =~= na[via[x]]);
            assert(na[via[y]].skip(0) =~= na[via[y]]);
        }
    }
    lemma_order_unique(na, via, n);
}

/// The same tree gives the same entries.
pub proof fn lemma_same_tree_flat(x: Node, y: Node, parent: int, counter: int)
    requires
        same_tree(x, y),
        well_named(x),
    ensures
        flat_node(x, parent, counter) == flat_node(y, parent, counter),
    decreases x, 0nat,
{
    match x {
        Node::Dir { name, children } => {
            let others = y->children@;
            let pi = choose|pi: Seq<int>|
                #[trigger] is_permutation(pi, children@.len() as int) && others.len()
                    == children@.len() && forall|i: int|
                    0 <= i < children@.len() ==> 0 <= pi[i] < children@.len() && same_tree(
                        children@[pi[i]],
                        #[trigger] others[i],
                    );
            lemma_relisted_flat(children@, others, pi, counter + 1, counter + 1);
        },
        _ => {},
    }
}

/// Two listings that are visited tree by tree alike give the same entries from
/// position `k` on.
pub proof fn lemma_alike_from(
    a: Seq<Node>,
    b: Seq<Node>,
    oa: Seq<int>,
    ob: Seq<int>,
    k: int,
    parent: int,
    counter: int,
)
    requires
        oa.len() == ob.len(),
        0 <= k,
        forall|i: int|
            0 <= i < oa.len() ==> 0 <= #[trigger] oa[i] < a.len() && 0 <= ob[i] < b.len()
                && same_tree(a[oa[i]], b[ob[i]]) && well_named(a[oa[i]]),
    ensures
        flat_from(a, oa, k, parent, counter) == flat_from(b, ob, k, parent, counter),
    decreases a, oa.len() - k,
{
    if k < oa.len() {
        lemma_same_tree_flat(a[oa[k]], b[ob[k]], parent, counter);
        let head = flat_node(a[oa[k]], parent, counter);
        lemma_alike_from(a, b, oa, ob, k + 1, parent, counter + dir_count(head));
    }
}

/// Another listing of the same trees gives the same entries.
pub proof fn lemma_relisted_flat(
    a: Seq<Node>,
    b: Seq<Node>,
    pi: Seq<int>,
    parent: int,
    counter: int,
)
    requires
        relisted(a, b, pi),
        distinct_names(a),
        forall|i: int| 0 <= i < a.len() ==> well_named(#[trigger] a[i]),
    ensures
        flat_from(a, child_order(a), 0, parent, counter) == flat_from(
            b,
            child_order(b),
            0,
            parent,
            counter,
        ),
    decreases a, a.len() + 1,
{
    let oa = child_order(a);
    let ob = child_order(b);
    lemma_relisted_order(a, b, pi);
    lemma_order_sorted(names_of(a), a.len());
    assert forall|i: int| 0 <= i < oa.len() implies 0 <= #[trigger] oa[i] < a.len() && 0 <= ob[i]
        < b.len() && same_tree(a[oa[i]], b[ob[i]]) && well_named(a[oa[i]]) by {
        assert(oa[i] == pi[ob[i]]);
    }
    lemma_alike_from(a, b, oa, ob, 0, parent, counter);
}

/// Two models that hold the same trees, with the children of any directory
/// listed in any order, give the same traversal sequence and so the same image,
/// as long as no directory holds two children of the same name.
pub proof fn lemma_listing_order(
    rom: Seq<u8>,
    fat_start: int,
    a: Seq<Node>,
    b: Seq<Node>,
    pi: Seq<int>,
)
    requires
        relisted(a, b, pi),
        distinct_names(a),
        forall|i: int| 0 <= i < a.len() ==> well_named(#[trigger] a[i]),
    ensures
        flatten(a) == flatten(b),
        image(rom, fat_start, a) == image(rom, fat_start, b),
{
    lemma_relisted_flat(a, b, pi, 0, 0);
}

} // verus!
