//! The order of names, and the order in which the children of a directory are
//! visited.

use vstd::prelude::*;
use crate::model::Node;

verus! {

/// Lexicographic comparison of `a` and `b` from position `i` on, given that
/// they agree before it.
pub open spec fn le_from(a: Seq<u8>, b: Seq<u8>, i: int) -> bool
    decreases a.len() - i,
{
    if i >= a.len() {
        true
    } else if i >= b.len() {
        false
    } else if a[i] != b[i] {
        a[i] < b[i]
    } else {
        le_from(a, b, i + 1)
    }
}

/// Whether name `a` sorts no later than name `b`: byte-wise lexicographic
/// order, a proper prefix first.
pub open spec fn name_le(a: Seq<u8>, b: Seq<u8>) -> bool {
    le_from(a, b, 0)
}

/// Whether `i` is the first position at which `a` and `b` differ.
pub open spec fn first_difference(a: Seq<u8>, b: Seq<u8>, i: int) -> bool {
    &&& 0 <= i < a.len()
    &&& i < b.len()
    &&& a.take(i) == b.take(i)
    &&& a[i] != b[i]
}

/// The order of names said outright: `a` is the beginning of `b`, or at the
/// first position where they differ `a` has the smaller byte.
pub open spec fn sorts_before(a: Seq<u8>, b: Seq<u8>) -> bool {
    ||| a.len() <= b.len() && a == b.take(a.len() as int)
    ||| exists|i: int| #[trigger] first_difference(a, b, i) && a[i] < b[i]
}

/// The names of `children`, position by position.
pub open spec fn names_of(children: Seq<Node>) -> Seq<Seq<u8>> {
    Seq::new(children.len(), |i: int| children[i].spec_name())
}

/// Where position `x` goes into `ord`: behind the last entry whose name sorts
/// no later than the name at `x`.
pub open spec fn insert_pos(ord: Seq<int>, names: Seq<Seq<u8>>, x: int) -> int
    decreases ord.len(),
{
    if ord.len() == 0 {
        0
    } else if name_le(names[ord.last()], names[x]) {
        ord.len() as int
    } else {
        insert_pos(ord.drop_last(), names, x)
    }
}

/// The positions `0..n` in the order of their names; equal names keep the order
/// of their positions.
pub open spec fn order_upto(names: Seq<Seq<u8>>, n: nat) -> Seq<int>
    decreases n,
{
    if n == 0 {
        Seq::empty()
    } else {
        let before = order_upto(names, (n - 1) as nat);
        before.insert(insert_pos(before, names, n - 1), n - 1)
    }
}

/// The order in which the children of one directory are visited.
pub open spec fn child_order(children: Seq<Node>) -> Seq<int> {
    order_upto(names_of(children), children.len())
}

/// `ord` holds each of `0..n` exactly once.
pub open spec fn is_permutation(ord: Seq<int>, n: int) -> bool {
    &&& ord.len() == n
    &&& forall|k: int| 0 <= k < ord.len() ==> 0 <= #[trigger] ord[k] < n
    &&& forall|a: int, b: int| 0 <= a < b < ord.len() ==> ord[a] != ord[b]
    &&& forall|v: int| 0 <= v < n ==> #[trigger] ord.contains(v)
}

/// Along `ord` the names never go down, and where two names are equal the
/// smaller position comes first.
pub open spec fn is_sorted(ord: Seq<int>, names: Seq<Seq<u8>>) -> bool {
    forall|a: int, b: int|
        0 <= a < b < ord.len() ==> {
            &&& name_le(#[trigger] names[ord[a]], #[trigger] names[ord[b]])
            &&& name_le(names[ord[b]], names[ord[a]]) ==> ord[a] < ord[b]
        }
}

/// The view of a vector of positions as mathematical integers.
pub open spec fn as_ints(v: Seq<usize>) -> Seq<int> {
    Seq::new(v.len(), |k: int| v[k] as int)
}

/// From a position before which two names agree, the comparison says whether
/// the first sorts before the second.
pub proof fn lemma_le_from_means(a: Seq<u8>, b: Seq<u8>, i: int)
    requires
        0 <= i <= a.len(),
        i <= b.len(),
        a.take(i) == b.take(i),
    ensures
        le_from(a, b, i) <==> sorts_before(a, b),
    decreases a.len() - i,
{
    assert forall|j: int| 0 <= j < i implies a[j] == b[j] by {
        assert(b.take(i)[j] == b[j]);
    }
    if i >= a.len() {
        assert(a.take(i) =~= a);
    } else if i >= b.len() {
    } else if a[i] != b[i] {
        assert(first_difference(a, b, i));
        if !(a[i] < b[i]) {
            assert(!sorts_before(a, b)) by {
                if exists|j: int| #[trigger] first_difference(a, b, j) && a[j] < b[j] {
                    let j = choose|j: int| #[trigger] first_difference(a, b, j) && a[j] < b[j];
                    if j > i {
                        assert(b.take(j)[i] == b[i]);
                    }
                }
            }
        }
    } else {
        assert(a.take(i + 1) =~= b.take(i + 1));
        lemma_le_from_means(a, b, i + 1);
    }
}

/// The comparison of names is the order of the dictionary.
pub proof fn lemma_name_le_means(a: Seq<u8>, b: Seq<u8>)
    ensures
        name_le(a, b) <==> sorts_before(a, b),
{
    assert(a.take(0) =~= b.take(0));
    lemma_le_from_means(a, b, 0);
}

/// Of two names one sorts no later than the other.
pub proof fn lemma_le_total(a: Seq<u8>, b: Seq<u8>, i: int)
    requires
        0 <= i,
    ensures
        le_from(a, b, i) || le_from(b, a, i),
    decreases a.len() - i,
{
    if i < a.len() && i < b.len() && a[i] == b[i] {
        lemma_le_total(a, b, i + 1);
    }
}

/// The order on names is transitive.
pub proof fn lemma_le_trans(a: Seq<u8>, b: Seq<u8>, c: Seq<u8>, i: int)
    requires
        0 <= i,
        le_from(a, b, i),
        le_from(b, c, i),
    ensures
        le_from(a, c, i),
    decreases a.len() - i,
{
    if i < a.len() {
        if a[i] == b[i] && b[i] == c[i] {
            lemma_le_trans(a, b, c, i + 1);
        }
    }
}

/// Two names that sort no later than each other are the same name.
pub proof fn lemma_le_antisymmetric(a: Seq<u8>, b: Seq<u8>, i: int)
    requires
        0 <= i <= a.len(),
        i <= b.len(),
        le_from(a, b, i),
        le_from(b, a, i),
    ensures
        a.skip(i) == b.skip(i),
    decreases a.len() - i,
{
    if i < a.len() {
        lemma_le_antisymmetric(a, b, i + 1);
        assert(b.skip(i) =~= seq![b[i]] + b.skip(i + 1));
    }
}

/// A position `j` that has only later names behind it, and a name that is no
/// later before it, is the place where `x` goes.
pub proof fn lemma_insert_pos_is(ord: Seq<int>, names: Seq<Seq<u8>>, x: int, j: int)
    requires
        0 <= j <= ord.len(),
        forall|t: int| j <= t < ord.len() ==> !name_le(#[trigger] names[ord[t]], names[x]),
        j == 0 || name_le(names[ord[j - 1]], names[x]),
    ensures
        insert_pos(ord, names, x) == j,
    decreases ord.len(),
{
    if ord.len() > 0 && j < ord.len() {
        let rest = ord.drop_last();
        lemma_insert_pos_is(rest, names, x, j);
    }
}

/// What holds at the place where `x` goes.
pub proof fn lemma_insert_pos_found(ord: Seq<int>, names: Seq<Seq<u8>>, x: int)
    ensures
        0 <= insert_pos(ord, names, x) <= ord.len(),
        forall|t: int|
            insert_pos(ord, names, x) <= t < ord.len() ==> !name_le(
                #[trigger] names[ord[t]],
                names[x],
            ),
        insert_pos(ord, names, x) == 0 || name_le(
            names[ord[insert_pos(ord, names, x) - 1]],
            names[x],
        ),
    decreases ord.len(),
{
    if ord.len() > 0 && !name_le(names[ord.last()], names[x]) {
        let rest = ord.drop_last();
        lemma_insert_pos_found(rest, names, x);
        let j = insert_pos(rest, names, x);
        assert forall|t: int| j <= t < ord.len() implies !name_le(
            #[trigger] names[ord[t]],
            names[x],
        ) by {
            if t < rest.len() {
                assert(rest[t] == ord[t]);
            }
        }
    }
}

/// The visiting order holds every position once, and is sorted by name with
/// ties in the order of the positions.
pub proof fn lemma_order_sorted(names: Seq<Seq<u8>>, n: nat)
    requires
        n <= names.len(),
    ensures
        is_permutation(order_upto(names, n), n as int),
        is_sorted(order_upto(names, n), names),
    decreases n,
{
    if n > 0 {
        let before = order_upto(names, (n - 1) as nat);
        lemma_order_sorted(names, (n - 1) as nat);
        lemma_insert_pos_found(before, names, n - 1);
        let x: int = n - 1;
        let p = insert_pos(before, names, x);
        let after = before.insert(p, x);
        assert forall|v: int| 0 <= v < n implies #[trigger] after.contains(v) by {
            if v == x {
                assert(after[p] == x);
            } else {
                assert(before.contains(v));
                let k = choose|k: int| 0 <= k < before.len() && before[k] == v;
                if k < p {
                    assert(after[k] == v);
                } else {
                    assert(after[k + 1] == v);
                }
            }
        }
        assert forall|a: int, b: int| 0 <= a < b < after.len() implies {
            &&& name_le(#[trigger] names[after[a]], #[trigger] names[after[b]])
            &&& name_le(names[after[b]], names[after[a]]) ==> after[a] < after[b]
        } by {
            let ia = if a < p { a } else { a - 1 };
            let ib = if b < p { b } else { b - 1 };
            if a == p {
                lemma_le_total(names[x], names[before[ib]], 0);
            } else if b == p {
                if ia < p - 1 {
                    lemma_le_trans(names[before[ia]], names[before[p - 1]], names[x], 0);
                }
            }
        }
    }
}

/// Only one order holds every position once and is sorted by name with ties in
/// the order of the positions: the visiting order.
pub proof fn lemma_order_unique(names: Seq<Seq<u8>>, ord: Seq<int>, n: nat)
    requires
        n <= names.len(),
        is_permutation(ord, n as int),
        is_sorted(ord, names),
    ensures
        ord == order_upto(names, n),
    decreases n,
{
    if n > 0 {
        let x: int = n - 1;
        assert(ord.contains(x));
        let q = choose|k: int| 0 <= k < ord.len() && ord[k] == x;
        let rest = ord.remove(q);
        assert forall|v: int| 0 <= v < n - 1 implies #[trigger] rest.contains(v) by {
            assert(ord.contains(v));
            let k = choose|k: int| 0 <= k < ord.len() && ord[k] == v;
            if k < q {
                assert(rest[k] == v);
            } else {
                assert(rest[k - 1] == v);
            }
        }
        lemma_order_unique(names, rest, (n - 1) as nat);
        lemma_insert_pos_is(rest, names, x, q);
    }
}

/// Compares two names byte by byte.
pub fn name_le_exec(a: &Vec<u8>, b: &Vec<u8>) -> (le: bool)
    ensures
        le == name_le(a@, b@),
{
    let mut i: usize = 0;
    while i < a.len() && i < b.len()
        invariant
            i <= a.len(),
            i <= b.len(),
            name_le(a@, b@) == le_from(a@, b@, i as int),
        decreases a.len() - i,
    {
        if a[i] != b[i] {
            return a[i] < b[i];
        }
        i += 1;
    }
    i >= a.len()
}

/// Computes the order in which the children of a directory are visited.
pub fn sort_children(children: &Vec<Node>) -> (order: Vec<usize>)
    ensures
        as_ints(order@) == child_order(children@),
        is_permutation(as_ints(order@), children@.len() as int),
        is_sorted(as_ints(order@), names_of(children@)),
{
    let ghost names = names_of(children@);
    let mut order: Vec<usize> = Vec::new();
    let mut i: usize = 0;
    while i < children.len()
        invariant
            i <= children.len(),
            names == names_of(children@),
            order.len() == i,
            as_ints(order@) == order_upto(names, i as nat),
            forall|k: int| 0 <= k < order@.len() ==> #[trigger] order@[k] < i,
        decreases children.len() - i,
    {
        let mut j: usize = order.len();
        while j > 0 && !name_le_exec(children[order[j - 1]].name(), children[i].name())
            invariant
                j <= order.len(),
                i < children.len(),
                order.len() == i,
                names == names_of(children@),
                forall|k: int| 0 <= k < order@.len() ==> #[trigger] order@[k] < i,
                forall|t: int|
                    j <= t < order@.len() ==> !name_le(
                        #[trigger] names[as_ints(order@)[t]],
                        names[i as int],
                    ),
            decreases j,
        {
            j -= 1;
        }
        proof {
            lemma_insert_pos_is(as_ints(order@), names, i as int, j as int);
        }
        order.insert(j, i);
        i += 1;
    }
    proof {
        lemma_order_sorted(names, children@.len());
    }
    order
}

} // verus!
