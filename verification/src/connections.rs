//! Laws about connections.
use crate::partition::{
    belongs, connect_sets, connected, disjoint, law_connect, lemma_connect_disjoint,
    lemma_connected_transitive, node_of, present,
};
use vstd::prelude::*;

verus! {

/// The nodes after all the given pairs were connected, one after the other.
pub open spec fn nodes_of<T>(pairs: Seq<(T, T)>) -> Seq<Set<T>>
    decreases pairs.len(),
{
    if pairs.len() == 0 {
        Seq::empty()
    } else {
        connect_sets(nodes_of(pairs.drop_last()), pairs.last().0, pairs.last().1)
    }
}

/// `x` was connected to something.
pub open spec fn mentioned<T>(pairs: Seq<(T, T)>, x: T) -> bool {
    exists|i: int| 0 <= i < pairs.len() && ((#[trigger] pairs[i]).0 == x || pairs[i].1 == x)
}

/// `x` and `y` were connected to each other.
pub open spec fn joined<T>(pairs: Seq<(T, T)>, x: T, y: T) -> bool {
    exists|i: int|
        0 <= i < pairs.len() && (#[trigger] pairs[i] == (x, y) || pairs[i] == (y, x))
}

/// The path leads from `x` to `y` along connected pairs.
pub open spec fn is_chain<T>(pairs: Seq<(T, T)>, path: Seq<T>, x: T, y: T) -> bool {
    &&& path.len() > 0
    &&& path[0] == x
    &&& path.last() == y
    &&& forall|i: int| 0 <= i < path.len() - 1 ==> joined(pairs, #[trigger] path[i], path[i + 1])
}

/// A chain of connected pairs links `x` and `y`.
pub open spec fn linked<T>(pairs: Seq<(T, T)>, x: T, y: T) -> bool {
    exists|path: Seq<T>| #[trigger] is_chain(pairs, path, x, y)
}

/// The node of `x`, or `x` alone if it does not belong to a node.
pub open spec fn class_of<T>(s: Seq<Set<T>>, x: T) -> Set<T> {
    if present(s, x) {
        s[node_of(s, x)]
    } else {
        Set::empty().insert(x)
    }
}

/// Something belongs to the node with the given index.
pub open spec fn node_nonempty<T>(s: Seq<Set<T>>, i: int) -> bool {
    exists|x: T| #[trigger] belongs(s, i, x)
}

/// No node is empty.
pub open spec fn all_nonempty<T>(s: Seq<Set<T>>) -> bool {
    forall|i: int| 0 <= i < s.len() ==> #[trigger] node_nonempty(s, i)
}

/// What belongs to a node after two elements were connected.
proof fn lemma_connect_present<T>(s: Seq<Set<T>>, a: T, b: T, x: T)
    requires
        disjoint(s),
    ensures
        present(connect_sets(s, a, b), x) <==> (present(s, x) || x == a || x == b),
{
    let r = connect_sets(s, a, b);
    lemma_connect_disjoint(s, a, b);
    law_connect_nodes(s, a, b);
    let (ca, cb) = (class_of(s, a), class_of(s, b));
    if present(s, a) {
        assert(belongs(s, node_of(s, a), a));
    }
    if present(s, b) {
        assert(belongs(s, node_of(s, b), b));
    }
    let u = ca.union(cb);
    assert(has_node(r, u));
    let k = choose|k: int| 0 <= k < r.len() && r[k] == u;
    if x == a || x == b {
        assert(belongs(r, k, x));
    } else if present(s, x) {
        let i = node_of(s, x);
        assert(belongs(s, i, x));
        if s[i].contains(a) {
            assert(belongs(s, i, a));
            assert(ca == s[i]);
            assert(belongs(r, k, x));
        } else if s[i].contains(b) {
            assert(belongs(s, i, b));
            assert(cb == s[i]);
            assert(belongs(r, k, x));
        } else {
            assert(has_node(s, s[i]));
            assert(has_node(r, s[i]));
            let l = choose|l: int| 0 <= l < r.len() && r[l] == s[i];
            assert(belongs(r, l, x));
        }
    }
    if present(r, x) {
        let l = node_of(r, x);
        assert(belongs(r, l, x));
        assert(has_node(r, r[l]));
        if r[l] == u {
            if ca.contains(x) && x != a {
                assert(belongs(s, node_of(s, a), x));
            }
            if cb.contains(x) && x != b {
                assert(belongs(s, node_of(s, b), x));
            }
        } else {
            assert(has_node(s, r[l]));
            let i = choose|i: int| 0 <= i < s.len() && s[i] == r[l];
            assert(belongs(s, i, x));
        }
    }
}

/// The set is one of the nodes.
pub open spec fn has_node<T>(s: Seq<Set<T>>, node: Set<T>) -> bool {
    exists|i: int| 0 <= i < s.len() && #[trigger] s[i] == node
}

/// Connecting two elements replaces their nodes with the union of them: the other nodes stay as they
/// are. An element that does not belong to a node counts as a node of its own.
pub proof fn law_connect_nodes<T>(s: Seq<Set<T>>, a: T, b: T)
    requires
        disjoint(s),
    ensures
        forall|node: Set<T>| #[trigger]
            has_node(connect_sets(s, a, b), node) <==> (node == class_of(s, a).union(class_of(s, b))
                || (has_node(s, node) && !node.contains(a) && !node.contains(b))),
{
    let r = connect_sets(s, a, b);
    let (i, j) = (node_of(s, a), node_of(s, b));
    let u = class_of(s, a).union(class_of(s, b));
    if present(s, a) {
        assert(belongs(s, i, a));
    }
    if present(s, b) {
        assert(belongs(s, j, b));
    }
    assert forall|node: Set<T>| #[trigger] has_node(r, node) <==> (node == u || (has_node(s, node)
        && !node.contains(a) && !node.contains(b))) by {
        if present(s, a) && present(s, b) {
            if i == j {
                assert(u =~= s[i]);
                if has_node(r, node) {
                    let k = choose|k: int| 0 <= k < r.len() && r[k] == node;
                    if node.contains(a) {
                        assert(s[k].contains(a) && s[i].contains(a));
                    }
                    if node.contains(b) {
                        assert(s[k].contains(b) && s[i].contains(b));
                    }
                }
                if node == u {
                    assert(r[i] == node);
                }
                if has_node(s, node) {
                    assert(has_node(r, node));
                }
            } else {
                let i1 = if i < j {
                    i
                } else {
                    i - 1
                };
                assert(r[i1] == u);
                if has_node(r, node) {
                    let k = choose|k: int| 0 <= k < r.len() && r[k] == node;
                    let k0 = if k < j {
                        k
                    } else {
                        k + 1
                    };
                    if k0 != i {
                        assert(s[k0] == node);
                        if node.contains(a) {
                            assert(s[k0].contains(a) && s[i].contains(a));
                        }
                        if node.contains(b) {
                            assert(s[k0].contains(b) && s[j].contains(b));
                        }
                    }
                }
                if has_node(s, node) && !node.contains(a) && !node.contains(b) {
                    let k = choose|k: int| 0 <= k < s.len() && s[k] == node;
                    assert(k != i && k != j);
                    let k1 = if k < j {
                        k
                    } else {
                        k - 1
                    };
                    assert(r[k1] == node);
                }
            }
        } else if present(s, a) || present(s, b) {
            let (k0, x, y) = if present(s, a) {
                (i, a, b)
            } else {
                (j, b, a)
            };
            assert(u =~= s[k0].insert(y));
            assert(r[k0] == u);
            if has_node(r, node) {
                let k = choose|k: int| 0 <= k < r.len() && r[k] == node;
                if k != k0 {
                    assert(s[k] == node);
                    if node.contains(x) {
                        assert(s[k].contains(x) && s[k0].contains(x));
                    }
                    if node.contains(y) {
                        assert(belongs(s, k, y));
                    }
                }
            }
            if has_node(s, node) && !node.contains(a) && !node.contains(b) {
                let k = choose|k: int| 0 <= k < s.len() && s[k] == node;
                assert(k != k0);
                assert(r[k] == node);
            }
        } else {
            assert(u =~= Set::empty().insert(a).insert(b));
            assert(r[s.len() as int] == u);
            if has_node(r, node) {
                let k = choose|k: int| 0 <= k < r.len() && r[k] == node;
                if k < s.len() {
                    assert(s[k] == node);
                    if node.contains(a) {
                        assert(belongs(s, k, a));
                    }
                    if node.contains(b) {
                        assert(belongs(s, k, b));
                    }
                }
            }
            if has_node(s, node) {
                let k = choose|k: int| 0 <= k < s.len() && s[k] == node;
                assert(r[k] == node);
            }
        }
    }
}

/// The order of the two elements that are connected does not matter: the nodes are the same.
pub proof fn law_connect_is_symmetric<T>(s: Seq<Set<T>>, a: T, b: T)
    requires
        disjoint(s),
    ensures
        forall|node: Set<T>| #[trigger]
            has_node(connect_sets(s, a, b), node) <==> has_node(connect_sets(s, b, a), node),
{
    law_connect_nodes(s, a, b);
    law_connect_nodes(s, b, a);
    assert(class_of(s, a).union(class_of(s, b)) =~= class_of(s, b).union(class_of(s, a)));
}

/// Connecting two elements again changes nothing.
pub proof fn law_connect_is_idempotent<T>(s: Seq<Set<T>>, a: T, b: T)
    requires
        disjoint(s),
    ensures
        connect_sets(connect_sets(s, a, b), a, b) == connect_sets(s, a, b),
{
    let r = connect_sets(s, a, b);
    lemma_connect_disjoint(s, a, b);
    lemma_connect_present(s, a, b, a);
    lemma_connect_present(s, a, b, b);
    law_connect(s, a, b, a, b);
    assert(connected(s, a, a) && connected(s, b, b));
    assert(connected(r, a, b));
    let (i, j) = (node_of(r, a), node_of(r, b));
    assert(belongs(r, i, a) && belongs(r, j, b));
    if a != b {
        let k = choose|k: int| #[trigger] belongs(r, k, a) && belongs(r, k, b);
        assert(k == i && k == j);
    }
}

/// After any sequence of connections the nodes are disjoint and not empty, and exactly what was
/// connected to something belongs to them.
pub proof fn law_nodes_partition<T>(pairs: Seq<(T, T)>)
    ensures
        disjoint(nodes_of(pairs)),
        all_nonempty(nodes_of(pairs)),
        forall|x: T| #[trigger] present(nodes_of(pairs), x) <==> mentioned(pairs, x),
    decreases pairs.len(),
{
    let r = nodes_of(pairs);
    if pairs.len() == 0 {
        assert forall|x: T| #[trigger] present(r, x) <==> mentioned(pairs, x) by {
            if present(r, x) {
                let i = choose|i: int| #[trigger] belongs(r, i, x);
            }
        }
    } else {
        let before = pairs.drop_last();
        let s = nodes_of(before);
        let (a, b) = pairs.last();
        law_nodes_partition(before);
        lemma_connect_disjoint(s, a, b);
        law_connect_nodes(s, a, b);
        assert forall|x: T| #[trigger] present(r, x) <==> mentioned(pairs, x) by {
            lemma_connect_present(s, a, b, x);
            assert(present(s, x) <==> mentioned(before, x));
            if mentioned(before, x) {
                let i = choose|i: int|
                    0 <= i < before.len() && ((#[trigger] before[i]).0 == x || before[i].1 == x);
                assert(pairs[i] == before[i]);
            }
            if x == a || x == b {
                assert(pairs[pairs.len() - 1].0 == x || pairs[pairs.len() - 1].1 == x);
            }
            if mentioned(pairs, x) {
                let i = choose|i: int|
                    0 <= i < pairs.len() && ((#[trigger] pairs[i]).0 == x || pairs[i].1 == x);
                if i < before.len() {
                    assert(before[i] == pairs[i]);
                }
            }
        }
        assert forall|i: int| 0 <= i < r.len() implies #[trigger] node_nonempty(r, i) by {
            assert(has_node(r, r[i]));
            let u = class_of(s, a).union(class_of(s, b));
            if r[i] == u {
                if present(s, a) {
                    assert(belongs(s, node_of(s, a), a));
                }
                assert(belongs(r, i, a));
            } else {
                assert(has_node(s, r[i]));
                let k = choose|k: int| 0 <= k < s.len() && s[k] == r[i];
                assert(node_nonempty(s, k));
                let x = choose|x: T| #[trigger] belongs(s, k, x);
                assert(belongs(r, i, x));
            }
        }
    }
}

/// Two chains after one another.
proof fn lemma_chain_concat<T>(pairs: Seq<(T, T)>, p: Seq<T>, q: Seq<T>, x: T, y: T, z: T, w: T)
    requires
        is_chain(pairs, p, x, y),
        is_chain(pairs, q, z, w),
        joined(pairs, y, z),
    ensures
        is_chain(pairs, p + q, x, w),
{
    let r = p + q;
    assert(r.last() == q.last());
    assert forall|i: int| 0 <= i < r.len() - 1 implies joined(pairs, #[trigger] r[i], r[i + 1]) by {
        if i < p.len() - 1 {
            assert(r[i] == p[i] && r[i + 1] == p[i + 1]);
        } else if i == p.len() - 1 {
            assert(r[i] == p.last() && r[i + 1] == q[0]);
        } else {
            let j = i - p.len();
            assert(r[i] == q[j] && r[i + 1] == q[j + 1]);
        }
    }
}

/// A chain along some pairs is one along more pairs.
proof fn lemma_chain_more<T>(before: Seq<(T, T)>, pairs: Seq<(T, T)>, x: T, y: T)
    requires
        pairs.len() > 0,
        before == pairs.drop_last(),
        linked(before, x, y),
    ensures
        linked(pairs, x, y),
{
    let path = choose|path: Seq<T>| #[trigger] is_chain(before, path, x, y);
    assert forall|i: int| 0 <= i < path.len() - 1 implies joined(
        pairs,
        #[trigger] path[i],
        path[i + 1],
    ) by {
        let (u, v) = (path[i], path[i + 1]);
        assert(joined(before, u, v));
        let k = choose|k: int|
            0 <= k < before.len() && (#[trigger] before[k] == (u, v) || before[k] == (v, u));
        assert(pairs[k] == before[k]);
    }
    assert(is_chain(pairs, path, x, y));
}

/// After any sequence of connections, two elements are the same or in the same node if and only if a
/// chain of connected pairs links them.
pub proof fn law_nodes_are_chains<T>(pairs: Seq<(T, T)>, x: T, y: T)
    ensures
        connected(nodes_of(pairs), x, y) <==> linked(pairs, x, y),
{
    law_nodes_partition(pairs);
    if linked(pairs, x, y) {
        let path = choose|path: Seq<T>| #[trigger] is_chain(pairs, path, x, y);
        lemma_chain_connected(pairs, path, x, y);
    }
    if connected(nodes_of(pairs), x, y) {
        lemma_connected_chain(pairs, x, y);
    }
}

/// Joined elements are connected.
proof fn lemma_joined_connected<T>(pairs: Seq<(T, T)>, k: int)
    requires
        0 <= k < pairs.len(),
    ensures
        connected(nodes_of(pairs), pairs[k].0, pairs[k].1),
    decreases pairs.len(),
{
    let before = pairs.drop_last();
    let s = nodes_of(before);
    let (a, b) = pairs.last();
    let (x, y) = pairs[k];
    law_nodes_partition(before);
    law_connect(s, a, b, x, y);
    if k < before.len() {
        assert(before[k] == pairs[k]);
        lemma_joined_connected(before, k);
    } else {
        assert(connected(s, x, a) && connected(s, b, y));
    }
}

/// The ends of a chain are connected.
proof fn lemma_chain_connected<T>(pairs: Seq<(T, T)>, path: Seq<T>, x: T, y: T)
    requires
        is_chain(pairs, path, x, y),
    ensures
        connected(nodes_of(pairs), x, y),
    decreases path.len(),
{
    let s = nodes_of(pairs);
    law_nodes_partition(pairs);
    if path.len() > 1 {
        let init = path.drop_last();
        let n = path.len() - 2;
        let z = path[n];
        assert(init.last() == z);
        assert forall|i: int| 0 <= i < init.len() - 1 implies joined(
            pairs,
            #[trigger] init[i],
            init[i + 1],
        ) by {
            assert(init[i] == path[i] && init[i + 1] == path[i + 1]);
        }
        lemma_chain_connected(pairs, init, x, z);
        assert(joined(pairs, path[n], path[n + 1]));
        let k = choose|k: int|
            0 <= k < pairs.len() && (#[trigger] pairs[k] == (z, y) || pairs[k] == (y, z));
        lemma_joined_connected(pairs, k);
        assert(connected(s, z, y));
        lemma_connected_transitive(s, x, z, y);
    }
}

/// Connected elements are linked by a chain.
proof fn lemma_connected_chain<T>(pairs: Seq<(T, T)>, x: T, y: T)
    requires
        connected(nodes_of(pairs), x, y),
    ensures
        linked(pairs, x, y),
    decreases pairs.len(),
{
    if x == y {
        assert(is_chain(pairs, seq![x], x, y));
    } else if pairs.len() == 0 {
        let i = choose|i: int|
            #[trigger] belongs(nodes_of(pairs), i, x) && belongs(nodes_of(pairs), i, y);
    } else {
        let before = pairs.drop_last();
        let s = nodes_of(before);
        let (a, b) = pairs.last();
        law_nodes_partition(before);
        law_connect(s, a, b, x, y);
        assert(pairs[pairs.len() - 1] == (a, b));
        assert(joined(pairs, a, b) && joined(pairs, b, a));
        if connected(s, x, y) {
            lemma_connected_chain(before, x, y);
            lemma_chain_more(before, pairs, x, y);
        } else {
            let (u, v) = if connected(s, x, a) && connected(s, b, y) {
                (a, b)
            } else {
                (b, a)
            };
            lemma_connected_chain(before, x, u);
            lemma_connected_chain(before, v, y);
            lemma_chain_more(before, pairs, x, u);
            lemma_chain_more(before, pairs, v, y);
            let p = choose|p: Seq<T>| #[trigger] is_chain(pairs, p, x, u);
            let q = choose|q: Seq<T>| #[trigger] is_chain(pairs, q, v, y);
            lemma_chain_concat(pairs, p, q, x, u, v, y);
        }
    }
}

/// Nodes stay in the order in which they were made. Two elements without a node make a new one, behind
/// the others; an element without a node goes to the node of the other one; and where both have a
/// node, all of the second one's node goes to the first one's, and the second one's node is dropped.
pub proof fn law_order_of_nodes<T>(s: Seq<Set<T>>, a: T, b: T, i: int, j: int, k: int)
    requires
        disjoint(s),
        0 <= k < s.len(),
    ensures
        !present(s, a) && !present(s, b) ==> connect_sets(s, a, b) == s.push(
            Set::empty().insert(a).insert(b),
        ),
        belongs(s, i, a) && !present(s, b) ==> {
            &&& connect_sets(s, a, b).len() == s.len()
            &&& connect_sets(s, a, b)[k] == if k == i {
                s[k].insert(b)
            } else {
                s[k]
            }
        },
        !present(s, a) && belongs(s, j, b) ==> {
            &&& connect_sets(s, a, b).len() == s.len()
            &&& connect_sets(s, a, b)[k] == if k == j {
                s[k].insert(a)
            } else {
                s[k]
            }
        },
        belongs(s, i, a) && belongs(s, i, b) ==> connect_sets(s, a, b) == s,
        belongs(s, i, a) && belongs(s, j, b) && i != j ==> {
            &&& connect_sets(s, a, b).len() == s.len() - 1
            &&& k < j ==> connect_sets(s, a, b)[k] == if k == i {
                s[i].union(s[j])
            } else {
                s[k]
            }
            &&& k > j ==> connect_sets(s, a, b)[k - 1] == if k == i {
                s[i].union(s[j])
            } else {
                s[k]
            }
        },
{
    if belongs(s, i, a) {
        assert(present(s, a));
        assert(belongs(s, node_of(s, a), a));
        assert(node_of(s, a) == i);
    }
    if belongs(s, j, b) {
        assert(present(s, b));
        assert(belongs(s, node_of(s, b), b));
        assert(node_of(s, b) == j);
    }
    if belongs(s, i, b) {
        assert(present(s, b));
        assert(belongs(s, node_of(s, b), b));
    }
}

} // verus!
