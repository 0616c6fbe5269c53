//! Partitions of interconnected terminations.
use vstd::prelude::*;

verus! {

/// Types with a total order.
pub trait Ordered: Copy {
    /// The order.
    spec fn precedes(self, other: Self) -> bool;

    /// The order is irreflexive.
    proof fn lemma_irreflexive(self)
        ensures
            !self.precedes(self),
    ;

    /// The order is transitive.
    proof fn lemma_transitive(self, b: Self, c: Self)
        requires
            self.precedes(b),
            b.precedes(c),
        ensures
            self.precedes(c),
    ;

    /// The order is total.
    proof fn lemma_total(self, other: Self)
        ensures
            self.precedes(other) || other.precedes(self) || self == other,
    ;

    /// Compares two values.
    fn less(self, other: Self) -> (ret: bool)
        ensures
            ret == self.precedes(other),
    ;
}

/// Tells whether two values are the same.
fn same<T: Ordered>(a: T, b: T) -> (ret: bool)
    ensures
        ret == (a == b),
{
    proof {
        a.lemma_irreflexive();
        a.lemma_total(b);
    }
    !a.less(b) && !b.less(a)
}

/// The elements strictly increase.
pub open spec fn sorted<T: Ordered>(s: Seq<T>) -> bool {
    forall|i: int, j: int| 0 <= i < j < s.len() ==> (#[trigger] s[i]).precedes(#[trigger] s[j])
}

/// The sets of elements of a list of nodes.
pub open spec fn node_sets<T>(nodes: Seq<Vec<T>>) -> Seq<Set<T>> {
    Seq::new(nodes.len(), |i: int| nodes[i]@.to_set())
}

/// No two of the sets have an element in common.
pub open spec fn disjoint<T>(s: Seq<Set<T>>) -> bool {
    forall|i: int, j: int, x: T|
        0 <= i < s.len() && 0 <= j < s.len() && #[trigger] s[i].contains(x)
            && #[trigger] s[j].contains(x) ==> i == j
}

/// `i` is the index of the set that `x` belongs to.
pub open spec fn belongs<T>(s: Seq<Set<T>>, i: int, x: T) -> bool {
    0 <= i < s.len() && s[i].contains(x)
}

/// `x` belongs to some of the sets.
pub open spec fn present<T>(s: Seq<Set<T>>, x: T) -> bool {
    exists|i: int| #[trigger] belongs(s, i, x)
}

/// The index of the set that `x` belongs to.
pub open spec fn node_of<T>(s: Seq<Set<T>>, x: T) -> int {
    choose|i: int| #[trigger] belongs(s, i, x)
}

/// `a` and `b` are the same or belong to the same set.
pub open spec fn connected<T>(s: Seq<Set<T>>, a: T, b: T) -> bool {
    a == b || exists|i: int| #[trigger] belongs(s, i, a) && belongs(s, i, b)
}

/// The nodes after `a` and `b` were connected.
pub open spec fn connect_sets<T>(s: Seq<Set<T>>, a: T, b: T) -> Seq<Set<T>> {
    let i = node_of(s, a);
    let j = node_of(s, b);
    if present(s, a) && present(s, b) {
        if i == j {
            s
        } else {
            s.update(i, s[i].union(s[j])).remove(j)
        }
    } else if present(s, a) {
        s.update(i, s[i].insert(b))
    } else if present(s, b) {
        s.update(j, s[j].insert(a))
    } else {
        s.push(Set::empty().insert(a).insert(b))
    }
}

/// Inserts an element into an ordered list unless it is already there.
fn insert_sorted<T: Ordered>(set: &mut Vec<T>, x: T)
    requires
        sorted(old(set)@),
    ensures
        sorted(final(set)@),
        final(set)@.to_set() == old(set)@.to_set().insert(x),
{
    let ghost s = set@;
    let mut i: usize = 0;
    while i < set.len() && set[i].less(x)
        invariant
            i <= set.len(),
            set@ == s,
            sorted(s),
            forall|j: int| 0 <= j < i ==> (#[trigger] s[j]).precedes(x),
        decreases set.len() - i,
    {
        i += 1;
    }
    if i < set.len() && same(set[i], x) {
        proof {
            assert(s[i as int] == x);
            assert(s.contains(x));
            assert(s.to_set().insert(x) =~= s.to_set());
        }
        return;
    }
    set.insert(i, x);
    proof {
        let r = set@;
        assert forall|j: int, k: int| 0 <= j < k < r.len() implies (#[trigger] r[j]).precedes(
            #[trigger] r[k],
        ) by {
            assert(r[j] == if j < i {
                s[j]
            } else if j == i {
                x
            } else {
                s[j - 1]
            });
            assert(r[k] == if k < i {
                s[k]
            } else if k == i {
                x
            } else {
                s[k - 1]
            });
            if j == i {
                x.lemma_total(s[i as int]);
                if k - 1 > i {
                    x.lemma_transitive(s[i as int], s[k - 1]);
                }
            }
        }
        assert forall|v: T| r.to_set().contains(v) <==> s.to_set().insert(x).contains(v) by {
            if r.contains(v) {
                let k = choose|k: int| 0 <= k < r.len() && r[k] == v;
                if k < i {
                    assert(s[k] == v);
                } else if k > i {
                    assert(s[k - 1] == v);
                }
            }
            if s.contains(v) {
                let k = choose|k: int| 0 <= k < s.len() && s[k] == v;
                if k < i {
                    assert(r[k] == v);
                } else {
                    assert(r[k + 1] == v);
                }
            }
            if v == x {
                assert(r[i as int] == v);
            }
        }
        assert(r.to_set() =~= s.to_set().insert(x));
    }
}

/// Keeps terminations organized in partitions, i.e. sets of interconnected terminations.
///
/// Since all the terminations in a partition are connected to each other, in this context a
/// partition represents a node of the circuit, so we call partitions "nodes".
///
/// A termination that does not belong to any node is connected to itself only.
#[derive(Debug)]
pub struct Partition<T: Ordered> {
    /// The nodes, each in ascending order.
    nodes: Vec<Vec<T>>,
}

impl<T: Ordered> View for Partition<T> {
    type V = Seq<Set<T>>;

    closed spec fn view(&self) -> Seq<Set<T>> {
        node_sets(self.nodes@)
    }
}

impl<T: Ordered> Partition<T> {
    /// The nodes are ordered, and no two of them have an element in common.
    #[verifier::type_invariant]
    pub closed spec fn wf(self) -> bool {
        &&& disjoint(node_sets(self.nodes@))
        &&& forall|i: int| 0 <= i < self.nodes@.len() ==> sorted((#[trigger] self.nodes@[i])@)
    }

    /// Makes an empty partition.
    pub fn new() -> (ret: Self)
        ensures
            ret@ == Seq::<Set<T>>::empty(),
    {
        let nodes: Vec<Vec<T>> = Vec::new();
        proof {
            assert(node_sets(nodes@) =~= Seq::<Set<T>>::empty());
        }
        Partition { nodes }
    }

    /// The index of the node that `x` belongs to, if there is one.
    fn find(&self, x: T) -> (ret: Option<usize>)
        ensures
            ret is Some <==> present(self@, x),
            ret is Some ==> ret->Some_0 == node_of(self@, x) && belongs(
                self@,
                (ret->Some_0) as int,
                x,
            ),
    {
        let ghost s = self@;
        proof {
            use_type_invariant(self);
        }
        let mut i: usize = 0;
        while i < self.nodes.len()
            invariant
                i <= self.nodes.len(),
                s == node_sets(self.nodes@),
                disjoint(s),
                forall|k: int| 0 <= k < i ==> !(#[trigger] s[k]).contains(x),
            decreases self.nodes.len() - i,
        {
            let node = &self.nodes[i];
            let mut j: usize = 0;
            while j < node.len()
                invariant
                    i < self.nodes.len(),
                    j <= node.len(),
                    node == &self.nodes@[i as int],
                    s == node_sets(self.nodes@),
                    disjoint(s),
                    forall|k: int| 0 <= k < j ==> (#[trigger] node@[k]) != x,
                decreases node.len() - j,
            {
                if same(node[j], x) {
                    proof {
                        assert(node@.contains(x));
                        assert(s[i as int].contains(x));
                        assert(belongs(s, i as int, x));
                        let k = node_of(s, x);
                        assert(belongs(s, k, x));
                    }
                    return Some(i);
                }
                j += 1;
            }
            proof {
                assert(!s[i as int].contains(x)) by {
                    if node@.contains(x) {
                        let k = choose|k: int| 0 <= k < node@.len() && node@[k] == x;
                        assert(node@[k] != x);
                    }
                }
            }
            i += 1;
        }
        proof {
            assert(!present(s, x)) by {
                if present(s, x) {
                    let k = node_of(s, x);
                    assert(belongs(s, k, x));
                }
            }
        }
        None
    }

    /// Connects two terminations.
    pub fn connect(&mut self, a: T, b: T)
        ensures
            final(self)@ == connect_sets(old(self)@, a, b),
    {
        let ghost s = self@;
        proof {
            use_type_invariant(&*self);
            lemma_connect_disjoint(s, a, b);
        }
        let first = self.find(a);
        let second = self.find(b);
        let mut nodes = copy_nodes(&self.nodes);
        match (first, second) {
            (Some(i), Some(j)) => {
                if i != j {
                    let mut node = copy_node(&nodes[i]);
                    let other = copy_node(&nodes[j]);
                    let ghost before = node@.to_set();
                    let mut k: usize = 0;
                    proof {
                        assert(before.union(other@.subrange(0, 0).to_set()) =~= before);
                    }
                    while k < other.len()
                        invariant
                            k <= other.len(),
                            sorted(node@),
                            node@.to_set() == before.union(other@.subrange(0, k as int).to_set()),
                        decreases other.len() - k,
                    {
                        insert_sorted(&mut node, other[k]);
                        proof {
                            let x = other@[k as int];
                            let p = other@.subrange(0, k as int);
                            let q = other@.subrange(0, k + 1);
                            assert(q =~= p.push(x));
                            assert forall|v: T| q.to_set().contains(v) <==> p.to_set().insert(
                                x,
                            ).contains(v) by {
                                if q.contains(v) {
                                    let n = choose|n: int| 0 <= n < q.len() && q[n] == v;
                                    if n < k {
                                        assert(p[n] == v);
                                    }
                                }
                                if p.contains(v) {
                                    let n = choose|n: int| 0 <= n < p.len() && p[n] == v;
                                    assert(q[n] == v);
                                }
                                if v == x {
                                    assert(q[k as int] == v);
                                }
                            }
                            assert(before.union(q.to_set()) =~= before.union(p.to_set()).insert(x));
                        }
                        k += 1;
                    }
                    proof {
                        assert(other@.subrange(0, other@.len() as int) =~= other@);
                    }
                    let ghost merged = node@.to_set();
                    nodes.set(i, node);
                    let ghost updated = nodes@;
                    nodes.remove(j);
                    proof {
                        assert(node_sets(nodes@) =~= s.update(i as int, merged).remove(j as int)) by {
                            assert forall|n: int| 0 <= n < nodes@.len() implies node_sets(nodes@)[n]
                                == s.update(i as int, merged).remove(j as int)[n] by {
                                if n < j {
                                    assert(nodes@[n] == updated[n]);
                                } else {
                                    assert(nodes@[n] == updated[n + 1]);
                                }
                            }
                        }
                        assert forall|n: int| 0 <= n < nodes@.len() implies sorted(
                            (#[trigger] nodes@[n])@,
                        ) by {
                            if n < j {
                                assert(nodes@[n] == updated[n]);
                            } else {
                                assert(nodes@[n] == updated[n + 1]);
                            }
                        }
                    }
                }
            },
            (Some(i), None) => {
                let mut node = copy_node(&nodes[i]);
                insert_sorted(&mut node, b);
                nodes.set(i, node);
                proof {
                    assert(node_sets(nodes@) =~= s.update(i as int, s[i as int].insert(b)));
                }
            },
            (None, Some(j)) => {
                let mut node = copy_node(&nodes[j]);
                insert_sorted(&mut node, a);
                nodes.set(j, node);
                proof {
                    assert(node_sets(nodes@) =~= s.update(j as int, s[j as int].insert(a)));
                }
            },
            (None, None) => {
                let mut node: Vec<T> = Vec::new();
                proof {
                    assert(node@.to_set() =~= Set::<T>::empty());
                }
                insert_sorted(&mut node, a);
                insert_sorted(&mut node, b);
                nodes.push(node);
                proof {
                    assert(node_sets(nodes@) =~= s.push(Set::<T>::empty().insert(a).insert(b)));
                }
            },
        }
        *self = Partition { nodes };
    }

    /// Returns the nodes, each in ascending order.
    pub fn iter_nodes(&self) -> (ret: &Vec<Vec<T>>)
        ensures
            node_sets(ret@) == self@,
            disjoint(self@),
            forall|i: int| 0 <= i < ret@.len() ==> sorted((#[trigger] ret@[i])@),
    {
        proof {
            use_type_invariant(self);
        }
        &self.nodes
    }

    /// Copies the partition.
    pub fn copy(&self) -> (ret: Self)
        ensures
            ret@ == self@,
    {
        proof {
            use_type_invariant(self);
        }
        let nodes = copy_nodes(&self.nodes);
        proof {
            assert(node_sets(nodes@) =~= node_sets(self.nodes@));
        }
        Partition { nodes }
    }
}

impl<T: Ordered> Default for Partition<T> {
    fn default() -> (ret: Self)
        ensures
            ret@ == Seq::<Set<T>>::empty(),
    {
        Partition::new()
    }
}

/// Copies a node.
fn copy_node<T: Ordered>(node: &Vec<T>) -> (ret: Vec<T>)
    ensures
        ret@ == node@,
{
    let mut ret: Vec<T> = Vec::new();
    let mut i: usize = 0;
    while i < node.len()
        invariant
            i <= node.len(),
            ret@ == node@.subrange(0, i as int),
        decreases node.len() - i,
    {
        ret.push(node[i]);
        proof {
            assert(node@.subrange(0, i + 1) =~= node@.subrange(0, i as int).push(node@[i as int]));
        }
        i += 1;
    }
    proof {
        assert(node@.subrange(0, node@.len() as int) =~= node@);
    }
    ret
}

/// Copies a list of nodes.
fn copy_nodes<T: Ordered>(nodes: &Vec<Vec<T>>) -> (ret: Vec<Vec<T>>)
    ensures
        ret@.len() == nodes@.len(),
        forall|i: int| 0 <= i < nodes@.len() ==> (#[trigger] ret@[i])@ == nodes@[i]@,
        node_sets(ret@) == node_sets(nodes@),
{
    let mut ret: Vec<Vec<T>> = Vec::new();
    let mut i: usize = 0;
    while i < nodes.len()
        invariant
            i <= nodes.len(),
            ret@.len() == i,
            forall|k: int| 0 <= k < i ==> (#[trigger] ret@[k])@ == nodes@[k]@,
        decreases nodes.len() - i,
    {
        ret.push(copy_node(&nodes[i]));
        i += 1;
    }
    proof {
        assert(node_sets(ret@) =~= node_sets(nodes@));
    }
    ret
}

/// Connecting keeps the nodes disjoint.
pub proof fn lemma_connect_disjoint<T>(s: Seq<Set<T>>, a: T, b: T)
    requires
        disjoint(s),
    ensures
        disjoint(connect_sets(s, a, b)),
{
    let r = connect_sets(s, a, b);
    let i = node_of(s, a);
    let j = node_of(s, b);
    if present(s, a) {
        assert(belongs(s, i, a));
    }
    if present(s, b) {
        assert(belongs(s, j, b));
    }
    if present(s, a) && present(s, b) && i != j {
        assert forall|x: int, y: int, v: T|
            0 <= x < r.len() && 0 <= y < r.len() && #[trigger] r[x].contains(v)
                && #[trigger] r[y].contains(v) implies x == y by {
            let x0 = if x < j {
                x
            } else {
                x + 1
            };
            let y0 = if y < j {
                y
            } else {
                y + 1
            };
            assert(r[x] == if x0 == i {
                s[i].union(s[j])
            } else {
                s[x0]
            });
            assert(r[y] == if y0 == i {
                s[i].union(s[j])
            } else {
                s[y0]
            });
            assert(s[x0].contains(v) || (x0 == i && s[j].contains(v)));
            assert(s[y0].contains(v) || (y0 == i && s[j].contains(v)));
        }
    } else if !(present(s, a) && present(s, b)) {
        assert forall|x: int, y: int, v: T|
            0 <= x < r.len() && 0 <= y < r.len() && #[trigger] r[x].contains(v)
                && #[trigger] r[y].contains(v) implies x == y by {
            if x != y {
                if x < s.len() && s[x].contains(v) {
                    assert(belongs(s, x, v));
                }
                if y < s.len() && s[y].contains(v) {
                    assert(belongs(s, y, v));
                }
            }
        }
    }
}

/// Connecting two terminations extends the equivalence relation: after `a` and `b` have been
/// connected, `x` and `y` are connected if and only if they were connected before, or one of them
/// was connected to `a` and the other to `b`.
pub proof fn law_connect<T>(s: Seq<Set<T>>, a: T, b: T, x: T, y: T)
    requires
        disjoint(s),
    ensures
        connected(connect_sets(s, a, b), x, y) <==> (connected(s, x, y) || (connected(s, x, a)
            && connected(s, b, y)) || (connected(s, x, b) && connected(s, a, y))),
{
    let r = connect_sets(s, a, b);
    let i = node_of(s, a);
    let j = node_of(s, b);
    if present(s, a) {
        assert(belongs(s, i, a));
    }
    if present(s, b) {
        assert(belongs(s, j, b));
    }
    // Where the members of a node of `s` are in `r`.
    if present(s, a) && present(s, b) {
        if i != j {
            let i1 = if i < j {
                i
            } else {
                i - 1
            };
            assert(r[i1] == s[i].union(s[j]));
            assert forall|k: int, v: T| belongs(s, k, v) implies belongs(
                r,
                if k == i || k == j {
                    i1
                } else if k < j {
                    k
                } else {
                    k - 1
                },
                v,
            ) by {
                if k != i && k != j {
                    assert(r[if k < j {
                        k
                    } else {
                        k - 1
                    }] == s[k]);
                }
            }
            assert forall|k: int, v: T| belongs(r, k, v) implies if k == i1 {
                belongs(s, i, v) || belongs(s, j, v)
            } else {
                belongs(
                    s,
                    if k < j {
                        k
                    } else {
                        k + 1
                    },
                    v,
                )
            } by {
                if k != i1 {
                    assert(r[k] == s[if k < j {
                        k
                    } else {
                        k + 1
                    }]);
                }
            }
            lemma_connected_node(s, x, a);
            lemma_connected_node(s, x, b);
            lemma_connected_node(s, b, y);
            lemma_connected_node(s, a, y);
            lemma_connected_merge(s, r, a, b, x, y, i1);
        } else {
            assert(connected(s, a, b));
            lemma_connected_transitive(s, x, a, b);
            lemma_connected_transitive(s, x, b, y);
            lemma_connected_transitive(s, b, a, y);
            lemma_connected_transitive(s, x, b, a);
            lemma_connected_transitive(s, x, a, y);
            assert(connected(s, b, a));
        }
    } else {
        lemma_connect_absent(s, a, b, x, y);
    }
}

/// Being connected to a member of a node.
proof fn lemma_connected_node<T>(s: Seq<Set<T>>, x: T, y: T)
    requires
        disjoint(s),
    ensures
        forall|k: int| #[trigger] belongs(s, k, y) ==> (connected(s, x, y) <==> belongs(s, k, x)),
        forall|k: int| #[trigger] belongs(s, k, x) ==> (connected(s, x, y) <==> belongs(s, k, y)),
{
    assert forall|k: int| #[trigger] belongs(s, k, y) implies (connected(s, x, y) <==> belongs(
        s,
        k,
        x,
    )) by {
        if connected(s, x, y) && x != y {
            let q = choose|q: int| #[trigger] belongs(s, q, x) && belongs(s, q, y);
            assert(q == k);
        }
    }
    assert forall|k: int| #[trigger] belongs(s, k, x) implies (connected(s, x, y) <==> belongs(
        s,
        k,
        y,
    )) by {
        if connected(s, x, y) && x != y {
            let q = choose|q: int| #[trigger] belongs(s, q, x) && belongs(s, q, y);
            assert(q == k);
        }
    }
}

/// Being connected is transitive.
pub proof fn lemma_connected_transitive<T>(s: Seq<Set<T>>, x: T, y: T, z: T)
    requires
        disjoint(s),
    ensures
        connected(s, x, y) && connected(s, y, z) ==> connected(s, x, z),
{
    if connected(s, x, y) && connected(s, y, z) && x != y && y != z {
        let i = choose|i: int| #[trigger] belongs(s, i, x) && belongs(s, i, y);
        let j = choose|j: int| #[trigger] belongs(s, j, y) && belongs(s, j, z);
        assert(i == j);
        assert(belongs(s, i, x) && belongs(s, i, z));
    }
}

proof fn lemma_connected_merge<T>(
    s: Seq<Set<T>>,
    r: Seq<Set<T>>,
    a: T,
    b: T,
    x: T,
    y: T,
    i1: int,
)
    requires
        disjoint(s),
        present(s, a),
        present(s, b),
        node_of(s, a) != node_of(s, b),
        belongs(s, node_of(s, a), a),
        belongs(s, node_of(s, b), b),
        i1 == (if node_of(s, a) < node_of(s, b) {
            node_of(s, a)
        } else {
            node_of(s, a) - 1
        }),
        forall|k: int, v: T| #[trigger] belongs(s, k, v) ==> belongs(
            r,
            if k == node_of(s, a) || k == node_of(s, b) {
                i1
            } else if k < node_of(s, b) {
                k
            } else {
                k - 1
            },
            v,
        ),
        forall|k: int, v: T| #[trigger] belongs(r, k, v) ==> if k == i1 {
            belongs(s, node_of(s, a), v) || belongs(s, node_of(s, b), v)
        } else {
            belongs(
                s,
                if k < node_of(s, b) {
                    k
                } else {
                    k + 1
                },
                v,
            )
        },
    ensures
        connected(r, x, y) <==> (connected(s, x, y) || (connected(s, x, a) && connected(s, b, y))
            || (connected(s, x, b) && connected(s, a, y))),
{
    let i = node_of(s, a);
    let j = node_of(s, b);
    lemma_connected_node(s, x, a);
    lemma_connected_node(s, x, b);
    lemma_connected_node(s, b, y);
    lemma_connected_node(s, a, y);
    if x != y {
        if connected(r, x, y) {
            let k = choose|k: int| #[trigger] belongs(r, k, x) && belongs(r, k, y);
            if k == i1 {
                if belongs(s, i, x) && belongs(s, i, y) {
                    assert(connected(s, x, y));
                } else if belongs(s, j, x) && belongs(s, j, y) {
                    assert(connected(s, x, y));
                }
            } else {
                let q = if k < j {
                    k
                } else {
                    k + 1
                };
                assert(belongs(s, q, x) && belongs(s, q, y));
                assert(connected(s, x, y));
            }
        }
        if connected(s, x, y) {
            let k = choose|k: int| #[trigger] belongs(s, k, x) && belongs(s, k, y);
            let q = if k == i || k == j {
                i1
            } else if k < j {
                k
            } else {
                k - 1
            };
            assert(belongs(r, q, x) && belongs(r, q, y));
        }
        if connected(s, x, a) && connected(s, b, y) {
            assert(belongs(s, i, x) && belongs(s, j, y));
            assert(belongs(r, i1, x) && belongs(r, i1, y));
        }
        if connected(s, x, b) && connected(s, a, y) {
            assert(belongs(s, j, x) && belongs(s, i, y));
            assert(belongs(r, i1, x) && belongs(r, i1, y));
        }
    }
}

proof fn lemma_connect_absent<T>(s: Seq<Set<T>>, a: T, b: T, x: T, y: T)
    requires
        disjoint(s),
        !(present(s, a) && present(s, b)),
    ensures
        connected(connect_sets(s, a, b), x, y) <==> (connected(s, x, y) || (connected(s, x, a)
            && connected(s, b, y)) || (connected(s, x, b) && connected(s, a, y))),
{
    let r = connect_sets(s, a, b);
    // `i` is the node that grows.
    let i = if present(s, a) {
        node_of(s, a)
    } else if present(s, b) {
        node_of(s, b)
    } else {
        s.len() as int
    };
    if present(s, a) {
        assert(belongs(s, i, a));
    } else if present(s, b) {
        assert(belongs(s, i, b));
    }
    let grown = |v: T| belongs(s, i, v) || v == a || v == b;
    assert forall|k: int, v: T| #[trigger] belongs(r, k, v) <==> (if k == i {
        grown(v)
    } else {
        belongs(s, k, v)
    }) by {
        if 0 <= k < s.len() && k != i {
            assert(r[k] == s[k]);
        }
    }
    lemma_connected_node(s, x, a);
    lemma_connected_node(s, x, b);
    lemma_connected_node(s, b, y);
    lemma_connected_node(s, a, y);
    if x != y {
        if connected(r, x, y) {
            let k = choose|k: int| #[trigger] belongs(r, k, x) && belongs(r, k, y);
            if k == i {
                if belongs(s, i, x) && belongs(s, i, y) {
                    assert(connected(s, x, y));
                }
            } else {
                assert(belongs(s, k, x) && belongs(s, k, y));
            }
        }
        if connected(s, x, y) {
            let k = choose|k: int| #[trigger] belongs(s, k, x) && belongs(s, k, y);
            assert(belongs(r, k, x) && belongs(r, k, y));
        }
        if connected(s, x, a) && connected(s, b, y) {
            assert(grown(x)) by {
                if x != a && !present(s, a) {
                    let k = choose|k: int| #[trigger] belongs(s, k, x) && belongs(s, k, a);
                    assert(present(s, a));
                }
            }
            assert(grown(y)) by {
                if y != b && !present(s, b) {
                    let k = choose|k: int| #[trigger] belongs(s, k, b) && belongs(s, k, y);
                    assert(present(s, b));
                }
            }
            assert(belongs(r, i, x) && belongs(r, i, y));
        }
        if connected(s, x, b) && connected(s, a, y) {
            assert(grown(x)) by {
                if x != b && !present(s, b) {
                    let k = choose|k: int| #[trigger] belongs(s, k, x) && belongs(s, k, b);
                    assert(present(s, b));
                }
            }
            assert(grown(y)) by {
                if y != a && !present(s, a) {
                    let k = choose|k: int| #[trigger] belongs(s, k, a) && belongs(s, k, y);
                    assert(present(s, a));
                }
            }
            assert(belongs(r, i, x) && belongs(r, i, y));
        }
    }
}

impl<T: Ordered> Clone for Partition<T> {
    fn clone(&self) -> (ret: Self)
        ensures
            ret@ == self@,
    {
        self.copy()
    }
}

} // verus!
