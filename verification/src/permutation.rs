//! The permutation of cells that connections stand for.
use crate::arith::{lemma_mod_mul, lemma_small};
use crate::cell::Cell;
use crate::field::{multiplicative_generator, one, Field, Scalar};
use crate::model::{cell_identity, sigma_values};
use crate::partition::{disjoint, sorted, Ordered};
use crate::poly::{domain_element, domain_root, max_domain_size};
use crate::utils::is_power_of_two;
use crate::witness::residues;
use vstd::arithmetic::power::{lemma_pow0, lemma_pow1, lemma_pow_adds, pow};
use vstd::prelude::*;

verus! {

/// The cells of a list of nodes.
pub open spec fn node_lists(nodes: Seq<Vec<Cell>>) -> Seq<Seq<Cell>> {
    Seq::new(nodes.len(), |i: int| nodes[i]@)
}

/// `c` is the cell number `j` of node `i`.
pub open spec fn stands_at(lists: Seq<Seq<Cell>>, i: int, j: int, c: Cell) -> bool {
    0 <= i < lists.len() && 0 <= j < lists[i].len() && lists[i][j] == c
}

/// `c` belongs to some node.
pub open spec fn listed(lists: Seq<Seq<Cell>>, c: Cell) -> bool {
    exists|i: int, j: int| #[trigger] stands_at(lists, i, j, c)
}

/// The cell that follows cell number `j` of a node; the first cell follows the last.
pub open spec fn follower(list: Seq<Cell>, j: int) -> Cell {
    if j + 1 < list.len() {
        list[j + 1]
    } else {
        list[0]
    }
}

/// `d` follows `c` in the node that `c` belongs to; cells that belong to no node follow themselves.
pub open spec fn is_target(lists: Seq<Seq<Cell>>, c: Cell, d: Cell) -> bool {
    &&& forall|i: int, j: int| #[trigger] stands_at(lists, i, j, c) ==> d == follower(lists[i], j)
    &&& !listed(lists, c) ==> d == c
}

/// Every cell stands at one place at most.
pub open spec fn no_repeats(lists: Seq<Seq<Cell>>) -> bool {
    forall|i: int, j: int, x: int, y: int, c: Cell|
        #[trigger] stands_at(lists, i, j, c) && #[trigger] stands_at(lists, x, y, c) ==> i == x
            && j == y
}

/// The cells of all nodes are in a table of the given dimensions.
pub open spec fn lists_fit(lists: Seq<Seq<Cell>>, rows: int, columns: int) -> bool {
    forall|i: int, j: int, c: Cell| #[trigger]
        stands_at(lists, i, j, c) ==> c.row < rows && c.column < columns
}

/// `lists` are the ordered lists of the elements of `sets`.
pub open spec fn lists_sets(lists: Seq<Seq<Cell>>, sets: Seq<Set<Cell>>) -> bool {
    &&& lists.len() == sets.len()
    &&& forall|i: int|
        0 <= i < lists.len() ==> sorted(#[trigger] lists[i]) && lists[i].to_set() == sets[i]
}

/// Ordered lists of disjoint sets have no repeats.
pub proof fn lemma_no_repeats(lists: Seq<Seq<Cell>>, sets: Seq<Set<Cell>>)
    requires
        lists_sets(lists, sets),
        disjoint(sets),
    ensures
        no_repeats(lists),
{
    assert forall|i: int, j: int, x: int, y: int, c: Cell|
        #[trigger] stands_at(lists, i, j, c) && #[trigger] stands_at(lists, x, y, c) implies i == x
        && j == y by {
        assert(lists[i].contains(c) && lists[x].contains(c));
        assert(lists[i].to_set().contains(c) && lists[x].to_set().contains(c));
        assert(sets[i].contains(c) && sets[x].contains(c));
        assert(i == x);
        if j < y {
            assert(lists[i][j].precedes(lists[i][y]));
            c.lemma_irreflexive();
        } else if y < j {
            assert(lists[i][y].precedes(lists[i][j]));
            c.lemma_irreflexive();
        }
    }
}

/// The targets of different cells are different.
pub proof fn lemma_target_injective(lists: Seq<Seq<Cell>>, a: Cell, b: Cell, d: Cell)
    requires
        no_repeats(lists),
        is_target(lists, a, d),
        is_target(lists, b, d),
    ensures
        a == b,
{
    if listed(lists, a) {
        let (i, j) = choose|i: int, j: int| #[trigger] stands_at(lists, i, j, a);
        let k = if j + 1 < lists[i].len() {
            j + 1
        } else {
            0
        };
        assert(stands_at(lists, i, k, d));
        if listed(lists, b) {
            let (x, y) = choose|x: int, y: int| #[trigger] stands_at(lists, x, y, b);
            let l = if y + 1 < lists[x].len() {
                y + 1
            } else {
                0
            };
            assert(stands_at(lists, x, l, d));
            assert(i == x && k == l);
            assert(j == y);
        } else {
            assert(stands_at(lists, i, k, b));
            assert(listed(lists, b));
        }
    } else if listed(lists, b) {
        let (x, y) = choose|x: int, y: int| #[trigger] stands_at(lists, x, y, b);
        let l = if y + 1 < lists[x].len() {
            y + 1
        } else {
            0
        };
        assert(stands_at(lists, x, l, d));
        assert(listed(lists, a));
    }
}

/// The targets of cells of a table are in the table.
pub proof fn lemma_target_fits(lists: Seq<Seq<Cell>>, c: Cell, d: Cell, rows: int, columns: int)
    requires
        lists_fit(lists, rows, columns),
        is_target(lists, c, d),
        c.row < rows,
        c.column < columns,
    ensures
        d.row < rows,
        d.column < columns,
{
    if listed(lists, c) {
        let (i, j) = choose|i: int, j: int| #[trigger] stands_at(lists, i, j, c);
        let k = if j + 1 < lists[i].len() {
            j + 1
        } else {
            0
        };
        assert(stands_at(lists, i, k, d));
    }
}

/// Cells that stand before the given place already point to their followers, the others to
/// themselves.
spec fn pointing(lists: Seq<Seq<Cell>>, targets: Seq<Vec<Cell>>, c: Cell, i: int, j: int) -> bool {
    let d = targets[c.column as int]@[c.row as int];
    &&& forall|x: int, y: int|
        #[trigger] stands_at(lists, x, y, c) ==> d == if x < i || (x == i && y < j) {
            follower(lists[x], y)
        } else {
            c
        }
    &&& !listed(lists, c) ==> d == c
}

/// Computes the target of every cell, column-first.
pub fn make_targets(rows: usize, columns: usize, nodes: &Vec<Vec<Cell>>) -> (ret: Vec<Vec<Cell>>)
    requires
        no_repeats(node_lists(nodes@)),
        lists_fit(node_lists(nodes@), rows as int, columns as int),
    ensures
        ret@.len() == columns,
        forall|j: int| 0 <= j < columns ==> (#[trigger] ret@[j])@.len() == rows,
        forall|c: Cell|
            c.row < rows && c.column < columns ==> #[trigger] is_target(
                node_lists(nodes@),
                c,
                ret@[c.column as int]@[c.row as int],
            ),
{
    let ghost lists = node_lists(nodes@);
    let mut targets: Vec<Vec<Cell>> = Vec::new();
    let mut column: usize = 0;
    while column < columns
        invariant
            column <= columns,
            targets@.len() == column,
            forall|j: int| 0 <= j < column ==> (#[trigger] targets@[j])@.len() == rows,
            forall|c: Cell|
                c.row < rows && c.column < column ==> (
                #[trigger] targets@[c.column as int]@[c.row as int]) == c,
        decreases columns - column,
    {
        let mut list: Vec<Cell> = Vec::new();
        let mut row: usize = 0;
        while row < rows
            invariant
                row <= rows,
                list@.len() == row,
                forall|k: int|
                    0 <= k < row ==> (#[trigger] list@[k]) == (Cell { row: k as usize, column }),
            decreases rows - row,
        {
            list.push(Cell::new(row, column));
            row += 1;
        }
        targets.push(list);
        column += 1;
    }
    let mut i: usize = 0;
    proof {
        assert forall|c: Cell| c.row < rows && c.column < columns implies #[trigger] pointing(
            lists,
            targets@,
            c,
            0,
            0,
        ) by {
            assert(targets@[c.column as int]@[c.row as int] == c);
        }
    }
    while i < nodes.len()
        invariant
            i <= nodes.len(),
            lists == node_lists(nodes@),
            no_repeats(lists),
            lists_fit(lists, rows as int, columns as int),
            targets@.len() == columns,
            forall|j: int| 0 <= j < columns ==> (#[trigger] targets@[j])@.len() == rows,
            forall|c: Cell|
                c.row < rows && c.column < columns ==> #[trigger] pointing(
                    lists,
                    targets@,
                    c,
                    i as int,
                    0,
                ),
        decreases nodes.len() - i,
    {
        let node = &nodes[i];
        let mut j: usize = 0;
        while j < node.len()
            invariant
                i < nodes.len(),
                j <= node.len(),
                node == &nodes@[i as int],
                lists == node_lists(nodes@),
                no_repeats(lists),
                lists_fit(lists, rows as int, columns as int),
                targets@.len() == columns,
                forall|k: int| 0 <= k < columns ==> (#[trigger] targets@[k])@.len() == rows,
                forall|c: Cell|
                    c.row < rows && c.column < columns ==> #[trigger] pointing(
                        lists,
                        targets@,
                        c,
                        i as int,
                        j as int,
                    ),
            decreases node.len() - j,
        {
            let cell = node[j];
            let next = if j + 1 < node.len() {
                node[j + 1]
            } else {
                node[0]
            };
            let ghost before = targets@;
            proof {
                assert(stands_at(lists, i as int, j as int, cell));
            }
            targets[cell.column()][cell.row()] = next;
            proof {
                assert forall|c: Cell|
                    c.row < rows && c.column < columns implies #[trigger] pointing(
                    lists,
                    targets@,
                    c,
                    i as int,
                    j + 1,
                ) by {
                    assert(pointing(lists, before, c, i as int, j as int));
                    if c == cell {
                        assert(targets@[c.column as int]@[c.row as int] == next);
                        assert forall|x: int, y: int| #[trigger] stands_at(lists, x, y, c) implies x
                            == i && y == j by {
                            assert(stands_at(lists, i as int, j as int, c));
                        }
                        assert(listed(lists, c));
                    } else {
                        assert(targets@[c.column as int]@[c.row as int]
                            == before[c.column as int]@[c.row as int]);
                        assert forall|x: int, y: int| #[trigger]
                            stands_at(lists, x, y, c) implies !(x == i && y == j) by {}
                    }
                }
            }
            j += 1;
        }
        proof {
            assert forall|c: Cell| c.row < rows && c.column < columns implies #[trigger] pointing(
                lists,
                targets@,
                c,
                i + 1,
                0,
            ) by {
                assert(pointing(lists, targets@, c, i as int, node@.len() as int));
            }
        }
        i += 1;
    }
    proof {
        assert forall|c: Cell| c.row < rows && c.column < columns implies #[trigger] is_target(
            lists,
            c,
            targets@[c.column as int]@[c.row as int],
        ) by {
            assert(pointing(lists, targets@, c, nodes@.len() as int, 0));
        }
    }
    targets
}

/// Computes successive powers of `base`, starting with 1.
pub fn powers(base: Scalar, n: usize) -> (ret: Vec<Scalar>)
    ensures
        ret@.len() == n,
        forall|i: int|
            0 <= i < n ==> (#[trigger] ret@[i]).value() == pow(base.value(), i as nat)
                % Scalar::modulus(),
{
    let ghost p = Scalar::modulus();
    let ghost b = base.value();
    let mut ret: Vec<Scalar> = Vec::new();
    let mut power = one::<Scalar>();
    let mut i: usize = 0;
    proof {
        Scalar::lemma_modulus();
        lemma_pow0(b);
        lemma_small(1, p);
    }
    while i < n
        invariant
            i <= n,
            p == Scalar::modulus(),
            p > 1,
            b == base.value(),
            power.value() == pow(b, i as nat) % p,
            ret@.len() == i,
            forall|k: int| 0 <= k < i ==> (#[trigger] ret@[k]).value() == pow(b, k as nat) % p,
        decreases n - i,
    {
        proof {
            lemma_pow_adds(b, i as nat, 1);
            lemma_pow1(b);
            lemma_mod_mul(pow(b, i as nat), b, p);
        }
        ret.push(power);
        power = power.times(base);
        i += 1;
    }
    ret
}

/// Computes the values of the permutation polynomials.
pub fn make_sigma_values(size: usize, targets: &Vec<Vec<Cell>>) -> (ret: Vec<Vec<Scalar>>)
    requires
        is_power_of_two(size as int),
        size <= max_domain_size(),
        forall|j: int| 0 <= j < targets@.len() ==> (#[trigger] targets@[j])@.len() == size,
        forall|j: int, i: int|
            0 <= j < targets@.len() && 0 <= i < size ==> (#[trigger] targets@[j]@[i]).row < size
                && targets@[j]@[i].column < targets@.len(),
    ensures
        ret@.len() == targets@.len(),
        forall|j: int|
            0 <= j < targets@.len() ==> residues((#[trigger] ret@[j])@) == sigma_values(
                targets@[j]@,
                size as int,
            ),
        pow(domain_root(size as int), size as nat) % Scalar::modulus() == 1,
{
    let ghost p = Scalar::modulus();
    let omega = domain_element(size);
    let omega_powers = powers(omega, size);
    let generator_powers = powers(multiplicative_generator(), targets.len());
    let mut ret: Vec<Vec<Scalar>> = Vec::new();
    let mut j: usize = 0;
    proof {
        Scalar::lemma_modulus();
    }
    while j < targets.len()
        invariant
            j <= targets.len(),
            p == Scalar::modulus(),
            p > 1,
            forall|k: int| 0 <= k < targets@.len() ==> (#[trigger] targets@[k])@.len() == size,
            forall|k: int, i: int|
                0 <= k < targets@.len() && 0 <= i < size ==> (#[trigger] targets@[k]@[i]).row
                    < size && targets@[k]@[i].column < targets@.len(),
            omega_powers@.len() == size,
            generator_powers@.len() == targets@.len(),
            forall|i: int|
                0 <= i < size ==> (#[trigger] omega_powers@[i]).value() == pow(
                    domain_root(size as int),
                    i as nat,
                ) % p,
            forall|i: int|
                0 <= i < targets@.len() ==> (#[trigger] generator_powers@[i]).value() == pow(
                    5,
                    i as nat,
                ) % p,
            ret@.len() == j,
            forall|k: int|
                0 <= k < j ==> residues((#[trigger] ret@[k])@) == sigma_values(
                    targets@[k]@,
                    size as int,
                ),
        decreases targets.len() - j,
    {
        let list = &targets[j];
        let mut values: Vec<Scalar> = Vec::new();
        let mut i: usize = 0;
        while i < size
            invariant
                i <= size,
                j < targets.len(),
                list == &targets@[j as int],
                list@.len() == size,
                p == Scalar::modulus(),
                p > 1,
                forall|k: int, i: int|
                    0 <= k < targets@.len() && 0 <= i < size ==> (#[trigger] targets@[k]@[i]).row
                        < size && targets@[k]@[i].column < targets@.len(),
                omega_powers@.len() == size,
                generator_powers@.len() == targets@.len(),
                forall|i: int|
                    0 <= i < size ==> (#[trigger] omega_powers@[i]).value() == pow(
                        domain_root(size as int),
                        i as nat,
                    ) % p,
                forall|i: int|
                    0 <= i < targets@.len() ==> (#[trigger] generator_powers@[i]).value() == pow(
                        5,
                        i as nat,
                    ) % p,
                values@.len() == i,
                forall|k: int|
                    0 <= k < i ==> (#[trigger] values@[k]).value() == cell_identity(
                        list@[k],
                        size as int,
                    ),
            decreases size - i,
        {
            let target = list[i];
            proof {
                assert(targets@[j as int]@[i as int] == target);
                lemma_mod_mul(
                    pow(5, target.column as nat),
                    pow(domain_root(size as int), target.row as nat),
                    p,
                );
            }
            values.push(generator_powers[target.column()].times(omega_powers[target.row()]));
            i += 1;
        }
        proof {
            assert(residues(values@) =~= sigma_values(list@, size as int));
        }
        ret.push(values);
        j += 1;
    }
    ret
}

} // verus!
