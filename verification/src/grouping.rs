//! Grouping of gates by the rows at which they are active.
use crate::builder::{gates_of, insert_row};
use crate::cell::Cell;
use crate::expr::{compare_constraints, Constraint};
use crate::field::Scalar;
use crate::model::{placement_less, rows_less, rows_sorted};
use crate::monomial::Comparison;
use crate::terms::{
    lemma_terms_less_irreflexive, lemma_terms_less_total, lemma_terms_less_transitive, terms_less,
    Terms,
};
use vstd::prelude::*;

verus! {

/// A gate type placed at a column, with the rows at which it is active.
#[derive(Debug)]
pub struct Entry {
    /// The constraint.
    pub constraint: Constraint<Scalar>,
    /// The column.
    pub column_index: usize,
    /// The rows, in order.
    pub rows: Vec<usize>,
}

/// `e` is the entry of the constraint `t` placed at `column`.
pub open spec fn is_entry(e: Entry, t: Terms, column: int) -> bool {
    e.constraint@ == t && e.column_index == column
}

/// Entries are ordered, by constraint and then by column.
pub open spec fn entries_sorted(entries: Seq<Entry>) -> bool {
    forall|i: int, j: int|
        0 <= i < j < entries.len() ==> placement_less(
            (#[trigger] entries[i]).constraint@,
            entries[i].column_index as int,
            (#[trigger] entries[j]).constraint@,
            entries[j].column_index as int,
        )
}

/// Some entry says that the constraint `t` placed at `column` is active at `row`.
pub open spec fn entries_have(entries: Seq<Entry>, t: Terms, row: usize, column: int) -> bool {
    exists|e: int|
        0 <= e < entries.len() && is_entry(#[trigger] entries[e], t, column)
            && entries[e].rows@.contains(row)
}

/// Some gate with constraint `t` is placed at the given cell.
pub open spec fn gates_have(gates: Seq<(Terms, Cell)>, t: Terms, cell: Cell) -> bool {
    exists|i: int| 0 <= i < gates.len() && #[trigger] gates[i] == (t, cell)
}

/// The rows of entries are ordered, and there are some.
pub open spec fn entry_rows_wf(entries: Seq<Entry>) -> bool {
    forall|e: int|
        0 <= e < entries.len() ==> rows_sorted((#[trigger] entries[e]).rows@)
            && entries[e].rows@.len() > 0
}

/// The order of placements is irreflexive and transitive.
pub proof fn lemma_placement_order(a: Terms, x: int, b: Terms, y: int, c: Terms, z: int)
    ensures
        !placement_less(a, x, a, x),
        placement_less(a, x, b, y) && placement_less(b, y, c, z) ==> placement_less(a, x, c, z),
        placement_less(a, x, b, y) || placement_less(b, y, a, x) || (a == b && x == y),
        placement_less(a, x, b, y) ==> !(a == b && x == y),
{
    lemma_terms_less_irreflexive(a);
    lemma_terms_less_irreflexive(b);
    lemma_terms_less_total(a, b);
    if terms_less(a, b) && terms_less(b, c) {
        lemma_terms_less_transitive(a, b, c);
    }
}

/// Collects the rows at which every gate type is active, by constraint and column.
pub fn group_gates(gates: &Vec<(Constraint<Scalar>, Cell)>) -> (ret: Vec<Entry>)
    ensures
        entries_sorted(ret@),
        entry_rows_wf(ret@),
        forall|t: Terms, cell: Cell|
            #[trigger] entries_have(ret@, t, cell.row, cell.column as int) <==> gates_have(
                gates_of(gates@),
                t,
                cell,
            ),
{
    let mut entries: Vec<Entry> = Vec::new();
    let mut i: usize = 0;
    while i < gates.len()
        invariant
            i <= gates.len(),
            entries_sorted(entries@),
            entry_rows_wf(entries@),
            forall|t: Terms, cell: Cell|
                #[trigger] entries_have(entries@, t, cell.row, cell.column as int) <==> gates_have(
                    gates_of(gates@).subrange(0, i as int),
                    t,
                    cell,
                ),
        decreases gates.len() - i,
    {
        let ghost before = entries@;
        let constraint = &gates[i].0;
        let root = gates[i].1;
        insert_entry(&mut entries, constraint, root);
        proof {
            let g = gates_of(gates@);
            let a = g.subrange(0, i as int);
            let b = g.subrange(0, i + 1);
            assert(g[i as int] == (constraint@, root));
            assert forall|t: Terms, cell: Cell|
                #[trigger] entries_have(entries@, t, cell.row, cell.column as int) <==> gates_have(
                    b,
                    t,
                    cell,
                ) by {
                assert(entries_have(entries@, t, cell.row, cell.column as int) <==> (entries_have(
                    before,
                    t,
                    cell.row,
                    cell.column as int,
                ) || (t == constraint@ && cell == root)));
                assert(entries_have(before, t, cell.row, cell.column as int) <==> gates_have(
                    a,
                    t,
                    cell,
                ));
                if gates_have(a, t, cell) {
                    let k = choose|k: int| 0 <= k < a.len() && #[trigger] a[k] == (t, cell);
                    assert(b[k] == (t, cell));
                }
                if gates_have(b, t, cell) {
                    let k = choose|k: int| 0 <= k < b.len() && #[trigger] b[k] == (t, cell);
                    if k < i {
                        assert(a[k] == (t, cell));
                    }
                }
                if t == constraint@ && cell == root {
                    assert(b[i as int] == (t, cell));
                }
            }
        }
        i += 1;
    }
    proof {
        assert(gates_of(gates@).subrange(0, gates@.len() as int) =~= gates_of(gates@));
    }
    entries
}

/// Adds a row to the entry of a gate type, which is created if there is none.
fn insert_entry(entries: &mut Vec<Entry>, constraint: &Constraint<Scalar>, root: Cell)
    requires
        entries_sorted(old(entries)@),
        entry_rows_wf(old(entries)@),
    ensures
        entries_sorted(final(entries)@),
        entry_rows_wf(final(entries)@),
        forall|t: Terms, row: usize, column: usize|
            #[trigger] entries_have(final(entries)@, t, row, column as int) <==> (entries_have(
                old(entries)@,
                t,
                row,
                column as int,
            ) || (t == constraint@ && row == root.row && column == root.column)),
{
    let ghost s = entries@;
    let ghost c = constraint@;
    let column: usize = root.column();
    let mut i: usize = 0;
    while i < entries.len()
        invariant
            i <= entries.len(),
            entries@ == s,
            s == old(entries)@,
            entries_sorted(s),
            entry_rows_wf(s),
            c == constraint@,
            column == root.column,
            forall|k: int|
                0 <= k < i ==> placement_less(
                    (#[trigger] s[k]).constraint@,
                    s[k].column_index as int,
                    c,
                    column as int,
                ),
        ensures
            i <= entries.len(),
            entries@ == s,
            forall|k: int|
                0 <= k < i ==> placement_less(
                    (#[trigger] s[k]).constraint@,
                    s[k].column_index as int,
                    c,
                    column as int,
                ),
            i < entries.len() ==> placement_less(
                c,
                column as int,
                s[i as int].constraint@,
                s[i as int].column_index as int,
            ),
        decreases entries.len() - i,
    {
        let order = compare_constraints(&entries[i].constraint, constraint);
        let here = match order {
            Comparison::Equal => entries[i].column_index == column,
            _ => false,
        };
        let earlier = match order {
            Comparison::Less => true,
            Comparison::Equal => entries[i].column_index < column,
            Comparison::Greater => false,
        };
        if here {
            let mut rows = copy_rows(&entries[i].rows);
            insert_row(&mut rows, root.row());
            let entry = Entry { constraint: constraint.copy(), column_index: column, rows };
            entries.set(i, entry);
            proof {
                assert(rows@.len() > 0) by {
                    assert(rows@.to_set().contains(root.row));
                }
                let r = entries@;
                assert forall|x: int, y: int| 0 <= x < y < r.len() implies placement_less(
                    (#[trigger] r[x]).constraint@,
                    r[x].column_index as int,
                    (#[trigger] r[y]).constraint@,
                    r[y].column_index as int,
                ) by {
                    assert(placement_less(
                        s[x].constraint@,
                        s[x].column_index as int,
                        s[y].constraint@,
                        s[y].column_index as int,
                    ));
                }
                assert forall|x: int| 0 <= x < r.len() implies rows_sorted((#[trigger] r[x]).rows@)
                    && r[x].rows@.len() > 0 by {
                    if x != i {
                        assert(r[x] == s[x]);
                    }
                }
                assert forall|t: Terms, row: usize, col: usize|
                    #[trigger] entries_have(r, t, row, col as int) <==> (entries_have(
                        s,
                        t,
                        row,
                        col as int,
                    ) || (t == c && row == root.row && col == root.column)) by {
                    lemma_updated(s, r, i as int, c, root, t, row, col);
                }
            }
            return;
        }
        proof {
            lemma_terms_less_irreflexive(s[i as int].constraint@);
            lemma_terms_less_irreflexive(c);
        }
        if !earlier {
            break;
        }
        i += 1;
    }
    let mut rows: Vec<usize> = Vec::new();
    rows.push(root.row());
    let entry = Entry { constraint: constraint.copy(), column_index: column, rows };
    let ghost x = entry;
    entries.insert(i, entry);
    proof {
        let r = entries@;
        assert(r == s.insert(i as int, x));
        assert forall|a: int, b: int| 0 <= a < b < r.len() implies placement_less(
            (#[trigger] r[a]).constraint@,
            r[a].column_index as int,
            (#[trigger] r[b]).constraint@,
            r[b].column_index as int,
        ) by {
            let ra = if a < i {
                s[a]
            } else if a == i {
                x
            } else {
                s[a - 1]
            };
            let rb = if b < i {
                s[b]
            } else if b == i {
                x
            } else {
                s[b - 1]
            };
            assert(r[a] == ra && r[b] == rb);
            if a == i && b - 1 > i {
                lemma_placement_order(
                    c,
                    column as int,
                    s[i as int].constraint@,
                    s[i as int].column_index as int,
                    s[b - 1].constraint@,
                    s[b - 1].column_index as int,
                );
            }
        }
        assert forall|a: int| 0 <= a < r.len() implies rows_sorted((#[trigger] r[a]).rows@)
            && r[a].rows@.len() > 0 by {
            if a < i {
                assert(r[a] == s[a]);
            } else if a > i {
                assert(r[a] == s[a - 1]);
            }
        }
        assert forall|t: Terms, row: usize, col: usize|
            #[trigger] entries_have(r, t, row, col as int) <==> (entries_have(s, t, row, col as int)
                || (t == c && row == root.row && col == root.column)) by {
            if entries_have(r, t, row, col as int) {
                let e = choose|e: int|
                    0 <= e < r.len() && is_entry(#[trigger] r[e], t, col as int)
                        && r[e].rows@.contains(row);
                if e < i {
                    assert(s[e] == r[e]);
                } else if e > i {
                    assert(s[e - 1] == r[e]);
                } else {
                    let k = choose|k: int| 0 <= k < x.rows@.len() && x.rows@[k] == row;
                }
            }
            if entries_have(s, t, row, col as int) {
                let e = choose|e: int|
                    0 <= e < s.len() && is_entry(#[trigger] s[e], t, col as int)
                        && s[e].rows@.contains(row);
                if e < i {
                    assert(r[e] == s[e]);
                } else {
                    assert(r[e + 1] == s[e]);
                }
            }
            if t == c && row == root.row && col == root.column {
                assert(r[i as int] == x);
                assert(x.rows@[0] == row);
                assert(x.rows@.contains(row));
                assert(is_entry(r[i as int], t, col as int));
            }
        }
    }
}

/// What entries say after a row was added to one of them.
proof fn lemma_updated(
    s: Seq<Entry>,
    r: Seq<Entry>,
    i: int,
    c: Terms,
    root: Cell,
    t: Terms,
    row: usize,
    col: usize,
)
    requires
        0 <= i < s.len(),
        r.len() == s.len(),
        forall|x: int| 0 <= x < s.len() && x != i ==> (#[trigger] r[x]) == s[x],
        is_entry(s[i], c, root.column as int),
        is_entry(r[i], c, root.column as int),
        r[i].rows@.to_set() == s[i].rows@.to_set().insert(root.row),
    ensures
        entries_have(r, t, row, col as int) <==> (entries_have(s, t, row, col as int) || (t == c
            && row == root.row && col == root.column)),
{
    if entries_have(r, t, row, col as int) {
        let e = choose|e: int|
            0 <= e < r.len() && is_entry(#[trigger] r[e], t, col as int)
                && r[e].rows@.contains(row);
        if e == i {
            assert(r[i].rows@.to_set().contains(row));
            if row != root.row {
                assert(s[i].rows@.to_set().contains(row));
                assert(s[i].rows@.contains(row));
                assert(is_entry(s[i], t, col as int));
            }
        } else {
            assert(s[e] == r[e]);
        }
    }
    if entries_have(s, t, row, col as int) {
        let e = choose|e: int|
            0 <= e < s.len() && is_entry(#[trigger] s[e], t, col as int)
                && s[e].rows@.contains(row);
        if e == i {
            assert(s[i].rows@.to_set().contains(row));
            assert(r[i].rows@.to_set().contains(row));
            assert(r[i].rows@.contains(row));
        }
        assert(is_entry(r[e], t, col as int));
    }
    if t == c && row == root.row && col == root.column {
        assert(r[i].rows@.to_set().contains(row));
        assert(r[i].rows@.contains(row));
        assert(is_entry(r[i], t, col as int));
    }
}

/// Copies a list of rows.
pub fn copy_rows(rows: &Vec<usize>) -> (ret: Vec<usize>)
    ensures
        ret@ == rows@,
{
    let mut ret: Vec<usize> = Vec::new();
    let mut i: usize = 0;
    while i < rows.len()
        invariant
            i <= rows.len(),
            ret@ == rows@.subrange(0, i as int),
        decreases rows.len() - i,
    {
        ret.push(rows[i]);
        proof {
            assert(rows@.subrange(0, i + 1) =~= rows@.subrange(0, i as int).push(rows@[i as int]));
        }
        i += 1;
    }
    proof {
        assert(rows@.subrange(0, rows@.len() as int) =~= rows@);
    }
    ret
}

/// The order of row sets is irreflexive.
pub proof fn lemma_rows_less_irreflexive(a: Seq<usize>)
    ensures
        !rows_less(a, a),
    decreases a.len(),
{
    if a.len() > 0 {
        lemma_rows_less_irreflexive(a.drop_first());
    }
}

/// The order of row sets is transitive.
pub proof fn lemma_rows_less_transitive(a: Seq<usize>, b: Seq<usize>, c: Seq<usize>)
    requires
        rows_less(a, b),
        rows_less(b, c),
    ensures
        rows_less(a, c),
    decreases a.len(),
{
    if a.len() > 0 && a[0] == b[0] && b[0] == c[0] {
        lemma_rows_less_transitive(a.drop_first(), b.drop_first(), c.drop_first());
    }
}

/// Compares two row sets.
pub fn compare_rows(lhs: &Vec<usize>, rhs: &Vec<usize>) -> (ret: Comparison)
    ensures
        ret == Comparison::Less <==> rows_less(lhs@, rhs@),
        ret == Comparison::Equal <==> lhs@ == rhs@,
        ret == Comparison::Greater <==> rows_less(rhs@, lhs@),
{
    let ghost a = lhs@;
    let ghost b = rhs@;
    let mut i: usize = 0;
    proof {
        assert(a.subrange(0, a.len() as int) =~= a);
        assert(b.subrange(0, b.len() as int) =~= b);
        lemma_rows_less_irreflexive(a);
    }
    while i < lhs.len() && i < rhs.len()
        invariant
            i <= lhs.len(),
            i <= rhs.len(),
            a == lhs@,
            b == rhs@,
            a.subrange(0, i as int) == b.subrange(0, i as int),
            rows_less(a, b) <==> rows_less(
                a.subrange(i as int, a.len() as int),
                b.subrange(i as int, b.len() as int),
            ),
            rows_less(b, a) <==> rows_less(
                b.subrange(i as int, b.len() as int),
                a.subrange(i as int, a.len() as int),
            ),
        decreases lhs.len() - i,
    {
        let ghost x = a.subrange(i as int, a.len() as int);
        let ghost y = b.subrange(i as int, b.len() as int);
        proof {
            assert(x[0] == a[i as int] && y[0] == b[i as int]);
            assert(x.drop_first() =~= a.subrange(i + 1, a.len() as int));
            assert(y.drop_first() =~= b.subrange(i + 1, b.len() as int));
        }
        if lhs[i] < rhs[i] {
            return Comparison::Less;
        }
        if rhs[i] < lhs[i] {
            return Comparison::Greater;
        }
        proof {
            assert(a.subrange(0, i + 1) =~= a.subrange(0, i as int).push(a[i as int]));
            assert(b.subrange(0, i + 1) =~= b.subrange(0, i as int).push(b[i as int]));
        }
        i += 1;
    }
    let ghost x = a.subrange(i as int, a.len() as int);
    let ghost y = b.subrange(i as int, b.len() as int);
    if i < rhs.len() {
        proof {
            assert(x.len() == 0);
        }
        Comparison::Less
    } else if i < lhs.len() {
        proof {
            assert(y.len() == 0);
        }
        Comparison::Greater
    } else {
        proof {
            assert(a =~= a.subrange(0, i as int));
            assert(b =~= b.subrange(0, i as int));
        }
        Comparison::Equal
    }
}

/// Row sets are ordered.
pub open spec fn row_sets_sorted(sets: Seq<Vec<usize>>) -> bool {
    forall|i: int, j: int|
        0 <= i < j < sets.len() ==> rows_less((#[trigger] sets[i])@, (#[trigger] sets[j])@)
}

/// `rows` is one of the row sets.
pub open spec fn row_sets_have(sets: Seq<Vec<usize>>, rows: Seq<usize>) -> bool {
    exists|i: int| 0 <= i < sets.len() && (#[trigger] sets[i])@ == rows
}

/// `rows` are the rows of one of the entries.
pub open spec fn entries_use(entries: Seq<Entry>, rows: Seq<usize>) -> bool {
    exists|i: int| 0 <= i < entries.len() && (#[trigger] entries[i]).rows@ == rows
}

/// Inserts a row set into an ordered list unless it is already there.
fn insert_row_set(sets: &mut Vec<Vec<usize>>, rows: &Vec<usize>)
    requires
        row_sets_sorted(old(sets)@),
    ensures
        row_sets_sorted(final(sets)@),
        forall|r: Seq<usize>| #[trigger]
            row_sets_have(final(sets)@, r) <==> (row_sets_have(old(sets)@, r) || r == rows@),
{
    let ghost s = sets@;
    let ghost c = rows@;
    let mut i: usize = 0;
    while i < sets.len()
        invariant
            i <= sets.len(),
            sets@ == s,
            s == old(sets)@,
            c == rows@,
            row_sets_sorted(s),
            forall|k: int| 0 <= k < i ==> rows_less((#[trigger] s[k])@, c),
        ensures
            i <= sets.len(),
            sets@ == s,
            forall|k: int| 0 <= k < i ==> rows_less((#[trigger] s[k])@, c),
            i < sets.len() ==> rows_less(c, s[i as int]@),
        decreases sets.len() - i,
    {
        match compare_rows(&sets[i], rows) {
            Comparison::Less => {
                i += 1;
            },
            Comparison::Equal => {
                assert(row_sets_have(s, c));
                return;
            },
            Comparison::Greater => {
                break;
            },
        }
    }
    let copy = copy_rows(rows);
    let ghost x = copy;
    sets.insert(i, copy);
    proof {
        let r = sets@;
        assert(r == s.insert(i as int, x));
        assert forall|a: int, b: int| 0 <= a < b < r.len() implies rows_less(
            (#[trigger] r[a])@,
            (#[trigger] r[b])@,
        ) by {
            let ra = if a < i {
                s[a]
            } else if a == i {
                x
            } else {
                s[a - 1]
            };
            let rb = if b < i {
                s[b]
            } else if b == i {
                x
            } else {
                s[b - 1]
            };
            assert(r[a] == ra && r[b] == rb);
            if a == i && b - 1 > i {
                lemma_rows_less_transitive(c, s[i as int]@, s[b - 1]@);
            }
        }
        assert forall|q: Seq<usize>| #[trigger]
            row_sets_have(r, q) <==> (row_sets_have(s, q) || q == c) by {
            if row_sets_have(r, q) {
                let k = choose|k: int| 0 <= k < r.len() && (#[trigger] r[k])@ == q;
                if k < i {
                    assert(s[k] == r[k]);
                } else if k > i {
                    assert(s[k - 1] == r[k]);
                }
            }
            if row_sets_have(s, q) {
                let k = choose|k: int| 0 <= k < s.len() && (#[trigger] s[k])@ == q;
                if k < i {
                    assert(r[k] == s[k]);
                } else {
                    assert(r[k + 1] == s[k]);
                }
            }
            if q == c {
                assert(r[i as int]@ == q);
            }
        }
    }
}

/// Collects the different row sets of the entries.
pub fn collect_row_sets(entries: &Vec<Entry>) -> (ret: Vec<Vec<usize>>)
    ensures
        row_sets_sorted(ret@),
        forall|r: Seq<usize>| #[trigger] row_sets_have(ret@, r) <==> entries_use(entries@, r),
{
    let mut sets: Vec<Vec<usize>> = Vec::new();
    let mut i: usize = 0;
    while i < entries.len()
        invariant
            i <= entries.len(),
            row_sets_sorted(sets@),
            forall|r: Seq<usize>| #[trigger]
                row_sets_have(sets@, r) <==> entries_use(entries@.subrange(0, i as int), r),
        decreases entries.len() - i,
    {
        let ghost before = sets@;
        insert_row_set(&mut sets, &entries[i].rows);
        proof {
            let a = entries@.subrange(0, i as int);
            let b = entries@.subrange(0, i + 1);
            assert forall|r: Seq<usize>| #[trigger] row_sets_have(sets@, r) <==> entries_use(b, r) by {
                assert(row_sets_have(before, r) <==> entries_use(a, r));
                if entries_use(a, r) {
                    let k = choose|k: int| 0 <= k < a.len() && (#[trigger] a[k]).rows@ == r;
                    assert(b[k].rows@ == r);
                }
                if entries_use(b, r) {
                    let k = choose|k: int| 0 <= k < b.len() && (#[trigger] b[k]).rows@ == r;
                    if k < i {
                        assert(a[k].rows@ == r);
                    }
                }
                if r == entries@[i as int].rows@ {
                    assert(b[i as int].rows@ == r);
                }
            }
        }
        i += 1;
    }
    proof {
        assert(entries@.subrange(0, entries@.len() as int) =~= entries@);
    }
    sets
}

/// Finds a row set.
pub fn find_row_set(sets: &Vec<Vec<usize>>, rows: &Vec<usize>) -> (ret: usize)
    requires
        row_sets_have(sets@, rows@),
    ensures
        ret < sets@.len(),
        sets@[ret as int]@ == rows@,
{
    let mut i: usize = 0;
    while i < sets.len()
        invariant
            i <= sets.len(),
            row_sets_have(sets@, rows@),
            forall|k: int| 0 <= k < i ==> (#[trigger] sets@[k])@ != rows@,
        decreases sets.len() - i,
    {
        match compare_rows(&sets[i], rows) {
            Comparison::Equal => {
                return i;
            },
            _ => {},
        }
        i += 1;
    }
    proof {
        let k = choose|k: int| 0 <= k < sets@.len() && (#[trigger] sets@[k])@ == rows@;
        assert(false);
    }
    0
}

} // verus!
