//! Laws about the compilation of circuits.
use crate::builder::BuilderState;
use crate::cell::Cell;
use crate::expr::is_canonical_form;
use crate::field::{Field, Scalar};
use crate::grouping::{
    gates_have, lemma_placement_order, lemma_rows_less_irreflexive, lemma_rows_less_transitive,
};
use crate::laws::law_normal_form_unique;
use crate::model::{
    cell_value, gate_holds, placement_less, rows_less, rows_sorted, selector_used, CircuitModel,
    Placement,
};
use crate::partition::{sorted, Ordered};
use crate::permutation::{follower, is_target, listed, lists_fit, lists_sets, stands_at};
use crate::plonk::{
    compiled_gates, is_build_result, is_compilation, is_grouping, lemma_next_power_unique,
    lemma_placement_cell, placed_at, sizes_fit, BuildError, Circuit,
};
use crate::terms::{is_clearing, product_terms, terms_less, Mono, Terms};
use vstd::prelude::*;

verus! {

/// An order.
spec fn is_order<T>(less: spec_fn(T, T) -> bool) -> bool {
    &&& forall|x: T| !#[trigger] less(x, x)
    &&& forall|x: T, y: T, z: T| #[trigger] less(x, y) && #[trigger] less(y, z) ==> less(x, z)
}

/// The elements strictly increase.
spec fn increases<T>(s: Seq<T>, less: spec_fn(T, T) -> bool) -> bool {
    forall|i: int, j: int| 0 <= i < j < s.len() ==> less(#[trigger] s[i], #[trigger] s[j])
}

/// An increasing list is determined by its elements.
proof fn lemma_increasing_unique<T>(a: Seq<T>, b: Seq<T>, less: spec_fn(T, T) -> bool)
    requires
        is_order(less),
        increases(a, less),
        increases(b, less),
        forall|x: T| #[trigger] a.contains(x) <==> b.contains(x),
    ensures
        a == b,
    decreases a.len(),
{
    if a.len() == 0 {
        if b.len() > 0 {
            assert(b.contains(b[0]));
            assert(a.contains(b[0]));
        }
        assert(a =~= b);
    } else if b.len() == 0 {
        assert(a.contains(a[0]));
        assert(b.contains(a[0]));
    } else {
        let (x, y) = (a.last(), b.last());
        assert(a.contains(x) && b.contains(y));
        assert(b.contains(x) && a.contains(y));
        let i = choose|i: int| 0 <= i < b.len() && b[i] == x;
        let j = choose|j: int| 0 <= j < a.len() && a[j] == y;
        if i < b.len() - 1 {
            assert(less(b[i], b[b.len() - 1]));
            if j < a.len() - 1 {
                assert(less(a[j], a[a.len() - 1]));
                assert(less(x, x));
            }
        }
        assert(x == y);
        let (c, d) = (a.drop_last(), b.drop_last());
        assert forall|z: T| #[trigger] c.contains(z) <==> d.contains(z) by {
            if c.contains(z) {
                let k = choose|k: int| 0 <= k < c.len() && c[k] == z;
                assert(a[k] == z);
                assert(less(a[k], a[a.len() - 1]));
                assert(a.contains(z));
                let l = choose|l: int| 0 <= l < b.len() && b[l] == z;
                assert(d[l] == z);
            }
            if d.contains(z) {
                let k = choose|k: int| 0 <= k < d.len() && d[k] == z;
                assert(b[k] == z);
                assert(less(b[k], b[b.len() - 1]));
                assert(b.contains(z));
                assert(a.contains(z));
                let l = choose|l: int| 0 <= l < a.len() && a[l] == z;
                assert(c[l] == z);
            }
        }
        assert(increases(c, less)) by {
            assert forall|k: int, l: int| 0 <= k < l < c.len() implies less(
                #[trigger] c[k],
                #[trigger] c[l],
            ) by {
                assert(c[k] == a[k] && c[l] == a[l]);
            }
        }
        assert(increases(d, less)) by {
            assert forall|k: int, l: int| 0 <= k < l < d.len() implies less(
                #[trigger] d[k],
                #[trigger] d[l],
            ) by {
                assert(d[k] == b[k] && d[l] == b[l]);
            }
        }
        lemma_increasing_unique(c, d, less);
        assert(a =~= c.push(x));
        assert(b =~= d.push(y));
    }
}

/// The constraints and columns of placements.
spec fn keys(gates: Seq<Placement>) -> Seq<(Terms, int)> {
    Seq::new(gates.len(), |i: int| (gates[i].terms, gates[i].column))
}

/// The order of constraints and columns.
spec fn key_order() -> spec_fn((Terms, int), (Terms, int)) -> bool {
    |a: (Terms, int), b: (Terms, int)| placement_less(a.0, a.1, b.0, b.1)
}

/// The placements have the constraints and columns of the compiled gates.
proof fn lemma_keys(
    compiled: Seq<(Terms, Cell)>,
    gates: Seq<Placement>,
    active: Seq<Seq<usize>>,
    other: Seq<Placement>,
    other_active: Seq<Seq<usize>>,
    x: (Terms, int),
)
    requires
        is_grouping(compiled, gates, active),
        is_grouping(compiled, other, other_active),
        keys(gates).contains(x),
    ensures
        keys(other).contains(x),
{
    let i = choose|i: int| 0 <= i < keys(gates).len() && keys(gates)[i] == x;
    let cell = lemma_placement_cell(compiled, gates, active, i, 0);
    assert(gates_have(compiled, x.0, cell));
    assert(placed_at(other, other_active, x.0, cell));
    let g = choose|g: int|
        0 <= g < other.len() && (#[trigger] other[g]).terms == x.0 && other[g].column == cell.column
            && other_active[other[g].selector].contains(cell.row);
    assert(keys(other)[g] == x);
}

/// A placement is active at the rows where the compiled gates are placed.
proof fn lemma_rows(
    compiled: Seq<(Terms, Cell)>,
    gates: Seq<Placement>,
    active: Seq<Seq<usize>>,
    i: int,
    row: usize,
)
    requires
        is_grouping(compiled, gates, active),
        0 <= i < gates.len(),
    ensures
        active[gates[i].selector].contains(row) <==> gates_have(
            compiled,
            gates[i].terms,
            Cell { row, column: gates[i].column as usize },
        ),
{
    let g = gates[i];
    let cell = Cell { row, column: g.column as usize };
    assert(placed_at(gates, active, g.terms, cell) <==> gates_have(compiled, g.terms, cell));
    if active[g.selector].contains(row) {
        assert(placed_at(gates, active, g.terms, cell));
    }
    if placed_at(gates, active, g.terms, cell) {
        let k = choose|k: int|
            0 <= k < gates.len() && (#[trigger] gates[k]).terms == g.terms && gates[k].column
                == cell.column && active[gates[k].selector].contains(cell.row);
        lemma_placement_order(g.terms, g.column, g.terms, g.column, g.terms, g.column);
        if k < i {
            assert(placement_less(gates[k].terms, gates[k].column, g.terms, g.column));
        } else if i < k {
            assert(placement_less(g.terms, g.column, gates[k].terms, gates[k].column));
        }
    }
}

/// There is only one way to group gates.
pub proof fn law_grouping_unique(
    compiled: Seq<(Terms, Cell)>,
    gates: Seq<Placement>,
    active: Seq<Seq<usize>>,
    other: Seq<Placement>,
    other_active: Seq<Seq<usize>>,
)
    requires
        is_grouping(compiled, gates, active),
        is_grouping(compiled, other, other_active),
    ensures
        gates == other,
        active == other_active,
{
    // the constraints and columns
    let less = key_order();
    assert(is_order(less)) by {
        assert forall|x: (Terms, int)| !#[trigger] less(x, x) by {
            lemma_placement_order(x.0, x.1, x.0, x.1, x.0, x.1);
        }
        assert forall|x: (Terms, int), y: (Terms, int), z: (Terms, int)|
            #[trigger] less(x, y) && #[trigger] less(y, z) implies less(x, z) by {
            lemma_placement_order(x.0, x.1, y.0, y.1, z.0, z.1);
        }
    }
    let (a, b) = (keys(gates), keys(other));
    assert(increases(a, less)) by {
        assert forall|i: int, j: int| 0 <= i < j < a.len() implies less(
            #[trigger] a[i],
            #[trigger] a[j],
        ) by {
            assert(placement_less(gates[i].terms, gates[i].column, gates[j].terms, gates[j].column));
        }
    }
    assert(increases(b, less)) by {
        assert forall|i: int, j: int| 0 <= i < j < b.len() implies less(
            #[trigger] b[i],
            #[trigger] b[j],
        ) by {
            assert(placement_less(other[i].terms, other[i].column, other[j].terms, other[j].column));
        }
    }
    assert forall|x: (Terms, int)| #[trigger] a.contains(x) <==> b.contains(x) by {
        if a.contains(x) {
            lemma_keys(compiled, gates, active, other, other_active, x);
        }
        if b.contains(x) {
            lemma_keys(compiled, other, other_active, gates, active, x);
        }
    }
    lemma_increasing_unique(a, b, less);
    assert forall|i: int| 0 <= i < gates.len() implies (#[trigger] gates[i]).terms == other[i].terms
        && gates[i].column == other[i].column by {
        assert(a[i] == b[i]);
    }
    assert(gates.len() == other.len());
    // the rows
    assert forall|i: int| 0 <= i < gates.len() implies active[(#[trigger] gates[i]).selector]
        == other_active[other[i].selector] by {
        let (x, y) = (active[gates[i].selector], other_active[other[i].selector]);
        let order = |p: usize, q: usize| p < q;
        assert(rows_sorted(x) && rows_sorted(y));
        assert forall|row: usize| #[trigger] x.contains(row) <==> y.contains(row) by {
            lemma_rows(compiled, gates, active, i, row);
            lemma_rows(compiled, other, other_active, i, row);
        }
        lemma_increasing_unique(x, y, order);
    }
    // the selectors
    let order = |p: Seq<usize>, q: Seq<usize>| rows_less(p, q);
    assert(is_order(order)) by {
        assert forall|x: Seq<usize>| !#[trigger] order(x, x) by {
            lemma_rows_less_irreflexive(x);
        }
        assert forall|x: Seq<usize>, y: Seq<usize>, z: Seq<usize>|
            #[trigger] order(x, y) && #[trigger] order(y, z) implies order(x, z) by {
            lemma_rows_less_transitive(x, y, z);
        }
    }
    assert forall|x: Seq<usize>| #[trigger] active.contains(x) <==> other_active.contains(x) by {
        if active.contains(x) {
            let k = choose|k: int| 0 <= k < active.len() && active[k] == x;
            assert(selector_used(gates, k));
            let g = choose|g: int| 0 <= g < gates.len() && (#[trigger] gates[g]).selector == k;
            assert(other_active[other[g].selector] == x);
        }
        if other_active.contains(x) {
            let k = choose|k: int| 0 <= k < other_active.len() && other_active[k] == x;
            assert(selector_used(other, k));
            let g = choose|g: int| 0 <= g < other.len() && (#[trigger] other[g]).selector == k;
            assert(active[gates[g].selector] == x);
        }
    }
    lemma_increasing_unique(active, other_active, order);
    assert forall|i: int| 0 <= i < gates.len() implies #[trigger] gates[i] == other[i] by {
        let (x, y) = (gates[i].selector, other[i].selector);
        assert(active[x] == other_active[y]);
        lemma_rows_less_irreflexive(active[x]);
        if x < y {
            assert(rows_less(active[x], active[y]));
        } else if y < x {
            assert(rows_less(active[y], active[x]));
        }
        assert(gates[i].terms == other[i].terms);
    }
    assert(gates =~= other);
}

/// There is only one list of compiled gates.
proof fn lemma_compiled_unique(
    gates: Seq<(Terms, Cell)>,
    a: Seq<(Terms, Cell)>,
    b: Seq<(Terms, Cell)>,
    canonicalize: bool,
)
    requires
        compiled_gates(gates, a, canonicalize),
        compiled_gates(gates, b, canonicalize),
    ensures
        a == b,
{
    let p = Scalar::modulus();
    Scalar::lemma_modulus();
    assert forall|i: int| 0 <= i < a.len() implies #[trigger] a[i] == b[i] by {
        let t = gates[i].0;
        assert(b[i].1 == gates[i].1);
        if canonicalize {
            assert(is_canonical_form(a[i].0, t, p) && is_canonical_form(b[i].0, t, p));
            let k = choose|k: Mono| is_clearing(k, t);
            assert(is_clearing(k, t));
            law_normal_form_unique(a[i].0, b[i].0, product_terms(t, seq![(k, 1int)]), p);
        }
    }
    assert(a =~= b);
}

/// Every cell has one target only.
proof fn lemma_target_unique(lists: Seq<Seq<Cell>>, c: Cell, d: Cell, e: Cell)
    requires
        is_target(lists, c, d),
        is_target(lists, c, e),
    ensures
        d == e,
{
    if listed(lists, c) {
        let (i, j) = choose|i: int, j: int| #[trigger] stands_at(lists, i, j, c);
        assert(d == follower(lists[i], j));
        assert(e == follower(lists[i], j));
    }
}

/// The ordered lists of the elements of sets are unique.
proof fn lemma_lists_unique(a: Seq<Seq<Cell>>, b: Seq<Seq<Cell>>, sets: Seq<Set<Cell>>)
    requires
        lists_sets(a, sets),
        lists_sets(b, sets),
    ensures
        a == b,
{
    let less = |x: Cell, y: Cell| x.precedes(y);
    assert(is_order(less)) by {
        assert forall|x: Cell| !#[trigger] less(x, x) by {
            x.lemma_irreflexive();
        }
        assert forall|x: Cell, y: Cell, z: Cell|
            #[trigger] less(x, y) && #[trigger] less(y, z) implies less(x, z) by {
            x.lemma_transitive(y, z);
        }
    }
    assert forall|i: int| 0 <= i < a.len() implies #[trigger] a[i] == b[i] by {
        assert(sorted(a[i]) && sorted(b[i]));
        assert forall|c: Cell| #[trigger] a[i].contains(c) <==> b[i].contains(c) by {
            assert(a[i].to_set().contains(c) <==> sets[i].contains(c));
            assert(b[i].to_set().contains(c) <==> sets[i].contains(c));
        }
        lemma_increasing_unique(a[i], b[i], less);
    }
    assert(a =~= b);
}

/// Two results of a compilation are the same, up to the way that polynomials are written: both are
/// circuits with the same dimensions, gates, selectors, wires and revealed rows, or both are the
/// same kind of error.
pub open spec fn same_result(
    a: Result<Circuit, BuildError>,
    b: Result<Circuit, BuildError>,
) -> bool {
    match (a, b) {
        (Ok(c), Ok(d)) => {
            &&& c.model().rows == d.model().rows
            &&& c.model().blinding == d.model().blinding
            &&& c.model().size == d.model().size
            &&& c.model().columns == d.model().columns
            &&& c.model().gates == d.model().gates
            &&& c.model().active == d.model().active
            &&& c.model().targets == d.model().targets
            &&& c.model().public_rows == d.model().public_rows
        },
        (Err(BuildError::NotCanonical(c)), Err(BuildError::NotCanonical(d))) => c@ == d@,
        (Err(BuildError::ExponentOverflow), Err(BuildError::ExponentOverflow)) => true,
        (Err(BuildError::TooLarge), Err(BuildError::TooLarge)) => true,
        (Err(BuildError::CellOutOfRange), Err(BuildError::CellOutOfRange)) => true,
        _ => false,
    }
}

/// A well-formed circuit has a size that fits.
proof fn lemma_model_fits(m: CircuitModel)
    requires
        m.wf(),
    ensures
        sizes_fit(m.rows, m.gates, m.size),
{
}

/// What compilation results in is determined by what is compiled.
proof fn lemma_build_is_determined(
    a: Result<Circuit, BuildError>,
    b: Result<Circuit, BuildError>,
    rows: int,
    columns: int,
    gates: Seq<(Terms, Cell)>,
    lists: Seq<Seq<Cell>>,
    public_rows: Seq<usize>,
    canonicalize: bool,
)
    requires
        is_build_result(a, rows, columns, gates, lists, public_rows, canonicalize),
        is_build_result(b, rows, columns, gates, lists, public_rows, canonicalize),
    ensures
        same_result(a, b),
{
    lemma_build_half(a, b, rows, columns, gates, lists, public_rows, canonicalize);
    lemma_build_half(b, a, rows, columns, gates, lists, public_rows, canonicalize);
    match (a, b) {
        (Ok(c), Ok(d)) => {
            let x = choose|x: Seq<(Terms, Cell)>| #[trigger]
                compiled_gates(gates, x, canonicalize) && is_compilation(
                    c.model(),
                    rows,
                    columns,
                    x,
                    lists,
                    public_rows,
                );
            let y = choose|y: Seq<(Terms, Cell)>| #[trigger]
                compiled_gates(gates, y, canonicalize) && is_compilation(
                    d.model(),
                    rows,
                    columns,
                    y,
                    lists,
                    public_rows,
                );
            lemma_compiled_unique(gates, x, y, canonicalize);
            let (m, n) = (c.model(), d.model());
            law_grouping_unique(x, m.gates, m.active, n.gates, n.active);
            lemma_next_power_unique(m.size, n.size, rows + m.blinding);
            assert forall|j: int| 0 <= j < m.targets.len() implies #[trigger] m.targets[j]
                == n.targets[j] by {
                assert(m.targets[j].len() == m.size && n.targets[j].len() == n.size);
                assert forall|i: int| 0 <= i < m.size implies #[trigger] m.targets[j][i]
                    == n.targets[j][i] by {
                    let cell = Cell { row: i as usize, column: j as usize };
                    assert(m.has(cell) && n.has(cell));
                    assert(m.target(cell) == m.targets[j][i]);
                    assert(n.target(cell) == n.targets[j][i]);
                    lemma_target_unique(lists, cell, m.target(cell), n.target(cell));
                }
                assert(m.targets[j] =~= n.targets[j]);
            }
            assert(m.targets =~= n.targets);
        },
        (Err(BuildError::NotCanonical(c)), Err(BuildError::NotCanonical(d))) => {
            crate::terms::lemma_terms_less_total(c@, d@);
            let i = choose|i: int| 0 <= i < gates.len() && (#[trigger] gates[i]).0 == c@;
            let j = choose|j: int| 0 <= j < gates.len() && (#[trigger] gates[j]).0 == d@;
            assert(!terms_less(gates[i].0, d@));
            assert(!terms_less(gates[j].0, c@));
        },
        _ => {},
    }
}

/// Whatever one result is, the other one is not a different kind of result.
proof fn lemma_build_half(
    a: Result<Circuit, BuildError>,
    b: Result<Circuit, BuildError>,
    rows: int,
    columns: int,
    gates: Seq<(Terms, Cell)>,
    lists: Seq<Seq<Cell>>,
    public_rows: Seq<usize>,
    canonicalize: bool,
)
    requires
        is_build_result(a, rows, columns, gates, lists, public_rows, canonicalize),
        is_build_result(b, rows, columns, gates, lists, public_rows, canonicalize),
    ensures
        a is Ok ==> b is Ok,
        a matches Err(BuildError::TooLarge) ==> !(b matches Err(BuildError::CellOutOfRange)),
        a matches Err(BuildError::NotCanonical(_)) ==> b matches Err(BuildError::NotCanonical(_)),
        a matches Err(BuildError::ExponentOverflow) ==> b matches Err(BuildError::ExponentOverflow),
{
    // what a result says of the compiled gates
    let compiled = choose|x: Seq<(Terms, Cell)>| #[trigger] compiled_gates(gates, x, canonicalize);
    match b {
        Err(BuildError::TooLarge) => {
            let (x, placed, active) = choose|
                x: Seq<(Terms, Cell)>,
                placed: Seq<Placement>,
                active: Seq<Seq<usize>>,
            |
                compiled_gates(gates, x, canonicalize) && #[trigger] is_grouping(
                    x,
                    placed,
                    active,
                ) && forall|size: int| !#[trigger] sizes_fit(rows, placed, size);
            if let Ok(c) = a {
                let y = choose|y: Seq<(Terms, Cell)>| #[trigger]
                    compiled_gates(gates, y, canonicalize) && is_compilation(
                        c.model(),
                        rows,
                        columns,
                        y,
                        lists,
                        public_rows,
                    );
                lemma_compiled_unique(gates, x, y, canonicalize);
                law_grouping_unique(x, placed, active, c.model().gates, c.model().active);
                lemma_model_fits(c.model());
            }
        },
        Err(BuildError::CellOutOfRange) => {
            let (x, placed, active, size) = choose|
                x: Seq<(Terms, Cell)>,
                placed: Seq<Placement>,
                active: Seq<Seq<usize>>,
                size: int,
            |
                compiled_gates(gates, x, canonicalize) && #[trigger] is_grouping(
                    x,
                    placed,
                    active,
                ) && #[trigger] sizes_fit(rows, placed, size) && !lists_fit(
                    lists,
                    size,
                    columns,
                );
            if let Ok(c) = a {
                let y = choose|y: Seq<(Terms, Cell)>| #[trigger]
                    compiled_gates(gates, y, canonicalize) && is_compilation(
                        c.model(),
                        rows,
                        columns,
                        y,
                        lists,
                        public_rows,
                    );
                let m = c.model();
                lemma_compiled_unique(gates, x, y, canonicalize);
                law_grouping_unique(x, placed, active, m.gates, m.active);
                lemma_model_fits(m);
                lemma_next_power_unique(m.size, size, rows + m.blinding);
            }
            if a matches Err(BuildError::TooLarge) {
                let (y, other, other_active) = choose|
                    y: Seq<(Terms, Cell)>,
                    other: Seq<Placement>,
                    other_active: Seq<Seq<usize>>,
                |
                    compiled_gates(gates, y, canonicalize) && #[trigger] is_grouping(
                        y,
                        other,
                        other_active,
                    ) && forall|size: int|
                        !#[trigger] sizes_fit(rows, other, size);
                lemma_compiled_unique(gates, x, y, canonicalize);
                law_grouping_unique(x, placed, active, other, other_active);
            }
        },
        _ => {},
    }
    if b matches Err(BuildError::NotCanonical(_)) || a matches Err(BuildError::NotCanonical(_)) {
        assert(!canonicalize);
    }
    if compiled_gates(gates, compiled, canonicalize) && !canonicalize {
        assert forall|i: int| 0 <= i < gates.len() implies crate::expr::canonical(
            (#[trigger] gates[i]).0,
        ) by {
            assert(compiled[i].0 == gates[i].0);
        }
    }
    if compiled_gates(gates, compiled, canonicalize) && canonicalize {
        assert forall|i: int| 0 <= i < gates.len() implies crate::expr::clearing_fits(
            (#[trigger] gates[i]).0,
        ) by {
            assert(compiled[i].1 == gates[i].1);
        }
    }
}

/// The gates of a compiled circuit are satisfied if and only if all constraints are satisfied where
/// they were placed.
pub proof fn law_gates_hold(
    m: CircuitModel,
    compiled: Seq<(Terms, Cell)>,
    table: Seq<Seq<int>>,
)
    requires
        is_grouping(compiled, m.gates, m.active),
    ensures
        m.gates_hold(table) <==> forall|i: int|
            0 <= i < compiled.len() ==> gate_holds(
                (#[trigger] compiled[i]).0,
                table,
                compiled[i].1.row as int,
                compiled[i].1.column as int,
            ),
{
    if m.gates_hold(table) {
        assert forall|i: int| 0 <= i < compiled.len() implies gate_holds(
            (#[trigger] compiled[i]).0,
            table,
            compiled[i].1.row as int,
            compiled[i].1.column as int,
        ) by {
            let (t, cell) = compiled[i];
            assert(gates_have(compiled, t, cell));
            assert(placed_at(m.gates, m.active, t, cell));
            let g = choose|g: int|
                0 <= g < m.gates.len() && (#[trigger] m.gates[g]).terms == t && m.gates[g].column
                    == cell.column && m.active[m.gates[g].selector].contains(cell.row);
            let rows = m.active[m.gates[g].selector];
            let k = choose|k: int| 0 <= k < rows.len() && rows[k] == cell.row;
            assert(m.active[m.gates[g].selector][k] == cell.row);
        }
    }
    if forall|i: int|
        0 <= i < compiled.len() ==> gate_holds(
            (#[trigger] compiled[i]).0,
            table,
            compiled[i].1.row as int,
            compiled[i].1.column as int,
        ) {
        assert forall|g: int, i: int|
            0 <= g < m.gates.len() && 0 <= i < m.active[m.gates[g].selector].len() implies gate_holds(
            (#[trigger] m.gates[g]).terms,
            table,
            (#[trigger] m.active[m.gates[g].selector][i]) as int,
            m.gates[g].column,
        ) by {
            let cell = lemma_placement_cell(compiled, m.gates, m.active, g, i);
            let k = choose|k: int|
                0 <= k < compiled.len() && #[trigger] compiled[k] == (m.gates[g].terms, cell);
            assert(gate_holds(
                compiled[k].0,
                table,
                compiled[k].1.row as int,
                compiled[k].1.column as int,
            ));
        }
    }
}

/// All cells of every list have the same value.
pub open spec fn lists_agree(lists: Seq<Seq<Cell>>, table: Seq<Seq<int>>) -> bool {
    forall|i: int, j: int, k: int, c: Cell, d: Cell|
        #[trigger] stands_at(lists, i, j, c) && #[trigger] stands_at(lists, i, k, d) ==> cell_value(
            table,
            c,
        ) == cell_value(table, d)
}

/// The values of the first cells of a list are the same if every cell has the value of its target.
proof fn lemma_list_values(
    m: CircuitModel,
    lists: Seq<Seq<Cell>>,
    table: Seq<Seq<int>>,
    i: int,
    j: int,
)
    requires
        m.wires_hold(table),
        m.rows <= m.size,
        lists_fit(lists, m.rows, m.columns),
        forall|c: Cell| m.has(c) ==> is_target(lists, c, #[trigger] m.target(c)),
        0 <= i < lists.len(),
        0 <= j < lists[i].len(),
    ensures
        cell_value(table, lists[i][j]) == cell_value(table, lists[i][0]),
    decreases j,
{
    if j > 0 {
        lemma_list_values(m, lists, table, i, j - 1);
        let c = lists[i][j - 1];
        assert(stands_at(lists, i, j - 1, c));
        assert(m.has(c));
        assert(m.target(c) == follower(lists[i], j - 1));
    }
}

/// The wires of a compiled circuit are satisfied if and only if connected cells have the same
/// values, and no cell outside of the circuit's rows is connected to another one. The connected
/// cells must be in the circuit's rows.
pub proof fn law_wires_hold(m: CircuitModel, lists: Seq<Seq<Cell>>, table: Seq<Seq<int>>)
    requires
        m.wf(),
        lists_fit(lists, m.rows, m.columns),
        forall|c: Cell| m.has(c) ==> is_target(lists, c, #[trigger] m.target(c)),
    ensures
        m.wires_hold(table) <==> lists_agree(lists, table),
        m.wires_within(),
{
    if m.wires_hold(table) {
        assert forall|i: int, j: int, k: int, c: Cell, d: Cell|
            #[trigger] stands_at(lists, i, j, c) && #[trigger] stands_at(
                lists,
                i,
                k,
                d,
            ) implies cell_value(table, c) == cell_value(table, d) by {
            lemma_list_values(m, lists, table, i, j);
            lemma_list_values(m, lists, table, i, k);
        }
    }
    if lists_agree(lists, table) {
        assert forall|c: Cell| m.has(c) && c.row < m.rows implies cell_value(table, c)
            == cell_value(table, #[trigger] m.target(c)) by {
            if listed(lists, c) {
                let (i, j) = choose|i: int, j: int| #[trigger] stands_at(lists, i, j, c);
                let k = if j + 1 < lists[i].len() {
                    j + 1
                } else {
                    0
                };
                assert(m.target(c) == follower(lists[i], j));
                assert(stands_at(lists, i, k, m.target(c)));
            }
        }
    }
    assert forall|c: Cell| m.has(c) && c.row >= m.rows implies #[trigger] m.target(c) == c by {
        assert(!listed(lists, c)) by {
            if listed(lists, c) {
                let (i, j) = choose|i: int, j: int| #[trigger] stands_at(lists, i, j, c);
            }
        }
    }
}

/// What [`CircuitBuilder::build`](crate::builder::CircuitBuilder::build) results in is determined by
/// the contents of the circuit.
pub proof fn law_build_is_determined(
    a: Result<Circuit, BuildError>,
    b: Result<Circuit, BuildError>,
    state: BuilderState,
    canonicalize: bool,
)
    requires
        exists|lists: Seq<Seq<Cell>>| #[trigger]
            lists_sets(lists, state.nodes) && is_build_result(
                a,
                state.rows,
                state.columns,
                state.gates,
                lists,
                state.public_rows,
                canonicalize,
            ),
        exists|lists: Seq<Seq<Cell>>| #[trigger]
            lists_sets(lists, state.nodes) && is_build_result(
                b,
                state.rows,
                state.columns,
                state.gates,
                lists,
                state.public_rows,
                canonicalize,
            ),
    ensures
        same_result(a, b),
{
    let x = choose|lists: Seq<Seq<Cell>>| #[trigger]
        lists_sets(lists, state.nodes) && is_build_result(
            a,
            state.rows,
            state.columns,
            state.gates,
            lists,
            state.public_rows,
            canonicalize,
        );
    let y = choose|lists: Seq<Seq<Cell>>| #[trigger]
        lists_sets(lists, state.nodes) && is_build_result(
            b,
            state.rows,
            state.columns,
            state.gates,
            lists,
            state.public_rows,
            canonicalize,
        );
    lemma_lists_unique(x, y, state.nodes);
    lemma_build_is_determined(
        a,
        b,
        state.rows,
        state.columns,
        state.gates,
        x,
        state.public_rows,
        canonicalize,
    );
}

} // verus!
