//! Laws about compiled circuits.
use crate::argument::{
    beta_text, cell_factor, challenges, columns_interpolate, early_challenge, gamma_text,
    has_zero_factor, is_opened, opened_at, rotated_point, row_point, row_targets, Polynomials,
};
use crate::cell::Cell;
use crate::checking::{is_check_result, WitnessError};
use crate::compose::column_valuation;
use crate::expr::{canonical, terms_degree};
use crate::field::{Field, Scalar};
use crate::history::lemma_same_value;
use crate::model::{
    cell_identity, cell_value, gate_holds, gate_valuation, interpolates, is_opened_rotation,
    max_gate_degree, opened_set, quotient_bound, quotient_chunks, CircuitModel, Placement,
};
use crate::partition::{sorted, Ordered};
use crate::pcs::{opening_points, opening_roots, HashBackend, Setup};
use crate::permutation::{is_target, listed, stands_at};
use crate::plonk::{is_build_result, is_compilation, BuildError, Circuit};
use crate::poly::{domain_root, lemma_eval_cong, poly_eval, Polynomial};
use crate::provability::lemma_rotate_row;
use crate::proving::{is_prove_result, Proof, ProvingError};
use crate::terms::{terms_have, terms_less, terms_value, Terms};
use crate::utils::is_next_power_of_two;
use crate::variable::Variable;
use crate::witness::Witness;
use vstd::arithmetic::power2::pow2;
use vstd::arithmetic::power::pow;
use vstd::prelude::*;

verus! {

/// A gate at a row and a column is satisfied if its constraint evaluates to zero where every variable
/// has the value of the cell that is its rotation below and its column to the right.
pub proof fn law_gate_holds(
    t: Terms,
    table: Seq<Seq<int>>,
    row: int,
    column: int,
    s: spec_fn(Variable) -> int,
)
    requires
        forall|v: Variable| #[trigger]
            s(v) == table[column + v.column_index][row + v.rotation],
    ensures
        gate_holds(t, table, row, column) <==> terms_value(t, s, Scalar::modulus())
            % Scalar::modulus() == 0,
{
    let u = gate_valuation(table, row, column);
    assert forall|v: Variable| #[trigger] terms_have(t, v) implies u(v) == s(v) by {}
    lemma_same_value(t, u, s, Scalar::modulus());
}

/// The polynomial of a selector is 1 at the rows where the selector is active and 0 at the others.
pub proof fn law_selector_polynomial(m: CircuitModel, i: int, row: usize)
    requires
        m.wf(),
        0 <= i < m.active.len(),
        row < m.size,
    ensures
        poly_eval(m.selectors[i], pow(domain_root(m.size), row as nat)) % Scalar::modulus()
            == if m.active[i].contains(row) {
            1int
        } else {
            0int
        },
        m.selectors[i].len() <= m.size,
{
    let values = crate::model::selector_values(m.active[i], m.size);
    assert(crate::model::interpolates(m.selectors[i], values));
    assert(values.len() == m.size);
    assert(values[row as int] == if m.active[i].contains(row) {
        1int
    } else {
        0int
    });
}

/// The permutation polynomial of a column takes, at every row, the value that stands for the next
/// cell of the node: a power of 5 for its column times the domain element of its row.
pub proof fn law_permutation_polynomial(m: CircuitModel, cell: Cell)
    requires
        m.wf(),
        cell.row < m.size,
        cell.column < m.columns,
    ensures
        poly_eval(m.sigma[cell.column as int], pow(domain_root(m.size), cell.row as nat))
            % Scalar::modulus() == (pow(5, m.target(cell).column as nat) * pow(
            domain_root(m.size),
            m.target(cell).row as nat,
        )) % Scalar::modulus(),
        m.sigma[cell.column as int].len() <= m.size,
{
    let values = crate::model::sigma_values(m.targets[cell.column as int], m.size);
    assert(crate::model::interpolates(m.sigma[cell.column as int], values));
    assert(values[cell.row as int] == crate::model::cell_identity(m.target(cell), m.size));
}

/// In a circuit whose connected cells are listed node by node, the next cell of a cell is the one
/// behind it in its node, the next cell of the last one is the first one, and a cell without
/// connections is its own next cell.
pub proof fn law_next_cells(
    m: CircuitModel,
    rows: int,
    columns: int,
    compiled: Seq<(Terms, Cell)>,
    lists: Seq<Seq<Cell>>,
    public_rows: Seq<usize>,
    cell: Cell,
    i: int,
    j: int,
)
    requires
        is_compilation(m, rows, columns, compiled, lists, public_rows),
        m.has(cell),
    ensures
        0 <= i < lists.len() && 0 <= j < lists[i].len() - 1 && lists[i][j] == cell ==> m.target(cell)
            == lists[i][j + 1],
        0 <= i < lists.len() && j == lists[i].len() - 1 && 0 <= j && lists[i][j] == cell
            ==> m.target(cell) == lists[i][0],
        (forall|x: int, y: int| !#[trigger] stands_at(lists, x, y, cell)) ==> m.target(cell) == cell,
{
    assert(is_target(lists, cell, m.target(cell)));
    if 0 <= i < lists.len() && 0 <= j < lists[i].len() && lists[i][j] == cell {
        assert(stands_at(lists, i, j, cell));
    }
    if listed(lists, cell) {
        assert(exists|x: int, y: int| stands_at(lists, x, y, cell));
    }
}

/// The cells of a node are listed by row and, in one row, by column.
pub proof fn law_cells_of_node(s: Seq<Cell>, i: int, j: int)
    requires
        sorted(s),
        0 <= i < s.len(),
        0 <= j < s.len(),
    ensures
        i < j <==> s[i].row < s[j].row || (s[i].row == s[j].row && s[i].column < s[j].column),
{
    if i < j {
        assert(s[i].precedes(s[j]));
    } else if j < i {
        assert(s[j].precedes(s[i]));
    }
}

/// A circuit is padded to the smallest power of two that has room for its rows, and for one blinding
/// row more than there are rotations at which its columns are opened: these are 0, 1 and the rotations
/// of the variables of its gates.
pub proof fn law_padding(m: CircuitModel, rotations: Set<isize>, k: nat)
    requires
        m.wf(),
        forall|r: isize| #[trigger]
            rotations.contains(r) <==> r == 0 || r == 1 || exists|g: int, v: Variable|
                0 <= g < m.gates.len() && #[trigger] terms_have(m.gates[g].terms, v) && v.rotation
                    == r,
    ensures
        m.blinding == rotations.len() + 1,
        m.rows + m.blinding <= m.size,
        m.rows + m.blinding <= pow2(k) ==> m.size <= pow2(k),
        exists|n: nat| m.size == #[trigger] pow2(n),
{
    let s = opened_set(m.gates);
    assert forall|r: isize| s.contains(r) <==> rotations.contains(r) by {
        if is_opened_rotation(m.gates, r) && r != 0 && r != 1 {
            let g = choose|g: int|
                0 <= g < m.gates.len() && crate::model::terms_rotations(
                    (#[trigger] m.gates[g]).terms,
                ).contains(r);
            let v = choose|v: Variable| #[trigger]
                terms_have(m.gates[g].terms, v) && v.rotation == r;
            assert(terms_have(m.gates[g].terms, v));
        }
        if exists|g: int, v: Variable|
            0 <= g < m.gates.len() && #[trigger] terms_have(m.gates[g].terms, v) && v.rotation
                == r {
            let (g, v) = choose|g: int, v: Variable|
                0 <= g < m.gates.len() && #[trigger] terms_have(m.gates[g].terms, v) && v.rotation
                    == r;
            assert(crate::model::terms_rotations(m.gates[g].terms).contains(r));
            assert(is_opened_rotation(m.gates, r));
        }
    }
    assert(s =~= rotations);
}

/// The degree bound of the quotient is that of the product of as many columns as there are, or of a
/// gate if that is higher, and no higher than needed; its chunks have room for it, and one chunk less
/// would not.
pub proof fn law_quotient_bound(size: int, columns: int, gates: Seq<Placement>, g: int)
    requires
        size > 1,
        columns >= 0,
    ensures
        (size - 1) * columns <= quotient_bound(size, columns, gates),
        0 <= g < gates.len() ==> (size - 1) * terms_degree(gates[g].terms) <= quotient_bound(
            size,
            columns,
            gates,
        ),
        quotient_bound(size, columns, gates) == (size - 1) * columns || exists|h: int|
            0 <= h < gates.len() && quotient_bound(size, columns, gates) == (size - 1)
                * #[trigger] terms_degree(gates[h].terms),
        quotient_bound(size, columns, gates) <= quotient_chunks(size, columns, gates) * size,
        (quotient_chunks(size, columns, gates) - 1) * size < quotient_bound(size, columns, gates),
{
    let (b, c) = (quotient_bound(size, columns, gates), quotient_chunks(size, columns, gates));
    lemma_max_degree(gates);
    let d = max_gate_degree(gates);
    assert((size - 1) * columns <= b) by (nonlinear_arith)
        requires
            size > 1,
            b == (size - 1) * (if d < columns {
                columns
            } else {
                d
            }),
    ;
    if 0 <= g < gates.len() {
        let e = terms_degree(gates[g].terms);
        assert(e <= d);
        assert((size - 1) * e <= b) by (nonlinear_arith)
            requires
                size > 1,
                e <= d,
                b == (size - 1) * (if d < columns {
                    columns
                } else {
                    d
                }),
        ;
    }
    if !(d < columns) && d != columns {
        let h = choose|h: int|
            0 <= h < gates.len() && #[trigger] terms_degree(gates[h].terms) == d;
        assert(b == (size - 1) * terms_degree(gates[h].terms));
    }
    let x = b + size - 1;
    vstd::arithmetic::div_mod::lemma_fundamental_div_mod(x, size);
    assert(size * c == c * size) by (nonlinear_arith);
    assert((c - 1) * size == c * size - size) by (nonlinear_arith);
}

/// The highest degree of the gates.
proof fn lemma_max_degree(gates: Seq<Placement>)
    ensures
        forall|g: int| 0 <= g < gates.len() ==> #[trigger] terms_degree(gates[g].terms)
            <= max_gate_degree(gates),
        max_gate_degree(gates) == 0 || exists|h: int|
            0 <= h < gates.len() && #[trigger] terms_degree(gates[h].terms) == max_gate_degree(gates),
        max_gate_degree(gates) >= 0,
    decreases gates.len(),
{
    if gates.len() > 0 {
        let front = gates.drop_last();
        lemma_max_degree(front);
        let d = max_gate_degree(gates);
        assert forall|g: int| 0 <= g < gates.len() implies #[trigger] terms_degree(gates[g].terms)
            <= d by {
            if g < gates.len() - 1 {
                assert(front[g] == gates[g]);
                assert(terms_degree(front[g].terms) <= max_gate_degree(front));
            }
        }
        if max_gate_degree(front) < terms_degree(gates.last().terms) {
            assert(terms_degree(gates[gates.len() - 1].terms) == d);
        } else if d != 0 {
            let h = choose|h: int|
                0 <= h < front.len() && #[trigger] terms_degree(front[h].terms) == max_gate_degree(
                    front,
                );
            assert(front[h] == gates[h]);
            assert(terms_degree(gates[h].terms) == d);
        }
    }
}

/// What the errors of a check say. The dimensions are compared first; a gate is named with the place
/// where its constraint does not evaluate to zero; and a wire is named with the cell where it starts,
/// the next cell of its node, and the values of the two, which differ.
pub proof fn law_check_errors(
    ret: Result<(), WitnessError>,
    m: CircuitModel,
    witness: Witness,
    s: spec_fn(Variable) -> int,
)
    requires
        is_check_result(ret, m, witness),
    ensures
        ret matches Err(WitnessError::Rows { got, want }) ==> got == witness.spec_num_rows() && want
            == m.rows && got != want,
        ret matches Err(WitnessError::Columns { got, want }) ==> got == witness.table().len() && want
            == m.columns && got != want && witness.spec_num_rows() == m.rows,
        ret matches Err(WitnessError::DegreeBound { got, want }) ==> got
            == witness.spec_degree_bound() && want == m.size && got != want,
        ret matches Err(WitnessError::Gate { constraint, row, column }) ==> (forall|v: Variable|
            #[trigger]
            s(v) == witness.table()[column + v.column_index][row + v.rotation]) ==> terms_value(
            constraint@,
            s,
            Scalar::modulus(),
        ) % Scalar::modulus() != 0,
        ret matches Err(WitnessError::Gate { constraint, row, column }) ==> exists|g: int|
            0 <= g < m.gates.len() && (#[trigger] m.gates[g]).terms == constraint@
                && m.gates[g].column == column && m.active[m.gates[g].selector].contains(row),
        ret matches Err(WitnessError::Wire { source, source_value, target, target_value }) ==> {
            &&& source.row < m.rows
            &&& source.column < m.columns
            &&& target == m.targets[source.column as int][source.row as int]
            &&& source_value.value() == witness.table()[source.column as int][source.row as int]
            &&& target_value.value() == witness.table()[target.column as int][target.row as int]
            &&& source_value.value() != target_value.value()
        },
        ret is Ok ==> witness.spec_num_rows() == m.rows && witness.table().len() == m.columns
            && witness.spec_degree_bound() == m.size,
{
    let table = witness.table();
    if let Err(WitnessError::Gate { constraint, row, column }) = ret {
        let (g, i) = choose|g: int, i: int|
            0 <= g < m.gates.len() && 0 <= i < m.active[m.gates[g].selector].len()
                && !#[trigger] crate::checking::gate_passes(m, table, g, i)
                && crate::checking::gates_pass_before(m, table, g, i) && m.gates[g].terms
                == constraint@ && m.gates[g].column == column && m.active[m.gates[g].selector][i]
                == row;
        assert(m.active[m.gates[g].selector].contains(row));
        if forall|v: Variable| #[trigger]
            s(v) == table[column + v.column_index][row + v.rotation] {
            law_gate_holds(constraint@, table, row as int, column as int, s);
        }
    }
}

/// A circuit with a constraint in negative powers is refused unless constraints are to be
/// canonicalized, and the constraint that is named is the first such one.
pub proof fn law_negative_powers_refused(
    ret: Result<Circuit, BuildError>,
    rows: int,
    columns: int,
    gates: Seq<(Terms, Cell)>,
    lists: Seq<Seq<Cell>>,
    public_rows: Seq<usize>,
    canonicalize: bool,
    i: int,
)
    requires
        is_build_result(ret, rows, columns, gates, lists, public_rows, canonicalize),
        0 <= i < gates.len(),
    ensures
        ret is Ok && !canonicalize ==> canonical(gates[i].0),
        ret matches Err(BuildError::NotCanonical(c)) ==> {
            &&& !canonicalize
            &&& !canonical(c@)
            &&& exists|j: int| 0 <= j < gates.len() && (#[trigger] gates[j]).0 == c@
            &&& !canonical(gates[i].0) ==> gates[i].0 == c@ || terms_less(c@, gates[i].0)
        },
{
    if ret is Ok && !canonicalize {
        let compiled = choose|compiled: Seq<(Terms, Cell)>| #[trigger]
            crate::plonk::compiled_gates(gates, compiled, canonicalize) && is_compilation(
                ret->Ok_0.model(),
                rows,
                columns,
                compiled,
                lists,
                public_rows,
            );
        assert(compiled[i].0 == gates[i].0);
    }
    if let Err(BuildError::NotCanonical(c)) = ret {
        crate::terms::lemma_terms_less_total(c@, gates[i].0);
    }
}

/// A column that is interpolated from its cells has, at the position of a row and rotated, the value
/// of the cell that is as many rows below.
pub proof fn law_rotated_columns(
    columns: Seq<Polynomial>,
    cells: Seq<int>,
    i: int,
    v: Variable,
)
    requires
        v.column_index < columns.len(),
        interpolates(columns[v.column_index as int]@, cells),
        pow(domain_root(cells.len() as int), cells.len()) % Scalar::modulus() == 1,
        0 <= i < cells.len(),
        0 <= i + v.rotation < cells.len(),
    ensures
        column_valuation(
            columns,
            domain_root(cells.len() as int),
            pow(domain_root(cells.len() as int), i as nat),
        )(v) % Scalar::modulus() == cells[i + v.rotation],
{
    let p = Scalar::modulus();
    Scalar::lemma_modulus();
    let n = cells.len() as int;
    let w = domain_root(n);
    let k = (i + v.rotation) as nat;
    lemma_rotate_row(n, i, v.rotation as int);
    lemma_eval_cong(
        columns[v.column_index as int]@,
        crate::arith::mod_pow(w, v.rotation as int, p) * pow(w, i as nat),
        pow(w, k),
        p,
    );
    assert(poly_eval(columns[v.column_index as int]@, pow(w, k)) % p == cells[k as int]);
}

/// A check that names a gate names the first one that is violated: other violated gates come after it
/// in the order of the placements, or are the same one in a later row.
pub proof fn law_first_violated_gate(
    ret: Result<(), WitnessError>,
    m: CircuitModel,
    witness: Witness,
    h: int,
    y: int,
)
    requires
        m.wf(),
        is_check_result(ret, m, witness),
        0 <= h < m.gates.len(),
        0 <= y < m.active[m.gates[h].selector].len(),
        !gate_holds(
            m.gates[h].terms,
            witness.table(),
            m.active[m.gates[h].selector][y] as int,
            m.gates[h].column,
        ),
    ensures
        ret is Err,
        !(ret matches Err(WitnessError::Wire { .. })),
        ret matches Err(WitnessError::Gate { constraint, row, column }) ==> {
            ||| terms_less(constraint@, m.gates[h].terms)
            ||| constraint@ == m.gates[h].terms && column < m.gates[h].column
            ||| constraint@ == m.gates[h].terms && column == m.gates[h].column && row
                <= m.active[m.gates[h].selector][y]
        },
{
    let table = witness.table();
    assert(!crate::checking::gate_passes(m, table, h, y));
    if let Err(WitnessError::Gate { constraint, row, column }) = ret {
        let (g, i) = choose|g: int, i: int|
            0 <= g < m.gates.len() && 0 <= i < m.active[m.gates[g].selector].len()
                && !#[trigger] crate::checking::gate_passes(m, table, g, i)
                && crate::checking::gates_pass_before(m, table, g, i) && m.gates[g].terms
                == constraint@ && m.gates[g].column == column && m.active[m.gates[g].selector][i]
                == row;
        if g < h {
            assert(crate::model::placement_less(
                m.gates[g].terms,
                m.gates[g].column,
                m.gates[h].terms,
                m.gates[h].column,
            ));
        } else {
            assert(g == h && i <= y);
            let rows = m.active[m.gates[g].selector];
            assert(crate::model::rows_sorted(rows));
            if i < y {
                assert(rows[i] < rows[y]);
            }
        }
    }
}

/// The wire that a check names is the first one that is violated, column by column and from the top,
/// and is only named if no gate is violated.
pub proof fn law_first_violated_wire(
    ret: Result<(), WitnessError>,
    m: CircuitModel,
    witness: Witness,
    cell: Cell,
)
    requires
        is_check_result(ret, m, witness),
        cell.row < m.rows,
        cell.row < m.size,
        cell.column < m.columns,
        cell_value(witness.table(), cell) != cell_value(witness.table(), m.target(cell)),
    ensures
        ret is Err,
        ret matches Err(WitnessError::Wire { source, .. }) ==> {
            ||| source.column < cell.column
            ||| source.column == cell.column && source.row <= cell.row
        },
        ret matches Err(WitnessError::Wire { .. }) ==> m.gates_hold(witness.table()),
{
    assert(m.has(cell));
}

/// The dimensions of a witness are compared before anything is proved, and the errors say what was
/// found and what is asked for.
pub proof fn law_proving_errors<H: HashBackend>(
    ret: Result<Proof<H>, ProvingError>,
    m: CircuitModel,
    witness: Witness,
    setup: Setup,
)
    requires
        is_prove_result(ret, m, witness, setup),
    ensures
        ret matches Err(ProvingError::Rows { got, want }) ==> got == witness.spec_num_rows() && want
            == m.rows && got != want,
        ret matches Err(ProvingError::DegreeBound { got, want }) ==> got
            == witness.spec_degree_bound() && want == m.size && got != want,
        ret matches Err(ProvingError::Columns { got, want }) ==> got == witness.table().len()
            && want == m.columns && got != want,
        ret is Ok ==> witness.spec_num_rows() == m.rows && witness.spec_degree_bound() == m.size
            && witness.table().len() == m.columns,
{
}

/// When building a circuit fails: a circuit is too large only if the smallest power of two that holds
/// its rows and blinding rows is larger than every evaluation domain or not in the range of [`usize`];
/// a cell is out of range only if some connected cell is below the padded rows or to the right of the
/// columns; and an exponent overflows only where constraints are canonicalized and the exponent that
/// clears a denominator, or another one after that, is not in the range of [`isize`].
pub proof fn law_build_errors(
    ret: Result<Circuit, BuildError>,
    rows: int,
    columns: int,
    gates: Seq<(Terms, Cell)>,
    lists: Seq<Seq<Cell>>,
    public_rows: Seq<usize>,
    canonicalize: bool,
)
    requires
        is_build_result(ret, rows, columns, gates, lists, public_rows, canonicalize),
        rows >= 0,
    ensures
        ret matches Err(BuildError::TooLarge) ==> exists|
            compiled: Seq<(Terms, Cell)>,
            placed: Seq<Placement>,
            active: Seq<Seq<usize>>,
        |
            crate::plonk::compiled_gates(gates, compiled, canonicalize)
                && #[trigger] crate::plonk::is_grouping(compiled, placed, active) && forall|size: int|
                #[trigger] is_next_power_of_two(size, rows + opened_set(placed).len() + 1) ==> size
                    > usize::MAX || size > 0x4000_0000_0000_0000 || size < 4,
        ret matches Err(BuildError::CellOutOfRange) ==> exists|size: int, i: int, j: int|
            #![trigger size + rows, lists[i][j]]
            0 <= i < lists.len() && 0 <= j < lists[i].len() && (lists[i][j].row >= size
                || lists[i][j].column >= columns) && size >= rows,
        ret matches Err(BuildError::ExponentOverflow) ==> canonicalize && exists|i: int|
            0 <= i < gates.len() && !crate::expr::clearing_fits((#[trigger] gates[i]).0),
{
    if ret matches Err(BuildError::TooLarge) {
        let (compiled, placed, active) = choose|
            compiled: Seq<(Terms, Cell)>,
            placed: Seq<Placement>,
            active: Seq<Seq<usize>>,
        |
            crate::plonk::compiled_gates(gates, compiled, canonicalize)
                && #[trigger] crate::plonk::is_grouping(compiled, placed, active) && forall|size: int|
                !#[trigger] crate::plonk::sizes_fit(rows, placed, size);
        assert forall|size: int| #[trigger]
            is_next_power_of_two(size, rows + opened_set(placed).len() + 1) implies size > usize::MAX || size > 0x4000_0000_0000_0000 || size < 4 by {
            assert(!crate::plonk::sizes_fit(rows, placed, size));
        }
    }
    if ret matches Err(BuildError::CellOutOfRange) {
        let (compiled, placed, active, size) = choose|
            compiled: Seq<(Terms, Cell)>,
            placed: Seq<Placement>,
            active: Seq<Seq<usize>>,
            size: int,
        |
            crate::plonk::compiled_gates(gates, compiled, canonicalize)
                && #[trigger] crate::plonk::is_grouping(compiled, placed, active)
                && #[trigger] crate::plonk::sizes_fit(rows, placed, size)
                && !crate::permutation::lists_fit(lists, size, columns);
        let (i, j, c) = choose|i: int, j: int, c: Cell| #[trigger]
            stands_at(lists, i, j, c) && !(c.row < size && c.column < columns);
        assert(size + rows >= rows);
        assert(lists[i][j] == c);
    }
}

/// An exponent overflows when denominators are cleared if the opposite of a negative exponent is not in
/// the range of [`isize`], or if another exponent of the same variable is not after that is added.
pub proof fn law_clearing_range(t: Terms, v: Variable, i: int, j: int)
    requires
        crate::expr::clearing_fits(t),
        0 <= i < t.len(),
        0 <= j < t.len(),
    ensures
        crate::terms::exponent(t[i].0, v) < 0 ==> -crate::terms::exponent(t[i].0, v) <= isize::MAX,
        crate::terms::exponent(t[i].0, v) < 0 ==> crate::terms::exponent(t[j].0, v)
            - crate::terms::exponent(t[i].0, v) <= isize::MAX,
{
    crate::terms::lemma_clearing_member(t, i, v);
    assert(crate::monomial::fits_isize(crate::terms::clearing(t, v)));
    assert(crate::monomial::fits_isize(
        crate::terms::exponent(t[j].0, v) + crate::terms::clearing(t, v),
    ));
}

/// A proof opens its polynomials at the positions of the rotations of the circuit's gates and of the
/// revealed rows, and nowhere else.
pub proof fn law_opened_positions<H: HashBackend>(
    m: CircuitModel,
    witness: Witness,
    setup: Setup,
    proof: Proof<H>,
    z: int,
)
    requires
        is_prove_result(Ok::<Proof<H>, ProvingError>(proof), m, witness, setup),
    ensures
        opening_points(proof.opening()).contains_key(z) <==> {
            let xi = challenges(setup, opening_roots(proof.opening())).xi;
            ||| exists|r: isize| #[trigger]
                is_opened_rotation(m.gates, r) && z == rotated_point(m.size, xi, r)
            ||| exists|i: int|
                0 <= i < m.public_rows.len() && z == row_point(m.size, #[trigger] m.public_rows[i])
        },
{
    let table = witness.table();
    let o = proof.opening();
    let polys = choose|polys: Polynomials| #[trigger]
        polys.fit(m, table, setup) && polys.has_quotient(m, setup) && is_opened(polys, m, setup, o);
    let xi = polys.challenges(m, setup).xi;
    assert(xi == challenges(setup, opening_roots(o)).xi);
    assert(opening_points(o).contains_key(z) <==> opened_at(m, xi, z));
    if exists|r: isize| #[trigger] crate::argument::is_rotated_point(m, xi, r, z) {
        let r = choose|r: isize| #[trigger] crate::argument::is_rotated_point(m, xi, r, z);
        assert(opened_set(m.gates).contains(r));
        assert(is_opened_rotation(m.gates, r));
    }
    if exists|r: isize| #[trigger]
        is_opened_rotation(m.gates, r) && z == rotated_point(m.size, xi, r) {
        let r = choose|r: isize| #[trigger]
            is_opened_rotation(m.gates, r) && z == rotated_point(m.size, xi, r);
        assert(opened_set(m.gates).contains(r));
        assert(crate::argument::is_rotated_point(m, xi, r, z));
    }
    if exists|i: int| #[trigger] crate::argument::is_row_point(m, i, z) {
        let i = choose|i: int| #[trigger] crate::argument::is_row_point(m, i, z);
        assert(z == row_point(m.size, m.public_rows[i]));
    }
    if exists|i: int|
        0 <= i < m.public_rows.len() && z == row_point(m.size, #[trigger] m.public_rows[i]) {
        let i = choose|i: int|
            0 <= i < m.public_rows.len() && z == row_point(m.size, #[trigger] m.public_rows[i]);
        assert(crate::argument::is_row_point(m, i, z));
    }
}

/// The value of a cell plus `beta` times the value that stands for the next cell of its node plus
/// `gamma` is zero.
pub open spec fn is_zero_factor(
    m: CircuitModel,
    table: Seq<Seq<int>>,
    cell: Cell,
    beta: int,
    gamma: int,
) -> bool {
    &&& m.has(cell)
    &&& (table[cell.column as int][cell.row as int] + beta * (pow(
        5,
        m.target(cell).column as nat,
    ) * pow(domain_root(m.size), m.target(cell).row as nat) % Scalar::modulus()) + gamma)
        % Scalar::modulus() == 0
}

/// A proof fails with a zero denominator only if a factor of the permutation argument is zero for some
/// cell.
pub proof fn law_zero_denominator<H: HashBackend>(
    ret: Result<Proof<H>, ProvingError>,
    m: CircuitModel,
    witness: Witness,
    setup: Setup,
)
    requires
        m.wf(),
        is_prove_result(ret, m, witness, setup),
        ret matches Err(ProvingError::ZeroDenominator),
    ensures
        exists|cell: Cell, beta: int, gamma: int| #[trigger]
            is_zero_factor(m, witness.table(), cell, beta, gamma),
{
    let table = witness.table();
    let columns = choose|columns: Seq<Seq<int>>| #[trigger]
        columns_interpolate(columns, table) && has_zero_factor(
            m,
            table,
            early_challenge(m, setup, columns, beta_text()),
            early_challenge(m, setup, columns, gamma_text()),
        );
    let beta = early_challenge(m, setup, columns, beta_text());
    let gamma = early_challenge(m, setup, columns, gamma_text());
    let (j, i) = choose|j: int, i: int|
        0 <= j < table.len() && 0 <= i < m.size && cell_factor(
            #[trigger] table[j][i],
            row_targets(m, i)[j],
            beta,
            gamma,
        ) % Scalar::modulus() == 0;
    let cell = Cell { row: i as usize, column: j as usize };
    assert(m.has(cell));
    assert(row_targets(m, i)[j] == cell_identity(m.target(cell), m.size));
    assert(is_zero_factor(m, table, cell, beta, gamma));
}

} // verus!
