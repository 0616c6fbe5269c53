//! Laws about violated circuits.
use crate::argument::{
    cell_factor, columns_interpolate, gate_sum, is_accumulation, lemma_eval_concat,
    rotated_valuation, Challenges, Polynomials,
};
use crate::arith::{lemma_cong_add, lemma_cong_mul, lemma_cong_sub, lemma_small};
use crate::cell::Cell;
use crate::completeness::law_violations_are_not_proved;
use crate::field::{Field, Scalar};
use crate::model::{
    cell_identity, cell_value, gate_fits, gate_holds, gate_valuation, interpolates, selector_values,
    CircuitModel,
};
use crate::pcs::{evaluations, HashBackend, Setup};
use crate::poly::{domain_root, poly_eval};
use crate::positions::law_positions_differ;
use crate::primes::{has_inverses, lemma_zero_product};
use crate::provability::{
    cell_product, grid, lemma_constraint_is_gate_sum, lemma_gate_value, lemma_grid, lemma_telescope,
    own_factor, target_factor,
};
use crate::proving::{is_prove_result, Proof, ProvingError};
use crate::terms::{shift_terms, terms_value};
use crate::witness::Witness;
use vstd::arithmetic::div_mod::lemma_mod_twice;
use vstd::arithmetic::power::pow;
use vstd::prelude::*;

verus! {

/// The polynomial whose coefficients are the values at row `i` of all placed gates, or 0 where a gate
/// is not active.
pub open spec fn gate_coefficients(m: CircuitModel, table: Seq<Seq<int>>, i: int) -> Seq<int> {
    Seq::new(
        m.gates.len(),
        |g: int|
            if m.active[m.gates[g].selector].contains(i as usize) {
                terms_value(
                    m.gates[g].terms,
                    gate_valuation(table, i, m.gates[g].column),
                    Scalar::modulus(),
                ) % Scalar::modulus()
            } else {
                0
            },
    )
}

/// The combined gate constraint at the position of a row is the value at `delta` of the polynomial
/// whose coefficients are the values of the gates.
proof fn lemma_gate_sum_eval(
    m: CircuitModel,
    columns: Seq<Seq<int>>,
    table: Seq<Seq<int>>,
    delta: int,
    i: int,
    k: nat,
)
    requires
        m.wf(),
        m.fits_table(table),
        columns_interpolate(columns, table),
        0 <= i < m.size,
        k <= m.gates.len(),
    ensures
        gate_sum(
            m.gates.subrange(0, k as int),
            evaluations(m.selectors, pow(domain_root(m.size), i as nat)),
            rotated_valuation(
                columns,
                domain_root(m.size),
                pow(domain_root(m.size), i as nat),
            ),
            delta,
        ) % Scalar::modulus() == poly_eval(
            gate_coefficients(m, table, i).subrange(0, k as int),
            delta,
        ) % Scalar::modulus(),
    decreases k,
{
    let p = Scalar::modulus();
    Scalar::lemma_modulus();
    let x = pow(domain_root(m.size), i as nat);
    let e = evaluations(m.selectors, x);
    let s = rotated_valuation(columns, domain_root(m.size), x);
    let c = gate_coefficients(m, table, i);
    if k > 0 {
        let prefix = m.gates.subrange(0, k as int);
        let n = k - 1;
        assert(prefix.drop_last() =~= m.gates.subrange(0, n));
        lemma_gate_sum_eval(m, columns, table, delta, i, n as nat);
        let g = m.gates[n];
        assert(prefix.last() == g);
        assert(m.placement_wf(g));
        let v = terms_value(shift_terms(g.terms, g.column), s, p);
        let d = pow(delta, n as nat);
        let rows = m.active[g.selector];
        let expected = selector_values(rows, m.size);
        assert(interpolates(m.selectors[g.selector], expected));
        assert(e[g.selector] == expected[i]);
        lemma_small(0, p);
        assert((e[g.selector] * v) % p == c[n] % p) by {
            if rows.contains(i as usize) {
                let y = choose|y: int| 0 <= y < rows.len() && rows[y] == i as usize;
                assert(m.active[g.selector][y] == i);
                assert(gate_fits(
                    g.terms,
                    m.active[g.selector][y] as int,
                    g.column,
                    m.rows,
                    m.columns,
                ));
                assert(gate_fits(g.terms, i, g.column, m.size, m.columns));
                lemma_gate_value(m, g, columns, table, i);
                assert(1 * v == v);
                lemma_mod_twice(v, p);
            } else {
                assert(0 * v == 0);
            }
        }
        lemma_cong_mul(e[g.selector] * v, c[n], d, d, p);
        let (before, all) = (c.subrange(0, n), c.subrange(0, k as int));
        assert(all =~= before + seq![c[n]]);
        lemma_eval_concat(before, seq![c[n]], delta);
        assert(poly_eval(seq![c[n]], delta) == c[n]) by {
            let rest = seq![c[n]].drop_first();
            assert(rest.len() == 0);
            assert(poly_eval(rest, delta) == 0);
            assert(delta * 0 == 0);
        }
        assert(d * c[n] == c[n] * d) by (nonlinear_arith);
        lemma_cong_add(
            gate_sum(m.gates.subrange(0, n), e, s, delta),
            poly_eval(before, delta),
            e[g.selector] * v * d,
            c[n] * d,
            p,
        );
    } else {
        assert(m.gates.subrange(0, 0) =~= seq![]);
        assert(c.subrange(0, 0) =~= seq![]);
    }
}

/// The challenge `delta` is a root of the polynomial of the values of the gates at row `i`, and not
/// all coefficients of that polynomial are zero.
pub open spec fn gates_cancel(m: CircuitModel, table: Seq<Seq<int>>, i: int, delta: int) -> bool {
    let c = gate_coefficients(m, table, i);
    &&& exists|g: int| 0 <= g < c.len() && #[trigger] c[g] != 0
    &&& poly_eval(c, delta) % Scalar::modulus() == 0
}

/// If a gate is violated, there is no proof unless the values of the gates at that row happen to
/// cancel out: the challenge `delta` must be a root of a polynomial that has one coefficient for each
/// placed gate, not all of them zero.
pub proof fn law_violated_gate_is_not_proved<H: HashBackend>(
    m: CircuitModel,
    witness: Witness,
    setup: Setup,
    ret: Result<Proof<H>, ProvingError>,
    g: int,
    y: int,
)
    requires
        m.wf(),
        m.fits_table(witness.table()),
        is_prove_result(ret, m, witness, setup),
        0 <= g < m.gates.len(),
        0 <= y < m.active[m.gates[g].selector].len(),
        !gate_holds(
            m.gates[g].terms,
            witness.table(),
            m.active[m.gates[g].selector][y] as int,
            m.gates[g].column,
        ),
    ensures
        ret is Err || exists|polys: Polynomials| #[trigger]
            polys.fit(m, witness.table(), setup) && gates_cancel(
                m,
                witness.table(),
                m.active[m.gates[g].selector][y] as int,
                polys.challenges(m, setup).delta,
            ),
{
    if ret is Ok {
        let table = witness.table();
        law_violations_are_not_proved(m, witness, setup, ret->Ok_0);
        let polys = choose|polys: Polynomials| #[trigger]
            polys.fit(m, table, setup) && !polys.violated(m, setup);
        let row = m.active[m.gates[g].selector][y];
        let i = row as int;
        let ch = polys.challenges(m, setup);
        assert(row < m.rows);
        assert(polys.constraint_at(m, ch, pow(domain_root(m.size), i as nat)) % Scalar::modulus()
            == 0);
        lemma_constraint_is_gate_sum(polys, m, table, setup, i as nat);
        lemma_gate_sum_eval(m, polys.columns, table, ch.delta, i, m.gates.len());
        let c = gate_coefficients(m, table, i);
        assert(m.gates.subrange(0, m.gates.len() as int) =~= m.gates);
        assert(c.subrange(0, c.len() as int) =~= c);
        assert(m.active[m.gates[g].selector].contains(i as usize));
        assert(c[g] != 0);
        assert(gates_cancel(m, table, i, ch.delta));
    }
}

/// The difference between the two products that the permutation argument compares, as a function of
/// the last challenge: the factors of one product have the positions of the cells, and those of the
/// other one have the positions of their targets. This is a polynomial in `x`.
pub open spec fn wire_difference(
    m: CircuitModel,
    table: Seq<Seq<int>>,
    beta: int,
    x: int,
) -> int {
    let cells = grid(m.size as nat, m.columns as nat);
    cell_product(cells, own_factor(m, table, beta, x)) - cell_product(
        cells,
        target_factor(m, table, beta, x),
    )
}

/// The polynomial of degree 1 that has the root `beta` if the factor for cell `c` with its own
/// position and the factor for cell `d` with the position of its target are the same.
pub open spec fn collision(m: CircuitModel, table: Seq<Seq<int>>, c: Cell, d: Cell) -> Seq<int> {
    seq![
        cell_value(table, c) - cell_value(table, d),
        cell_identity(c, m.size) - cell_identity(m.target(d), m.size),
    ]
}

/// The challenges happen to hide a violated wire that starts at `d`: either `gamma` is a root of a
/// polynomial that does not vanish everywhere, or `beta` is a root of a polynomial of degree 1.
pub open spec fn wires_cancel(
    m: CircuitModel,
    table: Seq<Seq<int>>,
    d: Cell,
    beta: int,
    gamma: int,
) -> bool {
    let p = Scalar::modulus();
    ||| wire_difference(m, table, beta, gamma) % p == 0 && exists|x: int| #[trigger]
        wire_difference(m, table, beta, x) % p != 0
    ||| exists|c: Cell|
        m.has(c) && (#[trigger] collision(m, table, c, d))[1] % p != 0 && poly_eval(
            collision(m, table, c, d),
            beta,
        ) % p == 0
}

/// A product with a factor that is zero is zero.
proof fn lemma_zero_factor(cells: Seq<Cell>, f: spec_fn(Cell) -> int, k: int, p: int)
    requires
        p > 0,
        0 <= k < cells.len(),
        f(cells[k]) % p == 0,
    ensures
        cell_product(cells, f) % p == 0,
    decreases cells.len(),
{
    let rest = cells.drop_last();
    let (a, b) = (cell_product(rest, f), f(cells.last()));
    lemma_small(0, p);
    if k < rest.len() {
        assert(rest[k] == cells[k]);
        lemma_zero_factor(rest, f, k, p);
        lemma_cong_mul(a, 0, b, b, p);
        assert(0 * b == 0);
    } else {
        lemma_cong_mul(a, a, b, 0, p);
        assert(a * 0 == 0);
    }
}

/// A product over cells is zero only if some factor is.
proof fn lemma_product_zero(cells: Seq<Cell>, f: spec_fn(Cell) -> int, p: int) -> (k: int)
    requires
        p > 1,
        has_inverses(p),
        cell_product(cells, f) % p == 0,
    ensures
        0 <= k < cells.len(),
        f(cells[k]) % p == 0,
    decreases cells.len(),
{
    lemma_small(1, p);
    assert(cells.len() > 0);
    let rest = cells.drop_last();
    lemma_zero_product(cell_product(rest, f), f(cells.last()), p);
    if f(cells.last()) % p == 0 {
        cells.len() - 1
    } else {
        let k = lemma_product_zero(rest, f, p);
        assert(rest[k] == cells[k]);
        k
    }
}

/// An accumulation that ends with 1 means that the two products are the same.
proof fn lemma_products_match(
    values: Seq<int>,
    m: CircuitModel,
    table: Seq<Seq<int>>,
    beta: int,
    gamma: int,
)
    requires
        m.wf(),
        m.fits_table(table),
        is_accumulation(values, m, table, beta, gamma),
        values[m.size] == 1,
    ensures
        wire_difference(m, table, beta, gamma) % Scalar::modulus() == 0,
{
    let p = Scalar::modulus();
    Scalar::lemma_modulus();
    lemma_small(0, p);
    lemma_telescope(values, m, table, beta, gamma, m.size as nat);
    let cells = grid(m.size as nat, m.columns as nat);
    let a = cell_product(cells, own_factor(m, table, beta, gamma));
    let b = cell_product(cells, target_factor(m, table, beta, gamma));
    assert(1 * b == b);
    lemma_cong_sub(a, b, b, b, p);
}

/// Two residues whose difference is zero are the same.
proof fn lemma_residues_differ(a: int, b: int, p: int)
    requires
        p > 0,
        0 <= a < p,
        0 <= b < p,
        a != b,
    ensures
        (a - b) % p != 0,
{
    lemma_small(a, p);
    lemma_small(b, p);
    if (a - b) % p == 0 {
        lemma_small(0, p);
        lemma_cong_add(a - b, 0, b, b, p);
    }
}

/// If the factor for a violated wire is zero, and so is some factor with a cell's own position,
/// `beta` is a root of a polynomial of degree 1.
proof fn lemma_collision(
    m: CircuitModel,
    witness: Witness,
    d: Cell,
    c: Cell,
    beta: int,
    x: int,
)
    requires
        m.wf(),
        m.fits_table(witness.table()),
        m.has(c),
        m.has(d),
        cell_value(witness.table(), d) != cell_value(witness.table(), m.target(d)),
        x == -(cell_value(witness.table(), d) + beta * cell_identity(m.target(d), m.size)),
        own_factor(m, witness.table(), beta, x)(c) % Scalar::modulus() == 0,
    ensures
        collision(m, witness.table(), c, d)[1] % Scalar::modulus() != 0,
        poly_eval(collision(m, witness.table(), c, d), beta) % Scalar::modulus() == 0,
{
    let p = Scalar::modulus();
    Scalar::lemma_modulus();
    lemma_small(0, p);
    let table = witness.table();
    let e = m.target(d);
    assert(m.has(e));
    let (v, w) = (cell_value(table, c), cell_value(table, d));
    let y = pow(5, c.column as nat) * pow(domain_root(m.size), c.row as nat);
    let (s, t) = (cell_identity(c, m.size), cell_identity(e, m.size));
    let poly = collision(m, table, c, d);
    assert(poly_eval(poly, beta) == (v - w) + beta * (s - t)) by {
        let one = poly.drop_first();
        let none = one.drop_first();
        assert(one[0] == s - t);
        assert(none.len() == 0);
        assert(poly_eval(none, beta) == 0);
        assert(beta * 0 == 0);
        assert(poly_eval(one, beta) == s - t);
    }
    // the factor has the value of the polynomial
    lemma_mod_twice(y, p);
    lemma_cong_mul(beta, beta, y, s, p);
    lemma_cong_add(beta * y, beta * s, v + x, v + x, p);
    assert(beta * (s - t) == beta * s - beta * t) by (nonlinear_arith);
    assert(cell_factor(v, y, beta, x) == beta * y + (v + x));
    assert(poly_eval(poly, beta) == beta * s + (v + x));
    // the slope is not zero
    if c == e {
        assert(s - t == 0);
        assert(beta * 0 == 0);
        assert((v - w) % p == 0);
        witness.lemma_residues(c.column as int, c.row as int);
        witness.lemma_residues(d.column as int, d.row as int);
        lemma_residues_differ(v, w, p);
    }
    law_positions_differ(m, c, e);
    lemma_residues_differ(s, t, p);
}

/// If a wire is violated, there is no proof unless the challenges happen to hide that.
pub proof fn law_violated_wire_is_not_proved<H: HashBackend>(
    m: CircuitModel,
    witness: Witness,
    setup: Setup,
    ret: Result<Proof<H>, ProvingError>,
    d: Cell,
)
    requires
        m.wf(),
        m.fits_table(witness.table()),
        is_prove_result(ret, m, witness, setup),
        m.has(d),
        cell_value(witness.table(), d) != cell_value(witness.table(), m.target(d)),
    ensures
        ret is Err || exists|polys: Polynomials| #[trigger]
            polys.fit(m, witness.table(), setup) && wires_cancel(
                m,
                witness.table(),
                d,
                polys.challenges(m, setup).beta,
                polys.challenges(m, setup).gamma,
            ),
{
    if ret is Ok {
        let p = Scalar::modulus();
        Scalar::lemma_modulus();
        Scalar::lemma_inverses();
        let table = witness.table();
        law_violations_are_not_proved(m, witness, setup, ret->Ok_0);
        let polys = choose|polys: Polynomials| #[trigger]
            polys.fit(m, table, setup) && !polys.violated(m, setup);
        let ch = polys.challenges(m, setup);
        let (beta, gamma) = (ch.beta, ch.gamma);
        let values = choose|values: Seq<int>| #[trigger]
            is_accumulation(values, m, table, beta, gamma) && values[m.size] == 1 && interpolates(
                polys.accumulator,
                values.drop_last(),
            );
        lemma_products_match(values, m, table, beta, gamma);
        // the position where the factor for the violated wire is zero
        let x = -(cell_value(table, d) + beta * cell_identity(m.target(d), m.size));
        let cells = grid(m.size as nat, m.columns as nat);
        let (f, g) = (own_factor(m, table, beta, x), target_factor(m, table, beta, x));
        lemma_grid(m.size as nat, m.columns as nat);
        assert(cells.contains(d));
        let k = choose|k: int| 0 <= k < cells.len() && cells[k] == d;
        lemma_small(0, p);
        assert(g(cells[k]) == 0);
        lemma_zero_factor(cells, g, k, p);
        if cell_product(cells, f) % p == 0 {
            let l = lemma_product_zero(cells, f, p);
            let c = cells[l];
            assert(cells.contains(c));
            lemma_collision(m, witness, d, c, beta, x);
            assert(m.has(c) && collision(m, table, c, d)[1] % p != 0);
        } else {
            lemma_cong_sub(
                cell_product(cells, f),
                cell_product(cells, f),
                cell_product(cells, g),
                0,
                p,
            );
            assert(wire_difference(m, table, beta, x) % p != 0);
        }
        assert(wires_cancel(m, table, d, beta, gamma));
    }
}

/// A witness whose blinding rows are filled in, and that does not satisfy a circuit, is not proved,
/// unless the challenges happen to hide that.
pub proof fn law_unsatisfied_witness_is_not_proved<H: HashBackend>(
    m: CircuitModel,
    witness: Witness,
    setup: Setup,
    ret: Result<Proof<H>, ProvingError>,
)
    requires
        m.wf(),
        m.fits_table(witness.table()),
        is_prove_result(ret, m, witness, setup),
        !m.satisfied(witness.table()),
    ensures
        ret is Err || exists|polys: Polynomials| #[trigger]
            polys.fit(m, witness.table(), setup) && challenges_hide(
                m,
                witness.table(),
                polys.challenges(m, setup),
            ),
{
    let table = witness.table();
    if !m.gates_hold(table) {
        let (g, y) = choose|g: int, y: int|
            0 <= g < m.gates.len() && 0 <= y < m.active[m.gates[g].selector].len() && !gate_holds(
                (#[trigger] m.gates[g]).terms,
                table,
                (#[trigger] m.active[m.gates[g].selector][y]) as int,
                m.gates[g].column,
            );
        law_violated_gate_is_not_proved(m, witness, setup, ret, g, y);
        if ret is Ok {
            let i = m.active[m.gates[g].selector][y] as int;
            let polys = choose|polys: Polynomials| #[trigger]
                polys.fit(m, table, setup) && gates_cancel(
                    m,
                    table,
                    i,
                    polys.challenges(m, setup).delta,
                );
            assert(0 <= i < m.rows);
            assert(challenges_hide(m, table, polys.challenges(m, setup)));
        }
    } else {
        let d = choose|d: Cell|
            m.has(d) && d.row < m.rows && cell_value(table, d) != cell_value(
                table,
                #[trigger] m.target(d),
            );
        law_violated_wire_is_not_proved(m, witness, setup, ret, d);
        if ret is Ok {
            let polys = choose|polys: Polynomials| #[trigger]
                polys.fit(m, table, setup) && wires_cancel(
                    m,
                    table,
                    d,
                    polys.challenges(m, setup).beta,
                    polys.challenges(m, setup).gamma,
                );
            assert(challenges_hide(m, table, polys.challenges(m, setup)));
        }
    }
}

/// The challenges happen to hide a violated gate or a violated wire.
pub open spec fn challenges_hide(
    m: CircuitModel,
    table: Seq<Seq<int>>,
    challenges: Challenges,
) -> bool {
    ||| exists|i: int|
        0 <= i < m.rows && #[trigger] gates_cancel(m, table, i, challenges.delta)
    ||| exists|d: Cell|
        m.has(d) && d.row < m.rows && cell_value(table, d) != cell_value(table, m.target(d))
            && #[trigger] wires_cancel(m, table, d, challenges.beta, challenges.gamma)
}

} // verus!
