//! Laws about satisfied circuits.
use crate::argument::{
    cell_factor, columns_interpolate, gate_sum, identity_product, is_accumulation,
    lemma_factor_cong, lemma_full_constraint_cong, rotated_valuation, row_denominator,
    row_numerator, row_targets, row_values, sigma_product, Polynomials,
};
use crate::arith::{
    invertible, is_inverse, lemma_cong_add, lemma_cong_mul, lemma_cong_pow, lemma_inverse_unique,
    lemma_mod_mul, lemma_small, mod_pow,
};
use crate::cell::Cell;
use crate::compose::lemma_terms_value_cong;
use crate::field::{Field, Scalar};
use crate::model::{
    cell_identity, cell_value, gate_fits, gate_holds, gate_valuation, interpolates, selector_values,
    sigma_values, CircuitModel, Placement,
};
use crate::pcs::{evaluations, HashBackend, Setup};
use crate::poly::{domain_root, lemma_eval_cong, poly_eval};
use crate::proving::{is_blinded, is_prove_result, Proof, ProvingError};
use crate::terms::{
    mono_value, shift_mono, shift_terms, terms_have, terms_value, weighted_sum, Mono, Terms,
};
use crate::variable::{shift_variable, Variable};
use crate::witness::Witness;
use vstd::arithmetic::div_mod::lemma_mod_twice;
use vstd::arithmetic::power::{lemma_pow0, lemma_pow1, lemma_pow_adds, pow};
use vstd::prelude::*;

verus! {

/// The product of a function over a list of cells.
pub open spec fn cell_product(cells: Seq<Cell>, f: spec_fn(Cell) -> int) -> int
    decreases cells.len(),
{
    if cells.len() == 0 {
        1
    } else {
        cell_product(cells.drop_last(), f) * f(cells.last())
    }
}

/// The first `n` cells of a row.
pub open spec fn row_cells(row: int, n: nat) -> Seq<Cell> {
    Seq::new(n, |j: int| Cell { row: row as usize, column: j as usize })
}

/// All cells of a table, row by row.
pub open spec fn grid(rows: nat, columns: nat) -> Seq<Cell>
    decreases rows,
{
    if rows == 0 {
        Seq::empty()
    } else {
        grid((rows - 1) as nat, columns) + row_cells(rows - 1, columns)
    }
}

/// The product over two lists.
proof fn lemma_product_concat(a: Seq<Cell>, b: Seq<Cell>, f: spec_fn(Cell) -> int)
    ensures
        cell_product(a + b, f) == cell_product(a, f) * cell_product(b, f),
    decreases b.len(),
{
    if b.len() == 0 {
        assert(a + b =~= a);
        assert(cell_product(a, f) * 1 == cell_product(a, f));
    } else {
        assert((a + b).drop_last() =~= a + b.drop_last());
        assert((a + b).last() == b.last());
        lemma_product_concat(a, b.drop_last(), f);
        let (x, y, z) = (cell_product(a, f), cell_product(b.drop_last(), f), f(b.last()));
        assert((x * y) * z == x * (y * z)) by (nonlinear_arith);
    }
}

/// Taking one cell out of a product.
proof fn lemma_product_remove(b: Seq<Cell>, k: int, f: spec_fn(Cell) -> int)
    requires
        0 <= k < b.len(),
    ensures
        cell_product(b, f) == cell_product(b.remove(k), f) * f(b[k]),
{
    let (head, tail) = (b.subrange(0, k), b.subrange(k + 1, b.len() as int));
    let one = seq![b[k]];
    assert(b =~= (head + one) + tail);
    assert(b.remove(k) =~= head + tail);
    lemma_product_concat(head + one, tail, f);
    lemma_product_concat(head, one, f);
    lemma_product_concat(head, tail, f);
    assert(one.drop_last() =~= seq![]);
    reveal_with_fuel(cell_product, 2);
    let (x, y, z) = (cell_product(head, f), f(b[k]), cell_product(tail, f));
    assert(cell_product(one, f) == 1 * y);
    assert((x * y) * z == (x * z) * y) by (nonlinear_arith);
}

/// The product only depends on the set of cells.
proof fn lemma_product_set(a: Seq<Cell>, b: Seq<Cell>, f: spec_fn(Cell) -> int)
    requires
        a.no_duplicates(),
        b.no_duplicates(),
        forall|c: Cell| #[trigger] a.contains(c) <==> b.contains(c),
    ensures
        cell_product(a, f) == cell_product(b, f),
    decreases a.len(),
{
    if a.len() == 0 {
        if b.len() > 0 {
            assert(b.contains(b[0]));
            assert(a.contains(b[0]));
        }
    } else {
        let x = a.last();
        assert(a.contains(x));
        assert(b.contains(x));
        let k = choose|k: int| 0 <= k < b.len() && b[k] == x;
        let rest = a.drop_last();
        let other = b.remove(k);
        assert(rest.no_duplicates());
        assert(other.no_duplicates());
        assert forall|c: Cell| #[trigger] rest.contains(c) <==> other.contains(c) by {
            if rest.contains(c) {
                let i = choose|i: int| 0 <= i < rest.len() && rest[i] == c;
                assert(a[i] == c);
                assert(c != x);
                assert(a.contains(c));
                let l = choose|l: int| 0 <= l < b.len() && b[l] == c;
                if l < k {
                    assert(other[l] == c);
                } else {
                    assert(other[l - 1] == c);
                }
            }
            if other.contains(c) {
                let i = choose|i: int| 0 <= i < other.len() && other[i] == c;
                let l = if i < k {
                    i
                } else {
                    i + 1
                };
                assert(b[l] == c);
                assert(b.contains(c));
                assert(a.contains(c));
                let j = choose|j: int| 0 <= j < a.len() && a[j] == c;
                assert(c != x);
                assert(rest[j] == c);
            }
        }
        lemma_product_set(rest, other, f);
        lemma_product_remove(b, k, f);
    }
}

/// The cells of a table.
pub proof fn lemma_grid(rows: nat, columns: nat)
    requires
        rows <= usize::MAX,
        columns <= usize::MAX,
    ensures
        grid(rows, columns).no_duplicates(),
        forall|c: Cell| #[trigger]
            grid(rows, columns).contains(c) <==> c.row < rows && c.column < columns,
    decreases rows,
{
    if rows > 0 {
        let before = grid((rows - 1) as nat, columns);
        let row = row_cells(rows - 1, columns);
        let all = grid(rows, columns);
        lemma_grid((rows - 1) as nat, columns);
        assert forall|i: int, j: int| 0 <= i < all.len() && 0 <= j < all.len() && i != j implies all[i]
            != all[j] by {
            if i < before.len() {
                assert(before.contains(all[i]));
            }
            if j < before.len() {
                assert(before.contains(all[j]));
            }
        }
        assert forall|c: Cell| #[trigger] all.contains(c) <==> c.row < rows && c.column
            < columns by {
            if all.contains(c) {
                let i = choose|i: int| 0 <= i < all.len() && all[i] == c;
                if i < before.len() {
                    assert(before.contains(c));
                } else {
                    assert(row[i - before.len()] == c);
                }
            }
            if c.row < rows && c.column < columns {
                if c.row < rows - 1 {
                    assert(before.contains(c));
                    let i = choose|i: int| 0 <= i < before.len() && before[i] == c;
                    assert(all[i] == c);
                } else {
                    assert(row[c.column as int] == c);
                    assert(all[before.len() + c.column] == c);
                }
            }
        }
    }
}

/// The targets of a list of cells.
spec fn target_cells(m: CircuitModel, cells: Seq<Cell>) -> Seq<Cell> {
    Seq::new(cells.len(), |i: int| m.target(cells[i]))
}

/// The targets of all cells are all cells.
proof fn lemma_targets_permute(m: CircuitModel)
    requires
        m.permutation_wf(),
        0 <= m.size <= usize::MAX,
        0 <= m.columns <= usize::MAX,
    ensures
        target_cells(m, grid(m.size as nat, m.columns as nat)).no_duplicates(),
        forall|c: Cell| #[trigger]
            target_cells(m, grid(m.size as nat, m.columns as nat)).contains(c) <==> grid(
                m.size as nat,
                m.columns as nat,
            ).contains(c),
{
    let all = grid(m.size as nat, m.columns as nat);
    let targets = target_cells(m, all);
    lemma_grid(m.size as nat, m.columns as nat);
    assert forall|i: int, j: int|
        0 <= i < targets.len() && 0 <= j < targets.len() && i != j implies targets[i]
        != targets[j] by {
        assert(all.contains(all[i]) && all.contains(all[j]));
        assert(m.has(all[i]) && m.has(all[j]));
        assert(all[i] != all[j]);
        assert(m.target(all[i]) != m.target(all[j]));
    }
    assert forall|c: Cell| #[trigger] targets.contains(c) implies all.contains(c) by {
        let i = choose|i: int| 0 <= i < targets.len() && targets[i] == c;
        assert(all.contains(all[i]));
        assert(m.has(m.target(all[i])));
    }
    let (a, b) = (targets.to_set(), all.to_set());
    targets.unique_seq_to_set();
    all.unique_seq_to_set();
    assert forall|c: Cell| a.contains(c) implies b.contains(c) by {
        assert(targets.contains(c));
    }
    assert(a.subset_of(b));
    vstd::set_lib::lemma_subset_equality(a, b);
    assert forall|c: Cell| #[trigger] all.contains(c) implies targets.contains(c) by {
        assert(b.contains(c));
        assert(a.contains(c));
    }
}

/// The factor for a cell and its own position.
pub open spec fn own_factor(m: CircuitModel, table: Seq<Seq<int>>, beta: int, gamma: int) -> spec_fn(
    Cell,
) -> int {
    |c: Cell|
        cell_factor(
            cell_value(table, c),
            pow(5, c.column as nat) * pow(domain_root(m.size), c.row as nat),
            beta,
            gamma,
        )
}

/// The factor for a cell and the position of its target.
pub open spec fn target_factor(m: CircuitModel, table: Seq<Seq<int>>, beta: int, gamma: int) -> spec_fn(
    Cell,
) -> int {
    |c: Cell|
        cell_factor(cell_value(table, c), cell_identity(m.target(c), m.size), beta, gamma)
}

/// The numerator of a row is a product over its cells.
proof fn lemma_row_numerator(
    m: CircuitModel,
    table: Seq<Seq<int>>,
    beta: int,
    gamma: int,
    i: int,
    n: nat,
)
    requires
        0 <= i <= usize::MAX,
        n <= table.len() <= usize::MAX,
    ensures
        identity_product(
            row_values(table, i).subrange(0, n as int),
            pow(domain_root(m.size), i as nat),
            beta,
            gamma,
        ) == cell_product(row_cells(i, n), own_factor(m, table, beta, gamma)),
    decreases n,
{
    let values = row_values(table, i);
    if n > 0 {
        let k = (n - 1) as nat;
        lemma_row_numerator(m, table, beta, gamma, i, k);
        let prefix = values.subrange(0, n as int);
        assert(prefix.drop_last() =~= values.subrange(0, k as int));
        assert(prefix.last() == table[k as int][i]);
        assert(row_cells(i, n).drop_last() =~= row_cells(i, k));
        let c = row_cells(i, n).last();
        assert(c.row == i && c.column == k);
    }
}

/// The denominator of a row is a product over its cells.
proof fn lemma_row_denominator(
    m: CircuitModel,
    table: Seq<Seq<int>>,
    beta: int,
    gamma: int,
    i: int,
    n: nat,
)
    requires
        0 <= i <= usize::MAX,
        n <= table.len() <= usize::MAX,
        m.targets.len() == table.len(),
    ensures
        sigma_product(
            row_values(table, i).subrange(0, n as int),
            row_targets(m, i),
            beta,
            gamma,
        ) == cell_product(row_cells(i, n), target_factor(m, table, beta, gamma)),
    decreases n,
{
    let values = row_values(table, i);
    if n > 0 {
        let k = (n - 1) as nat;
        lemma_row_denominator(m, table, beta, gamma, i, k);
        let prefix = values.subrange(0, n as int);
        assert(prefix.drop_last() =~= values.subrange(0, k as int));
        assert(prefix.last() == table[k as int][i]);
        assert(row_cells(i, n).drop_last() =~= row_cells(i, k));
        let c = row_cells(i, n).last();
        assert(c.row == i && c.column == k);
    }
}

/// After each row, the accumulator is the quotient of the products of the factors so far.
pub proof fn lemma_telescope(
    values: Seq<int>,
    m: CircuitModel,
    table: Seq<Seq<int>>,
    beta: int,
    gamma: int,
    k: nat,
)
    requires
        is_accumulation(values, m, table, beta, gamma),
        k <= m.size <= usize::MAX,
        table.len() == m.columns,
        m.targets.len() == m.columns,
        m.columns <= usize::MAX,
    ensures
        (values[k as int] * cell_product(
            grid(k, m.columns as nat),
            target_factor(m, table, beta, gamma),
        )) % Scalar::modulus() == cell_product(
            grid(k, m.columns as nat),
            own_factor(m, table, beta, gamma),
        ) % Scalar::modulus(),
        invertible(
            cell_product(grid(k, m.columns as nat), target_factor(m, table, beta, gamma)),
            Scalar::modulus(),
        ),
    decreases k,
{
    let p = Scalar::modulus();
    Scalar::lemma_modulus();
    lemma_small(1, p);
    let f = own_factor(m, table, beta, gamma);
    let g = target_factor(m, table, beta, gamma);
    let n = m.columns as nat;
    if k == 0 {
        assert(is_inverse(1, 1, p));
    } else {
        let i = k - 1;
        lemma_telescope(values, m, table, beta, gamma, i as nat);
        let before = grid(i as nat, n);
        let row = row_cells(i, n);
        lemma_product_concat(before, row, f);
        lemma_product_concat(before, row, g);
        lemma_row_numerator(m, table, beta, gamma, i, n);
        lemma_row_denominator(m, table, beta, gamma, i, n);
        assert(row_values(table, i).subrange(0, n as int) =~= row_values(table, i));
        let num = row_numerator(m, table, beta, gamma, i);
        let den = row_denominator(m, table, beta, gamma, i);
        let (a, b) = (cell_product(before, f), cell_product(before, g));
        assert(cell_product(row, f) == num);
        assert(cell_product(row, g) == den);
        let (u, v) = (values[i], values[k as int]);
        assert((v * den) % p == (u * num) % p) by {
            assert(values[i + 1] == v);
        }
        // v * (b * den) == (v * den) * b == (u * num) * b == (u * b) * num == a * num
        lemma_cong_mul(v * den, u * num, b, b, p);
        assert(v * (b * den) == (v * den) * b) by (nonlinear_arith);
        assert((u * num) * b == (u * b) * num) by (nonlinear_arith);
        lemma_cong_mul(u * b, a, num, num, p);
        // the denominators are invertible
        let (r, s) = (
            choose|r: int| is_inverse(b, r, p),
            choose|s: int| is_inverse(den, s, p),
        );
        assert(is_inverse(b, r, p) && is_inverse(den, s, p));
        lemma_cong_mul(b * r, 1, den * s, 1, p);
        assert((b * r) * (den * s) == (b * den) * (r * s)) by (nonlinear_arith);
        lemma_mod_mul(b * den, r * s, p);
        assert(is_inverse(b * den, (r * s) % p, p));
    }
}

/// Products of congruent factors.
proof fn lemma_product_cong(
    cells: Seq<Cell>,
    f: spec_fn(Cell) -> int,
    other: Seq<Cell>,
    g: spec_fn(Cell) -> int,
    p: int,
)
    requires
        p > 0,
        cells.len() == other.len(),
        forall|i: int| 0 <= i < cells.len() ==> f(#[trigger] cells[i]) % p == g(other[i]) % p,
    ensures
        cell_product(cells, f) % p == cell_product(other, g) % p,
    decreases cells.len(),
{
    if cells.len() > 0 {
        let (a, b) = (cells.drop_last(), other.drop_last());
        assert forall|i: int| 0 <= i < a.len() implies f(#[trigger] a[i]) % p == g(b[i]) % p by {
            assert(a[i] == cells[i] && b[i] == other[i]);
        }
        lemma_product_cong(a, f, b, g, p);
        let k = cells.len() - 1;
        assert(f(cells[k]) % p == g(other[k]) % p);
        lemma_cong_mul(
            cell_product(a, f),
            cell_product(b, g),
            f(cells.last()),
            g(other.last()),
            p,
        );
    }
}

/// If connected cells have the same values, the accumulation ends with 1.
pub proof fn lemma_accumulation_ends(
    values: Seq<int>,
    m: CircuitModel,
    table: Seq<Seq<int>>,
    beta: int,
    gamma: int,
)
    requires
        m.wf(),
        m.fits_table(table),
        m.connections_agree(table),
        is_accumulation(values, m, table, beta, gamma),
    ensures
        values[m.size] == 1,
{
    let p = Scalar::modulus();
    Scalar::lemma_modulus();
    let (rows, columns) = (m.size as nat, m.columns as nat);
    let all = grid(rows, columns);
    let targets = target_cells(m, all);
    let f = own_factor(m, table, beta, gamma);
    let g = target_factor(m, table, beta, gamma);
    lemma_grid(rows, columns);
    lemma_targets_permute(m);
    lemma_product_set(targets, all, f);
    assert forall|i: int| 0 <= i < all.len() implies g(#[trigger] all[i]) % p == f(targets[i])
        % p by {
        let c = all[i];
        assert(all.contains(c));
        let d = m.target(c);
        assert(targets[i] == d);
        assert(cell_value(table, c) == cell_value(table, d));
        let x = pow(5, d.column as nat) * pow(domain_root(m.size), d.row as nat);
        lemma_mod_twice(x, p);
        lemma_factor_cong(
            cell_value(table, c),
            cell_value(table, d),
            cell_identity(d, m.size),
            x,
            beta,
            gamma,
            p,
        );
    }
    lemma_product_cong(all, g, targets, f, p);
    lemma_telescope(values, m, table, beta, gamma, rows);
    let d = cell_product(all, g);
    let v = values[m.size];
    let r = choose|r: int| is_inverse(d, r, p);
    assert(is_inverse(d, r, p));
    // v == v * (d * r) == (v * d) * r == d * r == 1
    assert((v * d) % p == d % p);
    lemma_small(1, p);
    lemma_cong_mul(v * d, d, r, r, p);
    assert((v * d) * r == v * (d * r)) by (nonlinear_arith);
    lemma_cong_mul(v, v, d * r, 1, p);
    assert(v * 1 == v);
    lemma_small(v, p);
}

/// The value of a shifted monomial.
proof fn lemma_shift_mono_value(m: Mono, offset: int, s: spec_fn(Variable) -> int, p: int)
    ensures
        mono_value(shift_mono(m, offset), s, p) == mono_value(
            m,
            |v: Variable| s(shift_variable(v, offset)),
            p,
        ),
    decreases m.len(),
{
    if m.len() > 0 {
        assert(shift_mono(m, offset).drop_last() =~= shift_mono(m.drop_last(), offset));
        lemma_shift_mono_value(m.drop_last(), offset, s, p);
    }
}

/// The value of a shifted expression.
pub proof fn lemma_shift_value(t: Terms, offset: int, s: spec_fn(Variable) -> int, p: int)
    ensures
        terms_value(shift_terms(t, offset), s, p) == terms_value(
            t,
            |v: Variable| s(shift_variable(v, offset)),
            p,
        ),
    decreases t.len(),
{
    let u = |v: Variable| s(shift_variable(v, offset));
    if t.len() > 0 {
        let shifted = shift_terms(t, offset);
        assert(shifted.drop_last() =~= shift_terms(t.drop_last(), offset));
        lemma_shift_value(t.drop_last(), offset, s, p);
        lemma_shift_mono_value(t.last().0, offset, s, p);
        let (f, g) = (|m: Mono| mono_value(m, s, p), |m: Mono| mono_value(m, u, p));
        assert(weighted_sum(shifted, f) == weighted_sum(shifted.drop_last(), f)
            + shifted.last().1 * f(shifted.last().0));
        assert(weighted_sum(t, g) == weighted_sum(t.drop_last(), g) + t.last().1 * g(t.last().0));
    }
}

/// Rotating the position of a row leads to the position of another row.
pub proof fn lemma_rotate_row(size: int, i: int, r: int)
    requires
        size > 0,
        pow(domain_root(size), size as nat) % Scalar::modulus() == 1,
        0 <= i,
        0 <= i + r,
    ensures
        (mod_pow(domain_root(size), r, Scalar::modulus()) * pow(domain_root(size), i as nat))
            % Scalar::modulus() == pow(domain_root(size), (i + r) as nat) % Scalar::modulus(),
{
    let p = Scalar::modulus();
    Scalar::lemma_modulus();
    let w = domain_root(size);
    let x = pow(w, i as nat);
    if r >= 0 {
        lemma_pow_adds(w, r as nat, i as nat);
        lemma_mod_mul(pow(w, r as nat), x, p);
    } else {
        let k = (-r) as nat;
        let v = pow(w, (size - 1) as nat) % p;
        lemma_pow1(w);
        lemma_pow_adds(w, 1, (size - 1) as nat);
        lemma_mod_mul(w, pow(w, (size - 1) as nat), p);
        assert(is_inverse(w, v, p));
        lemma_inverse_unique(w, v, p);
        // v^k * w^i == v^k * (w^k * w^(i-k)) == (v * w)^k * w^(i-k)
        let y = pow(w, (i + r) as nat);
        lemma_pow_adds(w, k, (i + r) as nat);
        assert(x == pow(w, k) * y);
        vstd::arithmetic::power::lemma_pow_distributes(v, w, k);
        let (a, b) = (pow(v, k), pow(w, k));
        assert(a * (b * y) == (a * b) * y) by (nonlinear_arith);
        assert(v * w == w * v) by (nonlinear_arith);
        lemma_small(1, p);
        lemma_cong_pow(v * w, 1, k, p);
        vstd::arithmetic::power::lemma1_pow(k);
        lemma_cong_mul(a * b, 1, y, y, p);
        assert(1 * y == y);
        lemma_mod_mul(a, x, p);
    }
}

/// The value of a column at the position of a row.
proof fn lemma_column_value(
    columns: Seq<Seq<int>>,
    table: Seq<Seq<int>>,
    m: CircuitModel,
    j: int,
    i: int,
    x: int,
)
    requires
        columns_interpolate(columns, table),
        m.fits_table(table),
        0 <= j < table.len(),
        0 <= i < m.size,
        x % Scalar::modulus() == pow(domain_root(m.size), i as nat) % Scalar::modulus(),
    ensures
        poly_eval(columns[j], x) % Scalar::modulus() == table[j][i],
{
    Scalar::lemma_modulus();
    assert(interpolates(columns[j], table[j]));
    assert(table[j].len() == m.size);
    lemma_eval_cong(
        columns[j],
        x,
        pow(domain_root(m.size), i as nat),
        Scalar::modulus(),
    );
}

/// A placed gate has the value at the position of a row that it has at that row of the table.
pub proof fn lemma_gate_value(
    m: CircuitModel,
    g: Placement,
    columns: Seq<Seq<int>>,
    table: Seq<Seq<int>>,
    i: int,
)
    requires
        m.wf(),
        m.placement_wf(g),
        m.fits_table(table),
        columns_interpolate(columns, table),
        0 <= i < m.size,
        gate_fits(g.terms, i, g.column, m.size, m.columns),
    ensures
        terms_value(
            shift_terms(g.terms, g.column),
            rotated_valuation(
                columns,
                domain_root(m.size),
                pow(domain_root(m.size), i as nat),
            ),
            Scalar::modulus(),
        ) == terms_value(g.terms, gate_valuation(table, i, g.column), Scalar::modulus()),
{
    let p = Scalar::modulus();
    Scalar::lemma_modulus();
    let w = domain_root(m.size);
    let x = pow(w, i as nat);
    let s = rotated_valuation(columns, w, x);
    let u = |v: Variable| s(shift_variable(v, g.column));
    let t = gate_valuation(table, i, g.column);
    lemma_shift_value(g.terms, g.column, s, p);
    assert forall|v: Variable| #[trigger] terms_have(g.terms, v) implies u(v) % p == t(v) % p by {
        let (r, j) = (i + v.rotation, g.column + v.column_index);
        assert(0 <= r < m.size && j < m.columns);
        let shifted = shift_variable(v, g.column);
        assert(shifted.column_index == j);
        assert(shifted.rotation == v.rotation);
        lemma_rotate_row(m.size, i, v.rotation as int);
        lemma_column_value(columns, table, m, j, r, mod_pow(w, v.rotation as int, p) * x);
        assert(u(v) % p == table[j][r]);
        lemma_mod_twice(u(v), p);
    }
    lemma_terms_value_cong(g.terms, u, t, p);
}

/// All gates together are zero at the positions of all rows.
proof fn lemma_gates_vanish(
    m: CircuitModel,
    columns: Seq<Seq<int>>,
    table: Seq<Seq<int>>,
    delta: int,
    i: int,
    k: nat,
)
    requires
        m.wf(),
        m.fits_table(table),
        m.gates_hold(table),
        columns_interpolate(columns, table),
        0 <= i < m.size,
        k <= m.gates.len(),
    ensures
        gate_sum(
            m.gates.subrange(0, k as int),
            evaluations(m.selectors, pow(domain_root(m.size), i as nat)),
            rotated_valuation(
                columns,
                domain_root(m.size),
                pow(domain_root(m.size), i as nat),
            ),
            delta,
        ) % Scalar::modulus() == 0,
    decreases k,
{
    let p = Scalar::modulus();
    Scalar::lemma_modulus();
    lemma_small(0, p);
    let x = pow(domain_root(m.size), i as nat);
    let e = evaluations(m.selectors, x);
    let s = rotated_valuation(columns, domain_root(m.size), x);
    if k > 0 {
        let prefix = m.gates.subrange(0, k as int);
        let n = k - 1;
        assert(prefix.drop_last() =~= m.gates.subrange(0, n));
        lemma_gates_vanish(m, columns, table, delta, i, n as nat);
        let g = m.gates[n];
        assert(prefix.last() == g);
        assert(m.placement_wf(g));
        let v = terms_value(shift_terms(g.terms, g.column), s, p);
        let d = pow(delta, n as nat);
        let rows = m.active[g.selector];
        let expected = selector_values(rows, m.size);
        assert(interpolates(m.selectors[g.selector], expected));
        assert(e[g.selector] == expected[i]);
        assert((e[g.selector] * v) % p == 0) by {
            if rows.contains(i as usize) {
                let y = choose|y: int| 0 <= y < rows.len() && rows[y] == i as usize;
                assert(m.active[g.selector][y] == i);
                assert(gate_holds(
                    m.gates[n].terms,
                    table,
                    m.active[m.gates[n].selector][y] as int,
                    m.gates[n].column,
                ));
                assert(gate_fits(
                    g.terms,
                    m.active[g.selector][y] as int,
                    g.column,
                    m.rows,
                    m.columns,
                ));
                assert(gate_fits(g.terms, i, g.column, m.size, m.columns));
                lemma_gate_value(m, g, columns, table, i);
                assert(e[g.selector] == 1);
                assert(1 * v == v);
            } else {
                assert(0 * v == 0);
            }
        }
        lemma_cong_mul(e[g.selector] * v, 0, d, d, p);
        assert(0 * d == 0);
        lemma_cong_add(
            gate_sum(m.gates.subrange(0, n), e, s, delta),
            0,
            e[g.selector] * v * d,
            0,
            p,
        );
    } else {
        assert(m.gates.subrange(0, 0) =~= seq![]);
    }
}

/// At the positions of all rows, the full constraint is the combined gate constraint.
pub proof fn lemma_constraint_is_gate_sum(
    polys: Polynomials,
    m: CircuitModel,
    table: Seq<Seq<int>>,
    setup: Setup,
    i: nat,
)
    requires
        m.wf(),
        m.fits_table(table),
        polys.fit(m, table, setup),
        i < m.size,
    ensures
        polys.constraint_at(m, polys.challenges(m, setup), pow(domain_root(m.size), i))
            % Scalar::modulus() == gate_sum(
            m.gates,
            evaluations(m.selectors, pow(domain_root(m.size), i)),
            rotated_valuation(polys.columns, domain_root(m.size), pow(domain_root(m.size), i)),
            polys.challenges(m, setup).delta,
        ) % Scalar::modulus(),
{
    let p = Scalar::modulus();
    Scalar::lemma_modulus();
    lemma_small(0, p);
    lemma_small(1, p);
    let ch = polys.challenges(m, setup);
    let w = domain_root(m.size);
    let x = pow(w, i);
    let acc = polys.accumulator;
    let values = choose|values: Seq<int>| #[trigger]
        is_accumulation(values, m, table, ch.beta, ch.gamma) && values[m.size] == 1 && interpolates(
            acc,
            values.drop_last(),
        );
    let list = values.drop_last();
    let gate = gate_sum(
        m.gates,
        evaluations(m.selectors, x),
        rotated_valuation(polys.columns, w, x),
        ch.delta,
    );
    // the accumulator at this row and the next one
    assert(poly_eval(acc, pow(domain_root(list.len() as int), i)) % p == list[i as int]);
    assert(poly_eval(acc, x) % p == values[i as int]);
    lemma_pow1(w);
    lemma_pow_adds(w, 1, i);
    lemma_pow0(w);
    assert(w * x == pow(w, i + 1));
    if i + 1 < m.size {
        assert(poly_eval(acc, pow(domain_root(list.len() as int), i + 1)) % p == list[i as int + 1]);
    } else {
        assert(poly_eval(acc, pow(domain_root(list.len() as int), 0)) % p == list[0]);
        lemma_eval_cong(acc, w * x, 1, p);
    }
    let next = poly_eval(acc, w * x);
    assert(next % p == values[i as int + 1]);
    // the products
    let columns = evaluations(polys.columns, x);
    let sigmas = evaluations(m.sigma, x);
    assert forall|j: int| 0 <= j < columns.len() implies #[trigger] columns[j] == row_values(
        table,
        i as int,
    )[j] by {
        lemma_column_value(polys.columns, table, m, j, i as int, x);
    }
    assert(columns =~= row_values(table, i as int));
    assert forall|j: int| 0 <= j < sigmas.len() implies #[trigger] sigmas[j] == row_targets(
        m,
        i as int,
    )[j] by {
        let expected = sigma_values(m.targets[j], m.size);
        assert(interpolates(m.sigma[j], expected));
        assert(poly_eval(m.sigma[j], pow(domain_root(expected.len() as int), i)) % p
            == expected[i as int]);
    }
    assert(sigmas =~= row_targets(m, i as int));
    let num = row_numerator(m, table, ch.beta, ch.gamma, i as int);
    let den = row_denominator(m, table, ch.beta, ch.gamma, i as int);
    let l = poly_eval(polys.lagrange, x);
    let (a, b) = (values[i as int], values[i as int + 1]);
    // the constraint with residues in place of the values
    let got = seq![
        gate,
        poly_eval(acc, x),
        next,
        num,
        den,
        l,
    ];
    let want = seq![gate, a, b, num, den, if i == 0 { l } else { 0int }];
    lemma_mod_twice(poly_eval(acc, x), p);
    lemma_mod_twice(next, p);
    assert forall|k: int| 0 <= k < 6 implies (#[trigger] got[k]) % p == want[k] % p by {}
    lemma_full_constraint_cong(got, want, ch.alpha, p);
    let fixpoint = (a - 1) * want[5];
    let factor = want[5];
    assert(a == 1 || factor == 0);
    assert(fixpoint == 0) by (nonlinear_arith)
        requires
            fixpoint == (a - 1) * factor,
            a == 1 || factor == 0,
    ;
    assert(ch.alpha * fixpoint == 0) by (nonlinear_arith)
        requires
            fixpoint == 0,
    ;
    assert((b * den) % p == (a * num) % p);
    crate::arith::lemma_cong_sub(b * den, a * num, a * num, a * num, p);
    lemma_cong_mul(
        ch.alpha * ch.alpha,
        ch.alpha * ch.alpha,
        b * den - a * num,
        0,
        p,
    );
    assert((ch.alpha * ch.alpha) * 0 == 0);
    lemma_cong_add(gate, gate, (ch.alpha * ch.alpha) * (b * den - a * num), 0, p);
}

/// If the circuit is satisfied, the full constraint is zero at the positions of all rows.
pub proof fn lemma_constraint_vanishes(
    polys: Polynomials,
    m: CircuitModel,
    table: Seq<Seq<int>>,
    setup: Setup,
    i: nat,
)
    requires
        m.wf(),
        m.fits_table(table),
        m.gates_hold(table),
        polys.fit(m, table, setup),
        i < m.size,
    ensures
        polys.constraint_at(m, polys.challenges(m, setup), pow(domain_root(m.size), i))
            % Scalar::modulus() == 0,
{
    lemma_constraint_is_gate_sum(polys, m, table, setup, i);
    let delta = polys.challenges(m, setup).delta;
    lemma_gates_vanish(m, polys.columns, table, delta, i as int, m.gates.len());
    assert(m.gates.subrange(0, m.gates.len() as int) =~= m.gates);
}

/// Gates are satisfied by every table that has the values of a table that satisfies them in all rows
/// but the blinding rows and the padding.
proof fn lemma_gates_transfer(
    m: CircuitModel,
    old_table: Seq<Seq<int>>,
    new_table: Seq<Seq<int>>,
)
    requires
        m.wf(),
        m.gates_hold(old_table),
        forall|c: Cell|
            m.has(c) && c.row < m.rows ==> #[trigger] cell_value(new_table, c) == cell_value(
                old_table,
                c,
            ),
    ensures
        m.gates_hold(new_table),
{
    assert forall|g: int, i: int|
        0 <= g < m.gates.len() && 0 <= i < m.active[m.gates[g].selector].len() implies gate_holds(
        (#[trigger] m.gates[g]).terms,
        new_table,
        (#[trigger] m.active[m.gates[g].selector][i]) as int,
        m.gates[g].column,
    ) by {
        let placed = m.gates[g];
        let row = m.active[placed.selector][i] as int;
        assert(m.placement_wf(placed));
        assert(gate_fits(placed.terms, row, placed.column, m.rows, m.columns));
        assert(gate_holds(placed.terms, old_table, row, placed.column));
        let u = gate_valuation(old_table, row, placed.column);
        let v = gate_valuation(new_table, row, placed.column);
        assert forall|x: Variable| #[trigger] terms_have(placed.terms, x) implies u(x)
            % Scalar::modulus() == v(x) % Scalar::modulus() by {
            let c = Cell {
                row: (row + x.rotation) as usize,
                column: (placed.column + x.column_index) as usize,
            };
            assert(c.row == row + x.rotation && c.column == placed.column + x.column_index);
            assert(m.has(c));
            assert(cell_value(new_table, c) == cell_value(old_table, c));
        }
        Scalar::lemma_modulus();
        lemma_terms_value_cong(placed.terms, u, v, Scalar::modulus());
    }
}

/// Wires are satisfied by every table that has the values of a table that satisfies them in all rows
/// but the blinding rows and the padding.
proof fn lemma_wires_transfer(
    m: CircuitModel,
    old_table: Seq<Seq<int>>,
    new_table: Seq<Seq<int>>,
)
    requires
        m.wf(),
        m.wires_within(),
        m.wires_hold(old_table),
        forall|c: Cell|
            m.has(c) && c.row < m.rows ==> #[trigger] cell_value(new_table, c) == cell_value(
                old_table,
                c,
            ),
    ensures
        m.wires_hold(new_table),
{
    assert forall|c: Cell| m.has(c) && c.row < m.rows implies cell_value(new_table, c)
        == cell_value(new_table, #[trigger] m.target(c)) by {
        let d = m.target(c);
        assert(m.has(d));
        if d.row >= m.rows {
            assert(m.target(d) == d);
            assert(c == d);
        }
        assert(cell_value(new_table, c) == cell_value(old_table, c));
        assert(cell_value(new_table, d) == cell_value(old_table, d));
    }
}

/// Filling in the blinding rows only changes the values in these rows.
proof fn lemma_blinding_frame(m: CircuitModel, before: Witness, after: Witness, c: Cell)
    requires
        before.spec_num_rows() == m.rows,
        before.spec_degree_bound() == m.size,
        m.fits_table(before.table()),
        is_blinded(after, before),
        m.has(c),
        c.row < m.rows,
    ensures
        cell_value(after.table(), c) == cell_value(before.table(), c),
{
    assert(before.has(c) && !before.is_blinding(c));
    assert(after.at(c) == before.at(c));
}

/// Filling in the blinding rows keeps gates satisfied, and keeps them violated. It keeps wires
/// satisfied, and keeps them violated, unless a cell in the blinding rows or the padding is connected
/// to another one.
pub proof fn law_blinding_keeps_satisfaction(m: CircuitModel, before: Witness, after: Witness)
    requires
        m.wf(),
        before.spec_num_rows() == m.rows,
        before.spec_degree_bound() == m.size,
        m.fits_table(before.table()),
        is_blinded(after, before),
    ensures
        m.gates_hold(after.table()) <==> m.gates_hold(before.table()),
        m.wires_within() ==> (m.wires_hold(after.table()) <==> m.wires_hold(before.table())),
{
    let (x, y) = (before.table(), after.table());
    assert forall|c: Cell| m.has(c) && c.row < m.rows implies cell_value(y, c) == #[trigger]
        cell_value(x, c) by {
        lemma_blinding_frame(m, before, after, c);
    }
    assert forall|c: Cell| m.has(c) && c.row < m.rows implies #[trigger] cell_value(y, c)
        == cell_value(x, c) by {
        lemma_blinding_frame(m, before, after, c);
    }
    if m.gates_hold(x) {
        lemma_gates_transfer(m, x, y);
    }
    if m.gates_hold(y) {
        lemma_gates_transfer(m, y, x);
    }
    if m.wires_within() && m.wires_hold(x) {
        lemma_wires_transfer(m, x, y);
    }
    if m.wires_within() && m.wires_hold(y) {
        lemma_wires_transfer(m, y, x);
    }
}

/// A witness whose blinding rows are filled in, and that satisfies the gates of a circuit, can be
/// proved if all connected cells have the same value, unless a challenge happens to make a denominator
/// of the permutation argument zero or to be in the extended evaluation domain.
pub proof fn law_satisfied_witness_is_provable<H: HashBackend>(
    m: CircuitModel,
    witness: Witness,
    setup: Setup,
    ret: Result<Proof<H>, ProvingError>,
)
    requires
        m.wf(),
        witness.spec_num_rows() == m.rows,
        witness.spec_degree_bound() == m.size,
        m.fits_table(witness.table()),
        m.gates_hold(witness.table()),
        is_prove_result(ret, m, witness, setup),
    ensures
        ret is Ok || ret matches Err(ProvingError::ZeroDenominator) || ret matches Err(
            ProvingError::CommittedPoint,
        ) || (ret matches Err(ProvingError::Wraparound) && !m.connections_agree(witness.table())),
{
    let table = witness.table();
    if ret matches Err(ProvingError::Wraparound) {
        let columns = choose|columns: Seq<Seq<int>>| #[trigger]
            columns_interpolate(columns, table) && crate::argument::accumulation_fails(
                m,
                table,
                crate::argument::early_challenge(
                    m,
                    setup,
                    columns,
                    crate::argument::beta_text(),
                ),
                crate::argument::early_challenge(
                    m,
                    setup,
                    columns,
                    crate::argument::gamma_text(),
                ),
            );
        let beta = crate::argument::early_challenge(
            m,
            setup,
            columns,
            crate::argument::beta_text(),
        );
        let gamma = crate::argument::early_challenge(
            m,
            setup,
            columns,
            crate::argument::gamma_text(),
        );
        let values = choose|values: Seq<int>| #[trigger]
            is_accumulation(values, m, table, beta, gamma) && values[m.size] != 1;
        if m.connections_agree(table) {
            lemma_accumulation_ends(values, m, table, beta, gamma);
        }
    }
    if ret matches Err(ProvingError::ConstraintViolation) {
        let polys = choose|polys: Polynomials| #[trigger]
            polys.fit(m, table, setup) && polys.violated(m, setup);
        let i = choose|i: nat|
            i < m.size && #[trigger] polys.constraint_at(
                m,
                polys.challenges(m, setup),
                pow(domain_root(m.size), i),
            ) % Scalar::modulus() != 0;
        lemma_constraint_vanishes(polys, m, table, setup, i);
    }
}

} // verus!
