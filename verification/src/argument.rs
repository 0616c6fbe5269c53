//! The equations that are proved about circuits.
use crate::arith::{
    inverse, invertible, lemma_cong_add, lemma_cong_mul, lemma_cong_sub, lemma_small, mod_pow,
};
use crate::compose::lemma_terms_value_cong;
use crate::expr::canonical;
use crate::field::{Field, Scalar};
use crate::model::{interpolates, opened_set, quotient_bound, CircuitModel, Placement};
use crate::pcs::{
    challenge, evaluations, merkle_roots, opening_accepted, opening_count, opening_points,
    opening_roots, opening_setup, Opening, Setup,
};
use crate::poly::{domain_root, is_lagrange0, lemma_eval_coefficients, poly_eval};
use crate::terms::{shift_terms, terms_have, terms_value};
use crate::utils::{le_value, sha3_512};
use crate::variable::Variable;
use vstd::arithmetic::power::{lemma_pow0, lemma_pow1, lemma_pow_adds, pow};
use vstd::prelude::*;
use vstd::string::*;

verus! {

/// The domain separator tag that a text stands for.
pub open spec fn tag(text: Seq<u8>) -> int {
    le_value(sha3_512(text)) % Scalar::modulus()
}

/// The text of the tag for the challenge `alpha`.
pub open spec fn alpha_text() -> Seq<u8> {
    "starkom/plonk/challenge/alpha".spec_bytes()
}

/// The text of the tag for the challenge `beta`.
pub open spec fn beta_text() -> Seq<u8> {
    "starkom/plonk/challenge/beta".spec_bytes()
}

/// The text of the tag for the challenge `gamma`.
pub open spec fn gamma_text() -> Seq<u8> {
    "starkom/plonk/challenge/gamma".spec_bytes()
}

/// The text of the tag for the challenge `delta`.
pub open spec fn delta_text() -> Seq<u8> {
    "starkom/plonk/challenge/delta".spec_bytes()
}

/// The text of the tag for the challenge `xi`.
pub open spec fn xi_text() -> Seq<u8> {
    "starkom/plonk/challenge/xi".spec_bytes()
}

/// The Fiat-Shamir challenges of a proof.
pub ghost struct Challenges {
    /// Combines all gate constraints with the constraints of the permutation argument.
    pub alpha: int,
    /// Combines values with the positions of cells in the permutation argument.
    pub beta: int,
    /// Blinds the factors of the permutation argument.
    pub gamma: int,
    /// Combines the constraints of the gates.
    pub delta: int,
    /// The position at which all polynomials are opened.
    pub xi: int,
}

/// The challenges that are derived from the root hashes of the batches.
pub open spec fn challenges(setup: Setup, roots: Seq<Seq<u8>>) -> Challenges {
    let kind = setup.kind;
    Challenges {
        alpha: challenge(kind, roots.subrange(0, 3), tag(alpha_text())),
        beta: challenge(kind, roots.subrange(0, 2), tag(beta_text())),
        gamma: challenge(kind, roots.subrange(0, 2), tag(gamma_text())),
        delta: challenge(kind, roots.subrange(0, 2), tag(delta_text())),
        xi: challenge(kind, roots.subrange(0, 4), tag(xi_text())),
    }
}

/// The polynomials that are committed before the challenges for the permutation argument are
/// derived.
pub open spec fn first_batches(m: CircuitModel, columns: Seq<Seq<int>>) -> Seq<Seq<Seq<int>>> {
    seq![m.selectors + m.sigma, columns]
}

/// The challenge that is derived from the circuit and the columns.
pub open spec fn early_challenge(
    m: CircuitModel,
    setup: Setup,
    columns: Seq<Seq<int>>,
    text: Seq<u8>,
) -> int {
    challenge(setup.kind, merkle_roots(setup, first_batches(m, columns)), tag(text))
}

/// The columns are interpolated from the table.
pub open spec fn columns_interpolate(columns: Seq<Seq<int>>, table: Seq<Seq<int>>) -> bool {
    &&& columns.len() == table.len()
    &&& forall|j: int| 0 <= j < columns.len() ==> interpolates(#[trigger] columns[j], table[j])
}

/// The values at `x` of the columns that variables stand for, each at the rotated position.
pub open spec fn rotated_valuation(columns: Seq<Seq<int>>, omega: int, x: int) -> spec_fn(
    Variable,
) -> int {
    |v: Variable|
        poly_eval(
            columns[v.column_index as int],
            mod_pow(omega, v.rotation as int, Scalar::modulus()) * x,
        )
}

/// The combined constraints of gates: each is multiplied with its selector and a power of `delta`.
pub open spec fn gate_sum(
    gates: Seq<Placement>,
    selectors: Seq<int>,
    values: spec_fn(Variable) -> int,
    delta: int,
) -> int
    decreases gates.len(),
{
    if gates.len() == 0 {
        0
    } else {
        let g = gates.last();
        gate_sum(gates.drop_last(), selectors, values, delta) + selectors[g.selector] * terms_value(
            shift_terms(g.terms, g.column),
            values,
            Scalar::modulus(),
        ) * pow(delta, (gates.len() - 1) as nat)
    }
}

/// The factor of the permutation argument for a value at a position.
pub open spec fn cell_factor(value: int, position: int, beta: int, gamma: int) -> int {
    value + beta * position + gamma
}

/// The product of the factors of the permutation argument for the values of a row and the positions
/// of their own cells.
pub open spec fn identity_product(values: Seq<int>, x: int, beta: int, gamma: int) -> int
    decreases values.len(),
{
    if values.len() == 0 {
        1
    } else {
        identity_product(values.drop_last(), x, beta, gamma) * cell_factor(
            values.last(),
            pow(5, (values.len() - 1) as nat) * x,
            beta,
            gamma,
        )
    }
}

/// The product of the factors of the permutation argument for the values of a row and the given
/// positions.
pub open spec fn sigma_product(values: Seq<int>, sigma: Seq<int>, beta: int, gamma: int) -> int
    decreases values.len(),
{
    if values.len() == 0 {
        1
    } else {
        sigma_product(values.drop_last(), sigma, beta, gamma) * cell_factor(
            values.last(),
            sigma[values.len() - 1],
            beta,
            gamma,
        )
    }
}

/// The full constraint: the combined gate constraint, the constraint that the accumulator starts
/// with 1, and the recurrence of the accumulator.
pub open spec fn full_constraint(
    gate: int,
    accumulator: int,
    shifted: int,
    numerator: int,
    denominator: int,
    lagrange: int,
    alpha: int,
) -> int {
    gate + alpha * ((accumulator - 1) * lagrange) + (alpha * alpha) * (shifted * denominator
        - accumulator * numerator)
}

/// The value at `x` of the polynomial that is 1 at the first element of the evaluation domain of
/// size `n` and 0 at the others.
pub open spec fn lagrange0_at(x: int, n: int) -> int {
    let p = Scalar::modulus();
    ((pow(x, n as nat) - 1) * inverse((n * (x - 1)) % p, p)) % p
}

/// The polynomials that are calculated for a proof.
pub ghost struct Polynomials {
    /// The witness columns.
    pub columns: Seq<Seq<int>>,
    /// The accumulator of the permutation argument.
    pub accumulator: Seq<int>,
    /// The polynomial that is 1 at the first element of the evaluation domain, and 0 at the others.
    pub lagrange: Seq<int>,
    /// The chunks of the quotient.
    pub chunks: Seq<Seq<int>>,
}

impl Polynomials {
    /// All batches.
    pub open spec fn batches(self, m: CircuitModel) -> Seq<Seq<Seq<int>>> {
        seq![m.selectors + m.sigma, self.columns, seq![self.accumulator], self.chunks]
    }

    /// The full constraint at `x`.
    pub open spec fn constraint_at(self, m: CircuitModel, ch: Challenges, x: int) -> int {
        let omega = domain_root(m.size);
        full_constraint(
            gate_sum(
                m.gates,
                evaluations(m.selectors, x),
                rotated_valuation(self.columns, omega, x),
                ch.delta,
            ),
            poly_eval(self.accumulator, x),
            poly_eval(self.accumulator, omega * x),
            identity_product(evaluations(self.columns, x), x, ch.beta, ch.gamma),
            sigma_product(
                evaluations(self.columns, x),
                evaluations(m.sigma, x),
                ch.beta,
                ch.gamma,
            ),
            poly_eval(self.lagrange, x),
            ch.alpha,
        )
    }
}

/// The values of row `i`.
pub open spec fn row_values(table: Seq<Seq<int>>, i: int) -> Seq<int> {
    Seq::new(table.len(), |j: int| table[j][i])
}

/// The positions of the targets of the cells of row `i`.
pub open spec fn row_targets(m: CircuitModel, i: int) -> Seq<int> {
    Seq::new(
        m.targets.len(),
        |j: int| crate::model::cell_identity(m.targets[j][i], m.size),
    )
}

/// The numerator of the permutation argument for row `i`.
pub open spec fn row_numerator(
    m: CircuitModel,
    table: Seq<Seq<int>>,
    beta: int,
    gamma: int,
    i: int,
) -> int {
    identity_product(row_values(table, i), pow(domain_root(m.size), i as nat), beta, gamma)
}

/// The denominator of the permutation argument for row `i`.
pub open spec fn row_denominator(
    m: CircuitModel,
    table: Seq<Seq<int>>,
    beta: int,
    gamma: int,
    i: int,
) -> int {
    sigma_product(row_values(table, i), row_targets(m, i), beta, gamma)
}

/// Some factor of a denominator of the permutation argument is zero.
pub open spec fn has_zero_factor(
    m: CircuitModel,
    table: Seq<Seq<int>>,
    beta: int,
    gamma: int,
) -> bool {
    exists|j: int, i: int|
        0 <= j < table.len() && 0 <= i < m.size && cell_factor(
            #[trigger] table[j][i],
            row_targets(m, i)[j],
            beta,
            gamma,
        ) % Scalar::modulus() == 0
}

/// The residues of the accumulator: it starts with 1, and from each row to the next it is multiplied
/// with the quotient of the numerator and the denominator.
pub open spec fn is_accumulation(
    values: Seq<int>,
    m: CircuitModel,
    table: Seq<Seq<int>>,
    beta: int,
    gamma: int,
) -> bool {
    let p = Scalar::modulus();
    &&& values.len() == m.size + 1
    &&& values[0] == 1
    &&& forall|i: int| 0 <= i < values.len() ==> 0 <= #[trigger] values[i] < p
    &&& forall|i: int|
        0 <= i < m.size ==> invertible(#[trigger] row_denominator(m, table, beta, gamma, i), p) && (
        values[i + 1] * row_denominator(m, table, beta, gamma, i)) % p == (values[i]
            * row_numerator(m, table, beta, gamma, i)) % p
}

/// A factor only depends on the residues of the value and the position.
pub proof fn lemma_factor_cong(a: int, b: int, x: int, y: int, beta: int, gamma: int, p: int)
    requires
        p > 0,
        a % p == b % p,
        x % p == y % p,
    ensures
        cell_factor(a, x, beta, gamma) % p == cell_factor(b, y, beta, gamma) % p,
{
    lemma_cong_mul(beta, beta, x, y, p);
    lemma_cong_add(a, b, beta * x, beta * y, p);
    lemma_cong_add(a + beta * x, b + beta * y, gamma, gamma, p);
}

/// Two valuations agree on the variables of a placed gate.
pub open spec fn agree_on(
    g: Placement,
    u: spec_fn(Variable) -> int,
    v: spec_fn(Variable) -> int,
) -> bool {
    forall|w: Variable| #[trigger]
        terms_have(shift_terms(g.terms, g.column), w) ==> u(w) % Scalar::modulus() == v(w)
            % Scalar::modulus()
}

/// A gate constraint only depends on the residues of the values.
pub proof fn lemma_gate_sum_cong(
    gates: Seq<Placement>,
    a: Seq<int>,
    b: Seq<int>,
    u: spec_fn(Variable) -> int,
    v: spec_fn(Variable) -> int,
    delta: int,
)
    requires
        forall|i: int|
            0 <= i < gates.len() ==> canonical(
                shift_terms((#[trigger] gates[i]).terms, gates[i].column),
            ) && a[gates[i].selector] % Scalar::modulus() == b[gates[i].selector]
                % Scalar::modulus() && agree_on(gates[i], u, v),
    ensures
        gate_sum(gates, a, u, delta) % Scalar::modulus() == gate_sum(gates, b, v, delta)
            % Scalar::modulus(),
    decreases gates.len(),
{
    let p = Scalar::modulus();
    Scalar::lemma_modulus();
    if gates.len() > 0 {
        let init = gates.drop_last();
        assert forall|i: int| 0 <= i < init.len() implies canonical(
            shift_terms((#[trigger] init[i]).terms, init[i].column),
        ) && a[init[i].selector] % p == b[init[i].selector] % p && agree_on(init[i], u, v) by {
            assert(init[i] == gates[i]);
        }
        lemma_gate_sum_cong(init, a, b, u, v, delta);
        let g = gates.last();
        assert(g == gates[gates.len() - 1]);
        let t = shift_terms(g.terms, g.column);
        lemma_terms_value_cong(t, u, v, p);
        let d = pow(delta, (gates.len() - 1) as nat);
        let (x, y) = (terms_value(t, u, p), terms_value(t, v, p));
        lemma_cong_mul(a[g.selector], b[g.selector], x, y, p);
        lemma_cong_mul(a[g.selector] * x, b[g.selector] * y, d, d, p);
        lemma_cong_add(
            gate_sum(init, a, u, delta),
            gate_sum(init, b, v, delta),
            a[g.selector] * x * d,
            b[g.selector] * y * d,
            p,
        );
    }
}

/// The full constraint only depends on residues.
pub proof fn lemma_full_constraint_cong(a: Seq<int>, b: Seq<int>, alpha: int, p: int)
    requires
        p > 0,
        a.len() == 6,
        b.len() == 6,
        forall|i: int| 0 <= i < 6 ==> (#[trigger] a[i]) % p == b[i] % p,
    ensures
        full_constraint(a[0], a[1], a[2], a[3], a[4], a[5], alpha) % p == full_constraint(
            b[0],
            b[1],
            b[2],
            b[3],
            b[4],
            b[5],
            alpha,
        ) % p,
{
    lemma_cong_sub(a[1], b[1], 1, 1, p);
    lemma_cong_mul(a[1] - 1, b[1] - 1, a[5], b[5], p);
    lemma_cong_mul(alpha, alpha, (a[1] - 1) * a[5], (b[1] - 1) * b[5], p);
    lemma_cong_mul(a[2], b[2], a[4], b[4], p);
    lemma_cong_mul(a[1], b[1], a[3], b[3], p);
    lemma_cong_sub(a[2] * a[4], b[2] * b[4], a[1] * a[3], b[1] * b[3], p);
    let (x, y) = (a[2] * a[4] - a[1] * a[3], b[2] * b[4] - b[1] * b[3]);
    lemma_cong_mul(alpha * alpha, alpha * alpha, x, y, p);
    lemma_cong_add(a[0], b[0], alpha * ((a[1] - 1) * a[5]), alpha * ((b[1] - 1) * b[5]), p);
    lemma_cong_add(
        a[0] + alpha * ((a[1] - 1) * a[5]),
        b[0] + alpha * ((b[1] - 1) * b[5]),
        (alpha * alpha) * x,
        (alpha * alpha) * y,
        p,
    );
}

/// The coefficients of a polynomial, filled up with zeros.
pub open spec fn padded(c: Seq<int>, bound: int) -> Seq<int> {
    Seq::new(
        bound as nat,
        |i: int|
            if i < c.len() {
                c[i]
            } else {
                0
            },
    )
}

/// `chunks` are the coefficients `c`, split into chunks of the given size.
pub open spec fn is_split(chunks: Seq<Seq<int>>, c: Seq<int>, size: int) -> bool {
    &&& chunks.len() == (c.len() + size - 1) / size
    &&& forall|i: int|
        0 <= i < chunks.len() ==> #[trigger] chunks[i] == c.subrange(
            i * size,
            if (i + 1) * size < c.len() {
                (i + 1) * size
            } else {
                c.len() as int
            },
        )
}

/// The value of a polynomial whose coefficients are put together from two lists.
pub proof fn lemma_eval_concat(a: Seq<int>, b: Seq<int>, x: int)
    ensures
        poly_eval(a + b, x) == poly_eval(a, x) + pow(x, a.len()) * poly_eval(b, x),
    decreases a.len(),
{
    if a.len() == 0 {
        assert(a + b =~= b);
        lemma_pow0(x);
        assert(1 * poly_eval(b, x) == poly_eval(b, x));
    } else {
        let rest = a.drop_first();
        assert((a + b).drop_first() =~= rest + b);
        lemma_eval_concat(rest, b, x);
        lemma_pow1(x);
        lemma_pow_adds(x, 1, rest.len());
        let (u, v, w) = (poly_eval(rest, x), poly_eval(b, x), pow(x, rest.len()));
        assert(a[0] + x * (u + w * v) == (a[0] + x * u) + (x * w) * v) by (nonlinear_arith);
    }
}

/// The values of the chunks, without reduction.
pub open spec fn chunk_values(chunks: Seq<Seq<int>>, x: int) -> Seq<int> {
    Seq::new(chunks.len(), |i: int| poly_eval(chunks[i], x))
}

/// The value of a polynomial that is split into chunks.
pub proof fn lemma_split_eval(chunks: Seq<Seq<int>>, c: Seq<int>, size: int, x: int)
    requires
        size > 0,
        is_split(chunks, c, size),
    ensures
        poly_eval(c, x) == poly_eval(chunk_values(chunks, x), pow(x, size as nat)),
    decreases chunks.len(),
{
    let n = c.len() as int;
    let values = chunk_values(chunks, x);
    if chunks.len() == 0 {
        assert(n == 0) by (nonlinear_arith)
            requires
                (n + size - 1) / size == 0,
                n >= 0,
                size > 0,
        ;
    } else {
        let k = chunks.len() as int;
        let head = chunks[0];
        assert(0 * size == 0 && (0 + 1) * size == size);
        assert(values[0] == poly_eval(head, x));
        if n <= size {
            assert(k == 1) by (nonlinear_arith)
                requires
                    k == (n + size - 1) / size,
                    k > 0,
                    n <= size,
                    size > 0,
                    n >= 0,
            ;
            assert(head =~= c);
            assert(values.drop_first() =~= seq![]);
            reveal_with_fuel(poly_eval, 2);
            assert(pow(x, size as nat) * 0 == 0);
        } else {
            let rest = c.subrange(size, n);
            let tail = chunks.drop_first();
            assert(head =~= c.subrange(0, size));
            assert(c =~= head + rest);
            lemma_eval_concat(head, rest, x);
            assert((n - size + size - 1) / size == k - 1) by (nonlinear_arith)
                requires
                    k == (n + size - 1) / size,
                    size > 0,
            ;
            assert forall|i: int| 0 <= i < tail.len() implies #[trigger] tail[i] == rest.subrange(
                i * size,
                if (i + 1) * size < rest.len() {
                    (i + 1) * size
                } else {
                    rest.len() as int
                },
            ) by {
                assert(tail[i] == chunks[i + 1]);
                assert((i + 1) * size == i * size + size) by (nonlinear_arith);
                assert((i + 1 + 1) * size == (i + 1) * size + size) by (nonlinear_arith);
                assert(i * size >= 0) by (nonlinear_arith)
                    requires
                        i >= 0,
                        size > 0,
                ;
                assert((i + 1) * size < n) by (nonlinear_arith)
                    requires
                        i + 1 < k,
                        k == (n + size - 1) / size,
                        size > 0,
                ;
                let end = if (i + 1) * size < rest.len() {
                    (i + 1) * size
                } else {
                    rest.len() as int
                };
                assert(tail[i] =~= rest.subrange(i * size, end));
            }
            lemma_split_eval(tail, rest, size, x);
            assert(values.drop_first() =~= chunk_values(tail, x));
        }
    }
}

/// The value of a polynomial that is split into chunks, from the residues of their values.
pub proof fn lemma_split_residues(
    chunks: Seq<Seq<int>>,
    c: Seq<int>,
    size: int,
    bound: int,
    x: int,
)
    requires
        size > 0,
        c.len() <= bound,
        is_split(chunks, padded(c, bound), size),
    ensures
        poly_eval(c, x) % Scalar::modulus() == poly_eval(
            evaluations(chunks, x),
            pow(x, size as nat),
        ) % Scalar::modulus(),
{
    let p = Scalar::modulus();
    Scalar::lemma_modulus();
    let full = padded(c, bound);
    lemma_small(0, p);
    lemma_eval_coefficients(c, full, x, p);
    lemma_split_eval(chunks, full, size, x);
    let (a, b) = (chunk_values(chunks, x), evaluations(chunks, x));
    assert forall|i: int| 0 <= i < a.len() implies (#[trigger] a[i]) % p == b[i] % p by {
        vstd::arithmetic::div_mod::lemma_mod_twice(a[i], p);
    }
    lemma_eval_coefficients(a, b, pow(x, size as nat), p);
}

/// The position of a rotation of `xi`.
pub open spec fn rotated_point(size: int, xi: int, rotation: isize) -> int {
    (xi * mod_pow(domain_root(size), rotation as int, Scalar::modulus())) % Scalar::modulus()
}

/// The position of a row.
pub open spec fn row_point(size: int, row: usize) -> int {
    pow(domain_root(size), row as nat) % Scalar::modulus()
}

/// `r` is a rotation at which polynomials are opened, and `z` is its position.
pub open spec fn is_rotated_point(m: CircuitModel, xi: int, r: isize, z: int) -> bool {
    opened_set(m.gates).contains(r) && z == rotated_point(m.size, xi, r)
}

/// Row number `i` of the revealed rows has position `z`.
pub open spec fn is_row_point(m: CircuitModel, i: int, z: int) -> bool {
    0 <= i < m.public_rows.len() && z == row_point(m.size, m.public_rows[i])
}

/// Polynomials are opened at `z`.
pub open spec fn opened_at(m: CircuitModel, xi: int, z: int) -> bool {
    ||| exists|r: isize| #[trigger] is_rotated_point(m, xi, r, z)
    ||| exists|i: int| #[trigger] is_row_point(m, i, z)
}

impl Polynomials {
    /// The root hashes of all batches.
    pub open spec fn roots(self, m: CircuitModel, setup: Setup) -> Seq<Seq<u8>> {
        merkle_roots(setup, self.batches(m))
    }

    /// The challenges that the polynomials lead to.
    pub open spec fn challenges(self, m: CircuitModel, setup: Setup) -> Challenges {
        challenges(setup, self.roots(m, setup))
    }

    /// The columns, the accumulator and the Lagrange polynomial are right for the given table.
    pub open spec fn fit(self, m: CircuitModel, table: Seq<Seq<int>>, setup: Setup) -> bool {
        let ch = self.challenges(m, setup);
        &&& columns_interpolate(self.columns, table)
        &&& is_accumulator(self.accumulator, m, table, ch.beta, ch.gamma)
        &&& is_lagrange0(self.lagrange, m.size)
    }

    /// The chunks are those of the quotient of the full constraint and `X^n - 1`.
    pub open spec fn has_quotient(self, m: CircuitModel, setup: Setup) -> bool {
        exists|c: Seq<int>| #[trigger]
            is_split(
                self.chunks,
                padded(c, quotient_bound(m.size, m.columns, m.gates)),
                m.size,
            ) && c.len() <= quotient_bound(m.size, m.columns, m.gates) && self.divides(m, setup, c)
    }

    /// The full constraint is the product of `c` and `X^n - 1`.
    pub open spec fn divides(self, m: CircuitModel, setup: Setup, c: Seq<int>) -> bool {
        forall|x: int|
            (#[trigger] poly_eval(c, x) * (pow(x, m.size as nat) - 1)) % Scalar::modulus()
                == self.constraint_at(m, self.challenges(m, setup), x) % Scalar::modulus()
    }

    /// The full constraint is violated at some row.
    pub open spec fn violated(self, m: CircuitModel, setup: Setup) -> bool {
        exists|i: nat|
            i < m.size && #[trigger] self.constraint_at(
                m,
                self.challenges(m, setup),
                pow(domain_root(m.size), i),
            ) % Scalar::modulus() != 0
    }
}

/// The polynomial is the accumulator of the permutation argument: it is interpolated from an
/// accumulation that ends with 1.
pub open spec fn is_accumulator(
    c: Seq<int>,
    m: CircuitModel,
    table: Seq<Seq<int>>,
    beta: int,
    gamma: int,
) -> bool {
    exists|values: Seq<int>| #[trigger]
        is_accumulation(values, m, table, beta, gamma) && values[m.size] == 1 && interpolates(
            c,
            values.drop_last(),
        )
}

/// The accumulation does not end with 1.
pub open spec fn accumulation_fails(
    m: CircuitModel,
    table: Seq<Seq<int>>,
    beta: int,
    gamma: int,
) -> bool {
    exists|values: Seq<int>| #[trigger]
        is_accumulation(values, m, table, beta, gamma) && values[m.size] != 1
}

/// The opening is one of all polynomials at all required positions.
pub open spec fn is_opened(
    polys: Polynomials,
    m: CircuitModel,
    setup: Setup,
    opening: Opening,
) -> bool {
    let xi = polys.challenges(m, setup).xi;
    &&& opening_setup(opening) == setup
    &&& opening_roots(opening) == polys.roots(m, setup)
    &&& opening_count(opening) == polys.batches(m).flatten().len()
    &&& forall|z: int| #[trigger]
        opening_points(opening).contains_key(z) <==> opened_at(m, xi, z)
    &&& forall|z: int| #[trigger]
        opening_points(opening).contains_key(z) ==> opening_points(opening)[z] == evaluations(
            polys.batches(m).flatten(),
            z,
        )
    &&& opening_accepted(opening)
}

/// Polynomials would have to be opened at a position in the extended evaluation domain.
pub open spec fn opens_committed_point(polys: Polynomials, m: CircuitModel, setup: Setup) -> bool {
    exists|z: int| #[trigger]
        setup.is_committed_point(z) && opened_at(m, polys.challenges(m, setup).xi, z)
}

/// The permutation argument fails with a zero denominator.
pub open spec fn fails_by_zero(m: CircuitModel, table: Seq<Seq<int>>, setup: Setup) -> bool {
    exists|columns: Seq<Seq<int>>| #[trigger]
        columns_interpolate(columns, table) && has_zero_factor(
            m,
            table,
            early_challenge(m, setup, columns, beta_text()),
            early_challenge(m, setup, columns, gamma_text()),
        )
}

/// The permutation argument fails because the accumulation does not end with 1.
pub open spec fn fails_by_wraparound(m: CircuitModel, table: Seq<Seq<int>>, setup: Setup) -> bool {
    exists|columns: Seq<Seq<int>>| #[trigger]
        columns_interpolate(columns, table) && accumulation_fails(
            m,
            table,
            early_challenge(m, setup, columns, beta_text()),
            early_challenge(m, setup, columns, gamma_text()),
        )
}

/// The root hashes of the first batches.
pub proof fn lemma_roots_prefix(setup: Setup, batches: Seq<Seq<Seq<int>>>, k: int)
    requires
        0 <= k <= batches.len(),
    ensures
        merkle_roots(setup, batches).subrange(0, k) == merkle_roots(
            setup,
            batches.subrange(0, k),
        ),
{
    assert(merkle_roots(setup, batches).subrange(0, k) =~= merkle_roots(
        setup,
        batches.subrange(0, k),
    ));
}

/// Where the challenges come from.
pub proof fn lemma_challenges(polys: Polynomials, m: CircuitModel, setup: Setup)
    ensures
        polys.challenges(m, setup).beta == early_challenge(m, setup, polys.columns, beta_text()),
        polys.challenges(m, setup).gamma == early_challenge(m, setup, polys.columns, gamma_text()),
        polys.challenges(m, setup).delta == early_challenge(m, setup, polys.columns, delta_text()),
        polys.challenges(m, setup).alpha == challenge(
            setup.kind,
            merkle_roots(
                setup,
                first_batches(m, polys.columns).push(seq![polys.accumulator]),
            ),
            tag(alpha_text()),
        ),
        polys.challenges(m, setup).xi == challenge(
            setup.kind,
            polys.roots(m, setup),
            tag(xi_text()),
        ),
{
    let b = polys.batches(m);
    lemma_roots_prefix(setup, b, 2);
    lemma_roots_prefix(setup, b, 3);
    assert(b.subrange(0, 2) =~= first_batches(m, polys.columns));
    assert(b.subrange(0, 3) =~= first_batches(m, polys.columns).push(seq![polys.accumulator]));
    let roots = polys.roots(m, setup);
    assert(roots.subrange(0, 4) =~= roots);
}

} // verus!
