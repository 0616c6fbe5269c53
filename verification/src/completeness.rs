//! Laws about proofs.
use crate::argument::{
    challenges, gate_sum, identity_product, is_opened, is_rotated_point, is_row_point, is_split,
    lagrange0_at, lemma_full_constraint_cong, lemma_gate_sum_cong, lemma_split_residues, opened_at,
    padded, rotated_point, rotated_valuation, row_point, sigma_product, Polynomials,
};
use crate::arith::{inverse, is_inverse, lemma_cong_mul, lemma_mod_mul, lemma_small, mod_pow};
use crate::cell::Cell;
use crate::field::{Field, Scalar};
use crate::gate_argument::lemma_placed_gate;
use crate::model::{interpolates, opened_set, quotient_bound, quotient_chunks, CircuitModel};
use crate::pcs::{
    evaluations, opening_count, opening_points, opening_roots, opening_setup, HashBackend, Opening,
    Setup,
};
use crate::plonk::lemma_quotient_bound_nonnegative;
use crate::poly::{domain_root, is_lagrange0, lemma_eval_cong, poly_eval};
use crate::proving::{is_prove_result, Proof, ProvingError};
use crate::terms::{shift_terms, terms_have};
use crate::variable::Variable;
use crate::verifying::{
    compress, is_public_entry, is_verify_result, lemma_rotation_opened, VerificationError,
};
use crate::witness::Witness;
use vstd::arithmetic::div_mod::lemma_mod_twice;
use vstd::arithmetic::power::{lemma_pow0, lemma_pow1, pow};
use vstd::prelude::*;

verus! {

/// All polynomials of a proof, in order.
spec fn all_polynomials(polys: Polynomials, m: CircuitModel) -> Seq<Seq<int>> {
    m.selectors + m.sigma + polys.columns + seq![polys.accumulator] + polys.chunks
}

/// The order of the polynomials.
proof fn lemma_flatten(polys: Polynomials, m: CircuitModel)
    ensures
        polys.batches(m).flatten() == all_polynomials(polys, m),
{
    let b = polys.batches(m);
    let b1 = b.drop_first();
    let b2 = b1.drop_first();
    let b3 = b2.drop_first();
    let b4 = b3.drop_first();
    assert(b4 =~= seq![]);
    assert(b4.flatten() =~= seq![]);
    assert(b3.flatten() =~= polys.chunks);
    assert(b2.flatten() =~= seq![polys.accumulator] + polys.chunks);
    assert(b1.flatten() =~= polys.columns + (seq![polys.accumulator] + polys.chunks));
    assert(b.flatten() =~= (m.selectors + m.sigma) + (polys.columns + (seq![polys.accumulator]
        + polys.chunks)));
    assert(b.flatten() =~= all_polynomials(polys, m));
}

/// The position of no rotation.
proof fn lemma_point_zero(size: int, xi: int)
    ensures
        rotated_point(size, xi, 0) == xi % Scalar::modulus(),
{
    let p = Scalar::modulus();
    Scalar::lemma_modulus();
    lemma_pow0(domain_root(size));
    lemma_small(1, p);
    assert(xi * 1 == xi);
}

/// Positions of rotations, without reduction.
proof fn lemma_point_cong(size: int, xi: int, r: isize)
    ensures
        rotated_point(size, xi, r) % Scalar::modulus() == (mod_pow(
            domain_root(size),
            r as int,
            Scalar::modulus(),
        ) * xi) % Scalar::modulus(),
{
    let p = Scalar::modulus();
    Scalar::lemma_modulus();
    let w = mod_pow(domain_root(size), r as int, p);
    assert(xi * w == w * xi) by (nonlinear_arith);
    lemma_mod_twice(xi * w, p);
}

/// The position of the next row.
proof fn lemma_point_one(size: int, xi: int)
    ensures
        rotated_point(size, xi, 1) % Scalar::modulus() == (domain_root(size) * xi)
            % Scalar::modulus(),
{
    let p = Scalar::modulus();
    Scalar::lemma_modulus();
    let w = domain_root(size);
    lemma_point_cong(size, xi, 1);
    lemma_pow1(w);
    lemma_mod_mul(w, xi, p);
}

/// The two ways to calculate the value of the Lagrange polynomial give the same result.
proof fn lemma_lagrange(c: Seq<int>, n: int, x: int)
    requires
        is_lagrange0(c, n),
        crate::arith::invertible((n * (x - 1)) % Scalar::modulus(), Scalar::modulus()),
    ensures
        lagrange0_at(x, n) % Scalar::modulus() == poly_eval(c, x) % Scalar::modulus(),
{
    let p = Scalar::modulus();
    Scalar::lemma_modulus();
    let d = n * (x - 1);
    let r = inverse(d % p, p);
    assert(is_inverse(d % p, r, p));
    let l = poly_eval(c, x);
    let t = pow(x, n as nat) - 1;
    assert((d * l) % p == t % p);
    lemma_mod_mul(d, r, p);
    lemma_small(1, p);
    assert((d * r) % p == 1int % p);
    lemma_cong_mul(t, d * l, r, r, p);
    assert((d * l) * r == l * (d * r)) by (nonlinear_arith);
    lemma_cong_mul(l, l, d * r, 1, p);
    assert(l * 1 == l);
    lemma_mod_twice(t * r, p);
}

/// The values that are opened for a proof.
spec fn is_honest(polys: Polynomials, m: CircuitModel, setup: Setup, o: Opening) -> bool {
    &&& m.wf()
    &&& m.columns > 0
    &&& polys.columns.len() == m.columns
    &&& is_lagrange0(polys.lagrange, m.size)
    &&& polys.has_quotient(m, setup)
    &&& is_opened(polys, m, setup, o)
}

/// The number of polynomials.
proof fn lemma_count(polys: Polynomials, m: CircuitModel, setup: Setup)
    requires
        m.wf(),
        polys.columns.len() == m.columns,
        polys.has_quotient(m, setup),
    ensures
        polys.chunks.len() == quotient_chunks(m.size, m.columns, m.gates),
        all_polynomials(polys, m).len() == compress(m, setup).num_polynomials(),
{
    let bound = quotient_bound(m.size, m.columns, m.gates);
    lemma_quotient_bound_nonnegative(m.size, m.columns, m.gates);
    let c = choose|c: Seq<int>| #[trigger]
        is_split(polys.chunks, padded(c, bound), m.size) && c.len() <= bound && polys.divides(
            m,
            setup,
            c,
        );
    assert(padded(c, bound).len() == bound);
}

/// The opened value of a column at the position of a rotation.
proof fn lemma_opened_column(
    polys: Polynomials,
    m: CircuitModel,
    setup: Setup,
    o: Opening,
    v: Variable,
)
    requires
        is_honest(polys, m, setup, o),
        opened_set(m.gates).contains(v.rotation),
        v.column_index < m.columns,
    ensures
        compress(m, setup).opened_valuation(polys.challenges(m, setup), o)(v) % Scalar::modulus()
            == rotated_valuation(
            polys.columns,
            domain_root(m.size),
            polys.challenges(m, setup).xi,
        )(v) % Scalar::modulus(),
{
    let p = Scalar::modulus();
    Scalar::lemma_modulus();
    let xi = polys.challenges(m, setup).xi;
    let all = all_polynomials(polys, m);
    lemma_flatten(polys, m);
    let z = rotated_point(m.size, xi, v.rotation);
    assert(is_rotated_point(m, xi, v.rotation, z));
    assert(opened_at(m, xi, z));
    assert(opening_points(o).contains_key(z));
    assert(opening_points(o)[z] == evaluations(all, z));
    let k = m.selectors.len() + m.columns + v.column_index;
    let column = polys.columns[v.column_index as int];
    assert(all[k] == column);
    assert(evaluations(all, z)[k] == poly_eval(column, z) % p);
    lemma_point_cong(m.size, xi, v.rotation);
    lemma_eval_cong(
        column,
        z,
        mod_pow(domain_root(m.size), v.rotation as int, p) * xi,
        p,
    );
    lemma_mod_twice(poly_eval(column, z), p);
}

/// The opened values satisfy the equation that is checked.
proof fn lemma_equation(polys: Polynomials, m: CircuitModel, setup: Setup, o: Opening)
    requires
        is_honest(polys, m, setup, o),
        crate::arith::invertible(
            (m.size * (polys.challenges(m, setup).xi - 1)) % Scalar::modulus(),
            Scalar::modulus(),
        ),
    ensures
        compress(m, setup).equation_holds(polys.challenges(m, setup), o),
{
    let p = Scalar::modulus();
    Scalar::lemma_modulus();
    let c = compress(m, setup);
    let ch = polys.challenges(m, setup);
    let xi = ch.xi;
    let omega = domain_root(m.size);
    let all = all_polynomials(polys, m);
    lemma_flatten(polys, m);
    lemma_count(polys, m, setup);
    let (s, n) = (c.selectors, c.columns);
    let (z0, z1) = (rotated_point(m.size, xi, 0), rotated_point(m.size, xi, 1));
    assert(opened_set(m.gates).contains(0isize) && opened_set(m.gates).contains(1isize));
    assert(is_rotated_point(m, xi, 0isize, z0) && is_rotated_point(m, xi, 1isize, z1));
    assert(opened_at(m, xi, z0) && opened_at(m, xi, z1));
    assert(opening_points(o).contains_key(z0) && opening_points(o).contains_key(z1));
    let here = opening_points(o)[z0];
    let next = opening_points(o)[z1];
    assert(here == evaluations(all, z0) && next == evaluations(all, z1));
    lemma_point_zero(m.size, xi);
    lemma_mod_twice(xi, p);
    lemma_point_one(m.size, xi);
    assert forall|i: int| 0 <= i < all.len() implies (#[trigger] here[i]) == poly_eval(all[i], xi)
        % p by {
        lemma_eval_cong(all[i], z0, xi, p);
    }
    let columns = here.subrange(s + n, s + n + n);
    let sigmas = here.subrange(s, s + n);
    let chunks = here.subrange(s + n + n + 1, s + n + n + 1 + c.chunks());
    assert forall|j: int| 0 <= j < n implies #[trigger] columns[j] == evaluations(
        polys.columns,
        xi,
    )[j] by {
        assert(columns[j] == here[s + n + j]);
        assert(all[s + n + j] == polys.columns[j]);
    }
    assert(columns =~= evaluations(polys.columns, xi));
    assert forall|j: int| 0 <= j < n implies #[trigger] sigmas[j] == evaluations(m.sigma, xi)[j] by {
        assert(sigmas[j] == here[s + j]);
        assert(all[s + j] == m.sigma[j]);
    }
    assert(sigmas =~= evaluations(m.sigma, xi));
    assert forall|j: int| 0 <= j < c.chunks() implies #[trigger] chunks[j] == evaluations(
        polys.chunks,
        xi,
    )[j] by {
        assert(chunks[j] == here[s + n + n + 1 + j]);
        assert(all[s + n + n + 1 + j] == polys.chunks[j]);
    }
    assert(chunks =~= evaluations(polys.chunks, xi));
    let acc = polys.accumulator;
    assert(all[s + n + n] == acc);
    lemma_eval_cong(acc, z1, omega * xi, p);
    // the gates
    let u = c.opened_valuation(ch, o);
    let w = rotated_valuation(polys.columns, omega, xi);
    let e = evaluations(m.selectors, xi);
    assert forall|i: int| 0 <= i < m.gates.len() implies crate::expr::canonical(
        shift_terms((#[trigger] m.gates[i]).terms, m.gates[i].column),
    ) && here[m.gates[i].selector] % p == e[m.gates[i].selector] % p
        && crate::argument::agree_on(m.gates[i], u, w) by {
        let g = m.gates[i];
        assert(m.placement_wf(g));
        lemma_placed_gate(m, g);
        assert(0 <= g.selector < m.selectors.len());
        assert(all[g.selector] == m.selectors[g.selector]);
        assert(here[g.selector] == e[g.selector]);
        assert forall|v: Variable| #[trigger]
            terms_have(shift_terms(g.terms, g.column), v) implies u(v) % p == w(v) % p by {
            lemma_rotation_opened(m, i, v);
            lemma_opened_column(polys, m, setup, o, v);
        }
    }
    lemma_gate_sum_cong(m.gates, here, e, u, w, ch.delta);
    lemma_lagrange(polys.lagrange, m.size, xi);
    let got = seq![
        gate_sum(m.gates, here, u, ch.delta),
        here[s + n + n],
        next[s + n + n],
        identity_product(columns, xi, ch.beta, ch.gamma),
        sigma_product(columns, sigmas, ch.beta, ch.gamma),
        lagrange0_at(xi, m.size),
    ];
    let want = seq![
        gate_sum(m.gates, e, w, ch.delta),
        poly_eval(acc, xi),
        poly_eval(acc, omega * xi),
        identity_product(columns, xi, ch.beta, ch.gamma),
        sigma_product(columns, sigmas, ch.beta, ch.gamma),
        poly_eval(polys.lagrange, xi),
    ];
    lemma_mod_twice(poly_eval(acc, xi), p);
    lemma_mod_twice(poly_eval(acc, z1), p);
    assert forall|i: int| 0 <= i < 6 implies (#[trigger] got[i]) % p == want[i] % p by {}
    lemma_full_constraint_cong(got, want, ch.alpha, p);
    // the quotient
    let bound = quotient_bound(m.size, m.columns, m.gates);
    let q = choose|q: Seq<int>| #[trigger]
        is_split(polys.chunks, padded(q, bound), m.size) && q.len() <= bound && polys.divides(
            m,
            setup,
            q,
        );
    lemma_split_residues(polys.chunks, q, m.size, bound, xi);
    let power = pow(xi, m.size as nat);
    lemma_cong_mul(poly_eval(chunks, power), poly_eval(q, xi), power - 1, power - 1, p);
    assert((poly_eval(q, xi) * (power - 1)) % p == polys.constraint_at(m, ch, xi) % p);
}

/// A proof that was made for a witness is accepted, and the revealed values are those of the
/// witness, unless the position at which polynomials are opened happens to be 1.
pub proof fn law_proofs_are_accepted<H: HashBackend>(
    m: CircuitModel,
    witness: Witness,
    setup: Setup,
    proof: Proof<H>,
    ret: Result<Vec<(Cell, Scalar)>, VerificationError>,
)
    requires
        m.wf(),
        m.columns > 0,
        setup.degree_bound == m.size,
        m.fits_table(witness.table()),
        is_prove_result(Ok::<Proof<H>, ProvingError>(proof), m, witness, setup),
        is_verify_result(ret, compress(m, setup), proof.opening()),
        challenges(setup, opening_roots(proof.opening())).xi != 1,
    ensures
        ret matches Ok(list) && list@.len() == m.public_rows.len() * m.columns && forall|
            i: int,
            j: int,
        |
            0 <= i < m.public_rows.len() && 0 <= j < m.columns && m.public_rows[i] < m.size
                ==> #[trigger] is_public_entry(
                list@[i * m.columns + j],
                m.public_rows[i],
                j,
                witness.table()[j][m.public_rows[i] as int],
            ),
{
    let p = Scalar::modulus();
    Scalar::lemma_modulus();
    let o = proof.opening();
    let c = compress(m, setup);
    let table = witness.table();
    let polys = choose|polys: Polynomials| #[trigger]
        polys.fit(m, table, setup) && polys.has_quotient(m, setup) && is_opened(polys, m, setup, o);
    let ch = polys.challenges(m, setup);
    let all = all_polynomials(polys, m);
    assert(is_honest(polys, m, setup, o));
    assert(polys.batches(m)[0] == m.selectors + m.sigma);
    assert(opening_roots(o).len() == 4);
    assert(opening_roots(o)[0] == c.root);
    lemma_flatten(polys, m);
    lemma_count(polys, m, setup);
    assert(c.opens_rotations(ch, o)) by {
        assert forall|r: isize| opened_set(c.gates).contains(r) implies #[trigger] c.opens_rotation(
            ch,
            o,
            r,
        ) by {
            assert(is_rotated_point(m, ch.xi, r, c.point(ch, r)));
            assert(opened_at(m, ch.xi, c.point(ch, r)));
        }
    }
    assert(c.opens_rows(o)) by {
        assert forall|i: int| 0 <= i < c.public_rows.len() implies c.opens_row(
            o,
            #[trigger] c.public_rows[i],
        ) by {
            let z = row_point(m.size, m.public_rows[i]);
            assert(is_row_point(m, i, z));
            assert(opened_at(m, ch.xi, z));
        }
    }
    lemma_equation(polys, m, setup, o);
    let list = (ret->Ok_0)@;
    assert(c.is_public_list(list, o));
    assert forall|i: int, j: int|
        0 <= i < m.public_rows.len() && 0 <= j < m.columns && m.public_rows[i]
            < m.size implies #[trigger] is_public_entry(
        list[i * m.columns + j],
        m.public_rows[i],
        j,
        table[j][m.public_rows[i] as int],
    ) by {
        let row = m.public_rows[i];
        let z = row_point(m.size, row);
        assert(is_row_point(m, i, z));
        assert(opened_at(m, ch.xi, z));
        assert(opening_points(o).contains_key(z));
        let k = c.selectors + c.columns + j;
        assert(all[k] == polys.columns[j]);
        assert(opening_points(o)[z][k] == poly_eval(polys.columns[j], z) % p);
        assert(interpolates(polys.columns[j], table[j]));
        assert(table[j].len() == m.size);
        let x = pow(domain_root(m.size), row as nat);
        lemma_mod_twice(x, p);
        lemma_eval_cong(polys.columns[j], z, x, p);
        assert(poly_eval(polys.columns[j], pow(domain_root(m.size), row as nat)) % p
            == table[j][row as int]);
        assert(is_public_entry(list[i * c.columns + j], c.public_rows[i], j, opening_points(
            o,
        )[row_point(c.size, c.public_rows[i])][c.selectors + c.columns + j]));
    }
}

/// A proof has the dimensions of the circuit: its degree bound is the padded number of rows, and the
/// committed polynomials are the selectors, the permutation polynomials, the columns, the accumulator
/// and the chunks of the quotient.
pub proof fn law_proof_dimensions<H: HashBackend>(
    m: CircuitModel,
    witness: Witness,
    setup: Setup,
    proof: Proof<H>,
)
    requires
        m.wf(),
        m.columns > 0,
        is_prove_result(Ok::<Proof<H>, ProvingError>(proof), m, witness, setup),
    ensures
        opening_setup(proof.opening()) == setup,
        opening_count(proof.opening()) == m.active.len() + 2 * m.columns + 1 + quotient_chunks(
            m.size,
            m.columns,
            m.gates,
        ),
{
    let table = witness.table();
    let polys = choose|polys: Polynomials| #[trigger]
        polys.fit(m, table, setup) && polys.has_quotient(m, setup) && is_opened(
            polys,
            m,
            setup,
            proof.opening(),
        );
    lemma_flatten(polys, m);
    lemma_count(polys, m, setup);
}

/// A proof is only made if the full constraint is zero at the positions of all rows.
pub proof fn law_violations_are_not_proved<H: HashBackend>(
    m: CircuitModel,
    witness: Witness,
    setup: Setup,
    proof: Proof<H>,
)
    requires
        m.wf(),
        is_prove_result(Ok::<Proof<H>, ProvingError>(proof), m, witness, setup),
    ensures
        exists|polys: Polynomials| #[trigger]
            polys.fit(m, witness.table(), setup) && !polys.violated(m, setup),
{
    let p = Scalar::modulus();
    Scalar::lemma_modulus();
    let table = witness.table();
    let polys = choose|polys: Polynomials| #[trigger]
        polys.fit(m, table, setup) && polys.has_quotient(m, setup) && is_opened(
            polys,
            m,
            setup,
            proof.opening(),
        );
    let bound = quotient_bound(m.size, m.columns, m.gates);
    let q = choose|q: Seq<int>| #[trigger]
        is_split(polys.chunks, padded(q, bound), m.size) && q.len() <= bound && polys.divides(
            m,
            setup,
            q,
        );
    let ch = polys.challenges(m, setup);
    let w = domain_root(m.size);
    assert forall|i: nat| i < m.size implies #[trigger] polys.constraint_at(m, ch, pow(w, i)) % p
        == 0 by {
        let x = pow(w, i);
        // x^n == w^(i * n) == (w^n)^i == 1
        vstd::arithmetic::power::lemma_pow_multiplies(w, i, m.size as nat);
        vstd::arithmetic::power::lemma_pow_multiplies(w, m.size as nat, i);
        assert(i * m.size == m.size * i) by (nonlinear_arith);
        lemma_small(1, p);
        lemma_small(0, p);
        crate::arith::lemma_cong_pow(pow(w, m.size as nat), 1, i, p);
        vstd::arithmetic::power::lemma1_pow(i);
        let y = pow(x, m.size as nat);
        assert(y % p == 1);
        crate::arith::lemma_cong_sub(y, 1, 1, 1, p);
        let v = poly_eval(q, x);
        lemma_cong_mul(v, v, y - 1, 0, p);
        assert(v * 0 == 0);
        assert((v * (y - 1)) % p == polys.constraint_at(m, ch, x) % p);
    }
}

} // verus!
