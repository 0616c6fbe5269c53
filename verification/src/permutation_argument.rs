//! The part of the prover that deals with connections of cells.
use crate::argument::{
    accumulation_fails, cell_factor, has_zero_factor, identity_product, is_accumulation,
    is_accumulator, lemma_factor_cong, row_denominator, row_numerator, row_targets, row_values,
    sigma_product,
};
use crate::arith::{
    invertible, is_inverse, lemma_cong_add, lemma_cong_mul, lemma_cong_sub, lemma_mod_add,
    lemma_mod_mul, lemma_small,
};
use crate::cell::Cell;
use crate::field::{equal, multiplicative_generator, one, Field, Scalar};
use crate::gate_argument::{columns_fit, lemma_product_bound, product_bound};
use crate::model::{sigma_values, CircuitModel};
use crate::pcs::evaluations;
use crate::plonk::{encode_column, Circuit};
use crate::poly::{
    coefficient_lists, domain_element, domain_root, is_lagrange0, max_domain_size, poly_eval,
    Polynomial,
};
use crate::proving::ProvingError;
use crate::witness::{residues, Witness, WitnessView};
use vstd::arithmetic::power::{lemma_pow0, lemma_pow1, lemma_pow_adds, pow};
use vstd::prelude::*;

verus! {

/// Multiplying with one more factor, and dividing by another.
proof fn lemma_accumulate(
    a: int,
    current: int,
    next: int,
    num: int,
    den: int,
    f: int,
    g: int,
    r: int,
    p: int,
)
    requires
        p > 1,
        (current * den) % p == (a * num) % p,
        (g * r) % p == 1,
        next % p == (current * f * r) % p,
    ensures
        (next * (den * g)) % p == (a * (num * f)) % p,
{
    lemma_cong_mul(next, current * f * r, den * g, den * g, p);
    assert((current * f * r) * (den * g) == (current * den) * (f * (g * r))) by (nonlinear_arith);
    lemma_small(1, p);
    lemma_cong_mul(f, f, g * r, 1, p);
    assert(f * 1 == f);
    lemma_cong_mul(current * den, a * num, f * (g * r), f, p);
    assert((a * num) * f == a * (num * f)) by (nonlinear_arith);
}

impl Circuit {
    /// Calculates the residues of the permutation accumulator for one row after the other. The
    /// `current` residue is that of row `i`, and that of the next row is returned.
    fn accumulate_row(
        &self,
        witness: &Witness,
        beta: Scalar,
        gamma: Scalar,
        i: usize,
        omega_power: Scalar,
        current: Scalar,
    ) -> (ret: Option<Scalar>)
        requires
            witness.table().len() == self.model().columns,
            witness.spec_degree_bound() == self.model().size,
            i < self.model().size,
            omega_power.value() == pow(domain_root(self.model().size), i as nat)
                % Scalar::modulus(),
        ensures
            match ret {
                Some(next) => invertible(
                    row_denominator(
                        self.model(),
                        witness.table(),
                        beta.value(),
                        gamma.value(),
                        i as int,
                    ),
                    Scalar::modulus(),
                ) && (next.value() * row_denominator(
                    self.model(),
                    witness.table(),
                    beta.value(),
                    gamma.value(),
                    i as int,
                )) % Scalar::modulus() == (current.value() * row_numerator(
                    self.model(),
                    witness.table(),
                    beta.value(),
                    gamma.value(),
                    i as int,
                )) % Scalar::modulus(),
                None => has_zero_factor(
                    self.model(),
                    witness.table(),
                    beta.value(),
                    gamma.value(),
                ),
            },
    {
        let ghost m = self.model();
        let ghost p = Scalar::modulus();
        let ghost table = witness.table();
        let ghost (b, c) = (beta.value(), gamma.value());
        let ghost values = row_values(table, i as int);
        let ghost targets = row_targets(m, i as int);
        let ghost w = pow(domain_root(m.size), i as nat);
        proof {
            use_type_invariant(self);
            Scalar::lemma_modulus();
            lemma_pow0(5);
            lemma_small(1, p);
            assert(values.subrange(0, 0) =~= seq![]);
        }
        let generator = multiplicative_generator();
        let mut next = current;
        let mut generator_power = one::<Scalar>();
        let ghost mut opposite: int = 1;
        let mut j: usize = 0;
        while j < self.num_columns
            invariant
                j <= self.num_columns,
                m == self.model(),
                self.wf(),
                p == Scalar::modulus(),
                p > 1,
                (sigma_product(values.subrange(0, j as int), targets, b, c) * opposite) % p == 1,
                table == witness.table(),
                table.len() == m.columns,
                witness.spec_degree_bound() == m.size,
                i < m.size,
                b == beta.value(),
                c == gamma.value(),
                values == row_values(table, i as int),
                targets == row_targets(m, i as int),
                w == pow(domain_root(m.size), i as nat),
                omega_power.value() == w % p,
                generator.value() == 5,
                generator_power.value() == pow(5, j as nat) % p,
                (next.value() * sigma_product(values.subrange(0, j as int), targets, b, c)) % p == (
                current.value() * identity_product(values.subrange(0, j as int), w, b, c)) % p,
            decreases self.num_columns - j,
        {
            let value = witness.get_at(Cell::new(i, j));
            proof {
                assert(m.targets[j as int].len() == m.size);
                assert(residues(self.sigma_values@[j as int]@) == sigma_values(
                    self.targets@[j as int]@,
                    m.size,
                ));
                assert(residues(self.sigma_values@[j as int]@).len() == m.size);
                assert(residues(self.sigma_values@[j as int]@)[i as int] == targets[j as int]);
            }
            let sigma = self.sigma_values[j][i];
            let position = generator_power.times(omega_power);
            let factor = value.plus(beta.times(position)).plus(gamma);
            let divisor = value.plus(beta.times(sigma)).plus(gamma);
            let ghost g = pow(5, j as nat);
            proof {
                assert(sigma.value() == targets[j as int]);
                assert(value.value() == table[j as int][i as int]);
                lemma_mod_mul(g, w, p);
                assert(position.value() == (g * w) % p);
                lemma_mod_mul(b, g * w, p);
                lemma_mod_add(value.value(), b * (g * w), p);
                lemma_mod_add(value.value() + b * (g * w), c, p);
                lemma_mod_add(value.value(), b * sigma.value(), p);
                lemma_mod_add(value.value() + b * sigma.value(), c, p);
                assert(factor.value() == cell_factor(value.value(), g * w, b, c) % p);
                assert(divisor.value() == cell_factor(value.value(), targets[j as int], b, c) % p);
            }
            match divisor.invert() {
                None => {
                    proof {
                        assert(cell_factor(
                            table[j as int][i as int],
                            row_targets(m, i as int)[j as int],
                            b,
                            c,
                        ) % p == 0);
                    }
                    return None;
                },
                Some(reciprocal) => {
                    let ghost before = next.value();
                    next = next.times(factor).times(reciprocal);
                    proof {
                        let prefix = values.subrange(0, j + 1);
                        assert(prefix.drop_last() =~= values.subrange(0, j as int));
                        assert(prefix.last() == value.value());
                        let f = cell_factor(value.value(), g * w, b, c);
                        let q = cell_factor(value.value(), targets[j as int], b, c);
                        let r = reciprocal.value();
                        lemma_mod_mul(q, r, p);
                        let s = sigma_product(values.subrange(0, j as int), targets, b, c);
                        lemma_small(1, p);
                        lemma_cong_mul(s * opposite, 1, q * r, 1, p);
                        assert((s * opposite) * (q * r) == (s * q) * (opposite * r))
                            by (nonlinear_arith);
                        opposite = opposite * r;
                        lemma_mod_mul(before, f, p);
                        lemma_mod_mul(before * f, r, p);
                        vstd::arithmetic::div_mod::lemma_mod_twice(before * f * r, p);
                        lemma_accumulate(
                            current.value(),
                            before,
                            next.value(),
                            identity_product(values.subrange(0, j as int), w, b, c),
                            sigma_product(values.subrange(0, j as int), targets, b, c),
                            f,
                            q,
                            r,
                            p,
                        );
                        lemma_pow_adds(5, j as nat, 1);
                        lemma_pow1(5);
                        lemma_mod_mul(g, 5, p);
                    }
                },
            }
            generator_power = generator_power.times(generator);
            j += 1;
        }
        proof {
            assert(values.subrange(0, values.len() as int) =~= values);
            let den = sigma_product(values, targets, b, c);
            lemma_mod_mul(den, opposite, p);
            assert(is_inverse(den, opposite % p, p));
        }
        Some(next)
    }

    /// Calculates the residues of the permutation accumulator.
    fn accumulate(&self, witness: &Witness, beta: Scalar, gamma: Scalar) -> (ret: Result<
        Vec<Scalar>,
        ProvingError,
    >)
        requires
            witness.table().len() == self.model().columns,
            witness.spec_degree_bound() == self.model().size,
        ensures
            match ret {
                Ok(values) => {
                    &&& values@.len() == self.model().size
                    &&& is_accumulation(
                        residues(values@).push(1),
                        self.model(),
                        witness.table(),
                        beta.value(),
                        gamma.value(),
                    )
                },
                Err(ProvingError::ZeroDenominator) => has_zero_factor(
                    self.model(),
                    witness.table(),
                    beta.value(),
                    gamma.value(),
                ),
                Err(ProvingError::Wraparound) => accumulation_fails(
                    self.model(),
                    witness.table(),
                    beta.value(),
                    gamma.value(),
                ),
                Err(_) => false,
            },
    {
        let ghost m = self.model();
        let ghost p = Scalar::modulus();
        let ghost table = witness.table();
        let ghost (b, c) = (beta.value(), gamma.value());
        let ghost root = domain_root(m.size);
        proof {
            use_type_invariant(self);
            Scalar::lemma_modulus();
            lemma_pow0(root);
            lemma_small(1, p);
        }
        let omega = domain_element(self.degree_bound);
        let mut values: Vec<Scalar> = Vec::new();
        let mut current = one::<Scalar>();
        let mut omega_power = one::<Scalar>();
        let mut i: usize = 0;
        while i < self.degree_bound
            invariant
                i <= self.degree_bound,
                m == self.model(),
                self.wf(),
                p == Scalar::modulus(),
                p > 1,
                table == witness.table(),
                table.len() == m.columns,
                witness.spec_degree_bound() == m.size,
                b == beta.value(),
                c == gamma.value(),
                root == domain_root(m.size),
                omega.value() == root,
                omega_power.value() == pow(root, i as nat) % p,
                values@.len() == i,
                i == 0 ==> current.value() == 1,
                i > 0 ==> values@[0].value() == 1,
                forall|k: int|
                    0 <= k < i ==> invertible(#[trigger] row_denominator(m, table, b, c, k), p) && (
                    (if k + 1 < i {
                        values@[k + 1].value()
                    } else {
                        current.value()
                    }) * row_denominator(m, table, b, c, k)) % p == (values@[k].value()
                        * row_numerator(m, table, b, c, k)) % p,
            decreases self.degree_bound - i,
        {
            let ghost before = values@;
            match self.accumulate_row(witness, beta, gamma, i, omega_power, current) {
                None => {
                    return Err(ProvingError::ZeroDenominator);
                },
                Some(next) => {
                    values.push(current);
                    proof {
                        assert forall|k: int| 0 <= k < i + 1 implies invertible(
                            #[trigger] row_denominator(m, table, b, c, k),
                            p,
                        ) && ((if k + 1 < i + 1 {
                            values@[k + 1].value()
                        } else {
                            next.value()
                        }) * row_denominator(m, table, b, c, k)) % p == (
                        values@[k].value() * row_numerator(m, table, b, c, k)) % p by {
                            if k < i {
                                assert(values@[k] == before[k]);
                            }
                        }
                        lemma_pow_adds(root, i as nat, 1);
                        lemma_pow1(root);
                        lemma_mod_mul(pow(root, i as nat), root, p);
                    }
                    current = next;
                },
            }
            omega_power = omega_power.times(omega);
            i += 1;
        }
        proof {
            let list = residues(values@).push(current.value());
            assert(list[0] == 1);
            assert forall|k: int| 0 <= k < list.len() implies 0 <= #[trigger] list[k] < p by {
                if k < values@.len() {
                    values@[k].lemma_value_bounds();
                } else {
                    current.lemma_value_bounds();
                }
            }
            assert forall|k: int| 0 <= k < m.size implies invertible(
                #[trigger] row_denominator(m, table, b, c, k),
                p,
            ) && (list[k + 1] * row_denominator(m, table, b, c, k)) % p == (list[k] * row_numerator(
                m,
                table,
                b,
                c,
                k,
            )) % p by {}
            assert(is_accumulation(list, m, table, b, c));
            assert(list[m.size] == current.value());
        }
        if !equal(current, one::<Scalar>()) {
            proof {
                let list = residues(values@).push(current.value());
                assert(list[m.size] != 1);
                assert(accumulation_fails(m, table, b, c));
            }
            return Err(ProvingError::Wraparound);
        }
        Ok(values)
    }
}

/// One more column in a list of evaluations.
proof fn lemma_evaluations_prefix(lists: Seq<Seq<int>>, x: int, j: int)
    requires
        0 <= j < lists.len(),
    ensures
        evaluations(lists, x).subrange(0, j + 1).drop_last() == evaluations(lists, x).subrange(
            0,
            j,
        ),
        evaluations(lists, x).subrange(0, j + 1).last() == poly_eval(lists[j], x)
            % Scalar::modulus(),
{
    let e = evaluations(lists, x);
    assert(e.subrange(0, j + 1).drop_last() =~= e.subrange(0, j));
}

/// Bounds on the number of coefficients of products.
proof fn lemma_next_bound(m: CircuitModel, j: int)
    requires
        m.sizes_wf(),
        m.quotient_fits(),
        0 <= j < m.columns,
    ensures
        product_bound(m.size, j) + m.size <= max_domain_size(),
        product_bound(m.size, j) + m.size - 1 <= product_bound(m.size, j + 1),
        product_bound(m.size, j) >= 1,
{
    lemma_product_bound(m, j);
    let n = m.size;
    assert((n - 1) * (1 + j) + 1 + n - 1 <= (n - 1) * (1 + (j + 1)) + 1) by (nonlinear_arith);
}

/// The polynomial with two coefficients.
proof fn lemma_linear_eval(c: Seq<int>, a: int, b: int, x: int)
    requires
        c == seq![a, b],
    ensures
        poly_eval(c, x) == a + x * b,
{
    assert(c.drop_first() =~= seq![b]);
    assert(c.drop_first().drop_first() =~= seq![]);
    reveal_with_fuel(poly_eval, 3);
    assert(x * 0 == 0);
    assert(b + 0 == b);
}

impl Circuit {
    /// Multiplies a polynomial with the factors `column + beta * sigma + gamma`.
    fn multiply_denominators(
        &self,
        start: Polynomial,
        columns: &Vec<Polynomial>,
        beta: Scalar,
        gamma: Scalar,
    ) -> (ret: Polynomial)
        requires
            columns_fit(self.model(), coefficient_lists(columns@)),
            self.model().quotient_fits(),
            start@.len() <= self.model().size,
        ensures
            ret@.len() <= product_bound(self.model().size, self.model().columns),
            forall|x: int| #[trigger]
                poly_eval(ret@, x) % Scalar::modulus() == (poly_eval(start@, x) * sigma_product(
                    evaluations(coefficient_lists(columns@), x),
                    evaluations(self.model().sigma, x),
                    beta.value(),
                    gamma.value(),
                )) % Scalar::modulus(),
    {
        let ghost m = self.model();
        let ghost p = Scalar::modulus();
        let ghost lists = coefficient_lists(columns@);
        let ghost (b, c) = (beta.value(), gamma.value());
        let constant = Polynomial::constant(gamma);
        let ghost first = start@;
        let mut product = start;
        let mut j: usize = 0;
        proof {
            use_type_invariant(self);
            Scalar::lemma_modulus();
            lemma_product_bound(m, 0);
            assert forall|x: int| #[trigger] poly_eval(product@, x) % p == (poly_eval(first, x)
                * sigma_product(
                evaluations(lists, x).subrange(0, 0),
                evaluations(m.sigma, x),
                b,
                c,
            )) % p by {
                let y = poly_eval(first, x);
                assert(y * 1 == y);
            }
        }
        while j < self.num_columns
            invariant
                j <= self.num_columns,
                m == self.model(),
                self.wf(),
                m.quotient_fits(),
                p == Scalar::modulus(),
                p > 1,
                lists == coefficient_lists(columns@),
                columns_fit(m, lists),
                b == beta.value(),
                c == gamma.value(),
                constant@ == seq![c],
                forall|x: int| #[trigger] poly_eval(constant@, x) == c,
                product@.len() <= product_bound(m.size, j as int),
                forall|x: int| #[trigger]
                    poly_eval(product@, x) % p == (poly_eval(first, x) * sigma_product(
                        evaluations(lists, x).subrange(0, j as int),
                        evaluations(m.sigma, x),
                        b,
                        c,
                    )) % p,
            decreases self.num_columns - j,
        {
            let column = &columns[j];
            let sigma = &self.sigma[j];
            proof {
                lemma_next_bound(m, j as int);
                assert(lists[j as int].len() <= m.size);
                assert(m.sigma[j as int] == sigma@);
                assert(sigma@.len() <= m.size);
            }
            let scaled = sigma.scaled(beta);
            let sum = column.plus(&scaled);
            let factor = sum.plus(&constant);
            let next = product.times(&factor);
            proof {
                assert forall|x: int| #[trigger] poly_eval(next@, x) % p == (poly_eval(first, x)
                    * sigma_product(
                    evaluations(lists, x).subrange(0, j + 1),
                    evaluations(m.sigma, x),
                    b,
                    c,
                )) % p by {
                    let e = evaluations(lists, x);
                    let s = evaluations(m.sigma, x);
                    lemma_evaluations_prefix(lists, x, j as int);
                    let (u, v) = (poly_eval(column@, x), poly_eval(sigma@, x));
                    assert(s[j as int] == v % p);
                    let f = cell_factor(u % p, s[j as int], b, c);
                    vstd::arithmetic::div_mod::lemma_mod_twice(u, p);
                    vstd::arithmetic::div_mod::lemma_mod_twice(v, p);
                    lemma_factor_cong(u, u % p, v, v % p, b, c, p);
                    assert(v * b == b * v) by (nonlinear_arith);
                    assert(poly_eval(scaled@, x) % p == (b * v) % p);
                    lemma_cong_add(u, u, poly_eval(scaled@, x), b * v, p);
                    assert(poly_eval(sum@, x) % p == (u + b * v) % p);
                    lemma_cong_add(poly_eval(sum@, x), u + b * v, poly_eval(constant@, x), c, p);
                    assert(poly_eval(factor@, x) % p == f % p);
                    let prior = sigma_product(e.subrange(0, j as int), s, b, c);
                    let y = poly_eval(first, x);
                    lemma_cong_mul(poly_eval(product@, x), y * prior, poly_eval(factor@, x), f, p);
                    assert((y * prior) * f == y * (prior * f)) by (nonlinear_arith);
                }
            }
            product = next;
            j += 1;
        }
        proof {
            assert forall|x: int| #[trigger] poly_eval(product@, x) % p == (poly_eval(first, x)
                * sigma_product(
                evaluations(lists, x),
                evaluations(m.sigma, x),
                b,
                c,
            )) % p by {
                let e = evaluations(lists, x);
                assert(e.subrange(0, e.len() as int) =~= e);
            }
        }
        product
    }

    /// Multiplies a polynomial with the factors `column + beta * generator^j * X + gamma`.
    fn multiply_numerators(
        &self,
        start: Polynomial,
        columns: &Vec<Polynomial>,
        beta: Scalar,
        gamma: Scalar,
    ) -> (ret: Polynomial)
        requires
            columns_fit(self.model(), coefficient_lists(columns@)),
            self.model().quotient_fits(),
            start@.len() <= self.model().size,
        ensures
            ret@.len() <= product_bound(self.model().size, self.model().columns),
            forall|x: int| #[trigger]
                poly_eval(ret@, x) % Scalar::modulus() == (poly_eval(start@, x) * identity_product(
                    evaluations(coefficient_lists(columns@), x),
                    x,
                    beta.value(),
                    gamma.value(),
                )) % Scalar::modulus(),
    {
        let ghost m = self.model();
        let ghost p = Scalar::modulus();
        let ghost lists = coefficient_lists(columns@);
        let ghost (b, c) = (beta.value(), gamma.value());
        let generator = multiplicative_generator();
        let ghost first = start@;
        let mut product = start;
        let mut power = one::<Scalar>();
        let mut j: usize = 0;
        proof {
            use_type_invariant(self);
            Scalar::lemma_modulus();
            lemma_product_bound(m, 0);
            lemma_pow0(5);
            lemma_small(1, p);
            assert forall|x: int| #[trigger] poly_eval(product@, x) % p == (poly_eval(first, x)
                * identity_product(evaluations(lists, x).subrange(0, 0), x, b, c)) % p by {
                let y = poly_eval(first, x);
                assert(y * 1 == y);
            }
        }
        while j < self.num_columns
            invariant
                j <= self.num_columns,
                m == self.model(),
                self.wf(),
                m.quotient_fits(),
                p == Scalar::modulus(),
                p > 1,
                lists == coefficient_lists(columns@),
                columns_fit(m, lists),
                b == beta.value(),
                c == gamma.value(),
                generator.value() == 5,
                power.value() == pow(5, j as nat) % p,
                product@.len() <= product_bound(m.size, j as int),
                forall|x: int| #[trigger]
                    poly_eval(product@, x) % p == (poly_eval(first, x) * identity_product(
                        evaluations(lists, x).subrange(0, j as int),
                        x,
                        b,
                        c,
                    )) % p,
            decreases self.num_columns - j,
        {
            let column = &columns[j];
            proof {
                lemma_next_bound(m, j as int);
                assert(lists[j as int].len() <= m.size);
            }
            let slope = beta.times(power);
            let mut coefficients: Vec<Scalar> = Vec::new();
            coefficients.push(gamma);
            coefficients.push(slope);
            let linear = Polynomial::with_coefficients(coefficients);
            let factor = column.plus(&linear);
            let next = product.times(&factor);
            let ghost g = pow(5, j as nat);
            proof {
                assert(linear@ =~= seq![c, slope.value()]);
                assert forall|x: int| #[trigger] poly_eval(next@, x) % p == (poly_eval(first, x)
                    * identity_product(evaluations(lists, x).subrange(0, j + 1), x, b, c)) % p by {
                    let e = evaluations(lists, x);
                    lemma_evaluations_prefix(lists, x, j as int);
                    let u = poly_eval(column@, x);
                    let f = cell_factor(u % p, g * x, b, c);
                    vstd::arithmetic::div_mod::lemma_mod_twice(u, p);
                    lemma_factor_cong(u, u % p, g * x, g * x, b, c, p);
                    lemma_linear_eval(linear@, c, slope.value(), x);
                    lemma_mod_mul(b, g, p);
                    vstd::arithmetic::div_mod::lemma_mod_twice(b * g, p);
                    lemma_cong_mul(x, x, slope.value(), b * g, p);
                    assert(x * (b * g) == b * (g * x)) by (nonlinear_arith);
                    lemma_cong_add(c, c, x * slope.value(), b * (g * x), p);
                    lemma_cong_add(u, u, poly_eval(linear@, x), c + b * (g * x), p);
                    assert(u + (c + b * (g * x)) == cell_factor(u, g * x, b, c));
                    assert(poly_eval(factor@, x) % p == (u + poly_eval(linear@, x)) % p);
                    assert(poly_eval(factor@, x) % p == f % p);
                    let prior = identity_product(e.subrange(0, j as int), x, b, c);
                    let y = poly_eval(first, x);
                    lemma_cong_mul(poly_eval(product@, x), y * prior, poly_eval(factor@, x), f, p);
                    assert((y * prior) * f == y * (prior * f)) by (nonlinear_arith);
                }
                lemma_pow_adds(5, j as nat, 1);
                lemma_pow1(5);
                lemma_mod_mul(g, 5, p);
            }
            product = next;
            power = power.times(generator);
            j += 1;
        }
        proof {
            assert forall|x: int| #[trigger] poly_eval(product@, x) % p == (poly_eval(first, x)
                * identity_product(evaluations(lists, x), x, b, c)) % p by {
                let e = evaluations(lists, x);
                assert(e.subrange(0, e.len() as int) =~= e);
            }
        }
        product
    }

    /// Builds the three polynomials used in the permutation argument. The components of the
    /// returned tuple are, respectively: the coordinate pair accumulator, the fixpoint constraint,
    /// and the recurrence constraint.
    pub(crate) fn build_permutation_argument(
        &self,
        witness: &Witness,
        columns: &Vec<Polynomial>,
        beta: Scalar,
        gamma: Scalar,
    ) -> (ret: Result<(Polynomial, Polynomial, Polynomial), ProvingError>)
        requires
            columns_fit(self.model(), coefficient_lists(columns@)),
            self.model().quotient_fits(),
            self.model().columns > 0,
            witness.table().len() == self.model().columns,
            witness.spec_degree_bound() == self.model().size,
        ensures
            match ret {
                Ok((accumulator, fixpoint, recurrence)) => {
                    &&& is_accumulator(
                        accumulator@,
                        self.model(),
                        witness.table(),
                        beta.value(),
                        gamma.value(),
                    )
                    &&& fixpoint@.len() <= product_bound(self.model().size, self.model().columns)
                    &&& recurrence@.len() <= product_bound(self.model().size, self.model().columns)
                    &&& exists|lagrange: Seq<int>| #[trigger]
                        is_lagrange0(lagrange, self.model().size) && is_fixpoint_constraint(
                            fixpoint@,
                            accumulator@,
                            lagrange,
                        )
                    &&& forall|x: int| #[trigger]
                        poly_eval(recurrence@, x) % Scalar::modulus() == (poly_eval(
                            accumulator@,
                            domain_root(self.model().size) * x,
                        ) * sigma_product(
                            evaluations(coefficient_lists(columns@), x),
                            evaluations(self.model().sigma, x),
                            beta.value(),
                            gamma.value(),
                        ) - poly_eval(accumulator@, x) * identity_product(
                            evaluations(coefficient_lists(columns@), x),
                            x,
                            beta.value(),
                            gamma.value(),
                        )) % Scalar::modulus()
                },
                Err(ProvingError::ZeroDenominator) => has_zero_factor(
                    self.model(),
                    witness.table(),
                    beta.value(),
                    gamma.value(),
                ),
                Err(ProvingError::Wraparound) => accumulation_fails(
                    self.model(),
                    witness.table(),
                    beta.value(),
                    gamma.value(),
                ),
                Err(_) => false,
            },
    {
        let ghost m = self.model();
        let ghost p = Scalar::modulus();
        let ghost lists = coefficient_lists(columns@);
        let ghost (b, c) = (beta.value(), gamma.value());
        proof {
            use_type_invariant(self);
            Scalar::lemma_modulus();
            lemma_product_bound(m, m.columns);
        }
        let values = match self.accumulate(witness, beta, gamma) {
            Ok(values) => values,
            Err(error) => {
                return Err(error);
            },
        };
        let accumulator = encode_column(&values);
        let omega = domain_element(self.degree_bound);
        let shifted = accumulator.shift_domain_by(omega);
        let lhs = self.multiply_denominators(shifted, columns, beta, gamma);
        let rhs = self.multiply_numerators(accumulator.copy(), columns, beta, gamma);
        let recurrence = lhs.minus(&rhs);
        proof {
            assert forall|x: int| #[trigger] poly_eval(recurrence@, x) % p == (poly_eval(
                accumulator@,
                domain_root(m.size) * x,
            ) * sigma_product(evaluations(lists, x), evaluations(m.sigma, x), b, c) - poly_eval(
                accumulator@,
                x,
            ) * identity_product(evaluations(lists, x), x, b, c)) % p by {
                let den = sigma_product(evaluations(lists, x), evaluations(m.sigma, x), b, c);
                let num = identity_product(evaluations(lists, x), x, b, c);
                let next = poly_eval(accumulator@, domain_root(m.size) * x);
                lemma_cong_mul(poly_eval(shifted@, x), next, den, den, p);
                lemma_cong_sub(
                    poly_eval(lhs@, x),
                    next * den,
                    poly_eval(rhs@, x),
                    poly_eval(accumulator@, x) * num,
                    p,
                );
            }
        }
        let difference = accumulator.minus(&Polynomial::constant(one::<Scalar>()));
        let lagrange = Polynomial::lagrange0_2(self.degree_bound);
        let fixpoint = difference.times(&lagrange);
        proof {
            assert forall|x: int| #[trigger] poly_eval(fixpoint@, x) % p == ((poly_eval(
                accumulator@,
                x,
            ) - 1) * poly_eval(lagrange@, x)) % p by {
                lemma_cong_mul(
                    poly_eval(difference@, x),
                    poly_eval(accumulator@, x) - 1,
                    poly_eval(lagrange@, x),
                    poly_eval(lagrange@, x),
                    p,
                );
            }
            assert(is_fixpoint_constraint(fixpoint@, accumulator@, lagrange@));
            let n = m.size;
            assert((n - 1) * (1 + m.columns) + 1 >= 2 * n - 1) by (nonlinear_arith)
                requires
                    n >= 4,
                    m.columns >= 1,
            ;
            assert(residues(values@).push(1).drop_last() =~= residues(values@));
        }
        Ok((accumulator, fixpoint, recurrence))
    }
}

/// The polynomial constrains the accumulator to be 1 at the first element of the evaluation domain.
pub open spec fn is_fixpoint_constraint(
    c: Seq<int>,
    accumulator: Seq<int>,
    lagrange: Seq<int>,
) -> bool {
    forall|x: int| #[trigger]
        poly_eval(c, x) % Scalar::modulus() == ((poly_eval(accumulator, x) - 1) * poly_eval(
            lagrange,
            x,
        )) % Scalar::modulus()
}

} // verus!
