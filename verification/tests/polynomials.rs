use starkom::assignment::Assignment;
use starkom::expr::Constraint;
use starkom::field::{from_const, Field, Scalar};
use starkom::ops::{rvar, var};
use starkom::poly::{domain_element, Polynomial};

fn polynomial(coefficients: &[u64]) -> Polynomial {
    Polynomial::with_coefficients(coefficients.iter().map(|&c| from_const(c)).collect())
}

fn evaluate(polynomial: &Polynomial, x: Scalar) -> Scalar {
    let mut y = from_const(0);
    for &coefficient in polynomial.coefficients.iter().rev() {
        y = y * x + coefficient;
    }
    y
}

#[test]
fn test_polynomial_sums() {
    let a = polynomial(&[1, 2, 3]);
    let b = polynomial(&[10, 20]);
    assert_eq!(a.plus(&b).coefficients, polynomial(&[11, 22, 3]).coefficients);
    assert_eq!(
        a.minus(&b).coefficients,
        vec![-from_const(9), -from_const(18), from_const(3)]
    );
    assert_eq!(a.scaled(from_const(5)).coefficients, polynomial(&[5, 10, 15]).coefficients);
    assert_eq!(a.copy().coefficients, a.coefficients);
}

#[test]
fn test_polynomial_product() {
    let product = polynomial(&[1, 1]).times(&polynomial(&[2, 3]));
    assert_eq!(product.coefficients, polynomial(&[2, 5, 3]).coefficients);
    assert_eq!(Polynomial::zero().times(&product).coefficients, vec![]);
}

#[test]
fn test_polynomial_batch_product() {
    let factors = [polynomial(&[1, 1]), polynomial(&[2, 1]), polynomial(&[3, 1])];
    let product = Polynomial::multiply_batch(&factors.iter().collect());
    assert_eq!(product.coefficients, polynomial(&[6, 11, 6, 1]).coefficients);
}

#[test]
fn test_polynomial_shift() {
    let shifted = polynomial(&[1, 2, 3]).shift_domain_by(from_const(10));
    assert_eq!(shifted.coefficients, polynomial(&[1, 20, 300]).coefficients);
}

#[test]
fn test_domain_element() {
    let root = domain_element(8);
    assert_eq!(root.pow(8), from_const(1));
    assert_eq!(root.pow(4), -from_const(1));
}

#[test]
fn test_polynomial_encode() {
    let values: Vec<Scalar> = [12, 34, 56, 78].iter().map(|&v| from_const(v)).collect();
    let encoded = Polynomial::encode2(&values);
    let root = domain_element(4);
    for i in 0..4 {
        assert_eq!(evaluate(&encoded, root.pow(i)), values[i]);
    }
}

#[test]
fn test_polynomial_division() {
    let quotient = polynomial(&[7, 5]);
    let mut zero = vec![from_const(0); 5];
    zero[0] = -from_const(1);
    zero[4] = from_const(1);
    let dividend = quotient.times(&Polynomial::with_coefficients(zero));
    assert_eq!(
        dividend.divide_by_zero(4).unwrap().coefficients,
        quotient.coefficients
    );
    assert!(dividend.plus(&polynomial(&[1])).divide_by_zero(4).is_none());
}

#[test]
fn test_lagrange_polynomial() {
    let lagrange = Polynomial::lagrange0_2(4);
    let root = domain_element(4);
    assert_eq!(evaluate(&lagrange, from_const(1)), from_const(1));
    for i in 1..4 {
        assert_eq!(evaluate(&lagrange, root.pow(i)), from_const(0));
    }
    let x = from_const(3);
    assert_eq!(
        evaluate(&lagrange, x) * from_const(8),
        x.pow(4) - from_const(1)
    );
}

#[test]
fn test_composition() {
    let constraint: Constraint<Scalar> = (var(0) ^ 2) * var(1) + 5;
    let columns = vec![polynomial(&[1, 1]), polynomial(&[0, 2])];
    let composed = constraint.compose(domain_element(4), &columns);
    assert_eq!(composed.coefficients, polynomial(&[5, 2, 4, 2]).coefficients);
}

#[test]
fn test_composition_with_rotations() {
    let root = domain_element(4);
    let column = polynomial(&[3, 1, 4, 1]);
    let constraint: Constraint<Scalar> = rvar(0, 1) - rvar(0, -1);
    let composed = constraint.compose(root, &vec![column.copy()]);
    let x = from_const(17);
    assert_eq!(
        evaluate(&composed, x),
        evaluate(&column, root * x) - evaluate(&column, root.invert().unwrap() * x)
    );
}

#[test]
fn test_composition_of_assignment() {
    let constraint: Constraint<Scalar> = var(0) * var(1);
    let mut substitution = Assignment::new();
    for (variable, column) in constraint
        .get_free_variables()
        .into_iter()
        .zip([polynomial(&[1, 2]), polynomial(&[3, 4])])
    {
        substitution.insert(variable, column);
    }
    assert_eq!(
        constraint.compose2(&substitution).coefficients,
        polynomial(&[3, 10, 8]).coefficients
    );
}
