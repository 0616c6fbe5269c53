use starkom::assignment::Assignment;
use starkom::cell::Cell;
use starkom::expr::Constraint;
use starkom::field::{from_const, Field, Scalar};
use starkom::ops::{make_const, rvar, var};
use starkom::variable::Variable;

fn cell(row: usize, column: usize) -> Cell {
    Cell::new(row, column)
}

#[test]
fn test_raw_variable_1() {
    let variable = Variable::new(12, 34);
    assert_eq!(variable.column_index(), 12);
    assert_eq!(variable.rotation(), 34);
    assert_eq!(variable.map_to_cell(cell(42, 43)), cell(76, 55));
}

#[test]
fn test_raw_variable_2() {
    let variable = Variable::new(56, -44);
    assert_eq!(variable.column_index(), 56);
    assert_eq!(variable.rotation(), -44);
    assert_eq!(variable.map_to_cell(cell(78, 45)), cell(34, 101));
}

#[test]
fn test_compare_variables() {
    let v1 = Variable::new(34, 56);
    let v2 = Variable::new(34, 12);
    let v3 = Variable::new(34, 78);
    let v4 = Variable::new(56, 78);
    assert!(v1 == v1);
    assert!(v1 > v2);
    assert!(v1 < v3);
    assert!(v1 < v4);
    assert!(v2 == v2);
    assert!(v2 < v3);
    assert!(v2 < v4);
    assert!(v3 == v3);
    assert!(v3 < v4);
    assert!(v4 == v4);
}

#[test]
fn test_remap_raw_variable() {
    let variable = Variable::new(12, 34);
    assert_eq!(variable.remap(56), Variable::new(68, 34));
}

#[test]
fn test_remap_variables_single() {
    let constraint: Constraint<Scalar> = var(3).remap_variables(5);
    assert_eq!(constraint, var(8));
}

#[test]
fn test_remap_variables_negative_offset() {
    let constraint: Constraint<Scalar> = var(5).remap_variables(-5);
    assert_eq!(constraint, var(0));
}

#[test]
fn test_remap_variables_preserves_rotation() {
    let constraint: Constraint<Scalar> = rvar(3, -2).remap_variables(4);
    assert_eq!(constraint, rvar(7, -2));
}

#[test]
fn test_remap_variables_sum() {
    let constraint: Constraint<Scalar> = (var(0) + var(2)).remap_variables(3);
    assert_eq!(constraint, var(3) + var(5));
}

#[test]
fn test_remap_variables_preserves_exponents() {
    let constraint: Constraint<Scalar> = (var(2) ^ 3).remap_variables(1);
    assert_eq!(constraint, var(3) ^ 3);
}

#[test]
fn test_remap_variables_preserves_constant_terms() {
    let constraint: Constraint<Scalar> = (var(0) + 7).remap_variables(2);
    assert_eq!(constraint, var(2) + 7);
}

#[test]
fn test_remap_variables_zero_offset_is_identity() {
    let constraint: Constraint<Scalar> = var(0) * var(1) + 9;
    assert_eq!(constraint.clone().remap_variables(0), constraint);
}

#[test]
fn test_remap_variables_round_trip() {
    let constraint: Constraint<Scalar> = var(2) + var(4) * var(6);
    let remapped = constraint.clone().remap_variables(10).remap_variables(-10);
    assert_eq!(remapped, constraint);
}

#[test]
fn test_min_column_index_empty() {
    let constraint: Constraint<Scalar> = Constraint::nop();
    assert_eq!(constraint.get_min_column_index(), 0);
}

#[test]
fn test_min_column_index_constant() {
    let constraint: Constraint<Scalar> = make_const(from_const(5));
    assert_eq!(constraint.get_min_column_index(), 0);
}

#[test]
fn test_min_column_index_single_variable_at_zero() {
    let constraint: Constraint<Scalar> = var(0);
    assert_eq!(constraint.get_min_column_index(), 0);
}

#[test]
fn test_min_column_index_single_variable_nonzero() {
    let constraint: Constraint<Scalar> = var(3);
    assert_eq!(constraint.get_min_column_index(), 3);
}

#[test]
fn test_min_column_index_ignores_rotation() {
    let constraint: Constraint<Scalar> = rvar(4, -3) + rvar(4, 7);
    assert_eq!(constraint.get_min_column_index(), 4);
}

#[test]
fn test_min_column_index_multiple_variables_in_one_monomial() {
    let constraint: Constraint<Scalar> = var(6) * var(3);
    assert_eq!(constraint.get_min_column_index(), 3);
}

#[test]
fn test_min_column_index_across_monomials() {
    let constraint: Constraint<Scalar> = (var(7) * var(9)) + var(2);
    assert_eq!(constraint.get_min_column_index(), 2);
}

#[test]
fn test_min_column_index_unordered_sum() {
    let constraint: Constraint<Scalar> = var(5) + var(2) + var(8);
    assert_eq!(constraint.get_min_column_index(), 2);
}

#[test]
fn test_min_column_index_constant_term_does_not_mask_variable_minimum() {
    let constraint: Constraint<Scalar> = var(5) + 3;
    assert_eq!(constraint.get_min_column_index(), 5);
}

fn evaluate<const N: usize>(
    constraint: &Constraint<Scalar>,
    substitution: [Scalar; N],
) -> Scalar {
    let variables: Vec<Variable> = constraint.get_free_variables();
    assert_eq!(variables.len(), N);
    let mut assignment: Assignment<Scalar> = Assignment::new();
    for i in 0..N {
        assignment.insert(variables[i], substitution[i]);
    }
    constraint.evaluate(&assignment)
}

#[test]
fn expr_test_empty() {
    let constraint: Constraint<Scalar> = Constraint::nop();
    assert_eq!(constraint, Constraint::default());
    assert_eq!(evaluate(&constraint, []), from_const(0));
    assert_eq!(constraint.to_string(), "0");
}

fn test_constant_impl(value: Scalar) {
    let constraint: Constraint<Scalar> = Constraint::make_const(value);
    assert_eq!(constraint.get_free_variables(), vec![]);
    assert!(constraint.is_constant());
    assert_eq!(constraint.get_constant_value(), Some(value));
    assert_eq!(evaluate(&constraint, []), value);
    assert_eq!(constraint.to_string(), value.to_decimal());
}

#[test]
fn test_constant() {
    test_constant_impl(from_const(0));
    test_constant_impl(from_const(12));
    test_constant_impl(from_const(34));
}

#[test]
fn test_variable_0() {
    let constraint: Constraint<Scalar> = var(0);
    assert_eq!(
        constraint.get_free_variables(),
        vec![Variable::new(0, 0)]
    );
    assert!(!constraint.is_constant());
    assert!(constraint.get_constant_value().is_none());
    assert_eq!(evaluate(&constraint, [from_const(12)]), from_const(12));
    assert_eq!(evaluate(&constraint, [from_const(34)]), from_const(34));
    assert_eq!(constraint.to_string(), "var(0)");
}

#[test]
fn test_variable_1() {
    let constraint: Constraint<Scalar> = var(1);
    assert_eq!(
        constraint.get_free_variables(),
        vec![Variable::new(1, 0)]
    );
    assert!(!constraint.is_constant());
    assert!(constraint.get_constant_value().is_none());
    assert_eq!(evaluate(&constraint, [from_const(12)]), from_const(12));
    assert_eq!(evaluate(&constraint, [from_const(34)]), from_const(34));
    assert_eq!(constraint.to_string(), "var(1)");
}

#[test]
fn test_rotated_variable_1() {
    let constraint: Constraint<Scalar> = rvar(2, 1);
    assert_eq!(
        constraint.get_free_variables(),
        vec![Variable::new(2, 1)]
    );
    assert!(!constraint.is_constant());
    assert!(constraint.get_constant_value().is_none());
    assert_eq!(evaluate(&constraint, [from_const(12)]), from_const(12));
    assert_eq!(evaluate(&constraint, [from_const(34)]), from_const(34));
    assert_eq!(constraint.to_string(), "var(2,+1)");
}

#[test]
fn test_rotated_variable_2() {
    let constraint: Constraint<Scalar> = rvar(2, -1);
    assert_eq!(
        constraint.get_free_variables(),
        vec![Variable::new(2, -1)]
    );
    assert!(!constraint.is_constant());
    assert!(constraint.get_constant_value().is_none());
    assert_eq!(evaluate(&constraint, [from_const(12)]), from_const(12));
    assert_eq!(evaluate(&constraint, [from_const(34)]), from_const(34));
    assert_eq!(constraint.to_string(), "var(2,-1)");
}

#[test]
fn test_sum_1() {
    let constraint: Constraint<Scalar> = var(0) + var(1);
    assert_eq!(
        evaluate(&constraint, [from_const(12), from_const(34)]),
        from_const(46)
    );
    assert_eq!(
        evaluate(&constraint, [from_const(34), from_const(12)]),
        from_const(46)
    );
    assert_eq!(
        evaluate(&constraint, [from_const(56), from_const(78)]),
        from_const(134)
    );
    assert_eq!(constraint.to_string(), "var(0) + var(1)");
}

#[test]
fn test_sum_2() {
    let constraint: Constraint<Scalar> = var(1) + var(0);
    assert_eq!(
        evaluate(&constraint, [from_const(12), from_const(34)]),
        from_const(46)
    );
    assert_eq!(
        evaluate(&constraint, [from_const(34), from_const(12)]),
        from_const(46)
    );
    assert_eq!(
        evaluate(&constraint, [from_const(56), from_const(78)]),
        from_const(134)
    );
    assert_eq!(constraint.to_string(), "var(0) + var(1)");
}

#[test]
fn test_sum_3() {
    let constraint: Constraint<Scalar> = rvar(2, -1) + rvar(2, 1);
    assert_eq!(
        evaluate(&constraint, [from_const(12), from_const(34)]),
        from_const(46)
    );
    assert_eq!(
        evaluate(&constraint, [from_const(34), from_const(12)]),
        from_const(46)
    );
    assert_eq!(
        evaluate(&constraint, [from_const(56), from_const(78)]),
        from_const(134)
    );
    assert_eq!(constraint.to_string(), "var(2,-1) + var(2,+1)");
}

#[test]
fn test_another_sum() {
    let constraint: Constraint<Scalar> = var(0) + var(1) + var(2);
    assert_eq!(
        evaluate(
            &constraint,
            [from_const(12), from_const(34), from_const(56)]
        ),
        from_const(102)
    );
    assert_eq!(
        evaluate(
            &constraint,
            [from_const(12), from_const(56), from_const(34)]
        ),
        from_const(102)
    );
    assert_eq!(
        evaluate(
            &constraint,
            [from_const(34), from_const(56), from_const(78)]
        ),
        from_const(168)
    );
    assert_eq!(constraint.to_string(), "var(0) + var(1) + var(2)");
}

#[test]
fn test_add_scalar_1() {
    let constraint: Constraint<Scalar> = var(0) + from_const(12);
    assert_eq!(evaluate(&constraint, [from_const(34)]), from_const(46));
    assert_eq!(evaluate(&constraint, [from_const(56)]), from_const(68));
    assert_eq!(constraint.to_string(), "12 + var(0)");
}

#[test]
fn test_add_scalar_2() {
    let constraint: Constraint<Scalar> = var(0) + from_const(34);
    assert_eq!(evaluate(&constraint, [from_const(12)]), from_const(46));
    assert_eq!(evaluate(&constraint, [from_const(56)]), from_const(90));
    assert_eq!(constraint.to_string(), "34 + var(0)");
}

#[test]
fn test_add_another_scalar() {
    let constraint: Constraint<Scalar> = var(0) + from_const(34) + from_const(56);
    assert_eq!(evaluate(&constraint, [from_const(12)]), from_const(102));
    assert_eq!(evaluate(&constraint, [from_const(78)]), from_const(168));
    assert_eq!(constraint.to_string(), "90 + var(0)");
}

#[test]
fn test_optimize_sum_1() {
    let constraint: Constraint<Scalar> = var(0) + var(0) * -from_const(1);
    assert_eq!(evaluate(&constraint, []), from_const(0));
    assert_eq!(constraint.to_string(), "0");
}

#[test]
fn test_optimize_sum_2() {
    let constraint: Constraint<Scalar> = var(0) + var(1) * -from_const(1);
    assert_eq!(
        evaluate(&constraint, [from_const(12), from_const(34)]),
        -from_const(22)
    );
    assert_eq!(
        evaluate(&constraint, [from_const(34), from_const(12)]),
        from_const(22)
    );
    assert_eq!(constraint.to_string(), "var(0) + -1 * var(1)");
}

#[test]
fn test_optimize_sum_3() {
    let constraint: Constraint<Scalar> =
        var(0) + var(1) * -from_const(1) + var(0) * -from_const(1);
    assert_eq!(evaluate(&constraint, [from_const(12)]), -from_const(12));
    assert_eq!(evaluate(&constraint, [from_const(34)]), -from_const(34));
    assert_eq!(constraint.to_string(), "-1 * var(1)");
}

#[test]
fn test_negate_variable() {
    let constraint: Constraint<Scalar> = -var(0);
    assert_eq!(evaluate(&constraint, [from_const(12)]), -from_const(12));
    assert_eq!(evaluate(&constraint, [from_const(34)]), -from_const(34));
    assert_eq!(constraint.to_string(), "-1 * var(0)");
}

#[test]
fn test_negate_sum() {
    let constraint: Constraint<Scalar> = -(var(0) + var(1) + from_const(12));
    assert_eq!(
        evaluate(&constraint, [from_const(34), from_const(56)]),
        -from_const(102)
    );
    assert_eq!(
        evaluate(&constraint, [from_const(56), from_const(78)]),
        -from_const(146)
    );
    assert_eq!(constraint.to_string(), "-12 + -1 * var(0) + -1 * var(1)");
}

#[test]
fn test_diff_1() {
    let constraint: Constraint<Scalar> = var(0) - var(1);
    assert_eq!(
        evaluate(&constraint, [from_const(12), from_const(34)]),
        -from_const(22)
    );
    assert_eq!(
        evaluate(&constraint, [from_const(34), from_const(12)]),
        from_const(22)
    );
    assert_eq!(
        evaluate(&constraint, [from_const(56), from_const(78)]),
        -from_const(22)
    );
    assert_eq!(constraint.to_string(), "var(0) + -1 * var(1)");
}

#[test]
fn test_diff_2() {
    let constraint: Constraint<Scalar> = var(1) - var(0);
    assert_eq!(
        evaluate(&constraint, [from_const(12), from_const(34)]),
        from_const(22)
    );
    assert_eq!(
        evaluate(&constraint, [from_const(34), from_const(12)]),
        -from_const(22)
    );
    assert_eq!(
        evaluate(&constraint, [from_const(56), from_const(78)]),
        from_const(22)
    );
    assert_eq!(constraint.to_string(), "-1 * var(0) + var(1)");
}

#[test]
fn test_diff_3() {
    let constraint: Constraint<Scalar> = rvar(2, -1) - rvar(2, 1);
    assert_eq!(
        evaluate(&constraint, [from_const(12), from_const(34)]),
        -from_const(22)
    );
    assert_eq!(
        evaluate(&constraint, [from_const(34), from_const(12)]),
        from_const(22)
    );
    assert_eq!(
        evaluate(&constraint, [from_const(56), from_const(78)]),
        -from_const(22)
    );
    assert_eq!(constraint.to_string(), "var(2,-1) + -1 * var(2,+1)");
}

#[test]
fn test_another_diff() {
    let constraint: Constraint<Scalar> = var(0) - var(1) - var(2);
    assert_eq!(
        evaluate(
            &constraint,
            [from_const(12), from_const(34), from_const(56)]
        ),
        -from_const(78)
    );
    assert_eq!(
        evaluate(
            &constraint,
            [from_const(12), from_const(56), from_const(34)]
        ),
        -from_const(78)
    );
    assert_eq!(
        evaluate(
            &constraint,
            [from_const(34), from_const(56), from_const(78)]
        ),
        -from_const(100)
    );
    assert_eq!(constraint.to_string(), "var(0) + -1 * var(1) + -1 * var(2)");
}

#[test]
fn test_sub_scalar_1() {
    let constraint: Constraint<Scalar> = var(0) - from_const(12);
    assert_eq!(evaluate(&constraint, [from_const(34)]), from_const(22));
    assert_eq!(evaluate(&constraint, [from_const(56)]), from_const(44));
    assert_eq!(constraint.to_string(), "-12 + var(0)");
}

#[test]
fn test_sub_scalar_2() {
    let constraint: Constraint<Scalar> = var(0) - from_const(34);
    assert_eq!(evaluate(&constraint, [from_const(12)]), -from_const(22));
    assert_eq!(evaluate(&constraint, [from_const(56)]), from_const(22));
    assert_eq!(constraint.to_string(), "-34 + var(0)");
}

#[test]
fn test_sub_another_scalar() {
    let constraint: Constraint<Scalar> = var(0) - from_const(34) - from_const(56);
    assert_eq!(evaluate(&constraint, [from_const(12)]), -from_const(78));
    assert_eq!(evaluate(&constraint, [from_const(78)]), -from_const(12));
    assert_eq!(constraint.to_string(), "-90 + var(0)");
}

#[test]
fn test_optimize_diff_1() {
    let constraint: Constraint<Scalar> = var(0) - var(0);
    assert_eq!(evaluate(&constraint, []), from_const(0));
    assert_eq!(constraint.to_string(), "0");
}

#[test]
fn test_optimize_diff_2() {
    let constraint: Constraint<Scalar> = var(0) - var(1) * -from_const(1);
    assert_eq!(
        evaluate(&constraint, [from_const(12), from_const(34)]),
        from_const(46)
    );
    assert_eq!(
        evaluate(&constraint, [from_const(34), from_const(12)]),
        from_const(46)
    );
    assert_eq!(constraint.to_string(), "var(0) + var(1)");
}

#[test]
fn test_optimize_diff_3() {
    let constraint: Constraint<Scalar> = var(0) - var(1) - var(0);
    assert_eq!(evaluate(&constraint, [from_const(12)]), -from_const(12));
    assert_eq!(evaluate(&constraint, [from_const(34)]), -from_const(34));
    assert_eq!(constraint.to_string(), "-1 * var(1)");
}

#[test]
fn test_product_1() {
    let constraint: Constraint<Scalar> = var(0) * var(1);
    assert_eq!(
        evaluate(&constraint, [from_const(12), from_const(34)]),
        from_const(408)
    );
    assert_eq!(
        evaluate(&constraint, [from_const(34), from_const(12)]),
        from_const(408)
    );
    assert_eq!(
        evaluate(&constraint, [from_const(56), from_const(78)]),
        from_const(4368)
    );
    assert_eq!(constraint.to_string(), "var(0) * var(1)");
}

#[test]
fn test_product_2() {
    let constraint: Constraint<Scalar> = var(1) * var(0);
    assert_eq!(
        evaluate(&constraint, [from_const(12), from_const(34)]),
        from_const(408)
    );
    assert_eq!(
        evaluate(&constraint, [from_const(34), from_const(12)]),
        from_const(408)
    );
    assert_eq!(
        evaluate(&constraint, [from_const(56), from_const(78)]),
        from_const(4368)
    );
    assert_eq!(constraint.to_string(), "var(0) * var(1)");
}

#[test]
fn test_product_3() {
    let constraint: Constraint<Scalar> = rvar(2, -1) * rvar(2, 1);
    assert_eq!(
        evaluate(&constraint, [from_const(12), from_const(34)]),
        from_const(408)
    );
    assert_eq!(
        evaluate(&constraint, [from_const(34), from_const(12)]),
        from_const(408)
    );
    assert_eq!(
        evaluate(&constraint, [from_const(56), from_const(78)]),
        from_const(4368)
    );
    assert_eq!(constraint.to_string(), "var(2,-1) * var(2,+1)");
}

#[test]
fn test_another_product() {
    let constraint: Constraint<Scalar> = var(0) * var(1) * var(2);
    assert_eq!(
        evaluate(
            &constraint,
            [from_const(12), from_const(34), from_const(56)]
        ),
        from_const(22848)
    );
    assert_eq!(
        evaluate(
            &constraint,
            [from_const(12), from_const(56), from_const(34)]
        ),
        from_const(22848)
    );
    assert_eq!(
        evaluate(
            &constraint,
            [from_const(34), from_const(56), from_const(78)]
        ),
        from_const(148512)
    );
    assert_eq!(constraint.to_string(), "var(0) * var(1) * var(2)");
}

#[test]
fn test_product_same_variable() {
    let constraint: Constraint<Scalar> = var(0) * var(0);
    assert_eq!(evaluate(&constraint, [from_const(12)]), from_const(144));
    assert_eq!(evaluate(&constraint, [from_const(34)]), from_const(1156));
    assert_eq!(constraint.to_string(), "var(0) ^ 2");
}

#[test]
fn test_mul_scalar_1() {
    let constraint: Constraint<Scalar> = var(0) * from_const(12);
    assert_eq!(evaluate(&constraint, [from_const(34)]), from_const(408));
    assert_eq!(evaluate(&constraint, [from_const(56)]), from_const(672));
    assert_eq!(constraint.to_string(), "12 * var(0)");
}

#[test]
fn test_mul_scalar_2() {
    let constraint: Constraint<Scalar> = var(0) * from_const(34);
    assert_eq!(evaluate(&constraint, [from_const(12)]), from_const(408));
    assert_eq!(evaluate(&constraint, [from_const(56)]), from_const(1904));
    assert_eq!(constraint.to_string(), "34 * var(0)");
}

#[test]
fn test_mul_another_scalar() {
    let constraint: Constraint<Scalar> = var(0) * from_const(34) * from_const(56);
    assert_eq!(evaluate(&constraint, [from_const(12)]), from_const(22848));
    assert_eq!(evaluate(&constraint, [from_const(78)]), from_const(148512));
    assert_eq!(constraint.to_string(), "1904 * var(0)");
}

#[test]
fn test_mul_by_zero() {
    let constraint: Constraint<Scalar> = var(0) * from_const(0);
    assert_eq!(evaluate(&constraint, []), from_const(0));
    assert_eq!(constraint.to_string(), "0");
}

#[test]
fn test_optimize_product_1() {
    let constraint: Constraint<Scalar> = var(0) * (var(0) ^ -1);
    assert_eq!(evaluate(&constraint, []), from_const(1));
    assert_eq!(constraint.to_string(), "1");
}

#[test]
fn test_optimize_product_2() {
    let constraint: Constraint<Scalar> = var(0) * (var(0) ^ -1) * var(1);
    assert_eq!(evaluate(&constraint, [from_const(12)]), from_const(12));
    assert_eq!(evaluate(&constraint, [from_const(34)]), from_const(34));
    assert_eq!(constraint.to_string(), "var(1)");
}

#[test]
fn test_optimize_product_3() {
    let constraint: Constraint<Scalar> = (var(0) ^ 2) * (var(0) ^ -1);
    assert_eq!(evaluate(&constraint, [from_const(12)]), from_const(12));
    assert_eq!(evaluate(&constraint, [from_const(34)]), from_const(34));
    assert_eq!(constraint.to_string(), "var(0)");
}

#[test]
fn test_pow_zero_exponent() {
    let constraint: Constraint<Scalar> = var(0) ^ 0;
    assert_eq!(evaluate(&constraint, []), from_const(1));
    assert_eq!(constraint.to_string(), "1");
}

#[test]
fn test_pow_zero_exponent_on_sum() {
    let constraint: Constraint<Scalar> = (var(0) + var(1)) ^ 0;
    assert_eq!(evaluate(&constraint, []), from_const(1));
    assert_eq!(constraint.to_string(), "1");
}

#[test]
fn test_pow_zero_exponent_of_zero() {
    let constraint: Constraint<Scalar> = make_const(from_const(0)) ^ 0;
    assert_eq!(evaluate(&constraint, []), from_const(1));
    assert_eq!(constraint.to_string(), "1");
}

#[test]
fn test_pow_one_exponent() {
    let constraint: Constraint<Scalar> = var(0) ^ 1;
    assert_eq!(evaluate(&constraint, [from_const(12)]), from_const(12));
    assert_eq!(evaluate(&constraint, [from_const(34)]), from_const(34));
    assert_eq!(constraint.to_string(), "var(0)");
}

#[test]
fn test_pow_one_exponent_on_sum() {
    let constraint: Constraint<Scalar> = (var(0) + var(1)) ^ 1;
    assert_eq!(
        evaluate(&constraint, [from_const(12), from_const(34)]),
        from_const(46)
    );
    assert_eq!(constraint.to_string(), "var(0) + var(1)");
}

#[test]
fn test_pow_positive_exponent() {
    let constraint: Constraint<Scalar> = var(0) ^ 3;
    assert_eq!(
        evaluate(&constraint, [from_const(12)]),
        from_const(12).pow(3)
    );
    assert_eq!(
        evaluate(&constraint, [from_const(34)]),
        from_const(34).pow(3)
    );
    assert_eq!(constraint.to_string(), "var(0) ^ 3");
}

#[test]
fn test_pow_negative_exponent() {
    let constraint: Constraint<Scalar> = var(0) ^ -2;
    assert_eq!(
        evaluate(&constraint, [from_const(12)]),
        from_const(12).invert().unwrap().pow(2)
    );
    assert_eq!(
        evaluate(&constraint, [from_const(34)]),
        from_const(34).invert().unwrap().pow(2)
    );
    assert_eq!(constraint.to_string(), "var(0) ^ -2");
}

#[test]
fn test_pow_constant_positive_exponent() {
    let constraint: Constraint<Scalar> = make_const(from_const(2)) ^ 3;
    assert_eq!(evaluate(&constraint, []), from_const(8));
    assert_eq!(constraint.to_string(), "8");
}

#[test]
fn test_pow_constant_negative_exponent() {
    let constraint: Constraint<Scalar> = make_const(from_const(2)) ^ -1;
    assert_eq!(evaluate(&constraint, []), from_const(2).invert().unwrap());
}

#[test]
fn test_bitxor_assign() {
    let mut constraint: Constraint<Scalar> = var(0);
    constraint.bitxor_assign(3);
    assert_eq!(
        evaluate(&constraint, [from_const(12)]),
        from_const(12).pow(3)
    );
    assert_eq!(constraint.to_string(), "var(0) ^ 3");
}

#[test]
fn test_squared_sum() {
    let constraint: Constraint<Scalar> = (var(0) + var(1)) ^ 2;
    assert_eq!(
        constraint,
        (var(0) ^ 2) + (var(1) ^ 2) + var(0) * var(1) * 2
    );
    assert_eq!(
        evaluate(&constraint, [from_const(12), from_const(34)]),
        (from_const(12) + from_const(34)).pow(2)
    );
    assert_eq!(
        constraint.to_string(),
        "2 * var(0) * var(1) + var(0) ^ 2 + var(1) ^ 2"
    );
}

#[test]
fn test_cubed_sum() {
    let constraint: Constraint<Scalar> = (var(0) + var(1)) ^ 3;
    assert_eq!(
        evaluate(&constraint, [from_const(12), from_const(34)]),
        (from_const(12) + from_const(34)).pow(3)
    );
}

#[test]
fn test_parsing() {
    let c1: Constraint<Scalar> = "var(0) ^ 2 * var(1) + var(0) + 5 == 35".parse().unwrap();
    let c2: Constraint<Scalar> = (var(0) ^ 2) * var(1) + var(0) - 30;
    let c3: Constraint<Scalar> = format!("{} == 0", c2.to_string()).parse().unwrap();
    assert_eq!(c1, c2);
    assert_eq!(c1, c3);
}

#[test]
fn test_iter_sum_empty() {
    let constraint: Constraint<Scalar> = Constraint::sum(vec![]);
    assert_eq!(constraint, Constraint::default());
    assert_eq!(constraint.to_string(), "0");
}

#[test]
fn test_iter_sum_single() {
    let constraint: Constraint<Scalar> = Constraint::sum(vec![var(0)]);
    assert_eq!(evaluate(&constraint, [from_const(12)]), from_const(12));
    assert_eq!(constraint.to_string(), "var(0)");
}

#[test]
fn test_iter_sum() {
    let constraint: Constraint<Scalar> = Constraint::sum(vec![var(0), var(1), var(2)]);
    assert_eq!(
        evaluate(
            &constraint,
            [from_const(12), from_const(34), from_const(56)]
        ),
        from_const(102)
    );
    assert_eq!(
        evaluate(
            &constraint,
            [from_const(34), from_const(56), from_const(78)]
        ),
        from_const(168)
    );
    assert_eq!(constraint.to_string(), "var(0) + var(1) + var(2)");
}

#[test]
fn test_iter_product_empty() {
    let constraint: Constraint<Scalar> = Constraint::product(vec![]);
    assert_eq!(constraint.get_constant_value(), Some(from_const(1)));
    assert_eq!(constraint.to_string(), "1");
}

#[test]
fn test_iter_product_single() {
    let constraint: Constraint<Scalar> = Constraint::product(vec![var(0)]);
    assert_eq!(evaluate(&constraint, [from_const(12)]), from_const(12));
    assert_eq!(constraint.to_string(), "var(0)");
}

#[test]
fn test_iter_product() {
    let constraint: Constraint<Scalar> = Constraint::product(vec![var(0), var(1), var(2)]);
    assert_eq!(
        evaluate(
            &constraint,
            [from_const(12), from_const(34), from_const(56)]
        ),
        from_const(22848)
    );
    assert_eq!(
        evaluate(
            &constraint,
            [from_const(34), from_const(56), from_const(78)]
        ),
        from_const(148512)
    );
    assert_eq!(constraint.to_string(), "var(0) * var(1) * var(2)");
}
