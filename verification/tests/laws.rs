use starkom::assignment::Assignment;
use starkom::cell::Cell;
use starkom::expr::Constraint;
use starkom::field::{from_const, Field, Scalar};
use starkom::ops::{rvar, var};
use starkom::parser::ExpressionError;
use starkom::witness::Partitioner;

type Expression = Constraint<Scalar>;

fn assign(constraint: &Expression, values: &[u64]) -> Assignment<Scalar> {
    let mut assignment = Assignment::new();
    for (i, variable) in constraint.get_free_variables().into_iter().enumerate() {
        assignment.insert(variable, from_const(values[i]));
    }
    assignment
}

#[test]
fn test_sums_commute_and_associate() {
    let a: Expression = var(0) * 3 + 7;
    let b: Expression = var(1) - var(0);
    let c: Expression = rvar(1, -2) * var(0);
    assert!(a.plus(&b) == b.plus(&a));
    assert!(a.plus(&b).plus(&c) == a.plus(&b.plus(&c)));
    assert!(a.plus(&b).minus(&b) == a);
}

#[test]
fn test_products_commute_associate_and_distribute() {
    let a: Expression = var(0) * 3 + 7;
    let b: Expression = var(1) - var(0);
    let c: Expression = rvar(1, -2) + 1;
    assert!(a.times(&b) == b.times(&a));
    assert!(a.times(&b).times(&c) == a.times(&b.times(&c)));
    assert!(a.plus(&b).times(&c) == a.times(&c).plus(&b.times(&c)));
}

#[test]
fn test_values_of_operations() {
    let a: Expression = var(0) * 3 + var(1);
    let b: Expression = var(1) * var(0) - 2;
    let values = [5, 11];
    let at = |c: &Expression| c.evaluate(&assign(c, &values));
    assert_eq!(at(&a), from_const(26));
    assert_eq!(at(&b), from_const(53));
    assert_eq!(at(&a.plus(&b)), from_const(79));
    assert_eq!(at(&b.minus(&a)), from_const(27));
    assert_eq!(at(&a.times(&b)), from_const(26 * 53));
    assert_eq!(at(&a.power(3)), from_const(26 * 26 * 26));
}

#[test]
fn test_product_undoes_division() {
    let a: Expression = var(0) * 3 + var(1);
    let b: Expression = (var(0) ^ 2) * 5;
    let quotient = a.divided_by(&b);
    assert!(!quotient.is_canonical());
    assert!(quotient.times(&b) == a);
}

#[test]
fn test_canonical_form_value() {
    let constraint: Expression = (var(0) ^ -2) * 18 - var(1);
    let canonical = constraint.canonicalize();
    assert!(canonical == Constraint::from((var(0) ^ 2) * var(1) * -1 + 18));
    let values = [3, 2];
    assert_eq!(
        constraint.evaluate(&assign(&constraint, &values)),
        from_const(0)
    );
    assert_eq!(
        canonical.evaluate(&assign(&canonical, &values)),
        from_const(0)
    );
    let values = [3, 4];
    assert_eq!(
        canonical.evaluate(&assign(&canonical, &values)),
        constraint.evaluate(&assign(&constraint, &values)) * from_const(9)
    );
}

#[test]
fn test_remap_round_trip() {
    let constraint: Expression = var(0) * rvar(4, 1) + 9;
    let remapped = constraint.remap_variables(7);
    assert_eq!(remapped.get_min_column_index(), 7);
    assert!(remapped.remap_variables(-7) == constraint);
}

#[test]
fn test_parse_undoes_print() {
    let constraints: Vec<Expression> = vec![
        Constraint::nop(),
        var(0) * 0 + 12,
        var(3) * 0 - 12,
        (var(0) ^ 2) * rvar(1, -3) * 7 - rvar(12, 5) + 1,
        (var(0) ^ -4) * -1,
    ];
    for constraint in constraints {
        let text = constraint.to_string() + " == 0";
        assert!(Constraint::parse_expression(&text) == Ok::<Expression, ExpressionError>(constraint));
    }
}

#[test]
fn test_connected_cells() {
    let cell = |row, column| Cell::new(row, column);
    let mut partitioner = Partitioner::new();
    partitioner.connect(cell(0, 0), cell(1, 1));
    partitioner.connect(cell(3, 0), cell(2, 0));
    partitioner.connect(cell(2, 0), cell(1, 1));
    partitioner.connect(cell(5, 0), cell(5, 0));
    let nodes = partitioner.iter_nodes();
    let node = nodes.iter().find(|node| node.contains(&cell(0, 0))).unwrap();
    assert_eq!(
        *node,
        vec![cell(0, 0), cell(1, 1), cell(2, 0), cell(3, 0)]
    );
    assert!(nodes.iter().all(|node| !node.contains(&cell(4, 0))));
}

#[test]
fn test_can_raise_to() {
    let zero: Expression = Constraint::nop();
    assert!(!zero.can_raise_to(-1));
    assert!(zero.can_raise_to(0));
    let single: Expression = var(0) * 3;
    assert!(single.can_raise_to(-1));
    let sum: Expression = var(0) + 1;
    assert!(!sum.can_raise_to(-1));
    assert!(sum.can_raise_to(2));
}

#[test]
fn test_canonicalizing_twice() {
    let constraint: Expression = (var(0) ^ -2) * 18 - var(1);
    let once = constraint.canonicalize();
    assert!(once.canonicalize() == once);
    let kept: Expression = var(0) * var(1) + var(0);
    assert!(kept.canonicalize() == kept);
}

#[test]
fn test_degrees() {
    let a: Expression = (var(0) ^ 2) * var(1) + var(2);
    let b: Expression = rvar(1, 1) * 5 - 7;
    assert_eq!(a.get_degree(), 3);
    assert_eq!(b.get_degree(), 1);
    assert_eq!(a.times(&b).get_degree(), 4);
    assert_eq!(a.plus(&b).get_degree(), 3);
    assert_eq!(a.minus(&a).get_degree(), 0);
    let constant: Expression = Constraint::make_const(from_const(9));
    assert_eq!(constant.get_degree(), 0);
    let variable: Expression = var(4);
    assert_eq!(variable.get_degree(), 1);
}

#[test]
fn test_degree_of_product_with_zero() {
    let zero: Expression = Constraint::nop();
    let a: Expression = var(0) ^ 3;
    assert_eq!(a.times(&zero).get_degree(), 0);
}

#[test]
fn test_values_fit_sums_and_products() {
    let a: Expression = (var(0) ^ -1) + var(1);
    let b: Expression = var(0) * 4;
    let values = [2, 5];
    let at = |c: &Expression| c.evaluate(&assign(&a, &values));
    assert_eq!(at(&b), from_const(8));
    assert_eq!(at(&a.times(&b)), at(&a) * from_const(8));
    assert_eq!(at(&a.plus(&b)), at(&a) + from_const(8));
    assert_eq!(at(&a.minus(&b)), at(&a) - from_const(8));
}

#[test]
fn test_connecting_again_and_the_other_way_round() {
    let cell = |row| Cell::new(row, 0);
    let connect = |pairs: &[(usize, usize)]| {
        let mut partitioner = Partitioner::new();
        for (a, b) in pairs {
            partitioner.connect(cell(*a), cell(*b));
        }
        let mut nodes = partitioner.iter_nodes().clone();
        nodes.sort();
        nodes
    };
    let nodes = connect(&[(0, 1), (2, 3), (1, 4)]);
    assert_eq!(
        nodes,
        vec![
            vec![cell(0), cell(1), cell(4)],
            vec![cell(2), cell(3)],
        ]
    );
    assert_eq!(connect(&[(0, 1), (2, 3), (1, 4), (0, 4)]), nodes);
    assert_eq!(connect(&[(1, 0), (3, 2), (4, 1)]), nodes);
}

#[test]
fn test_order_of_constraints() {
    let a: Expression = var(0) * 3;
    let b: Expression = var(0) * 4;
    let c: Expression = var(1) + var(0) * 3;
    assert!(a < b);
    assert!(a < c);
    assert!(c < b);
    assert!(!(a < a.clone()));
    assert!(a <= a.clone());
}

#[test]
fn test_every_element_but_zero_has_an_inverse() {
    for n in [1, 2, 5, 31, 0xffff_ffff] {
        let x = from_const(n);
        assert_eq!(x * x.invert().unwrap(), from_const(1));
    }
    assert!(from_const(0).invert().is_none());
}

#[test]
fn test_product_of_opposite_powers() {
    let large: Expression = var(0) ^ isize::MAX;
    let small: Expression = var(0) ^ -isize::MAX;
    let product = Constraint::product(vec![large.clone(), small, large.clone()]);
    assert!(product == large);
}

#[test]
fn test_canonical_form_has_the_same_zeros() {
    let constraint: Expression = (var(0) ^ -1) * var(1) - (var(1) ^ -2) * 8;
    let canonical = constraint.canonicalize();
    assert!(canonical.is_canonical());
    let at = |c: &Expression, values: [u64; 2]| c.evaluate(&assign(&constraint, &values));
    for (values, zero) in [([1, 2], true), ([8, 4], true), ([1, 3], false), ([2, 2], false)] {
        assert_eq!(at(&constraint, values) == from_const(0), zero);
        assert_eq!(at(&canonical, values) == from_const(0), zero);
    }
}
