//! Laws about the orders of variables, monomials, constraints and rows.
use crate::expr::Constraint;
use crate::field::{Field, Scalar};
use crate::model::{placement_less, rows_less};
use crate::partition::{sorted, Ordered};
use crate::terms::{
    lemma_mono_less_irreflexive, lemma_mono_less_transitive, mono_less, terms_less, Mono, Terms,
};
use vstd::prelude::*;
use vstd::std_specs::cmp::{PartialEqSpec, PartialOrdSpec};

verus! {

/// The two sequences start with the same `k` elements.
pub open spec fn share<T>(a: Seq<T>, b: Seq<T>, k: int) -> bool {
    &&& 0 <= k <= a.len()
    &&& k <= b.len()
    &&& forall|i: int| 0 <= i < k ==> #[trigger] a[i] == b[i]
}

/// The rest of two sequences that start with the same elements.
proof fn lemma_share_rest<T>(a: Seq<T>, b: Seq<T>, k: int)
    requires
        share(a, b, k),
        k > 0,
    ensures
        a[0] == b[0],
        share(a.drop_first(), b.drop_first(), k - 1),
{
    let (c, d) = (a.drop_first(), b.drop_first());
    assert forall|i: int| 0 <= i < k - 1 implies #[trigger] c[i] == d[i] by {
        assert(a[i + 1] == b[i + 1]);
    }
}

/// Monomials are compared at the first factors that differ: by column, then by rotation, then by
/// exponent. A monomial comes before those that it is the front part of.
pub proof fn law_monomial_order(a: Mono, b: Mono, k: int)
    requires
        share(a, b, k),
    ensures
        k == a.len() ==> (mono_less(a, b) <==> a.len() < b.len()),
        k == b.len() ==> !mono_less(a, b),
        k < a.len() && k < b.len() && a[k] != b[k] ==> (mono_less(a, b) <==> {
            ||| a[k].0.column_index < b[k].0.column_index
            ||| a[k].0.column_index == b[k].0.column_index && a[k].0.rotation < b[k].0.rotation
            ||| a[k].0 == b[k].0 && a[k].1 < b[k].1
        }),
    decreases k,
{
    if k > 0 {
        lemma_share_rest(a, b, k);
        law_monomial_order(a.drop_first(), b.drop_first(), k - 1);
    }
}

/// Constraints are compared at the first terms that differ: by monomial, then by coefficient. A
/// constraint comes before those that it is the front part of.
pub proof fn law_constraint_order(a: Terms, b: Terms, k: int)
    requires
        share(a, b, k),
    ensures
        k == a.len() ==> (terms_less(a, b) <==> a.len() < b.len()),
        k == b.len() ==> !terms_less(a, b),
        k < a.len() && k < b.len() && a[k] != b[k] ==> (terms_less(a, b) <==> {
            ||| mono_less(a[k].0, b[k].0)
            ||| a[k].0 == b[k].0 && a[k].1 < b[k].1
        }),
    decreases k,
{
    if k > 0 {
        lemma_share_rest(a, b, k);
        law_constraint_order(a.drop_first(), b.drop_first(), k - 1);
    }
}

/// Sets of rows are compared at the first rows that differ. A set comes before those that it is the
/// front part of.
pub proof fn law_row_set_order(a: Seq<usize>, b: Seq<usize>, k: int)
    requires
        share(a, b, k),
    ensures
        k == a.len() ==> (rows_less(a, b) <==> a.len() < b.len()),
        k == b.len() ==> !rows_less(a, b),
        k < a.len() && k < b.len() && a[k] != b[k] ==> (rows_less(a, b) <==> a[k] < b[k]),
    decreases k,
{
    if k > 0 {
        lemma_share_rest(a, b, k);
        law_row_set_order(a.drop_first(), b.drop_first(), k - 1);
    }
}

/// Of two placements of one constraint, the one in the lower column comes first. Placements of
/// different constraints are in the order of the constraints, whatever their columns.
pub proof fn law_placement_order(a: Terms, b: Terms, m: int, n: int)
    ensures
        placement_less(a, m, a, n) <==> m < n,
        terms_less(a, b) ==> placement_less(a, m, b, n) && !placement_less(b, n, a, m),
{
    crate::terms::lemma_terms_less_irreflexive(a);
    if terms_less(a, b) && terms_less(b, a) {
        crate::terms::lemma_terms_less_transitive(a, b, a);
    }
}

/// The monomials of a constraint come in increasing order, none of them twice: the constant comes
/// first, and no coefficient is zero.
pub proof fn law_terms_increase(t: Terms, p: int, i: int, j: int)
    requires
        crate::terms::terms_wf(t, p),
        0 <= i < t.len(),
        0 <= j < t.len(),
    ensures
        mono_less(t[i].0, t[j].0) <==> i < j,
        t[i].0 == t[j].0 ==> i == j,
        t[i].0.len() == 0 ==> i == 0,
        0 < t[i].1 < p,
{
    if i < j {
        assert(mono_less(t[i].0, t[j].0));
    } else if j < i {
        assert(mono_less(t[j].0, t[i].0));
        if mono_less(t[i].0, t[j].0) {
            lemma_mono_less_transitive(t[i].0, t[j].0, t[i].0);
        }
    }
    lemma_mono_less_irreflexive(t[i].0);
    if i > 0 {
        assert(mono_less(t[0].0, t[i].0));
    }
}

/// The factors of a monomial come in the order of their columns and, in one column, of their
/// rotations; no variable occurs twice, and no exponent is zero.
pub proof fn law_factors_increase(m: Mono, i: int, j: int)
    requires
        crate::terms::mono_wf(m),
        0 <= i < m.len(),
        0 <= j < m.len(),
    ensures
        i < j ==> m[i].0.column_index < m[j].0.column_index || (m[i].0.column_index
            == m[j].0.column_index && m[i].0.rotation < m[j].0.rotation),
        m[i].0 == m[j].0 ==> i == j,
        m[i].1 != 0,
{
    if i < j {
        assert(crate::variable::var_less(m[i].0, m[j].0));
    } else if j < i {
        assert(crate::variable::var_less(m[j].0, m[i].0));
    }
}

/// The wires of a node are listed by row and, in one row, by column.
pub proof fn law_wires_of_node(s: Seq<crate::wires::Wire>, i: int, j: int)
    requires
        sorted(s),
        0 <= i < s.len(),
        0 <= j < s.len(),
    ensures
        i < j <==> s[i].row < s[j].row || (s[i].row == s[j].row && s[i].column < s[j].column),
{
    if i < j {
        assert(s[i].precedes(s[j]));
    } else if j < i {
        assert(s[j].precedes(s[i]));
    }
}

/// The terminations of a node of a circuit of gates with two inputs are listed by kind, left inputs
/// first and outputs last, and those of one kind by gate.
pub proof fn law_terminations_of_node(s: Seq<crate::circuit::Wire>, i: int, j: int)
    requires
        sorted(s),
        0 <= i < j < s.len(),
    ensures
        match (s[i], s[j]) {
            (crate::circuit::Wire::LeftIn(a), crate::circuit::Wire::LeftIn(b)) => a < b,
            (crate::circuit::Wire::RightIn(a), crate::circuit::Wire::RightIn(b)) => a < b,
            (crate::circuit::Wire::Out(a), crate::circuit::Wire::Out(b)) => a < b,
            (crate::circuit::Wire::LeftIn(_), _) => true,
            (crate::circuit::Wire::RightIn(_), crate::circuit::Wire::Out(_)) => true,
            _ => i > j,
        },
{
    assert(s[i].precedes(s[j]));
}

/// Different terminations of the gates of a circuit have different positions in its permutation, all
/// of them below three times the number of gates.
pub proof fn law_permutation_positions(a: crate::circuit::Wire, b: crate::circuit::Wire, n: int)
    requires
        a.gate_index() < n,
        b.gate_index() < n,
        a.gate_index() + n * a.kind() == b.gate_index() + n * b.kind(),
    ensures
        a == b,
        0 <= a.gate_index() + n * a.kind() < 3 * n,
{
    let (x, y) = (a.kind(), b.kind());
    assert(x == y) by (nonlinear_arith)
        requires
            0 <= a.gate_index() < n,
            0 <= b.gate_index() < n,
            a.gate_index() + n * x == b.gate_index() + n * y,
    ;
    assert(n * x <= 2 * n) by (nonlinear_arith)
        requires
            x <= 2,
            n >= 0,
    ;
    assert(n * x >= 0) by (nonlinear_arith)
        requires
            x >= 0,
            n >= 0,
    ;
}

/// Constraints are compared in the order of constraints, and field elements by their residues.
pub proof fn law_comparisons(a: Constraint<Scalar>, b: Constraint<Scalar>, x: Scalar, y: Scalar)
    ensures
        a.partial_cmp_spec(&b) == Some(core::cmp::Ordering::Less) <==> terms_less(a@, b@),
        a.partial_cmp_spec(&b) == Some(core::cmp::Ordering::Equal) <==> a@ == b@,
        a.partial_cmp_spec(&b) == Some(core::cmp::Ordering::Greater) <==> terms_less(b@, a@),
        a.eq_spec(&b) <==> a@ == b@,
        x.partial_cmp_spec(&y) == Some(core::cmp::Ordering::Less) <==> x.value() < y.value(),
        x.partial_cmp_spec(&y) == Some(core::cmp::Ordering::Equal) <==> x.value() == y.value(),
        x.partial_cmp_spec(&y) == Some(core::cmp::Ordering::Greater) <==> x.value() > y.value(),
        x.eq_spec(&y) <==> x.value() == y.value(),
        Constraint::<Scalar>::obeys_eq_spec(),
        Constraint::<Scalar>::obeys_partial_cmp_spec(),
        Scalar::obeys_eq_spec(),
        Scalar::obeys_partial_cmp_spec(),
{
    crate::terms::lemma_terms_less_irreflexive(a@);
    crate::terms::lemma_terms_less_total(a@, b@);
    if terms_less(a@, b@) && terms_less(b@, a@) {
        crate::terms::lemma_terms_less_transitive(a@, b@, a@);
    }
}

} // verus!
