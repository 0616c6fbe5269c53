//! PLONK circuits.
use crate::builder::{built_gate_wf, gates_of};
use crate::cell::Cell;
use crate::expr::{
    is_canonical_form, canonical, clearing_fits, compare_constraints, is_normal_form,
    lemma_canonical_variables, shiftable, terms_degree, Constraint,
};
use crate::field::{one, zero, Field, Scalar};
use crate::grouping::{
    collect_row_sets, copy_rows, entries_have, entries_use, find_row_set, gates_have, group_gates,
    is_entry, row_sets_have,
};
use crate::model::{
    counts_fit, gate_fits, interpolates, is_opened_rotation, max_gate_degree, opened_set,
    placement_less, quotient_bound, rows_sorted, selector_used, selector_values, sigma_values,
    terms_rotations, CircuitModel, Placement,
};
use crate::monomial::Comparison;
use crate::permutation::{
    is_target, lemma_target_fits, lemma_target_injective, lists_fit, make_sigma_values,
    make_targets, no_repeats, node_lists, stands_at,
};
use crate::poly::{coefficient_lists, domain_root, max_domain_size, poly_eval, Polynomial};
use crate::terms::{is_clearing, product_terms, shift_terms, terms_have, terms_less, Mono, Terms};
use crate::utils::{
    blinding_rows, is_next_power_of_two, opened_rotations, padded_circuit_size, rotation_set,
};
use crate::variable::Variable;
use crate::witness::{copy_columns, residues, Witness};
use vstd::arithmetic::power2::{lemma2_to64, pow2};
use vstd::arithmetic::power::pow;
use vstd::prelude::*;

verus! {

/// Default blowup factor (16) in logarithmic form.
///
/// Used with the underlying polynomial commitment scheme to compute low-degree extensions.
pub const OPTIONS_DEFAULT_BLOWUP_LOG2: usize = 4;

/// Circuit compilation & proving options.
#[derive(Debug, Clone, Copy, PartialEq, Eq, Structural)]
pub struct CompilationOptions {
    /// Converts all constraints to canonical form using [`Constraint::canonicalize`].
    ///
    /// When disabled, compilation errors out rather than attempting canonicalization if there are
    /// negative exponents.
    ///
    /// Canonicalization is carried out inside [`CircuitBuilder::build`].
    ///
    /// WARNING: canonicalized constraints may be more permissive than their original form because a
    /// negative exponent requires the variable to be different from zero. Starkom does not allow
    /// proving with negative exponents, so enable this flag only if your circuit is correctly
    /// constrained even when those variables are zero.
    pub canonicalize_constraints: bool,
}

impl Default for CompilationOptions {
    fn default() -> (ret: Self)
        ensures
            !ret.canonicalize_constraints,
    {
        CompilationOptions { canonicalize_constraints: false }
    }
}

/// Circuit compilation & proving options.
#[derive(Debug, Clone, Copy, PartialEq, Eq, Structural)]
pub struct ProvingOptions {
    /// Log2 of the blowup factor used to compute the low-degree extensions for the underlying
    /// polynomial commitment scheme.
    pub blowup_log2: usize,
}

impl Default for ProvingOptions {
    fn default() -> (ret: Self)
        ensures
            ret.blowup_log2 == OPTIONS_DEFAULT_BLOWUP_LOG2,
    {
        ProvingOptions { blowup_log2: OPTIONS_DEFAULT_BLOWUP_LOG2 }
    }
}

/// A gate type that is placed at a column, and activated at the rows of a selector.
#[derive(Debug)]
pub struct GateInstance {
    /// The constraint, with variables relative to the column.
    pub constraint: Constraint<Scalar>,
    /// The constraint, with the column added to the column indices of its variables.
    pub remapped: Constraint<Scalar>,
    /// Column of the root cell where the constraint was placed.
    pub column_index: usize,
    /// Index of the selector polynomial within the selector pool.
    pub selector_index: usize,
}

/// What a list of gate instances stands for.
pub open spec fn placements(gates: Seq<GateInstance>) -> Seq<Placement> {
    Seq::new(
        gates.len(),
        |i: int|
            Placement {
                terms: gates[i].constraint@,
                column: gates[i].column_index as int,
                selector: gates[i].selector_index as int,
            },
    )
}

/// The row numbers of a list of row sets.
pub open spec fn row_lists(sets: Seq<Vec<usize>>) -> Seq<Seq<usize>> {
    Seq::new(sets.len(), |i: int| sets[i]@)
}

/// `compiled` are the gates that are compiled: canonical forms where that is asked for, and else the
/// gates themselves, which must be canonical.
pub open spec fn compiled_gates(
    gates: Seq<(Terms, Cell)>,
    compiled: Seq<(Terms, Cell)>,
    canonicalize: bool,
) -> bool {
    &&& compiled.len() == gates.len()
    &&& forall|i: int|
        0 <= i < gates.len() ==> {
            &&& (#[trigger] compiled[i]).1 == gates[i].1
            &&& canonical(compiled[i].0)
            &&& if canonicalize {
                is_canonical_form(compiled[i].0, gates[i].0, Scalar::modulus()) && clearing_fits(
                    gates[i].0,
                )
            } else {
                compiled[i].0 == gates[i].0
            }
        }
}

/// Why a circuit cannot be compiled.
#[derive(Debug)]
pub enum BuildError {
    /// A constraint has negative exponents.
    NotCanonical(Constraint<Scalar>),
    /// The canonical form of a constraint has exponents that are not in the range of [`isize`].
    ExponentOverflow,
    /// The circuit has too many rows.
    TooLarge,
    /// A connected cell is outside of the circuit.
    CellOutOfRange,
}

impl BuildError {
    /// Describes the error.
    pub fn to_string(&self) -> (ret: String)
        ensures
            ret@ == match *self {
                BuildError::NotCanonical(constraint) => "constraint `"@
                    + crate::text::expression_text(constraint@, Scalar::modulus())
                    + "` is not canonical"@,
                BuildError::ExponentOverflow => "exponent out of range"@,
                BuildError::TooLarge => "the circuit is too large"@,
                BuildError::CellOutOfRange => "a connected cell is out of range"@,
            },
    {
        match self {
            BuildError::NotCanonical(constraint) => {
                let mut text = "constraint `".to_owned();
                text.append(constraint.to_string().as_str());
                text.append("` is not canonical");
                text
            },
            BuildError::ExponentOverflow => "exponent out of range".to_owned(),
            BuildError::TooLarge => "the circuit is too large".to_owned(),
            BuildError::CellOutOfRange => "a connected cell is out of range".to_owned(),
        }
    }
}

/// A PLONK circuit.
#[derive(Debug)]
pub struct Circuit {
    /// The raw number of rows of the circuit.
    ///
    /// Unlike [`Self::degree_bound`], this count doesn't include the blinding rows and is not
    /// padded to the next power of 2.
    pub(crate) num_rows: usize,
    /// Number of blinding rows used in the circuit.
    ///
    /// This is calculated by [`padded_circuit_size`] and depends on how many different variable
    /// rotations were used across all constraints.
    pub(crate) num_blinding_rows: usize,
    /// Number of witness rows (including the blinding rows) rounded up to the next power of 2.
    ///
    /// This is the direct result of [`padded_circuit_size`].
    pub(crate) degree_bound: usize,
    /// Number of witness columns.
    pub(crate) num_columns: usize,
    /// The placements of gates, by constraint and then by column.
    pub(crate) gates: Vec<GateInstance>,
    /// The rows at which each selector is active.
    pub(crate) active_rows: Vec<Vec<usize>>,
    /// Gate selectors.
    ///
    /// This is a pool of Lagrange bases that the grand gate constraint uses to selectively activate
    /// gates at the rows where they're used.
    ///
    /// The size of this pool is not (necessarily) the number of rows: [`CircuitBuilder`]'s
    /// algorithm tries to reuse selectors as much as possible.
    pub(crate) selectors: Vec<Polynomial>,
    /// For every cell, column-first, the next cell of its node.
    pub(crate) targets: Vec<Vec<Cell>>,
    /// Sigma polynomials of the permutation argument, one for every witness column.
    pub(crate) sigma: Vec<Polynomial>,
    /// The [sigma polynomials](`Self::sigma`) expressed on the value domain.
    ///
    /// The layout is analogous to [`Self::sigma`] itself: the values are indexed column-first.
    pub(crate) sigma_values: Vec<Vec<Scalar>>,
    /// List of rows that are revealed in the proofs, in order.
    pub(crate) public_rows: Vec<usize>,
}

/// The cells of a list of target columns.
pub open spec fn target_lists(targets: Seq<Vec<Cell>>) -> Seq<Seq<Cell>> {
    Seq::new(targets.len(), |i: int| targets[i]@)
}

impl Circuit {
    /// What the circuit is.
    pub open(crate) spec fn model(self) -> CircuitModel {
        CircuitModel {
            rows: self.num_rows as int,
            blinding: self.num_blinding_rows as int,
            size: self.degree_bound as int,
            columns: self.num_columns as int,
            active: row_lists(self.active_rows@),
            gates: placements(self.gates@),
            targets: target_lists(self.targets@),
            public_rows: self.public_rows@,
            selectors: coefficient_lists(self.selectors@),
            sigma: coefficient_lists(self.sigma@),
        }
    }

    /// The circuit is well-formed, and what is derived from other parts of it is consistent.
    #[verifier::type_invariant]
    pub open(crate) spec fn wf(self) -> bool {
        &&& self.model().wf()
        &&& forall|i: int|
            0 <= i < self.gates@.len() ==> (#[trigger] self.gates@[i]).remapped@ == shift_terms(
                self.gates@[i].constraint@,
                self.gates@[i].column_index as int,
            )
        &&& self.sigma_values@.len() == self.num_columns
        &&& forall|j: int|
            0 <= j < self.num_columns ==> residues((#[trigger] self.sigma_values@[j])@)
                == sigma_values(self.targets@[j]@, self.degree_bound as int)
    }

    /// The raw number of rows of the circuit, without blinding rows and padding.
    pub fn num_rows(&self) -> (ret: usize)
        ensures
            ret == self.model().rows,
    {
        self.num_rows
    }

    /// Number of witness rows (including the blinding rows) rounded up to the next power of 2.
    pub fn degree_bound(&self) -> (ret: usize)
        ensures
            ret == self.model().size,
            self.model().wf(),
    {
        proof {
            use_type_invariant(self);
        }
        self.degree_bound
    }

    /// Number of witness columns.
    pub fn num_columns(&self) -> (ret: usize)
        ensures
            ret == self.model().columns,
    {
        self.num_columns
    }

    /// List of rows that are revealed in the proofs, in order.
    pub fn public_rows(&self) -> (ret: &Vec<usize>)
        ensures
            ret@ == self.model().public_rows,
            rows_sorted(ret@),
    {
        proof {
            use_type_invariant(self);
        }
        &self.public_rows
    }
}

/// Converts all constraints to canonical form, or checks that they are canonical.
fn compile_constraints(
    gates: &Vec<(Constraint<Scalar>, Cell)>,
    canonicalize: bool,
) -> (ret: Result<Vec<(Constraint<Scalar>, Cell)>, BuildError>)
    ensures
        match ret {
            Ok(compiled) => compiled_gates(gates_of(gates@), gates_of(compiled@), canonicalize),
            Err(BuildError::NotCanonical(c)) => {
                &&& !canonicalize
                &&& !canonical(c@)
                &&& exists|i: int|
                    0 <= i < gates@.len() && (#[trigger] gates_of(gates@)[i]).0 == c@
                &&& forall|i: int|
                    0 <= i < gates@.len() && !canonical((#[trigger] gates_of(gates@)[i]).0)
                        ==> !terms_less(gates_of(gates@)[i].0, c@)
            },
            Err(BuildError::ExponentOverflow) => canonicalize && exists|i: int|
                0 <= i < gates@.len() && !clearing_fits(
                    (#[trigger] gates_of(gates@)[i]).0,
                ),
            Err(_) => false,
        },
        ret is Ok && !canonicalize ==> forall|i: int|
            0 <= i < gates@.len() ==> canonical((#[trigger] gates_of(gates@)[i]).0),
        ret is Ok && canonicalize ==> forall|i: int|
            0 <= i < gates@.len() ==> clearing_fits(
                (#[trigger] gates_of(gates@)[i]).0,
            ),
{
    let ghost g = gates_of(gates@);
    let mut compiled: Vec<(Constraint<Scalar>, Cell)> = Vec::new();
    let mut worst: Option<Constraint<Scalar>> = None;
    let mut i: usize = 0;
    while i < gates.len()
        invariant
            i <= gates.len(),
            g == gates_of(gates@),
            canonicalize ==> worst is None,
            match worst {
                Some(c) => {
                    &&& !canonical(c@)
                    &&& exists|k: int| 0 <= k < gates@.len() && (#[trigger] g[k]).0 == c@
                    &&& forall|k: int|
                        0 <= k < i && !canonical((#[trigger] g[k]).0) ==> !terms_less(g[k].0, c@)
                },
                None => {
                    &&& compiled@.len() == i
                    &&& forall|k: int|
                        0 <= k < i ==> {
                            &&& (#[trigger] gates_of(compiled@)[k]).1 == g[k].1
                            &&& canonical(gates_of(compiled@)[k].0)
                            &&& if canonicalize {
                                is_canonical_form(gates_of(compiled@)[k].0, g[k].0, Scalar::modulus())
                            } else {
                                gates_of(compiled@)[k].0 == g[k].0
                            }
                        }
                },
            },
            !canonicalize && worst is None ==> forall|k: int|
                0 <= k < i ==> canonical((#[trigger] g[k]).0),
            canonicalize ==> forall|k: int|
                0 <= k < i ==> clearing_fits((#[trigger] g[k]).0),
        decreases gates.len() - i,
    {
        let constraint = &gates[i].0;
        let ghost before = gates_of(compiled@);
        proof {
            assert(g[i as int].0 == constraint@);
        }
        if canonicalize {
            match constraint.checked_canonicalize() {
                None => {
                    return Err(BuildError::ExponentOverflow);
                },
                Some(form) => {
                    compiled.push((form, gates[i].1));
                },
            }
        } else if constraint.is_canonical() {
            compiled.push((constraint.copy(), gates[i].1));
        } else {
            let replace = match &worst {
                None => true,
                Some(c) => match compare_constraints(constraint, c) {
                    Comparison::Less => true,
                    _ => false,
                },
            };
            if replace {
                proof {
                    if worst is Some {
                        let c = (worst->Some_0)@;
                        assert forall|k: int|
                            0 <= k < i + 1 && !canonical((#[trigger] g[k]).0) implies !terms_less(
                            g[k].0,
                            constraint@,
                        ) by {
                            if terms_less(g[k].0, constraint@) {
                                if k < i {
                                    crate::terms::lemma_terms_less_transitive(
                                        g[k].0,
                                        constraint@,
                                        c,
                                    );
                                } else {
                                    crate::terms::lemma_terms_less_irreflexive(constraint@);
                                }
                            }
                        }
                    } else {
                        crate::terms::lemma_terms_less_irreflexive(constraint@);
                    }
                }
                worst = Some(constraint.copy());
            }
        }
        proof {
            if worst is None {
                assert(gates_of(compiled@) =~= before.push(gates_of(compiled@).last()));
                assert forall|k: int| 0 <= k < i + 1 implies {
                    &&& (#[trigger] gates_of(compiled@)[k]).1 == g[k].1
                    &&& canonical(gates_of(compiled@)[k].0)
                    &&& if canonicalize {
                        is_canonical_form(gates_of(compiled@)[k].0, g[k].0, Scalar::modulus())
                    } else {
                        gates_of(compiled@)[k].0 == g[k].0
                    }
                } by {
                    if k < i {
                        assert(gates_of(compiled@)[k] == before[k]);
                    }
                }
            }
        }
        i += 1;
    }
    match worst {
        Some(c) => Err(BuildError::NotCanonical(c)),
        None => Ok(compiled),
    }
}

/// Collects the rotations of all variables.
pub(crate) fn collect_rotations(gates: &Vec<GateInstance>) -> (ret: Vec<isize>)
    ensures
        opened_rotations(ret@) == opened_set(placements(gates@)),
{
    let ghost g = placements(gates@);
    let mut ret: Vec<isize> = Vec::new();
    let mut i: usize = 0;
    while i < gates.len()
        invariant
            i <= gates.len(),
            g == placements(gates@),
            forall|r: isize| #[trigger]
                ret@.contains(r) <==> exists|k: int|
                    0 <= k < i && terms_rotations((#[trigger] g[k]).terms).contains(r),
        decreases gates.len() - i,
    {
        let ghost before = ret@;
        let variables = gates[i].constraint.get_free_variables();
        let ghost t = g[i as int].terms;
        let mut j: usize = 0;
        while j < variables.len()
            invariant
                j <= variables.len(),
                forall|v: Variable| #[trigger] variables@.contains(v) <==> terms_have(t, v),
                forall|r: isize| #[trigger]
                    ret@.contains(r) <==> (before.contains(r) || exists|k: int|
                        0 <= k < j && (#[trigger] variables@[k]).rotation == r),
            decreases variables.len() - j,
        {
            let ghost sofar = ret@;
            ret.push(variables[j].rotation());
            proof {
                assert forall|r: isize| #[trigger]
                    ret@.contains(r) <==> (before.contains(r) || exists|k: int|
                        0 <= k < j + 1 && (#[trigger] variables@[k]).rotation == r) by {
                    lemma_push_contains(sofar, variables@[j as int].rotation, r);
                    if exists|k: int| 0 <= k < j + 1 && (#[trigger] variables@[k]).rotation == r {
                        let k = choose|k: int|
                            0 <= k < j + 1 && (#[trigger] variables@[k]).rotation == r;
                        if k < j {
                            assert(sofar.contains(r));
                        }
                    }
                }
            }
            j += 1;
        }
        proof {
            assert forall|r: isize| #[trigger]
                ret@.contains(r) <==> exists|k: int|
                    0 <= k < i + 1 && terms_rotations((#[trigger] g[k]).terms).contains(r) by {
                assert((exists|k: int|
                    0 <= k < variables@.len() && (#[trigger] variables@[k]).rotation == r)
                    <==> terms_rotations(t).contains(r)) by {
                    if exists|k: int|
                        0 <= k < variables@.len() && (#[trigger] variables@[k]).rotation == r {
                        let k = choose|k: int|
                            0 <= k < variables@.len() && (#[trigger] variables@[k]).rotation == r;
                        assert(variables@.contains(variables@[k]));
                        assert(terms_have(t, variables@[k]));
                    }
                    if terms_rotations(t).contains(r) {
                        let v = choose|v: Variable| #[trigger] terms_have(t, v) && v.rotation == r;
                        assert(variables@.contains(v));
                        let k = choose|k: int| 0 <= k < variables@.len() && variables@[k] == v;
                        assert(variables@[k].rotation == r);
                    }
                }
                if before.contains(r) {
                    let k = choose|k: int|
                        0 <= k < i && terms_rotations((#[trigger] g[k]).terms).contains(r);
                    assert(terms_rotations(g[k].terms).contains(r));
                }
                if terms_rotations(t).contains(r) {
                    assert(terms_rotations(g[i as int].terms).contains(r));
                }
                if exists|k: int|
                    0 <= k < i + 1 && terms_rotations((#[trigger] g[k]).terms).contains(r) {
                    let k = choose|k: int|
                        0 <= k < i + 1 && terms_rotations((#[trigger] g[k]).terms).contains(r);
                    if k < i {
                        assert(before.contains(r));
                    }
                }
            }
        }
        i += 1;
    }
    proof {
        assert forall|r: isize| opened_rotations(ret@).contains(r) <==> opened_set(g).contains(r) by {
            if ret@.contains(r) {
                let k = choose|k: int|
                    0 <= k < gates@.len() && terms_rotations((#[trigger] g[k]).terms).contains(r);
                assert(is_opened_rotation(g, r));
            }
        }
        assert(opened_rotations(ret@) =~= opened_set(g));
    }
    ret
}

/// The elements of a list with one more element.
pub proof fn lemma_push_contains<T>(s: Seq<T>, x: T, v: T)
    ensures
        s.push(x).contains(v) <==> (s.contains(v) || v == x),
{
    let r = s.push(x);
    if s.contains(v) {
        let k = choose|k: int| 0 <= k < s.len() && s[k] == v;
        assert(r[k] == v);
    }
    if v == x {
        assert(r[s.len() as int] == v);
    }
    if r.contains(v) {
        let k = choose|k: int| 0 <= k < r.len() && r[k] == v;
        if k < s.len() {
            assert(s[k] == v);
        }
    }
}

/// Makes a selector: a polynomial that is 1 at the given rows and 0 at the others.
fn make_selector(degree_bound: usize, activation_row_set: &Vec<usize>) -> (ret: Polynomial)
    requires
        crate::utils::is_power_of_two(degree_bound as int),
        degree_bound <= max_domain_size(),
        forall|i: int|
            0 <= i < activation_row_set@.len() ==> (#[trigger] activation_row_set@[i])
                < degree_bound,
    ensures
        interpolates(ret@, selector_values(activation_row_set@, degree_bound as int)),
{
    let ghost rows = activation_row_set@;
    let mut values: Vec<Scalar> = Vec::new();
    let mut i: usize = 0;
    while i < degree_bound
        invariant
            i <= degree_bound,
            values@.len() == i,
            forall|k: int| 0 <= k < i ==> (#[trigger] values@[k]).value() == 0,
        decreases degree_bound - i,
    {
        values.push(zero::<Scalar>());
        i += 1;
    }
    let mut j: usize = 0;
    proof {
        assert forall|k: int| 0 <= k < degree_bound implies (#[trigger] values@[k]).value()
            == if rows.subrange(0, 0).contains(k as usize) {
            1int
        } else {
            0int
        } by {}
    }
    while j < activation_row_set.len()
        invariant
            j <= activation_row_set.len(),
            rows == activation_row_set@,
            values@.len() == degree_bound,
            forall|i: int| 0 <= i < rows.len() ==> (#[trigger] rows[i]) < degree_bound,
            forall|k: int|
                0 <= k < degree_bound ==> (#[trigger] values@[k]).value() == if rows.subrange(
                    0,
                    j as int,
                ).contains(k as usize) {
                    1int
                } else {
                    0int
                },
        decreases activation_row_set.len() - j,
    {
        let row: usize = activation_row_set[j];
        let ghost before = values@;
        values.set(row, one::<Scalar>());
        proof {
            assert(rows.subrange(0, j + 1) =~= rows.subrange(0, j as int).push(row));
            assert forall|k: int| 0 <= k < degree_bound implies (#[trigger] values@[k]).value()
                == if rows.subrange(0, j + 1).contains(k as usize) {
                1int
            } else {
                0int
            } by {
                lemma_push_contains(rows.subrange(0, j as int), row, k as usize);
                if k != row {
                    assert(values@[k] == before[k]);
                }
            }
        }
        j += 1;
    }
    proof {
        assert(rows.subrange(0, rows.len() as int) =~= rows);
    }
    let ret = Polynomial::encode2(&values);
    proof {
        let expected = selector_values(rows, degree_bound as int);
        assert(residues(values@) =~= expected);
        assert forall|i: nat| i < expected.len() implies #[trigger] poly_eval(
            ret@,
            pow(
                domain_root(expected.len() as int),
                i,
            ),
        ) % Scalar::modulus() == expected[i as int] by {
            assert(expected[i as int] == values@[i as int].value());
        }
    }
    ret
}

/// A gate with constraint `t`, relative to the column of `cell`, is active at its row.
pub open spec fn placed_at(
    gates: Seq<Placement>,
    active: Seq<Seq<usize>>,
    t: Terms,
    cell: Cell,
) -> bool {
    exists|g: int|
        0 <= g < gates.len() && (#[trigger] gates[g]).terms == t && gates[g].column == cell.column
            && active[gates[g].selector].contains(cell.row)
}

/// The placements and the selectors' rows stand for the given gates, with as few selectors as
/// possible.
pub open spec fn is_grouping(
    compiled: Seq<(Terms, Cell)>,
    gates: Seq<Placement>,
    active: Seq<Seq<usize>>,
) -> bool {
    &&& forall|i: int, j: int|
        0 <= i < j < gates.len() ==> placement_less(
            (#[trigger] gates[i]).terms,
            gates[i].column,
            (#[trigger] gates[j]).terms,
            gates[j].column,
        )
    &&& forall|i: int|
        0 <= i < gates.len() ==> 0 <= (#[trigger] gates[i]).selector < active.len() && 0
            <= gates[i].column <= usize::MAX
    &&& forall|i: int, j: int|
        0 <= i < j < active.len() ==> crate::model::rows_less(
            #[trigger] active[i],
            #[trigger] active[j],
        )
    &&& forall|i: int|
        0 <= i < active.len() ==> rows_sorted(#[trigger] active[i]) && active[i].len() > 0
    &&& forall|i: int| 0 <= i < active.len() ==> #[trigger] selector_used(gates, i)
    &&& forall|t: Terms, cell: Cell|
        #[trigger] placed_at(gates, active, t, cell) <==> gates_have(compiled, t, cell)
}

/// Groups gates by the rows at which they are active.
fn build_gates_and_selectors(compiled: &Vec<(Constraint<Scalar>, Cell)>) -> (ret: (
    Vec<GateInstance>,
    Vec<Vec<usize>>,
))
    requires
        forall|i: int|
            0 <= i < compiled@.len() ==> shiftable(
                (#[trigger] gates_of(compiled@)[i]).0,
                gates_of(compiled@)[i].1.column as int,
            ) && gates_of(compiled@)[i].1.column <= isize::MAX,
    ensures
        is_grouping(gates_of(compiled@), placements(ret.0@), row_lists(ret.1@)),
        forall|i: int|
            0 <= i < ret.0@.len() ==> (#[trigger] ret.0@[i]).remapped@ == shift_terms(
                ret.0@[i].constraint@,
                ret.0@[i].column_index as int,
            ),
{
    let ghost c = gates_of(compiled@);
    // Rows at which every constraint is active, by column.
    let entries = group_gates(compiled);
    // The different row sets: every set gets a selector.
    let row_sets = collect_row_sets(&entries);
    let ghost active = row_lists(row_sets@);
    let mut gates: Vec<GateInstance> = Vec::new();
    let mut i: usize = 0;
    while i < entries.len()
        invariant
            i <= entries.len(),
            c == gates_of(compiled@),
            active == row_lists(row_sets@),
            crate::grouping::entry_rows_wf(entries@),
            forall|k: int|
                0 <= k < compiled@.len() ==> shiftable(
                    (#[trigger] c[k]).0,
                    c[k].1.column as int,
                ) && c[k].1.column <= isize::MAX,
            forall|t: Terms, cell: Cell|
                #[trigger] entries_have(entries@, t, cell.row, cell.column as int) <==> gates_have(
                    c,
                    t,
                    cell,
                ),
            forall|r: Seq<usize>| #[trigger]
                row_sets_have(row_sets@, r) <==> entries_use(entries@, r),
            gates@.len() == i,
            forall|k: int|
                0 <= k < i ==> {
                    &&& (#[trigger] gates@[k]).constraint@ == entries@[k].constraint@
                    &&& gates@[k].column_index == entries@[k].column_index
                    &&& gates@[k].selector_index < active.len()
                    &&& active[gates@[k].selector_index as int] == entries@[k].rows@
                    &&& gates@[k].remapped@ == shift_terms(
                        gates@[k].constraint@,
                        gates@[k].column_index as int,
                    )
                },
        decreases entries.len() - i,
    {
        let entry = &entries[i];
        proof {
            assert(entries_use(entries@, entry.rows@));
            assert(row_sets_have(row_sets@, entry.rows@));
            let row = entry.rows@[0];
            let cell = Cell { row, column: entry.column_index };
            assert(entry.rows@.contains(row));
            assert(is_entry(entries@[i as int], entry.constraint@, entry.column_index as int));
            assert(entries_have(entries@, entry.constraint@, cell.row, cell.column as int));
            assert(gates_have(c, entry.constraint@, cell));
            let k = choose|k: int|
                0 <= k < c.len() && #[trigger] c[k] == (entry.constraint@, cell);
            assert(shiftable(c[k].0, c[k].1.column as int));
        }
        let selector_index: usize = find_row_set(&row_sets, &entry.rows);
        gates.push(
            GateInstance {
                constraint: entry.constraint.copy(),
                remapped: entry.constraint.remap_variables(entry.column_index as isize),
                column_index: entry.column_index,
                selector_index,
            },
        );
        i += 1;
    }
    proof {
        let pl = placements(gates@);
        assert forall|x: int, y: int| 0 <= x < y < pl.len() implies placement_less(
            (#[trigger] pl[x]).terms,
            pl[x].column,
            (#[trigger] pl[y]).terms,
            pl[y].column,
        ) by {
            assert(gates@[x].constraint@ == entries@[x].constraint@);
            assert(gates@[y].constraint@ == entries@[y].constraint@);
        }
        assert forall|x: int| 0 <= x < pl.len() implies 0 <= (#[trigger] pl[x]).selector
            < active.len() && 0 <= pl[x].column <= usize::MAX by {
            assert(gates@[x].selector_index < active.len());
        }
        assert forall|x: int, y: int| 0 <= x < y < active.len() implies crate::model::rows_less(
            #[trigger] active[x],
            #[trigger] active[y],
        ) by {
            assert(active[x] == row_sets@[x]@ && active[y] == row_sets@[y]@);
        }
        assert forall|x: int| 0 <= x < active.len() implies rows_sorted(#[trigger] active[x])
            && active[x].len() > 0 && selector_used(pl, x) by {
            assert(active[x] == row_sets@[x]@);
            assert(row_sets_have(row_sets@, active[x]));
            let k = choose|k: int|
                0 <= k < entries@.len() && (#[trigger] entries@[k]).rows@ == active[x];
            let y = gates@[k].selector_index as int;
            assert(active[y] == entries@[k].rows@);
            if x < y {
                assert(crate::model::rows_less(active[x], active[y]));
                crate::grouping::lemma_rows_less_irreflexive(active[x]);
            } else if y < x {
                assert(crate::model::rows_less(active[y], active[x]));
                crate::grouping::lemma_rows_less_irreflexive(active[x]);
            }
            assert(pl[k].selector == x);
        }
        assert forall|x: int| 0 <= x < active.len() implies #[trigger] selector_used(pl, x) by {
            assert(rows_sorted(active[x]));
        }
        assert forall|t: Terms, cell: Cell|
            #[trigger] placed_at(pl, active, t, cell) <==> gates_have(c, t, cell) by {
            assert(entries_have(entries@, t, cell.row, cell.column as int) <==> gates_have(
                c,
                t,
                cell,
            ));
            if placed_at(pl, active, t, cell) {
                let g = choose|g: int|
                    0 <= g < pl.len() && (#[trigger] pl[g]).terms == t && pl[g].column
                        == cell.column && active[pl[g].selector].contains(cell.row);
                assert(gates@[g].constraint@ == entries@[g].constraint@);
                assert(is_entry(entries@[g], t, cell.column as int));
                assert(entries_have(entries@, t, cell.row, cell.column as int));
            }
            if entries_have(entries@, t, cell.row, cell.column as int) {
                let e = choose|e: int|
                    0 <= e < entries@.len() && is_entry(
                        #[trigger] entries@[e],
                        t,
                        cell.column as int,
                    ) && entries@[e].rows@.contains(cell.row);
                assert(gates@[e].constraint@ == entries@[e].constraint@);
                assert(pl[e].terms == t);
                assert(placed_at(pl, active, t, cell));
            }
        }
    }
    (gates, row_sets)
}

/// `size` is the padded number of rows of a circuit, and there is an evaluation domain of that size.
pub open spec fn sizes_fit(rows: int, gates: Seq<Placement>, size: int) -> bool {
    &&& is_next_power_of_two(size, rows + opened_set(gates).len() + 1)
    &&& 4 <= size <= usize::MAX
    &&& size <= max_domain_size()
}

/// The next power of two is unique.
pub proof fn lemma_next_power_unique(a: int, b: int, n: int)
    requires
        is_next_power_of_two(a, n),
        is_next_power_of_two(b, n),
    ensures
        a == b,
{
    let i = choose|i: nat| a == #[trigger] pow2(i);
    let j = choose|j: nat| b == #[trigger] pow2(j);
    assert(pow2(i) >= n && pow2(j) >= n);
}

/// Calculates the highest degree of the gates, or `None` if it is not in the range of [`usize`].
pub(crate) fn max_degree(gates: &Vec<GateInstance>) -> (ret: Option<usize>)
    requires
        forall|i: int| 0 <= i < gates@.len() ==> canonical((#[trigger] gates@[i]).constraint@),
    ensures
        ret is Some <==> max_gate_degree(placements(gates@)) <= usize::MAX,
        ret is Some ==> ret->Some_0 == max_gate_degree(placements(gates@)),
{
    let ghost pl = placements(gates@);
    let mut degree: usize = 0;
    let mut i: usize = 0;
    proof {
        assert(pl.subrange(0, 0) =~= seq![]);
    }
    while i < gates.len()
        invariant
            i <= gates.len(),
            pl == placements(gates@),
            forall|k: int| 0 <= k < gates@.len() ==> canonical((#[trigger] gates@[k]).constraint@),
            degree == max_gate_degree(pl.subrange(0, i as int)),
        decreases gates.len() - i,
    {
        proof {
            let prefix = pl.subrange(0, i + 1);
            assert(prefix.drop_last() =~= pl.subrange(0, i as int));
            assert(prefix.last() == pl[i as int]);
        }
        match gates[i].constraint.checked_degree() {
            None => {
                proof {
                    lemma_max_degree_member(pl, i as int);
                }
                return None;
            },
            Some(d) => {
                if degree < d {
                    degree = d;
                }
            },
        }
        i += 1;
    }
    proof {
        assert(pl.subrange(0, pl.len() as int) =~= pl);
    }
    Some(degree)
}

/// The highest degree is at least that of every gate.
pub proof fn lemma_max_degree_member(gates: Seq<Placement>, i: int)
    requires
        0 <= i < gates.len(),
    ensures
        terms_degree(gates[i].terms) <= max_gate_degree(gates),
    decreases gates.len(),
{
    if i < gates.len() - 1 {
        assert(gates.drop_last()[i] == gates[i]);
        lemma_max_degree_member(gates.drop_last(), i);
    }
}

/// The highest degree is not negative.
pub proof fn lemma_max_degree_nonnegative(gates: Seq<Placement>)
    ensures
        max_gate_degree(gates) >= 0,
    decreases gates.len(),
{
    if gates.len() > 0 {
        lemma_max_degree_nonnegative(gates.drop_last());
    }
}

/// Powers of two in the upper half of the range of [`usize`].
proof fn lemma_half_range(n: int)
    requires
        crate::utils::is_power_of_two(n),
        n > usize::MAX / 2 + 1,
    ensures
        n > usize::MAX,
{
    lemma2_to64();
    let k = choose|k: nat| n == #[trigger] pow2(k);
    if usize::MAX == 0xffff_ffff {
        assert(pow2(31) == 0x8000_0000);
        if k <= 31 {
            crate::utils::lemma_pow2_monotone(k, 31);
        } else {
            crate::utils::lemma_pow2_monotone(32, k);
        }
    } else {
        assert(usize::MAX == 0xffff_ffff_ffff_ffff);
        assert(pow2(63) == 0x8000_0000_0000_0000) by {
            vstd::arithmetic::power2::lemma_pow2_unfold(64);
        }
        if k <= 63 {
            crate::utils::lemma_pow2_monotone(k, 63);
        } else {
            crate::utils::lemma_pow2_monotone(64, k);
        }
    }
}

/// There are at least two rotations at which columns are opened.
proof fn lemma_opened_set_len(gates: Seq<Placement>, set: Seq<isize>)
    requires
        set.to_set() == opened_set(gates),
    ensures
        set.len() >= 2,
{
    assert(opened_set(gates).contains(0isize) && opened_set(gates).contains(1isize));
    assert(set.to_set().contains(0isize) && set.to_set().contains(1isize));
    assert(set.contains(0isize) && set.contains(1isize));
    let i = choose|i: int| 0 <= i < set.len() && set[i] == 0isize;
    let j = choose|j: int| 0 <= j < set.len() && set[j] == 1isize;
    assert(i != j);
}

/// The degree bound of the quotient is not negative.
pub proof fn lemma_quotient_bound_nonnegative(size: int, columns: int, gates: Seq<Placement>)
    requires
        4 <= size,
        0 <= columns,
    ensures
        0 <= quotient_bound(size, columns, gates),
{
    lemma_max_degree_nonnegative(gates);
    let d = max_gate_degree(gates);
    let e = if d < columns {
        columns
    } else {
        d
    };
    assert(0 <= (size - 1) * e) by (nonlinear_arith)
        requires
            size >= 4,
            0 <= e,
    ;
}

/// Calculates the degree bound of the PLONK quotient, typically much higher than the circuit's
/// general [degree bound](`Circuit::degree_bound`) `N` because the constraint equations involve
/// several polynomial multiplications, such as gate selectors multiplied by gate
/// constraints combined with the witness columns.
///
/// The algorithm uses the formula `(N - 1) * E`, where `E = max(max_gate_degree, num_columns)`.
/// The rationale behind it is:
///
/// * each column has degree less than or equal to `N - 1`;
/// * the grand gate constraint has degree less than or equal to
///   `(N - 1) * (1 + max_gate_degree)` (the selector contributes one factor, degree composition
///   with the constraint columns contributes `max_gate_degree` more);
/// * the recurrence constraint of the permutation argument has degree less than or equal to
///   `(N - 1) * (1 + num_columns)` (the accumulator/shifted term contributes one factor, one more
///   per column);
/// * the grand PLONK constraint (grand gate constraint + permutation argument fixpoint constraint
///   + permutation argument recurrence constraint) has degree less than or equal to
///   `(N - 1) * (1 + E)`;
/// * dividing that by the zero polynomial (`x^N - 1`, degree-N) yields a quotient with degree
///   `(N - 1) * (1 + E) - N`;
/// * so the degree bound of the quotient is `(N - 1) * (1 + E) - N + 1`
/// * ... which simplifies to `(N - 1) * E`.
pub fn quotient_degree_bound(
    degree_bound: usize,
    num_columns: usize,
    max_gate_degree: usize,
) -> (ret: usize)
    requires
        degree_bound >= 1,
        (degree_bound - 1) * (if max_gate_degree < num_columns {
            num_columns
        } else {
            max_gate_degree
        }) <= usize::MAX,
    ensures
        ret == (degree_bound - 1) * (if max_gate_degree < num_columns {
            num_columns
        } else {
            max_gate_degree
        }),
{
    let factor: usize = if max_gate_degree < num_columns {
        num_columns
    } else {
        max_gate_degree
    };
    (degree_bound - 1) * factor
}

/// Calculates the number of chunks the quotient is split into.
///
/// See [`quotient_degree_bound`] for details.
pub fn num_quotient_chunks(
    degree_bound: usize,
    num_columns: usize,
    max_gate_degree: usize,
) -> (ret: usize)
    requires
        degree_bound >= 1,
        (degree_bound - 1) * (if max_gate_degree < num_columns {
            num_columns
        } else {
            max_gate_degree
        }) <= usize::MAX,
    ensures
        ret == ((degree_bound - 1) * (if max_gate_degree < num_columns {
            num_columns
        } else {
            max_gate_degree
        }) + degree_bound - 1) / (degree_bound as int),
{
    let bound: usize = quotient_degree_bound(degree_bound, num_columns, max_gate_degree);
    let whole: usize = bound / degree_bound;
    let rest: usize = bound % degree_bound;
    proof {
        let (b, n) = (bound as int, degree_bound as int);
        let q = b / n;
        let r = b % n;
        vstd::arithmetic::div_mod::lemma_fundamental_div_mod(b, n);
        if r == 0 {
            assert((b + n - 1) / n == q) by (nonlinear_arith)
                requires
                    b == n * q,
                    n >= 1,
            ;
        } else {
            assert((b + n - 1) / n == q + 1) by (nonlinear_arith)
                requires
                    b == n * q + r,
                    0 < r < n,
            ;
            assert(q + 1 <= b) by (nonlinear_arith)
                requires
                    b == n * q + r,
                    0 < r < n,
                    q >= 0,
            ;
        }
    }
    if rest == 0 {
        whole
    } else {
        whole + 1
    }
}

/// Calculates the padded size and the number of blinding rows of a circuit, or `None` if there is no
/// evaluation domain of that size.
fn fit_sizes(num_rows: usize, gates: &Vec<GateInstance>, rotations: &Vec<isize>) -> (ret: Option<
    (usize, usize),
>)
    requires
        opened_rotations(rotations@) == opened_set(placements(gates@)),
    ensures
        match ret {
            Some((size, blinding)) => {
                &&& sizes_fit(num_rows as int, placements(gates@), size as int)
                &&& blinding == opened_set(placements(gates@)).len() + 1
                &&& num_rows + blinding <= size
            },
            None => forall|size: int| !#[trigger]
                sizes_fit(num_rows as int, placements(gates@), size),
        },
{
    let ghost pl = placements(gates@);
    let set = rotation_set(rotations);
    let count: usize = set.len();
    proof {
        assert(count == opened_set(pl).len());
        assert(count >= 2) by {
            lemma_opened_set_len(pl, set@);
        }
    }
    let half: usize = usize::MAX / 2 + 1;
    if count >= half || num_rows > half - count - 1 {
        proof {
            assert forall|size: int| !#[trigger] sizes_fit(num_rows as int, pl, size) by {
                if sizes_fit(num_rows as int, pl, size) {
                    lemma_half_range(size);
                }
            }
        }
        return None;
    }
    proof {
        assert(blinding_rows::<Scalar>(rotations@) == (count + 1) * ((31 + 32int) / 32));
        assert((31 + 32int) / 32 == 1);
    }
    let (size, blinding) = padded_circuit_size::<Scalar>(num_rows, rotations);
    proof {
        lemma2_to64();
        assert(size >= 4) by {
            let k = choose|k: nat| size == #[trigger] pow2(k);
            if k == 0 {
                assert(pow2(0) == 1);
            } else if k == 1 {
                assert(pow2(1) == 2);
            } else {
                crate::utils::lemma_pow2_monotone(2, k);
                assert(pow2(2) == 4);
            }
        }
        assert forall|other: int| sizes_fit(num_rows as int, pl, other) implies other == size by {
            lemma_next_power_unique(other, size as int, num_rows + opened_set(pl).len() + 1);
        }
    }
    if size as u64 > 0x4000_0000_0000_0000 {
        return None;
    }
    Some((size, blinding))
}

/// Checks that the quotient of a circuit can be calculated and that its chunks can be counted.
pub(crate) fn check_counts(
    size: usize,
    num_columns: usize,
    gates: &Vec<GateInstance>,
    num_selectors: usize,
) -> (ret: bool)
    requires
        size >= 4,
        forall|i: int| 0 <= i < gates@.len() ==> canonical((#[trigger] gates@[i]).constraint@),
    ensures
        ret == counts_fit(
            size as int,
            num_columns as int,
            placements(gates@),
            num_selectors as int,
        ),
{
    let ghost pl = placements(gates@);
    let degree: usize = match max_degree(gates) {
        Some(degree) => degree,
        None => {
            return false;
        },
    };
    let factor: usize = if degree < num_columns {
        num_columns
    } else {
        degree
    };
    proof {
        let (n, f) = (size - 1, factor as int);
        assert(0 <= n * f <= 0xffff_ffff_ffff_ffff * 0xffff_ffff_ffff_ffff) by (nonlinear_arith)
            requires
                0 <= n <= 0xffff_ffff_ffff_ffff,
                0 <= f <= 0xffff_ffff_ffff_ffff,
        ;
    }
    if (size as u128 - 1) * factor as u128 > usize::MAX as u128 {
        return false;
    }
    let chunks: usize = num_quotient_chunks(size, num_columns, degree);
    let total: u128 = num_selectors as u128 + 2 * (num_columns as u128) + 1 + chunks as u128;
    total <= usize::MAX as u128
}

/// Checks that the quotient of a circuit can be calculated within the largest evaluation domain.
pub(crate) fn check_domain(size: usize, num_columns: usize, gates: &Vec<GateInstance>) -> (ret: bool)
    requires
        size >= 4,
        forall|i: int| 0 <= i < gates@.len() ==> canonical((#[trigger] gates@[i]).constraint@),
    ensures
        ret ==> size * (max_gate_degree(placements(gates@)) + num_columns + 4)
            <= max_domain_size(),
        !ret ==> max_gate_degree(placements(gates@)) > usize::MAX || size * (max_gate_degree(
            placements(gates@),
        ) + num_columns + 4) > max_domain_size(),
{
    let degree: usize = match max_degree(gates) {
        Some(degree) => degree,
        None => {
            return false;
        },
    };
    let limit: u128 = 0x4000_0000_0000_0000;
    let wide: u128 = degree as u128 + num_columns as u128 + 4;
    proof {
        let e = degree + num_columns + 4;
        if wide > limit {
            assert(size * e >= e) by (nonlinear_arith)
                requires
                    size >= 4,
                    e >= 0,
            ;
        } else {
            assert(0 <= size * e <= 0xffff_ffff_ffff_ffff * 0x4000_0000_0000_0000)
                by (nonlinear_arith)
                requires
                    0 <= size <= 0xffff_ffff_ffff_ffff,
                    0 <= e <= 0x4000_0000_0000_0000,
            ;
        }
    }
    wide <= limit && size as u128 * wide <= limit
}

/// The compiled gates span the same rows and columns as the gates they come from.
proof fn lemma_compiled_wf(
    gates: Seq<(Terms, Cell)>,
    compiled: Seq<(Terms, Cell)>,
    canonicalize: bool,
    i: int,
    rows: int,
    columns: int,
)
    requires
        compiled_gates(gates, compiled, canonicalize),
        0 <= i < gates.len(),
        built_gate_wf(gates[i], rows, columns),
    ensures
        built_gate_wf(compiled[i], rows, columns),
        canonical(compiled[i].0),
{
    let p = Scalar::modulus();
    Scalar::lemma_modulus();
    let (r, t) = (compiled[i].0, gates[i].0);
    assert(compiled[i].1 == gates[i].1);
    if canonicalize {
        let k = choose|k: Mono| is_clearing(k, t);
        assert(is_clearing(k, t));
        assert(is_normal_form(r, product_terms(t, seq![(k, 1int)]), p));
        assert forall|v: Variable| #[trigger] terms_have(r, v) implies terms_have(t, v) by {
            lemma_canonical_variables(r, t, k, v, p);
        }
    }
}

/// A placement stands for a compiled gate at every row of its selector.
pub proof fn lemma_placement_cell(
    compiled: Seq<(Terms, Cell)>,
    gates: Seq<Placement>,
    active: Seq<Seq<usize>>,
    g: int,
    i: int,
) -> (cell: Cell)
    requires
        is_grouping(compiled, gates, active),
        0 <= g < gates.len(),
        0 <= i < active[gates[g].selector].len() || i == 0,
    ensures
        active[gates[g].selector].len() > 0,
        cell.row == active[gates[g].selector][i],
        cell.column == gates[g].column,
        gates_have(compiled, gates[g].terms, cell),
{
    let rows = active[gates[g].selector];
    assert(0 <= gates[g].selector < active.len());
    assert(rows_sorted(rows) && rows.len() > 0);
    let cell = Cell { row: rows[i], column: gates[g].column as usize };
    assert(rows.contains(cell.row));
    assert(placed_at(gates, active, gates[g].terms, cell));
    cell
}

/// Checks that the cells of all nodes are in the table.
fn check_nodes(nodes: &Vec<Vec<Cell>>, rows: usize, columns: usize) -> (ret: bool)
    ensures
        ret == lists_fit(node_lists(nodes@), rows as int, columns as int),
{
    let ghost lists = node_lists(nodes@);
    let mut i: usize = 0;
    while i < nodes.len()
        invariant
            i <= nodes.len(),
            lists == node_lists(nodes@),
            forall|x: int, y: int, c: Cell| #[trigger]
                stands_at(lists, x, y, c) && x < i ==> c.row < rows && c.column < columns,
        decreases nodes.len() - i,
    {
        let node = &nodes[i];
        let mut j: usize = 0;
        while j < node.len()
            invariant
                i < nodes.len(),
                node == &nodes@[i as int],
                j <= node.len(),
                lists == node_lists(nodes@),
                forall|x: int, y: int, c: Cell| #[trigger]
                    stands_at(lists, x, y, c) && (x < i || x == i && y < j) ==> c.row < rows
                        && c.column < columns,
            decreases node.len() - j,
        {
            let cell = node[j];
            if cell.row() >= rows || cell.column() >= columns {
                proof {
                    assert(stands_at(lists, i as int, j as int, cell));
                }
                return false;
            }
            j += 1;
        }
        i += 1;
    }
    true
}

/// Interpolates the permutation polynomials.
fn make_sigma(sigma_values: &Vec<Vec<Scalar>>, size: usize) -> (ret: Vec<Polynomial>)
    requires
        crate::utils::is_power_of_two(size as int),
        size <= max_domain_size(),
        forall|j: int|
            0 <= j < sigma_values@.len() ==> (#[trigger] sigma_values@[j])@.len() == size,
    ensures
        ret@.len() == sigma_values@.len(),
        forall|j: int|
            0 <= j < ret@.len() ==> interpolates(
                (#[trigger] ret@[j])@,
                residues(sigma_values@[j]@),
            ),
{
    let mut ret: Vec<Polynomial> = Vec::new();
    let mut j: usize = 0;
    while j < sigma_values.len()
        invariant
            j <= sigma_values.len(),
            crate::utils::is_power_of_two(size as int),
            size <= max_domain_size(),
            forall|k: int|
                0 <= k < sigma_values@.len() ==> (#[trigger] sigma_values@[k])@.len() == size,
            ret@.len() == j,
            forall|k: int|
                0 <= k < j ==> interpolates((#[trigger] ret@[k])@, residues(sigma_values@[k]@)),
        decreases sigma_values.len() - j,
    {
        let polynomial = encode_column(&sigma_values[j]);
        ret.push(polynomial);
        j += 1;
    }
    ret
}

/// Interpolates the polynomial that takes the given values on the evaluation domain.
pub(crate) fn encode_column(values: &Vec<Scalar>) -> (ret: Polynomial)
    requires
        crate::utils::is_power_of_two(values@.len() as int),
        values@.len() <= max_domain_size(),
    ensures
        interpolates(ret@, residues(values@)),
{
    let ret = Polynomial::encode2(values);
    proof {
        let expected = residues(values@);
        assert forall|i: nat| i < expected.len() implies #[trigger] poly_eval(
            ret@,
            pow(
                domain_root(expected.len() as int),
                i,
            ),
        ) % Scalar::modulus() == expected[i as int] by {
            assert(expected[i as int] == values@[i as int].value());
        }
    }
    ret
}

/// Makes the selectors for all row sets.
fn make_selectors(degree_bound: usize, row_sets: &Vec<Vec<usize>>) -> (ret: Vec<Polynomial>)
    requires
        crate::utils::is_power_of_two(degree_bound as int),
        degree_bound <= max_domain_size(),
        forall|i: int, j: int|
            0 <= i < row_sets@.len() && 0 <= j < row_sets@[i]@.len() ==> (
            #[trigger] row_sets@[i]@[j]) < degree_bound,
    ensures
        ret@.len() == row_sets@.len(),
        forall|i: int|
            0 <= i < ret@.len() ==> interpolates(
                (#[trigger] ret@[i])@,
                selector_values(row_sets@[i]@, degree_bound as int),
            ),
{
    let mut ret: Vec<Polynomial> = Vec::new();
    let mut i: usize = 0;
    while i < row_sets.len()
        invariant
            i <= row_sets.len(),
            crate::utils::is_power_of_two(degree_bound as int),
            degree_bound <= max_domain_size(),
            forall|i: int, j: int|
                0 <= i < row_sets@.len() && 0 <= j < row_sets@[i]@.len() ==> (
                #[trigger] row_sets@[i]@[j]) < degree_bound,
            ret@.len() == i,
            forall|k: int|
                0 <= k < i ==> interpolates(
                    (#[trigger] ret@[k])@,
                    selector_values(row_sets@[k]@, degree_bound as int),
                ),
        decreases row_sets.len() - i,
    {
        proof {
            assert forall|j: int| 0 <= j < row_sets@[i as int]@.len() implies (
            #[trigger] row_sets@[i as int]@[j]) < degree_bound by {}
        }
        let selector = make_selector(degree_bound, &row_sets[i]);
        ret.push(selector);
        i += 1;
    }
    ret
}

/// What a circuit with the given dimensions, compiled gates, lists of connected cells and revealed
/// rows is compiled to.
pub open spec fn is_compilation(
    m: CircuitModel,
    rows: int,
    columns: int,
    compiled: Seq<(Terms, Cell)>,
    lists: Seq<Seq<Cell>>,
    public_rows: Seq<usize>,
) -> bool {
    &&& m.wf()
    &&& m.rows == rows
    &&& m.columns == columns
    &&& m.public_rows == public_rows
    &&& is_grouping(compiled, m.gates, m.active)
    &&& lists_fit(lists, m.size, m.columns)
    &&& forall|c: Cell| m.has(c) ==> is_target(lists, c, #[trigger] m.target(c))
}

/// `c` is the first constraint in negative powers.
pub open spec fn is_first_failure(gates: Seq<(Terms, Cell)>, c: Terms) -> bool {
    &&& !canonical(c)
    &&& exists|i: int| 0 <= i < gates.len() && (#[trigger] gates[i]).0 == c
    &&& forall|i: int|
        0 <= i < gates.len() && !canonical((#[trigger] gates[i]).0) ==> !terms_less(gates[i].0, c)
}

/// The gates can be compiled, but there is no evaluation domain of the padded size.
pub open spec fn too_large(rows: int, gates: Seq<(Terms, Cell)>, canonicalize: bool) -> bool {
    exists|compiled: Seq<(Terms, Cell)>, placed: Seq<Placement>, active: Seq<Seq<usize>>|
        compiled_gates(gates, compiled, canonicalize) && #[trigger] is_grouping(
            compiled,
            placed,
            active,
        ) && forall|size: int| !#[trigger] sizes_fit(rows, placed, size)
}

/// The gates can be compiled, but a connected cell is outside of the circuit.
pub open spec fn cell_out_of_range(
    rows: int,
    columns: int,
    gates: Seq<(Terms, Cell)>,
    lists: Seq<Seq<Cell>>,
    canonicalize: bool,
) -> bool {
    exists|
        compiled: Seq<(Terms, Cell)>,
        placed: Seq<Placement>,
        active: Seq<Seq<usize>>,
        size: int,
    |
        compiled_gates(gates, compiled, canonicalize) && #[trigger] is_grouping(
            compiled,
            placed,
            active,
        ) && #[trigger] sizes_fit(rows, placed, size) && !lists_fit(
            lists,
            size,
            columns,
        )
}

/// What compiling a circuit results in.
pub open spec fn is_build_result(
    ret: Result<Circuit, BuildError>,
    rows: int,
    columns: int,
    gates: Seq<(Terms, Cell)>,
    lists: Seq<Seq<Cell>>,
    public_rows: Seq<usize>,
    canonicalize: bool,
) -> bool {
    match ret {
        Ok(circuit) => exists|compiled: Seq<(Terms, Cell)>| #[trigger]
            compiled_gates(gates, compiled, canonicalize) && is_compilation(
                circuit.model(),
                rows,
                columns,
                compiled,
                lists,
                public_rows,
            ),
        Err(BuildError::NotCanonical(c)) => !canonicalize && is_first_failure(gates, c@),
        Err(BuildError::ExponentOverflow) => canonicalize && exists|i: int|
            0 <= i < gates.len() && !clearing_fits((#[trigger] gates[i]).0),
        Err(BuildError::TooLarge) => too_large(rows, gates, canonicalize),
        Err(BuildError::CellOutOfRange) => cell_out_of_range(
            rows,
            columns,
            gates,
            lists,
            canonicalize,
        ),
    }
}

/// Compiles a circuit: prepares its constraints, groups its gates by the rows where they are active,
/// pads it, and computes its selectors and permutation polynomials.
pub(crate) fn compile(
    num_rows: usize,
    num_columns: usize,
    gates: &Vec<(Constraint<Scalar>, Cell)>,
    nodes: &Vec<Vec<Cell>>,
    public_rows: &Vec<usize>,
    options: CompilationOptions,
) -> (ret: Result<Circuit, BuildError>)
    requires
        forall|i: int|
            0 <= i < gates@.len() ==> built_gate_wf(
                #[trigger] gates_of(gates@)[i],
                num_rows as int,
                num_columns as int,
            ),
        no_repeats(node_lists(nodes@)),
        rows_sorted(public_rows@),
    ensures
        is_build_result(
            ret,
            num_rows as int,
            num_columns as int,
            gates_of(gates@),
            node_lists(nodes@),
            public_rows@,
            options.canonicalize_constraints,
        ),
{
    let ghost g = gates_of(gates@);
    let ghost lists = node_lists(nodes@);
    let ghost (rows, columns) = (num_rows as int, num_columns as int);
    let canonicalize = options.canonicalize_constraints;
    let compiled = match compile_constraints(gates, canonicalize) {
        Ok(compiled) => compiled,
        Err(error) => {
            return Err(error);
        },
    };
    let ghost c = gates_of(compiled@);
    proof {
        assert forall|i: int| 0 <= i < c.len() implies built_gate_wf(#[trigger] c[i], rows, columns)
            && canonical(c[i].0) by {
            assert(built_gate_wf(g[i], rows, columns));
            lemma_compiled_wf(g, c, canonicalize, i, rows, columns);
        }
    }
    let (instances, active_rows) = build_gates_and_selectors(&compiled);
    let ghost pl = placements(instances@);
    let ghost active = row_lists(active_rows@);
    proof {
        assert forall|i: int| 0 <= i < instances@.len() implies canonical(
            (#[trigger] instances@[i]).constraint@,
        ) by {
            let cell = lemma_placement_cell(c, pl, active, i, 0);
            let k = choose|k: int| 0 <= k < c.len() && #[trigger] c[k] == (pl[i].terms, cell);
            assert(canonical(c[k].0));
        }
    }
    let rotations = collect_rotations(&instances);
    let (size, blinding) = match fit_sizes(num_rows, &instances, &rotations) {
        Some(sizes) => sizes,
        None => {
            proof {
                assert(is_grouping(c, pl, active));
                assert(too_large(rows, g, canonicalize));
            }
            return Err(BuildError::TooLarge);
        },
    };
    if !check_nodes(nodes, size, num_columns) {
        proof {
            assert(is_grouping(c, pl, active));
            assert(sizes_fit(rows, pl, size as int));
            assert(cell_out_of_range(rows, columns, g, lists, canonicalize));
        }
        return Err(BuildError::CellOutOfRange);
    }
    proof {
        assert forall|i: int, j: int|
            0 <= i < active_rows@.len() && 0 <= j < active_rows@[i]@.len() implies (
        #[trigger] active_rows@[i]@[j]) < num_rows by {
            assert(active[i] == active_rows@[i]@);
            assert(selector_used(pl, i));
            let x = choose|x: int| 0 <= x < pl.len() && (#[trigger] pl[x]).selector == i;
            let cell = lemma_placement_cell(c, pl, active, x, j);
            let k = choose|k: int| 0 <= k < c.len() && #[trigger] c[k] == (pl[x].terms, cell);
            assert(built_gate_wf(c[k], rows, columns));
        }
    }
    let selectors = make_selectors(size, &active_rows);
    let targets = make_targets(size, num_columns, nodes);
    proof {
        assert forall|j: int, i: int| 0 <= j < targets@.len() && 0 <= i < size implies (
        #[trigger] targets@[j]@[i]).row < size && targets@[j]@[i].column < targets@.len() by {
            let cell = Cell { row: i as usize, column: j as usize };
            assert(cell.column == j && cell.row == i);
            assert(is_target(lists, cell, targets@[cell.column as int]@[cell.row as int]));
            lemma_target_fits(lists, cell, targets@[j]@[i], size as int, columns);
        }
    }
    let sigma_values = make_sigma_values(size, &targets);
    proof {
        assert forall|j: int| 0 <= j < sigma_values@.len() implies (
        #[trigger] sigma_values@[j])@.len() == size by {
            assert(residues(sigma_values@[j]@).len() == size);
        }
    }
    let sigma = make_sigma(&sigma_values, size);
    let public_rows = copy_rows(public_rows);
    let ghost m = CircuitModel {
        rows,
        blinding: blinding as int,
        size: size as int,
        columns,
        active,
        gates: pl,
        targets: target_lists(targets@),
        public_rows: public_rows@,
        selectors: coefficient_lists(selectors@),
        sigma: coefficient_lists(sigma@),
    };
    proof {
        lemma_model_wf(m, c, lists);
        assert(compiled_gates(g, c, canonicalize));
    }
    Ok(
        Circuit {
            num_rows,
            num_blinding_rows: blinding,
            degree_bound: size,
            num_columns,
            gates: instances,
            active_rows,
            selectors,
            targets,
            sigma,
            sigma_values,
            public_rows,
        },
    )
}

/// Circuits are compiled to well-formed circuits.
proof fn lemma_model_wf(m: CircuitModel, compiled: Seq<(Terms, Cell)>, lists: Seq<Seq<Cell>>)
    requires
        is_grouping(compiled, m.gates, m.active),
        sizes_fit(m.rows, m.gates, m.size),
        m.blinding == opened_set(m.gates).len() + 1,
        m.blinding >= 2,
        0 <= m.rows,
        0 <= m.columns <= usize::MAX,
        m.rows + m.blinding <= m.size,
        pow(domain_root(m.size), m.size as nat) % Scalar::modulus() == 1,
        forall|i: int|
            0 <= i < compiled.len() ==> built_gate_wf(#[trigger] compiled[i], m.rows, m.columns)
                && canonical(compiled[i].0),
        m.targets.len() == m.columns,
        forall|j: int| 0 <= j < m.columns ==> (#[trigger] m.targets[j]).len() == m.size,
        forall|c: Cell| m.has(c) ==> is_target(lists, c, #[trigger] m.target(c)),
        no_repeats(lists),
        lists_fit(lists, m.size, m.columns),
        m.selectors.len() == m.active.len(),
        forall|i: int|
            0 <= i < m.selectors.len() ==> interpolates(
                #[trigger] m.selectors[i],
                selector_values(m.active[i], m.size),
            ),
        m.sigma.len() == m.columns,
        forall|j: int|
            0 <= j < m.columns ==> interpolates(
                #[trigger] m.sigma[j],
                sigma_values(m.targets[j], m.size),
            ),
        rows_sorted(m.public_rows),
    ensures
        m.wf(),
{
    assert(m.sizes_wf());
    assert forall|i: int, j: int|
        0 <= i < m.active.len() && 0 <= j < m.active[i].len() implies (#[trigger] m.active[i][j])
        < m.rows by {
        assert(selector_used(m.gates, i));
        let x = choose|x: int| 0 <= x < m.gates.len() && (#[trigger] m.gates[x]).selector == i;
        let cell = lemma_placement_cell(compiled, m.gates, m.active, x, j);
        let k = choose|k: int|
            0 <= k < compiled.len() && #[trigger] compiled[k] == (m.gates[x].terms, cell);
        assert(built_gate_wf(compiled[k], m.rows, m.columns));
    }
    assert(m.selectors_wf());
    assert forall|c: Cell| m.has(c) implies m.has(#[trigger] m.target(c)) by {
        lemma_target_fits(lists, c, m.target(c), m.size, m.columns);
    }
    assert forall|a: Cell, b: Cell|
        m.has(a) && m.has(b) && #[trigger] m.target(a) == #[trigger] m.target(
            b,
        ) implies a == b by {
        lemma_target_injective(lists, a, b, m.target(a));
    }
    assert(m.permutation_wf());
    assert(m.gates_sorted());
    assert forall|i: int| 0 <= i < m.gates.len() implies m.placement_wf(#[trigger] m.gates[i]) by {
        let g = m.gates[i];
        let first = lemma_placement_cell(compiled, m.gates, m.active, i, 0);
        let k = choose|k: int| 0 <= k < compiled.len() && #[trigger] compiled[k] == (g.terms, first);
        assert(built_gate_wf(compiled[k], m.rows, m.columns));
        assert forall|j: int| 0 <= j < m.active[g.selector].len() implies gate_fits(
            g.terms,
            (#[trigger] m.active[g.selector][j]) as int,
            g.column,
            m.rows,
            m.columns,
        ) by {
            let cell = lemma_placement_cell(compiled, m.gates, m.active, i, j);
            let k = choose|k: int|
                0 <= k < compiled.len() && #[trigger] compiled[k] == (g.terms, cell);
            assert(built_gate_wf(compiled[k], m.rows, m.columns));
        }
    }
}

impl Circuit {
    /// Makes an empty [`Witness`] object suitable for use with this circuit.
    pub fn make_witness(&self) -> (ret: Witness)
        ensures
            ret.spec_num_rows() == self.model().rows,
            ret.spec_num_blinding_rows() == self.model().blinding,
            ret.spec_degree_bound() == self.model().size,
            ret.table().len() == self.model().columns,
            forall|c: Cell| #[trigger] ret.has(c) ==> ret.at(c) == 0,
    {
        let rotations = collect_rotations(&self.gates);
        proof {
            use_type_invariant(self);
            let m = self.model();
            assert((31 + 32int) / 32 == 1);
            assert(blinding_rows::<Scalar>(rotations@) == m.blinding);
            if m.size > usize::MAX / 2 + 1 {
                lemma_half_range(m.size);
            }
        }
        let ret = Witness::new(self.num_rows, self.num_columns, &rotations);
        proof {
            let m = self.model();
            lemma_next_power_unique(ret.spec_degree_bound(), m.size, m.rows + m.blinding);
        }
        ret
    }
}

/// Copies gate instances.
pub(crate) fn copy_gates(gates: &Vec<GateInstance>) -> (ret: Vec<GateInstance>)
    ensures
        placements(ret@) == placements(gates@),
        forall|i: int|
            0 <= i < ret@.len() ==> (#[trigger] ret@[i]).remapped@ == gates@[i].remapped@,
{
    let mut ret: Vec<GateInstance> = Vec::new();
    let mut i: usize = 0;
    while i < gates.len()
        invariant
            i <= gates.len(),
            ret@.len() == i,
            forall|k: int|
                0 <= k < i ==> {
                    &&& (#[trigger] ret@[k]).remapped@ == gates@[k].remapped@
                    &&& ret@[k].constraint@ == gates@[k].constraint@
                    &&& ret@[k].column_index == gates@[k].column_index
                    &&& ret@[k].selector_index == gates@[k].selector_index
                },
        decreases gates.len() - i,
    {
        let gate = &gates[i];
        ret.push(
            GateInstance {
                constraint: gate.constraint.copy(),
                remapped: gate.remapped.copy(),
                column_index: gate.column_index,
                selector_index: gate.selector_index,
            },
        );
        i += 1;
    }
    proof {
        assert(placements(ret@) =~= placements(gates@));
    }
    ret
}

/// Appends copies of polynomials to a list.
pub(crate) fn append_copies(list: &mut Vec<Polynomial>, polynomials: &Vec<Polynomial>)
    ensures
        coefficient_lists(final(list)@) == coefficient_lists(old(list)@) + coefficient_lists(
            polynomials@,
        ),
{
    let ghost before = coefficient_lists(list@);
    let ghost all = coefficient_lists(polynomials@);
    let mut i: usize = 0;
    proof {
        assert(coefficient_lists(list@) =~= before + all.subrange(0, 0));
    }
    while i < polynomials.len()
        invariant
            i <= polynomials.len(),
            all == coefficient_lists(polynomials@),
            coefficient_lists(list@) == before + all.subrange(0, i as int),
        decreases polynomials.len() - i,
    {
        let ghost sofar = coefficient_lists(list@);
        list.push(polynomials[i].copy());
        proof {
            assert(coefficient_lists(list@) =~= sofar.push(all[i as int]));
            assert(all.subrange(0, i + 1) =~= all.subrange(0, i as int).push(all[i as int]));
            assert(coefficient_lists(list@) =~= before + all.subrange(0, i + 1));
        }
        i += 1;
    }
    proof {
        assert(all.subrange(0, all.len() as int) =~= all);
    }
}

/// Copies a list of row sets.
fn copy_row_sets(sets: &Vec<Vec<usize>>) -> (ret: Vec<Vec<usize>>)
    ensures
        row_lists(ret@) == row_lists(sets@),
{
    let mut ret: Vec<Vec<usize>> = Vec::new();
    let mut i: usize = 0;
    while i < sets.len()
        invariant
            i <= sets.len(),
            ret@.len() == i,
            forall|k: int| 0 <= k < i ==> (#[trigger] ret@[k])@ == sets@[k]@,
        decreases sets.len() - i,
    {
        ret.push(copy_rows(&sets[i]));
        i += 1;
    }
    proof {
        assert(row_lists(ret@) =~= row_lists(sets@));
    }
    ret
}

/// Copies the targets of the cells of a column.
fn copy_cells(cells: &Vec<Cell>) -> (ret: Vec<Cell>)
    ensures
        ret@ == cells@,
{
    let mut ret: Vec<Cell> = Vec::new();
    let mut i: usize = 0;
    while i < cells.len()
        invariant
            i <= cells.len(),
            ret@ == cells@.subrange(0, i as int),
        decreases cells.len() - i,
    {
        ret.push(cells[i]);
        proof {
            assert(cells@.subrange(0, i + 1) =~= cells@.subrange(0, i as int).push(
                cells@[i as int],
            ));
        }
        i += 1;
    }
    proof {
        assert(cells@.subrange(0, cells@.len() as int) =~= cells@);
    }
    ret
}

/// Copies the targets of all cells.
fn copy_targets(targets: &Vec<Vec<Cell>>) -> (ret: Vec<Vec<Cell>>)
    ensures
        target_lists(ret@) == target_lists(targets@),
        ret@.len() == targets@.len(),
        forall|j: int| 0 <= j < ret@.len() ==> (#[trigger] ret@[j])@ == targets@[j]@,
{
    let mut ret: Vec<Vec<Cell>> = Vec::new();
    let mut i: usize = 0;
    while i < targets.len()
        invariant
            i <= targets.len(),
            ret@.len() == i,
            forall|k: int| 0 <= k < i ==> (#[trigger] ret@[k])@ == targets@[k]@,
        decreases targets.len() - i,
    {
        ret.push(copy_cells(&targets[i]));
        i += 1;
    }
    proof {
        assert(target_lists(ret@) =~= target_lists(targets@));
    }
    ret
}

impl Clone for Circuit {
    fn clone(&self) -> (ret: Self)
        ensures
            ret.model() == self.model(),
    {
        proof {
            use_type_invariant(self);
        }
        let gates = copy_gates(&self.gates);
        let targets = copy_targets(&self.targets);
        let sigma_values = copy_columns(&self.sigma_values);
        let mut selectors: Vec<Polynomial> = Vec::new();
        append_copies(&mut selectors, &self.selectors);
        let mut sigma: Vec<Polynomial> = Vec::new();
        append_copies(&mut sigma, &self.sigma);
        proof {
            assert(coefficient_lists(selectors@) =~= coefficient_lists(self.selectors@));
            assert(coefficient_lists(sigma@) =~= coefficient_lists(self.sigma@));
            assert forall|i: int| 0 <= i < gates@.len() implies (#[trigger] gates@[i]).remapped@
                == shift_terms(gates@[i].constraint@, gates@[i].column_index as int) by {
                assert(placements(gates@)[i] == placements(self.gates@)[i]);
                assert(self.gates@[i].remapped@ == gates@[i].remapped@);
            }
            assert forall|j: int| 0 <= j < self.num_columns implies residues(
                (#[trigger] sigma_values@[j])@,
            ) == crate::model::sigma_values(targets@[j]@, self.degree_bound as int) by {
                assert(residues(self.sigma_values@[j]@) == crate::model::sigma_values(
                    self.targets@[j]@,
                    self.degree_bound as int,
                ));
            }
        }
        Circuit {
            num_rows: self.num_rows,
            num_blinding_rows: self.num_blinding_rows,
            degree_bound: self.degree_bound,
            num_columns: self.num_columns,
            gates,
            active_rows: copy_row_sets(&self.active_rows),
            selectors,
            targets,
            sigma,
            sigma_values,
            public_rows: copy_rows(&self.public_rows),
        }
    }
}

} // verus!
