//! Textual representations of constraint expressions.
use crate::expr::Constraint;
use crate::field::{decimal, digit_char, equal, one, Field};
use crate::monomial::{mono_of, Factors};
use crate::terms::{Mono, Terms};
use crate::utils::is_pseudo_negative;
use crate::variable::{magnitude, Variable};
use vstd::prelude::*;
use vstd::string::*;

verus! {

/// The decimal notation of a signed number.
pub open spec fn signed_decimal(n: int) -> Seq<char> {
    if n < 0 {
        "-"@ + decimal((-n) as nat)
    } else {
        decimal(n as nat)
    }
}

/// The texts `parts`, with `separator` between them.
pub open spec fn join(parts: Seq<Seq<char>>, separator: Seq<char>) -> Seq<char>
    decreases parts.len(),
{
    if parts.len() == 0 {
        seq![]
    } else if parts.len() == 1 {
        parts[0]
    } else {
        join(parts.drop_last(), separator) + separator + parts.last()
    }
}

/// The text of a variable: `var(c)`, `var(c,+r)` or `var(c,-r)`.
pub open spec fn variable_text(v: Variable) -> Seq<char> {
    if v.rotation < 0 {
        "var("@ + decimal(v.column_index as nat) + ",-"@ + decimal((-v.rotation) as nat) + ")"@
    } else if v.rotation > 0 {
        "var("@ + decimal(v.column_index as nat) + ",+"@ + decimal(v.rotation as nat) + ")"@
    } else {
        "var("@ + decimal(v.column_index as nat) + ")"@
    }
}

/// The text of a coefficient: residues in the upper half of the field are written as negative
/// numbers.
pub open spec fn coefficient_text(c: int, p: int) -> Seq<char> {
    if c > (p - 1) / 2 {
        "-"@ + decimal((p - c) as nat)
    } else {
        decimal(c as nat)
    }
}

/// The text of a variable raised to a power.
pub open spec fn factor_text(f: (Variable, int)) -> Seq<char> {
    if f.1 == 1 {
        variable_text(f.0)
    } else {
        variable_text(f.0) + " ^ "@ + signed_decimal(f.1)
    }
}

/// The texts of the factors of a monomial.
pub open spec fn factor_texts(m: Mono) -> Seq<Seq<char>> {
    Seq::new(m.len(), |i: int| factor_text(m[i]))
}

/// The text of a monomial with its coefficient, which is left out where it is 1.
pub open spec fn term_text(x: (Mono, int), p: int) -> Seq<char> {
    if x.0.len() == 0 {
        coefficient_text(x.1, p)
    } else if x.1 == 1 {
        join(factor_texts(x.0), " * "@)
    } else {
        join(seq![coefficient_text(x.1, p)] + factor_texts(x.0), " * "@)
    }
}

/// The texts of the monomials of a sum.
pub open spec fn term_texts(t: Terms, p: int) -> Seq<Seq<char>> {
    Seq::new(t.len(), |i: int| term_text(t[i], p))
}

/// The text of a sum.
pub open spec fn expression_text(t: Terms, p: int) -> Seq<char> {
    if t.len() == 0 {
        "0"@
    } else {
        join(term_texts(t, p), " + "@)
    }
}

/// A digit.
fn digit_text(d: u64) -> (ret: &'static str)
    requires
        d < 10,
    ensures
        ret@ == seq![digit_char(d as int)],
{
    proof {
        reveal_strlit("0");
        reveal_strlit("1");
        reveal_strlit("2");
        reveal_strlit("3");
        reveal_strlit("4");
        reveal_strlit("5");
        reveal_strlit("6");
        reveal_strlit("7");
        reveal_strlit("8");
        reveal_strlit("9");
        assert("0"@ =~= seq![digit_char(0)]);
        assert("1"@ =~= seq![digit_char(1)]);
        assert("2"@ =~= seq![digit_char(2)]);
        assert("3"@ =~= seq![digit_char(3)]);
        assert("4"@ =~= seq![digit_char(4)]);
        assert("5"@ =~= seq![digit_char(5)]);
        assert("6"@ =~= seq![digit_char(6)]);
        assert("7"@ =~= seq![digit_char(7)]);
        assert("8"@ =~= seq![digit_char(8)]);
        assert("9"@ =~= seq![digit_char(9)]);
    }
    match d {
        0 => "0",
        1 => "1",
        2 => "2",
        3 => "3",
        4 => "4",
        5 => "5",
        6 => "6",
        7 => "7",
        8 => "8",
        _ => "9",
    }
}

/// Writes a number in decimal notation.
pub fn decimal_text(n: u64) -> (ret: String)
    ensures
        ret@ == decimal(n as nat),
    decreases n,
{
    if n < 10 {
        String::from_str(digit_text(n))
    } else {
        let mut ret = decimal_text(n / 10);
        ret.append(digit_text(n % 10));
        proof {
            assert(decimal(n as nat) =~= decimal((n / 10) as nat) + seq![digit_char((n % 10) as int)]);
        }
        ret
    }
}

impl Variable {
    /// The text of the variable: `var(c)`, `var(c,+r)` or `var(c,-r)`.
    pub fn to_string(&self) -> (ret: String)
        ensures
            ret@ == variable_text(*self),
    {
        let mut ret = String::from_str("var(");
        ret.append(decimal_text(self.column_index as u64).as_str());
        if self.rotation < 0 {
            ret.append(",-");
            ret.append(decimal_text(magnitude(self.rotation) as u64).as_str());
        } else if self.rotation > 0 {
            ret.append(",+");
            ret.append(decimal_text(magnitude(self.rotation) as u64).as_str());
        }
        ret.append(")");
        ret
    }
}

/// Writes a coefficient.
fn print_coefficient<F: Field>(coefficient: F) -> (ret: String)
    ensures
        ret@ == coefficient_text(coefficient.value(), F::modulus()),
{
    if is_pseudo_negative(&coefficient) {
        proof {
            let p = F::modulus();
            let c = coefficient.value();
            F::lemma_modulus();
            coefficient.lemma_value_bounds();
            assert((-c) % p == p - c) by (nonlinear_arith)
                requires
                    0 < c < p,
            ;
        }
        let mut ret = String::from_str("-");
        ret.append(coefficient.negated().to_decimal().as_str());
        ret
    } else {
        coefficient.to_decimal()
    }
}

/// Writes a variable raised to a power.
fn print_factor(factor: &(Variable, isize)) -> (ret: String)
    ensures
        ret@ == factor_text((factor.0, factor.1 as int)),
{
    let mut ret = factor.0.to_string();
    if factor.1 != 1 {
        ret.append(" ^ ");
        let ghost before = ret@;
        if factor.1 < 0 {
            ret.append("-");
        }
        ret.append(decimal_text(magnitude(factor.1) as u64).as_str());
        proof {
            assert(ret@ =~= before + signed_decimal(factor.1 as int));
        }
    }
    ret
}

/// Joining one more text.
proof fn lemma_join_push(parts: Seq<Seq<char>>, next: Seq<char>, separator: Seq<char>)
    ensures
        join(parts.push(next), separator) == if parts.len() == 0 {
            next
        } else {
            join(parts, separator) + separator + next
        },
{
    assert(parts.push(next).drop_last() =~= parts);
}

/// Writes a monomial with its coefficient.
fn print_term<F: Field>(factors: &Factors, coefficient: F) -> (ret: String)
    ensures
        ret@ == term_text((mono_of(factors@), coefficient.value()), F::modulus()),
{
    let ghost m = mono_of(factors@);
    let ghost p = F::modulus();
    if factors.len() == 0 {
        return print_coefficient(coefficient);
    }
    let unit = equal(coefficient, one::<F>());
    let ghost head: Seq<Seq<char>> = if unit {
        seq![]
    } else {
        seq![coefficient_text(coefficient.value(), p)]
    };
    let mut ret = if unit {
        String::from_str("")
    } else {
        print_coefficient(coefficient)
    };
    let mut i: usize = 0;
    proof {
        reveal_strlit("");
        assert(head + factor_texts(m).subrange(0, 0) =~= head);
        assert(ret@ =~= join(head, " * "@));
    }
    while i < factors.len()
        invariant
            i <= factors.len(),
            m == mono_of(factors@),
            head.len() == if unit {
                0nat
            } else {
                1nat
            },
            ret@ == join(head + factor_texts(m).subrange(0, i as int), " * "@),
        decreases factors.len() - i,
    {
        let ghost sofar = head + factor_texts(m).subrange(0, i as int);
        if i > 0 || !unit {
            ret.append(" * ");
        }
        ret.append(print_factor(&factors[i]).as_str());
        proof {
            let next = factor_texts(m)[i as int];
            assert(next == factor_text(m[i as int]));
            assert(head + factor_texts(m).subrange(0, i + 1) =~= sofar.push(next));
            lemma_join_push(sofar, next, " * "@);
            if sofar.len() == 0 {
                assert(join(sofar, " * "@) + next =~= next);
            }
        }
        i += 1;
    }
    proof {
        assert(factor_texts(m).subrange(0, m.len() as int) =~= factor_texts(m));
        if unit {
            assert(head + factor_texts(m) =~= factor_texts(m));
        }
    }
    ret
}

impl<F: Field> Constraint<F> {
    /// Returns a textual representation of the constraint formula.
    pub fn to_string(&self) -> (ret: String)
        ensures
            ret@ == expression_text(self@, F::modulus()),
    {
        let ghost t = self@;
        let ghost p = F::modulus();
        if self.num_terms() == 0 {
            return String::from_str("0");
        }
        let mut ret = String::from_str("");
        let mut i: usize = 0;
        proof {
            reveal_strlit("");
            assert(term_texts(t, p).subrange(0, 0) =~= seq![]);
            assert(ret@ =~= join(term_texts(t, p).subrange(0, 0), " + "@));
        }
        while i < self.num_terms()
            invariant
                i <= t.len(),
                t == self@,
                p == F::modulus(),
                ret@ == join(term_texts(t, p).subrange(0, i as int), " + "@),
            decreases t.len() - i,
        {
            let ghost sofar = term_texts(t, p).subrange(0, i as int);
            if i > 0 {
                ret.append(" + ");
            }
            let term = self.term(i);
            ret.append(print_term(&term.factors, term.coefficient).as_str());
            proof {
                let next = term_texts(t, p)[i as int];
                assert(next == term_text(t[i as int], p));
                assert(term_texts(t, p).subrange(0, i + 1) =~= sofar.push(next));
                lemma_join_push(sofar, next, " + "@);
                if sofar.len() == 0 {
                    assert(join(sofar, " + "@) + next =~= next);
                }
            }
            i += 1;
        }
        proof {
            assert(term_texts(t, p).subrange(0, t.len() as int) =~= term_texts(t, p));
        }
        ret
    }
}

} // verus!
