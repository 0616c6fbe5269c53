//! Values for the variables of constraint expressions.
use crate::variable::Variable;
use vstd::prelude::*;

verus! {

/// The map that a list of entries stands for; later entries override earlier ones.
pub open spec fn map_of<T>(entries: Seq<(Variable, T)>) -> Map<Variable, T>
    decreases entries.len(),
{
    if entries.len() == 0 {
        Map::empty()
    } else {
        map_of(entries.drop_last()).insert(entries.last().0, entries.last().1)
    }
}

/// Associates values to variables.
#[derive(Debug)]
pub struct Assignment<T> {
    entries: Vec<(Variable, T)>,
}

impl<T> View for Assignment<T> {
    type V = Map<Variable, T>;

    closed spec fn view(&self) -> Map<Variable, T> {
        map_of(self.entries@)
    }
}

impl<T> Assignment<T> {
    /// Makes an empty assignment.
    pub fn new() -> (ret: Self)
        ensures
            ret@ == Map::<Variable, T>::empty(),
    {
        Assignment { entries: Vec::new() }
    }

    /// Associates `value` to `variable`.
    pub fn insert(&mut self, variable: Variable, value: T)
        ensures
            final(self)@ == old(self)@.insert(variable, value),
    {
        let ghost before = self.entries@;
        self.entries.push((variable, value));
        proof {
            assert(self.entries@.drop_last() =~= before);
        }
    }

    /// Returns the value associated to `variable`, if there is one.
    pub fn get(&self, variable: Variable) -> (ret: Option<&T>)
        ensures
            ret is Some <==> self@.contains_key(variable),
            ret is Some ==> *(ret->Some_0) == self@[variable],
    {
        let mut i: usize = self.entries.len();
        proof {
            assert(self.entries@.subrange(0, i as int) =~= self.entries@);
        }
        while i > 0
            invariant
                i <= self.entries@.len(),
                self@.contains_key(variable) <==> map_of(
                    self.entries@.subrange(0, i as int),
                ).contains_key(variable),
                self@.contains_key(variable) ==> self@[variable] == map_of(
                    self.entries@.subrange(0, i as int),
                )[variable],
            decreases i,
        {
            i -= 1;
            proof {
                let s = self.entries@.subrange(0, i + 1);
                assert(s.drop_last() =~= self.entries@.subrange(0, i as int));
                assert(s.last() == self.entries@[i as int]);
            }
            if self.entries[i].0 == variable {
                return Some(&self.entries[i].1);
            }
        }
        None
    }
}

} // verus!
