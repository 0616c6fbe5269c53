//! Gates with two inputs and one output.
use crate::field::Scalar;
use crate::partition::{Ordered, Partition};
use crate::utils::{is_next_power_of_two, next_power_of_two};
use vstd::prelude::*;

verus! {

/// Rounds the size of a circuit up to a power of two, which is at least 2.
pub fn padded_size(n: usize) -> (ret: usize)
    requires
        n <= usize::MAX / 2 + 1,
    ensures
        n >= 2 ==> is_next_power_of_two(ret as int, n as int),
        n < 2 ==> ret == 2,
{
    let size: usize = next_power_of_two(n);
    proof {
        vstd::arithmetic::power2::lemma2_to64();
        if n < 2 {
            assert(vstd::arithmetic::power2::pow2(0) >= n);
        }
    }
    if size < 2 {
        2
    } else {
        size
    }
}

/// The coefficients of a gate: `ql * l + qr * r + qo * o + qm * l * r + qc == 0`.
#[derive(Debug, Copy, Clone, PartialEq, Eq)]
pub struct GateConstraint {
    /// The coefficient of the left input.
    pub ql: Scalar,
    /// The coefficient of the right input.
    pub qr: Scalar,
    /// The coefficient of the output.
    pub qo: Scalar,
    /// The coefficient of the product of the inputs.
    pub qm: Scalar,
    /// The constant.
    pub qc: Scalar,
}

/// A "wire" is the left input, right input, or output termination of a gate.
#[derive(Debug, Copy, Clone, PartialEq, Eq, Structural, PartialOrd, Ord)]
pub enum Wire {
    LeftIn(usize),
    RightIn(usize),
    Out(usize),
}

impl Wire {
    /// The position of the wire's kind among the terminations of a gate.
    pub open spec fn kind(self) -> int {
        match self {
            Wire::LeftIn(_) => 0,
            Wire::RightIn(_) => 1,
            Wire::Out(_) => 2,
        }
    }

    /// The index of the wire's gate.
    pub open spec fn gate_index(self) -> usize {
        match self {
            Wire::LeftIn(gate) => gate,
            Wire::RightIn(gate) => gate,
            Wire::Out(gate) => gate,
        }
    }

    /// Returns the index of the wire's gate.
    pub fn gate(&self) -> (ret: usize)
        ensures
            ret == self.gate_index(),
    {
        match *self {
            Wire::LeftIn(gate) => gate,
            Wire::RightIn(gate) => gate,
            Wire::Out(gate) => gate,
        }
    }

    /// Returns the position of the wire in the permutation of a circuit with `n` gates.
    pub fn sigma_index(&self, n: usize) -> (ret: usize)
        requires
            self.gate_index() + n * self.kind() <= usize::MAX,
        ensures
            ret == self.gate_index() + n * self.kind(),
    {
        match self {
            Wire::LeftIn(index) => *index,
            Wire::RightIn(index) => *index + n,
            Wire::Out(index) => *index + n * 2,
        }
    }
}

impl Ordered for Wire {
    open spec fn precedes(self, other: Self) -> bool {
        self.kind() < other.kind() || (self.kind() == other.kind() && self.gate_index()
            < other.gate_index())
    }

    proof fn lemma_irreflexive(self) {
    }

    proof fn lemma_transitive(self, b: Self, c: Self) {
    }

    proof fn lemma_total(self, other: Self) {
    }

    fn less(self, other: Self) -> (ret: bool) {
        match (self, other) {
            (Wire::LeftIn(a), Wire::LeftIn(b)) => a < b,
            (Wire::RightIn(a), Wire::RightIn(b)) => a < b,
            (Wire::Out(a), Wire::Out(b)) => a < b,
            (Wire::LeftIn(_), _) => true,
            (Wire::RightIn(_), Wire::Out(_)) => true,
            _ => false,
        }
    }
}

/// A wire, or a value that is not on a wire.
#[derive(Debug, Copy, Clone, PartialEq, Eq, PartialOrd)]
pub enum WireOrUnconstrained {
    Wire(Wire),
    Unconstrained(Scalar),
}

impl From<Wire> for WireOrUnconstrained {
    fn from(wire: Wire) -> (ret: Self) {
        WireOrUnconstrained::Wire(wire)
    }
}

impl vstd::std_specs::convert::FromSpecImpl<Wire> for WireOrUnconstrained {
    open spec fn obeys_from_spec() -> bool {
        true
    }

    open spec fn from_spec(v: Wire) -> Self {
        WireOrUnconstrained::Wire(v)
    }
}

impl From<Scalar> for WireOrUnconstrained {
    fn from(value: Scalar) -> (ret: Self) {
        WireOrUnconstrained::Unconstrained(value)
    }
}

impl vstd::std_specs::convert::FromSpecImpl<Scalar> for WireOrUnconstrained {
    open spec fn obeys_from_spec() -> bool {
        true
    }

    open spec fn from_spec(v: Scalar) -> Self {
        WireOrUnconstrained::Unconstrained(v)
    }
}

/// Keeps all the wires of a circuit organized in partitions, i.e. sets of interconnected wires.
///
/// Since all the wires in a partition are connected to each other, in this context a partition
/// represents a node of the circuit, so we call partitions "nodes".
///
/// This data structure allows determining the subsets of the sigma polynomials to permute.
pub type WirePartitioning = Partition<Wire>;

} // verus!
