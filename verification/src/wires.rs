//! Wires, identified by row and column.
use crate::field::Scalar;
use crate::partition::{Ordered, Partition};
use vstd::prelude::*;

verus! {

/// A "wire" is a termination of a gate, identified by a row index and a column index.
#[derive(Debug, Copy, Clone, PartialEq, Eq, Structural, PartialOrd, Ord)]
pub struct Wire {
    /// The row index.
    pub row: usize,
    /// The column index.
    pub column: usize,
}

impl Wire {
    /// Creates a new wire.
    pub fn new(row: usize, column: usize) -> (ret: Self)
        ensures
            ret == (Wire { row, column }),
    {
        Wire { row, column }
    }

    /// Returns the row index of the wire.
    pub fn row(&self) -> (ret: usize)
        ensures
            ret == self.row,
    {
        self.row
    }

    /// Returns the column index of the wire.
    pub fn column(&self) -> (ret: usize)
        ensures
            ret == self.column,
    {
        self.column
    }
}

impl Ordered for Wire {
    open spec fn precedes(self, other: Self) -> bool {
        self.row < other.row || (self.row == other.row && self.column < other.column)
    }

    proof fn lemma_irreflexive(self) {
    }

    proof fn lemma_transitive(self, b: Self, c: Self) {
    }

    proof fn lemma_total(self, other: Self) {
    }

    fn less(self, other: Self) -> (ret: bool) {
        self.row < other.row || (self.row == other.row && self.column < other.column)
    }
}

/// A wire, or a value that is not on a wire.
#[derive(Debug, Copy, Clone, PartialEq, Eq, PartialOrd)]
pub enum WireOrUnconstrained {
    Wire(Wire),
    Unconstrained(Scalar),
}

impl From<Wire> for WireOrUnconstrained {
    fn from(wire: Wire) -> (ret: Self) {
        WireOrUnconstrained::Wire(wire)
    }
}

impl vstd::std_specs::convert::FromSpecImpl<Wire> for WireOrUnconstrained {
    open spec fn obeys_from_spec() -> bool {
        true
    }

    open spec fn from_spec(v: Wire) -> Self {
        WireOrUnconstrained::Wire(v)
    }
}

impl From<Scalar> for WireOrUnconstrained {
    fn from(value: Scalar) -> (ret: Self) {
        WireOrUnconstrained::Unconstrained(value)
    }
}

impl vstd::std_specs::convert::FromSpecImpl<Scalar> for WireOrUnconstrained {
    open spec fn obeys_from_spec() -> bool {
        true
    }

    open spec fn from_spec(v: Scalar) -> Self {
        WireOrUnconstrained::Unconstrained(v)
    }
}

/// Keeps all the wires of a circuit organized in partitions, i.e. sets of interconnected wires.
///
/// Since all the wires in a partition are connected to each other, in this context a partition
/// represents a node of the circuit, so we call partitions "nodes".
///
/// This data structure allows determining the subsets of the sigma polynomials to permute.
pub type WirePartitioner = Partition<Wire>;

} // verus!
