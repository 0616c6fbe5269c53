//! Arithmetic circuits over prime fields, and PLONK proofs of their satisfaction.
pub mod algebra;
pub mod argument;
pub mod arith;
pub mod assignment;
pub mod builder;
pub mod cell;
pub mod certificates;
pub mod checked;
pub mod checking;
pub mod chip;
pub mod circuit;
pub mod circuits;
pub mod compilation;
pub mod completeness;
pub mod compose;
pub mod connections;
pub mod degrees;
pub mod encodings;
pub mod entry;
pub mod evaluation;
pub mod expr;
pub mod expressions;
pub mod field;
pub mod gate_argument;
pub mod grammar;
pub mod grouping;
pub mod history;
pub mod laws;
pub mod lexer;
pub mod meaning;
pub mod messages;
pub mod model;
pub mod monomial;
pub mod normalization;
pub mod operations;
pub mod ops;
pub mod orders;
pub mod outcomes;
pub mod parser;
pub mod partition;
pub mod pcs;
pub mod permutation;
pub mod permutation_argument;
pub mod placement;
pub mod plonk;
pub mod poly;
pub mod provability;
pub mod positions;
pub mod primes;
pub mod printing;
pub mod proving;
pub mod results;
pub mod roundtrip;
pub mod soundness;
pub mod spacing;
pub mod substitution;
pub mod syntax;
pub mod terms;
pub mod text;
pub mod tokens;
pub mod utils;
pub mod variable;
pub mod verification;
pub mod verifying;
pub mod views;
pub mod wires;
pub mod witness;

pub use builder::{CircuitBuilder, CircuitSectionBuilder, CircuitView, CircuitViewGenerator};
pub use expr::Constraint;
pub use ops::{make_const, rvar, var};
pub use plonk::{
    Circuit, CompilationOptions, ProvingOptions, OPTIONS_DEFAULT_BLOWUP_LOG2,
};
pub use proving::Proof;
pub use variable::Variable;
pub use verifying::CompressedCircuit;
pub use wires::{Wire, WireOrUnconstrained};
