//! Rank-1 constraint systems as plain values: the constraint matrices, and
//! the errors of synthesis and proving.
use vstd::prelude::*;
use crate::field::Scalar;

verus! {

/// A sparse matrix: one row per constraint, each row a list of
/// `(coefficient, variable index)` terms.
pub type Matrix = Vec<Vec<(Scalar, usize)>>;

/// The three matrices `A`, `B`, `C` of an R1CS instance, with its sizes.
#[derive(Clone, Debug)]
pub struct ConstraintMatrices {
    /// The number of variables that are "public instances" to the constraint
    /// system.
    pub num_instance_variables: usize,
    /// The number of variables that are "private witnesses" to the constraint
    /// system.
    pub num_witness_variables: usize,
    /// The number of constraints in the constraint system.
    pub num_constraints: usize,
    /// The number of non_zero entries in the A matrix.
    pub a_num_non_zero: usize,
    /// The number of non_zero entries in the B matrix.
    pub b_num_non_zero: usize,
    /// The number of non_zero entries in the C matrix.
    pub c_num_non_zero: usize,
    /// The A constraint matrix.
    pub a: Matrix,
    /// The B constraint matrix.
    pub b: Matrix,
    /// The C constraint matrix.
    pub c: Matrix,
}

/// What a synthesized constraint system holds: its matrices, its sizes and
/// its assignment.
#[derive(Clone, Debug)]
pub struct ConstraintSystemRef {
    /// The constraint matrices.
    pub matrices: ConstraintMatrices,
    /// The number of constraints.
    pub num_constraints: usize,
    /// The number of instance variables, the constant one included.
    pub num_instance_variables: usize,
    /// The values of the instance variables.
    pub instance_assignment: Vec<Scalar>,
    /// The values of the witness variables.
    pub witness_assignment: Vec<Scalar>,
}

/// The errors of synthesis, setup, proving and verification.
#[derive(Clone, Copy, Debug, PartialEq, Eq)]
pub enum SynthesisError {
    /// During synthesis, we lacked knowledge of a variable assignment.
    AssignmentMissing,
    /// During synthesis, we divided by zero.
    DivisionByZero,
    /// During synthesis, we constructed an unsatisfiable constraint system.
    Unsatisfiable,
    /// During synthesis, our polynomials ended up being too high of degree
    PolynomialDegreeTooLarge,
    /// During proof generation, we encountered an identity in the CRS
    UnexpectedIdentity,
    /// During verification, our verifying key was malformed.
    MalformedVerifyingKey,
    /// During CRS generation, we observed an unconstrained auxiliary variable
    UnconstrainedVariable,
}

} // verus!
