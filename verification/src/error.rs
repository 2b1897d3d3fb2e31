use vstd::prelude::*;

verus! {

/// Why a matrix routine gave no result.
#[derive(Clone, Copy, Debug, PartialEq, Eq, Structural)]
pub enum LinalgError {
    /// A dimension is zero or too large, or the sizes of the operands do not
    /// go together: a matrix that has to be square is not, a right-hand side
    /// is not a column, two lengths differ.
    Dimension,
    /// The rows handed over do not all have the same length.
    Ragged,
    /// A matrix does not have the pattern of zeros that the routine is for:
    /// it is not diagonal, or not triangular on the side asked for.
    Structure,
    /// A pivot or a diagonal entry that has to be divided by is zero.
    Singular,
    /// An operation on two scalars has no result in the scalar type.
    Arithmetic,
}

} // verus!
