//! Topological invariants of finite simplicial complexes.
//!
//! A complex is stored as the antichain of its maximal faces (facets); all
//! lower-dimensional faces are derived on demand.  Betti numbers are computed
//! by reducing boundary (incidence) matrices over the two-element field.

use vstd::prelude::*;

pub mod family;
pub mod hypergraph;
pub mod linear_algebra;
pub mod simplex;
pub mod simplicial_complex;
pub mod utils;

verus! {

/// Failure cases of operations whose precondition on the existing structure
/// cannot be checked by the caller alone.
#[derive(Clone, Copy, Debug, PartialEq, Eq, Structural)]
pub enum ComplexError {
    /// An operation's precondition on the existing structure is false,
    /// e.g. adding a simplex whose boundary is not present.
    StructuralViolation,
    /// The operation is undefined on the empty complex.
    UndefinedOnEmpty,
    /// A dimension argument lies outside the admissible range.
    DimensionOutOfRange,
}

} // verus!
