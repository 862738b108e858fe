//! The fatal errors of the library.

use vstd::prelude::*;

verus! {

/// The ways in which a decoded program can be malformed.
#[derive(Clone, Copy, Debug, PartialEq, Eq, Structural)]
pub enum IrFault {
    /// An expression node carries an operation tag that is not known.
    UnknownOp,
    /// A reference carries a kind tag that is not known.
    UnknownReferenceKind,
    /// A public carries a kind tag that is not known.
    UnknownPublicKind,
    /// A field that the operation needs is absent.
    MissingField,
    /// An id or a row lies outside the table that it points into.
    IndexOutOfRange,
    /// The value of a `number` node is not a decimal numeral of 64 bits.
    InvalidNumber,
    /// An `exp` node refers to an expression whose column is not yet there.
    NotMaterialized,
    /// The expressions depend on each other in a cycle.
    CircularDependency,
    /// A reference's name is not of the form `namespace.name`.
    MalformedName,
    /// The references disagree on the degree of their polynomials.
    NonUniformDegree,
    /// The column stores do not fit the program or each other.
    InconsistentColumns,
    /// The number of rows is not a power of two of at most `2^32`.
    UnsupportedDomain,
    /// A connection identity has more source columns than there are cosets,
    /// or not as many destinations as sources.
    InvalidConnection,
}

/// A fatal error: the operation stopped and nothing is to be relied on but
/// what its contract says of this case.
#[derive(Clone, Copy, Debug, PartialEq, Eq, Structural)]
pub enum PilError {
    /// The program is malformed.
    IrMalformed(IrFault),
    /// A column file does not hold `n_pols * N * 8` bytes.
    FileSizeMismatch,
    /// A column id in `[0, n_pols)` is left without a reference.
    InvalidPilSequence,
}

} // verus!
