use vstd::prelude::*;

verus! {

/// The kinds of failure reported by this crate.
#[derive(Debug, Clone, Copy, PartialEq, Eq, Structural)]
pub enum GeoArrowError {
    /// A homogeneous conversion was requested but an input geometry is of another kind.
    IncorrectType,
    /// The requested geometry kind or dimension is not supported.
    NotYetImplemented,
    /// A catch-all failure.
    General,
    /// An offset or byte count does not fit the target index width.
    Overflow,
    /// Serialized bytes that do not parse as a geometry.
    FormatError,
}

} // verus!
