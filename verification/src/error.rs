//! The conditions under which a computation is refused.

use vstd::prelude::*;

verus! {

/// Why a computation was refused.
#[derive(Debug, Clone, Copy, PartialEq, Eq, Structural)]
pub enum Error {
    /// A parameter is outside its domain: a spread or a window width that
    /// is not positive, an empty signal, a bell profile of the wrong length
    /// or without mass.
    InvalidParameter,
    /// A value that the computation defines cannot be stored in a sample.
    Overflow,
    /// The spread of the values is too small to space a histogram with.
    Degenerate,
    /// The mode of a density sits on its first or last bin, so that no
    /// peak can be interpolated around it.
    BoundaryMode,
}

/// A result of samples as a result of mathematical integers.
pub open spec fn lift(r: Result<Vec<i64>, Error>) -> Result<Seq<int>, Error> {
    match r {
        Ok(v) => Ok(crate::fixed::ints(v@)),
        Err(e) => Err(e),
    }
}

} // verus!
