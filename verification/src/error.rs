use vstd::prelude::*;

verus! {

/// The two failure modes of the library: both are detected when a
/// probability or a distribution is constructed, never later.
#[derive(Clone, Copy, Debug, PartialEq, Eq)]
pub enum Error {
    /// A weight outside the unit interval was supplied, or a product of
    /// weights cannot be represented exactly.
    ProbabilityOutOfRange,
    /// A distribution's weights do not sum to one, repeat a value, or have
    /// no representable common denominator.
    InvalidMeasure,
}

} // verus!
