use vstd::prelude::*;

verus! {

/// Failures of the control core.
#[derive(Debug, Clone, Copy, PartialEq, Eq, Structural)]
pub enum Error {
    /// A device could not be read or written, or its contents did not parse.
    Io,
    /// A lookup or an insertion fell outside the curve's domain `0..=sensor_max`.
    OutOfRange,
    /// Persisted settings or curve points are malformed.
    Config,
}

} // verus!
