use vstd::prelude::*;

verus! {

/// The kinds of failure the fingerprinting pipeline reports.
#[derive(Debug, Clone, Copy, PartialEq, Eq, Structural)]
pub enum Error {
    /// The audio or the spectral data cannot be interpreted.
    Input,
    /// A parameter is out of range.
    Config,
    /// The spectrogram is empty or has the wrong shape.
    Shape,
    /// The fingerprint store refused the operation.
    Store,
}

} // verus!
