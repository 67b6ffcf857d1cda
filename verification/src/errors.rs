//! Error taxonomy of the library.

use vstd::prelude::*;

verus! {

/// The ways an operation of this library can fail.
///
/// `InvalidData` reports an unsupported byte during encoding or a
/// corrupted bit stream during decoding; `Io` stands for a file error of
/// the surrounding process; `OverwritePrevented` reports a batch whose
/// destination already exists; `ConfigurationError` reports inconsistent
/// batch settings, such as an absolute input path without a rebasing root.
#[derive(Copy, Clone, Debug, PartialEq, Eq, Structural)]
pub enum BncsvError {
    InvalidData,
    Io,
    OverwritePrevented,
    ConfigurationError,
}

} // verus!
