//! Error taxonomy: invalid arguments are reported separately from failures
//! that an underlying primitive reported itself.

use vstd::prelude::*;

verus! {

/// Numeric code reported by an underlying primitive.
pub const CRYPT_ERROR: u32 = 1;

/// A failure reported by an underlying primitive, carrying its numeric code.
#[derive(Clone, Copy, Debug, PartialEq, Eq, Structural)]
pub struct TomcryptError {
    pub code: u32,
}

impl TomcryptError {
    /// The numeric code of this failure.
    pub fn code(&self) -> (r: u32)
        ensures
            r == self.code,
    {
        self.code
    }
}

/// What can go wrong in this library: a caller handed in a bad argument
/// (wrong key, IV or tag length, misaligned block input), or an underlying
/// primitive reported a failure of its own.
#[derive(Clone, Copy, Debug, PartialEq, Eq, Structural)]
pub enum Error {
    /// A length or alignment requirement on an argument was not met.
    InvalidArgument,
    /// An underlying primitive reported a failure.
    Tomcrypt(TomcryptError),
}

impl Error {
    /// Wrap a primitive's numeric failure code.
    pub fn from_code(code: u32) -> (r: Error)
        ensures
            r == Error::Tomcrypt(TomcryptError { code }),
    {
        Error::Tomcrypt(TomcryptError { code })
    }
}

} // verus!
