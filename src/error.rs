use vstd::prelude::*;

verus! {

/// Errors reported by the decoder core.
#[derive(Debug, Clone, Copy, PartialEq, Eq, Structural)]
pub enum Error {
    /// A read went past the end of the data.
    OutOfBounds,
    /// Padding bits that must be zero were set.
    NonZeroPadding,
    /// The codestream does not start with `ff 0a`; holds the two bytes found.
    InvalidSignature(u8, u8),
    /// The container breaks one of its box rules.
    InvalidBox,
    /// Memory for the given number of additional bytes could not be reserved.
    OutOfMemory(usize),
    /// The stream asks for a coding tool that this decoder does not support.
    NotImplemented,
}

} // verus!
