use vstd::prelude::*;

verus! {

/// Why an encode or a decode stopped.
#[derive(Copy, Clone, Debug, PartialEq, Eq, Structural)]
pub enum DnsError {
    /// A read or a write would have touched a byte at or past the buffer's capacity.
    EndOfBuffer,
    /// A label of a name to encode is longer than 63 bytes.
    LabelTooLong,
    /// A name to decode needs more than five compression pointers.
    JumpLimitExceeded,
}

} // verus!
