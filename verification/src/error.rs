//! Failures of the wire codec.

use vstd::prelude::*;

verus! {

/// Why a packet could not be read from or written to a [`crate::dns::Buf`].
#[derive(Clone, Copy, Debug, PartialEq, Eq, Structural)]
pub enum DnsError {
    /// A read or a write would have passed the end of the byte window.
    BufferOverflow,
    /// A label of a name is longer than 63 bytes and cannot be written.
    InvalidLabel,
    /// A name holds more compression pointers in a row than
    /// [`crate::dns::MAX_JUMPS`].
    TooManyJumps,
}

impl DnsError {
    /// A line of text for logs.
    pub fn message(&self) -> (text: String)
        ensures
            text@ == match *self {
                DnsError::BufferOverflow => "buffer overflow. Buf is limited to 512 bytes"@,
                DnsError::InvalidLabel => "Single label exceeds 63 characters of length"@,
                DnsError::TooManyJumps => "name holds too many compression pointers"@,
            },
    {
        match self {
            DnsError::BufferOverflow => "buffer overflow. Buf is limited to 512 bytes".to_owned(),
            DnsError::InvalidLabel => "Single label exceeds 63 characters of length".to_owned(),
            DnsError::TooManyJumps => "name holds too many compression pointers".to_owned(),
        }
    }
}

} // verus!
