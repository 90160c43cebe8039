//! Errors of the codec and the checksum.
use vstd::prelude::*;

verus! {

/// What went wrong, with the byte offset where parsing stopped.
#[derive(Clone, Copy, Debug, PartialEq, Eq, Structural)]
pub enum DbError {
    /// The root tag is not `mhbd` or `mhfd`.
    UnknownMagic { offset: usize },
    /// A list type or data type outside the supported set.
    BadDiscriminant { offset: usize },
    /// The input ends before the record does.
    ShortRead { offset: usize },
    /// A record's parts do not fill exactly its declared length.
    LengthMismatch { offset: usize },
    /// A UTF-16 payload of odd byte length, or text that does not decode
    /// (then at offset 0 of the payload).
    MalformedString { offset: usize },
    /// A count that the remaining bytes cannot hold.
    CountOverflow { offset: usize },
    /// The stored digest differs from the computed one.
    HashMismatch,
    /// A firmware id that is not 16 hexadecimal digits.
    BadFirmwareId,
}

} // verus!
