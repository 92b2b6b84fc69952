//! What can be wrong with bytes that came from, or are to go to, the network.
use vstd::prelude::*;

verus! {

/// Why bytes could not be read or written.
#[derive(Debug, Clone, Copy, PartialEq, Eq, Structural)]
pub enum Error {
    /// The bytes end before the value does.
    UnexpectedEnd,
    /// The buffer is too small for what is to be written.
    BufferTooSmall,
    /// The OP code is not the one that the packet has.
    UnexpectedOpCode,
    /// A text is not valid UTF-8.
    InvalidText,
    /// A number stands for no disconnect reason.
    InvalidReason,
    /// A packet CRC cannot have this many bytes.
    InvalidCrcLength,
    /// The fragments of a data unit add up to more than memory can hold.
    DataTooLong,
    /// Compressed data is malformed, or inflates to more than is accepted.
    InvalidCompressedData,
}

/// The result of reading or writing bytes.
pub type Result<T> = std::result::Result<T, Error>;

} // verus!
