//! The bit-level operations that readers and writers offer.

use crate::error::BitReadWriteError;
use vstd::prelude::*;

verus! {

/// Reading bits and consuming them.
pub trait BitRead {
    type Output;

    /// Reads exactly `n` bits, consuming them from the stream. A width of
    /// zero is refused by every reader.
    fn read_bits(&mut self, n: usize) -> (bits: Result<Self::Output, BitReadWriteError>)
        ensures
            n == 0 ==> bits == Err::<Self::Output, BitReadWriteError>(
                BitReadWriteError::InvalidBitCount(n),
            ),
    ;
}

/// Looking at bits that a later read will return.
pub trait BitPeek {
    type Output;

    /// Peeks at the next `n` bits without consuming them. A width of zero is
    /// refused by every reader.
    fn peek_bits(&mut self, n: usize) -> (bits: Result<Self::Output, BitReadWriteError>)
        ensures
            n == 0 ==> bits == Err::<Self::Output, BitReadWriteError>(
                BitReadWriteError::InvalidBitCount(n),
            ),
    ;
}

/// Writing bits.
pub trait BitWrite {
    /// Writes the low `n` bits of `value`. A width of zero or above 64 is
    /// refused by every writer.
    fn write_bits(&mut self, value: u64, n: usize) -> (done: Result<(), BitReadWriteError>)
        ensures
            (n == 0 || n > 64) ==> done == Err::<(), BitReadWriteError>(
                BitReadWriteError::InvalidBitCount(n),
            ),
    ;
}

} // verus!
