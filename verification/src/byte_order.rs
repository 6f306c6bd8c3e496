use vstd::prelude::*;

verus! {

/// The convention by which the bits of a byte are laid out in a stream.
#[derive(Clone, Copy, Debug, PartialEq, Eq, Structural)]
pub enum ByteOrder {
    /// The first bit of the stream is the most significant bit of the first byte.
    BigEndian,
    /// The first bit of the stream is the least significant bit of the first byte.
    LittleEndian,
}

} // verus!
