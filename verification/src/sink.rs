//! Byte sinks: where a writer sends its bytes.

use vstd::prelude::*;

verus! {

/// A receiver of bytes that keeps them in the order in which they came.
pub trait ByteSink {
    /// The bytes that the sink has received so far, in order.
    spec fn written(&self) -> Seq<u8>;

    /// How many of the bytes received the sink has passed on to where they
    /// are going. A sink may hold back the rest until it is flushed.
    spec fn flushed(&self) -> nat;

    /// Hands `bytes` to the sink, all of them.
    fn write_all(&mut self, bytes: &[u8])
        ensures
            final(self).written() == old(self).written() + bytes@,
    ;

    /// Has the sink pass on every byte that it holds back. The bytes
    /// received stay as they are.
    fn flush(&mut self)
        ensures
            final(self).written() == old(self).written(),
            final(self).flushed() == final(self).written().len(),
    ;
}

/// Appends `bytes` to `buffer`.
fn append_bytes(buffer: &mut Vec<u8>, bytes: &[u8])
    ensures
        final(buffer)@ == old(buffer)@ + bytes@,
{
    buffer.extend_from_slice(bytes);
}

/// A growable buffer takes every byte at its end and holds nothing back.
impl ByteSink for Vec<u8> {
    open spec fn written(&self) -> Seq<u8> {
        self@
    }

    open spec fn flushed(&self) -> nat {
        self@.len()
    }

    fn write_all(&mut self, bytes: &[u8]) {
        append_bytes(self, bytes);
    }

    fn flush(&mut self) {
    }
}

/// A borrowed buffer is a sink too, so that its owner keeps the bytes.
impl<'a> ByteSink for &'a mut Vec<u8> {
    open spec fn written(&self) -> Seq<u8> {
        (**self)@
    }

    open spec fn flushed(&self) -> nat {
        (**self)@.len()
    }

    fn write_all(&mut self, bytes: &[u8]) {
        append_bytes(*self, bytes);
    }

    fn flush(&mut self) {
    }
}

} // verus!
