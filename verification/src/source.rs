//! Byte sources: where a reader gets its bytes from.

use vstd::prelude::*;

verus! {

/// The smaller of two lengths.
pub open spec fn min_len(a: nat, b: nat) -> nat {
    if a <= b {
        a
    } else {
        b
    }
}

/// A supplier of bytes, consumed front to back.
pub trait ByteSource {
    /// The bytes that the source has yet to deliver, in order.
    spec fn remaining(&self) -> Seq<u8>;

    /// The next byte of the source, if it has one. The byte stays with the
    /// source: the next read delivers it.
    fn peek_byte(&self) -> (byte: Option<u8>)
        ensures
            byte == if self.remaining().len() > 0 {
                Some(self.remaining()[0])
            } else {
                None::<u8>
            },
    ;

    /// Fills the front of `buf` with the next bytes of the source, as many as
    /// both allow, and returns their number. A result below `buf.len()` means
    /// that the source is exhausted.
    fn read(&mut self, buf: &mut [u8]) -> (count: usize)
        ensures
            count == min_len(old(buf)@.len(), old(self).remaining().len()),
            final(buf)@ == old(self).remaining().take(count as int) + old(buf)@.skip(count as int),
            final(self).remaining() == old(self).remaining().skip(count as int),
    ;
}

/// A byte source over bytes held in memory.
pub struct ByteCursor {
    data: Vec<u8>,
    position: usize,
}

impl ByteCursor {
    #[verifier::type_invariant]
    spec fn within_data(self) -> bool {
        self.position <= self.data@.len()
    }

    /// A source that delivers `data` from its first byte on.
    pub fn new(data: Vec<u8>) -> (cursor: Self)
        ensures
            cursor.remaining() == data@,
    {
        let cursor = ByteCursor { data, position: 0 };
        cursor
    }

    /// The number of bytes that are left to deliver.
    pub fn remaining_len(&self) -> (count: usize)
        ensures
            count == self.remaining().len(),
    {
        proof {
            use_type_invariant(self);
        }
        self.data.len() - self.position
    }

    /// Adds `bytes` behind the bytes that are left to deliver. The bytes
    /// delivered before are let go of.
    pub fn feed(&mut self, bytes: &[u8])
        ensures
            final(self).remaining() == old(self).remaining() + bytes@,
    {
        proof {
            use_type_invariant(&*self);
        }
        let mut data: Vec<u8> = Vec::new();
        let mut i: usize = self.position;
        while i < self.data.len()
            invariant
                self.position <= i <= self.data@.len(),
                data@ == self.data@.subrange(self.position as int, i as int),
            decreases self.data@.len() - i,
        {
            data.push(self.data[i]);
            i += 1;
        }
        data.extend_from_slice(bytes);
        *self = ByteCursor { data, position: 0 };
    }
}

impl ByteSource for ByteCursor {
    closed spec fn remaining(&self) -> Seq<u8> {
        self.data@.skip(self.position as int)
    }

    fn peek_byte(&self) -> (byte: Option<u8>) {
        proof {
            use_type_invariant(self);
        }
        if self.position < self.data.len() {
            Some(self.data[self.position])
        } else {
            None
        }
    }

    fn read(&mut self, buf: &mut [u8]) -> (count: usize) {
        proof {
            use_type_invariant(&*self);
        }
        let available = self.data.len() - self.position;
        let count = if buf.len() <= available {
            buf.len()
        } else {
            available
        };
        let start = self.position;
        let mut i: usize = 0;
        while i < count
            invariant
                i <= count <= buf@.len(),
                buf@.len() == old(buf)@.len(),
                start + count <= self.data@.len() <= usize::MAX,
                self.position == start,
                self.data@ == old(self).data@,
                forall|j: int| 0 <= j < i ==> buf@[j] == self.data@[start + j],
                forall|j: int| i <= j < buf@.len() ==> buf@[j] == old(buf)@[j],
            decreases count - i,
        {
            buf[i] = self.data[start + i];
            i += 1;
        }
        self.position = start + count;
        count
    }
}

/// Takes the next byte of `source`, if it has one.
pub fn next_byte<R: ByteSource>(source: &mut R) -> (byte: Option<u8>)
    ensures
        match byte {
            Some(b) => {
                &&& old(source).remaining().len() > 0
                &&& b == old(source).remaining()[0]
                &&& final(source).remaining() == old(source).remaining().skip(1)
            },
            None => {
                &&& old(source).remaining().len() == 0
                &&& final(source).remaining() == old(source).remaining()
            },
        },
{
    let mut scratch = [0u8; 1];
    let count = source.read(&mut scratch);
    if count == 1 {
        Some(scratch[0])
    } else {
        None
    }
}

} // verus!
