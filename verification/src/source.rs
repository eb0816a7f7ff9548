//! A sequential, in-memory byte source.
//!
//! Bytes are read front to back and each is consumed once. A read or a skip
//! takes exactly the bytes it was asked for, or fails and leaves the source
//! empty: no failure of the decoder is recoverable.

use vstd::prelude::*;
use crate::error::DecodeError;

verus! {

/// An ordered, finite run of bytes that is read strictly front to back. Its
/// view is the part that has not been consumed yet.
pub struct ByteSource {
    data: Vec<u8>,
    pos: usize,
}

impl View for ByteSource {
    type V = Seq<u8>;

    closed spec fn view(&self) -> Seq<u8> {
        if self.pos <= self.data@.len() {
            self.data@.skip(self.pos as int)
        } else {
            Seq::empty()
        }
    }
}

impl ByteSource {
    /// The place of the next byte lies within the data, or at their end.
    #[verifier::type_invariant]
    spec fn in_bounds(self) -> bool {
        self.pos <= self.data@.len()
    }

    /// The number of bytes in a source fits in a `usize`.
    pub proof fn lemma_len_fits(self)
        ensures
            self@.len() <= usize::MAX,
    {
        assert(self.data.len() == self.data@.len());
    }

    /// A source that will yield exactly the bytes of `data`, in order.
    pub fn new(data: Vec<u8>) -> (source: ByteSource)
        ensures
            source@ == data@,
    {
        ByteSource { data, pos: 0 }
    }

    /// The number of bytes that have not been consumed yet.
    pub fn remaining(&self) -> (n: usize)
        ensures
            n == self@.len(),
    {
        proof {
            use_type_invariant(self);
        }
        self.data.len() - self.pos
    }

    /// Consumes everything that is left.
    pub fn drain(&mut self)
        ensures
            final(self)@ == Seq::<u8>::empty(),
    {
        proof {
            use_type_invariant(&*self);
        }
        self.pos = self.data.len();
    }

    /// Passes over the next `count` bytes without looking at them, or fails
    /// with `Truncated` when fewer are left. A failed skip consumes what was
    /// left.
    pub fn skip(&mut self, count: usize) -> (res: Result<(), DecodeError>)
        ensures
            count <= old(self)@.len() ==> {
                &&& res == Ok::<(), DecodeError>(())
                &&& final(self)@ == old(self)@.skip(count as int)
            },
            count > old(self)@.len() ==> {
                &&& res == Err::<(), DecodeError>(DecodeError::Truncated)
                &&& final(self)@ == Seq::<u8>::empty()
            },
    {
        proof {
            use_type_invariant(&*self);
        }
        if count <= self.data.len() - self.pos {
            self.pos = self.pos + count;
            Ok(())
        } else {
            self.pos = self.data.len();
            Err(DecodeError::Truncated)
        }
    }
}

/// Fills `buf` with the next `buf.len()` bytes of `reader`, or fails with
/// `Truncated` when fewer are left. A failed read consumes what was left and
/// places it at the front of `buf`.
pub fn read_fully(reader: &mut ByteSource, buf: &mut [u8]) -> (res: Result<(), DecodeError>)
    ensures
        final(buf)@.len() == old(buf)@.len(),
        old(buf)@.len() <= old(reader)@.len() ==> {
            &&& res == Ok::<(), DecodeError>(())
            &&& final(buf)@ == old(reader)@.take(old(buf)@.len() as int)
            &&& final(reader)@ == old(reader)@.skip(old(buf)@.len() as int)
        },
        old(buf)@.len() > old(reader)@.len() ==> {
            &&& res == Err::<(), DecodeError>(DecodeError::Truncated)
            &&& final(buf)@ == old(reader)@ + old(buf)@.skip(old(reader)@.len() as int)
            &&& final(reader)@ == Seq::<u8>::empty()
        },
{
    proof {
        use_type_invariant(&*reader);
    }
    let wanted: usize = buf.len();
    let available: usize = reader.data.len() - reader.pos;
    let count: usize = if wanted <= available { wanted } else { available };
    let start: usize = reader.pos;
    let mut i: usize = 0;
    while i < count
        invariant
            i <= count,
            count <= wanted,
            start + count <= reader.data@.len() <= usize::MAX,
            reader.pos == start,
            reader.data@ == old(reader).data@,
            buf@.len() == wanted,
            buf@.len() == old(buf)@.len(),
            forall|j: int| 0 <= j < i ==> buf@[j] == reader.data@[start + j],
            forall|j: int| i <= j < wanted ==> buf@[j] == old(buf)@[j],
        decreases count - i,
    {
        buf[i] = reader.data[start + i];
        i = i + 1;
    }
    reader.pos = start + count;
    if wanted <= available {
        Ok(())
    } else {
        Err(DecodeError::Truncated)
    }
}

/// Reads the next byte of `reader`, or fails with `Truncated` when none is
/// left.
pub fn read_byte(reader: &mut ByteSource) -> (res: Result<u8, DecodeError>)
    ensures
        old(reader)@.len() > 0 ==> {
            &&& res == Ok::<u8, DecodeError>(old(reader)@[0])
            &&& final(reader)@ == old(reader)@.skip(1)
        },
        old(reader)@.len() == 0 ==> {
            &&& res == Err::<u8, DecodeError>(DecodeError::Truncated)
            &&& final(reader)@ == Seq::<u8>::empty()
        },
{
    let mut byte = [0u8; 1];
    match read_fully(reader, &mut byte) {
        Ok(()) => Ok(byte[0]),
        Err(e) => Err(e),
    }
}

/// Reads the next `count` bytes of `reader` into a vector of their own, or
/// fails with `Truncated` when fewer are left. A failed read consumes what
/// was left.
pub fn read_vec(reader: &mut ByteSource, count: usize) -> (res: Result<Vec<u8>, DecodeError>)
    ensures
        count <= old(reader)@.len() ==> {
            &&& res matches Ok(bytes)
            &&& bytes@ == old(reader)@.take(count as int)
            &&& final(reader)@ == old(reader)@.skip(count as int)
        },
        count > old(reader)@.len() ==> {
            &&& res == Err::<Vec<u8>, DecodeError>(DecodeError::Truncated)
            &&& final(reader)@ == Seq::<u8>::empty()
        },
{
    if count > reader.remaining() {
        reader.drain();
        return Err(DecodeError::Truncated);
    }
    let mut bytes: Vec<u8> = vec![0u8; count];
    match read_fully(reader, bytes.as_mut_slice()) {
        Ok(()) => Ok(bytes),
        Err(e) => Err(e),
    }
}

} // verus!
