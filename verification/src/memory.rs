//! A stream over bytes held in memory.

use crate::error::{PakError, StreamError};
use crate::span::{span, write_at};
use crate::util::BinaryStream;
use vstd::prelude::*;

verus! {

/// A stream over bytes held in memory. It never faults, and it can grow to
/// `isize::MAX` bytes, the most that a vector holds.
#[derive(Debug)]
pub struct MemoryStream {
    data: Vec<u8>,
    pos: u64,
}

impl MemoryStream {
    /// A stream over `data`, with the cursor at the start.
    pub fn new(data: Vec<u8>) -> (r: Self)
        ensures
            r.contents() == data@,
            r.cursor() == 0,
    {
        MemoryStream { data, pos: 0 }
    }

    /// The bytes held.
    pub fn bytes(&self) -> (r: &Vec<u8>)
        ensures
            r@ == self.contents(),
    {
        &self.data
    }

    /// Gives up the stream for the bytes it holds.
    pub fn into_bytes(self) -> (r: Vec<u8>)
        ensures
            r@ == self.contents(),
    {
        self.data
    }
}

impl BinaryStream for MemoryStream {
    closed spec fn contents(&self) -> Seq<u8> {
        self.data@
    }

    closed spec fn cursor(&self) -> nat {
        self.pos as nat
    }

    open spec fn capacity(&self) -> nat {
        isize::MAX as nat
    }

    open spec fn reliable(&self) -> bool {
        true
    }

    fn read_bytes(&mut self, buf: &mut [u8]) -> (r: Result<(), PakError>) {
        let count = buf.len();
        if count == 0 {
            assert(buf@ =~= span(self.contents(), self.cursor(), 0));
            return Ok(());
        }
        let len = self.data.len();
        if self.pos > len as u64 || count > len - self.pos as usize {
            return Err(PakError::Io(StreamError::UnexpectedEof));
        }
        let start = self.pos as usize;
        let mut i: usize = 0;
        while i < count
            invariant
                i <= count,
                count == buf@.len(),
                start + count <= len,
                len == self.data@.len(),
                start == self.pos,
                self.data@ == old(self).data@,
                forall|k: int| 0 <= k < i ==> buf@[k] == self.data@[start + k],
            decreases count - i,
        {
            buf[i] = self.data[start + i];
            i += 1;
        }
        assert(buf@ =~= span(self.contents(), self.cursor(), count as nat));
        self.pos = self.pos + count as u64;
        Ok(())
    }

    fn write_bytes(&mut self, buf: &[u8]) -> (r: Result<(), PakError>) {
        let count = buf.len();
        if count == 0 {
            return Ok(());
        }
        let limit: usize = isize::MAX as usize;
        if count > limit || self.pos > (limit - count) as u64 {
            return Err(PakError::Io(StreamError::OutOfRange));
        }
        let start = self.pos as usize;
        while self.data.len() < start
            invariant
                self.pos == old(self).pos,
                self.data@.len() <= start || self.data@.len() == old(self).data@.len(),
                old(self).data@.len() <= self.data@.len(),
                forall|k: int| 0 <= k < old(self).data@.len() ==> self.data@[k] == old(self).data@[k],
                forall|k: int| old(self).data@.len() <= k < self.data@.len() ==> self.data@[k] == 0,
            decreases start - self.data@.len(),
        {
            self.data.push(0u8);
        }
        let ghost filled = self.data@;
        let mut i: usize = 0;
        while i < count
            invariant
                i <= count,
                count == buf@.len(),
                start + count <= isize::MAX,
                start == self.pos,
                self.pos == old(self).pos,
                start <= filled.len(),
                filled.len() == old(self).data@.len() || filled.len() == start,
                old(self).data@.len() <= filled.len(),
                forall|k: int| 0 <= k < old(self).data@.len() ==> filled[k] == old(self).data@[k],
                forall|k: int| old(self).data@.len() <= k < filled.len() ==> filled[k] == 0,
                self.data@.len() == (if filled.len() >= start + i {
                    filled.len()
                } else {
                    (start + i) as nat
                }),
                forall|k: int| 0 <= k < start ==> self.data@[k] == filled[k],
                forall|k: int| start <= k < start + i ==> self.data@[k] == buf@[k - start],
                forall|k: int| start + i <= k < filled.len() ==> self.data@[k] == filled[k],
            decreases count - i,
        {
            if start + i < self.data.len() {
                self.data[start + i] = buf[i];
            } else {
                self.data.push(buf[i]);
            }
            i += 1;
        }
        proof {
            let expected = write_at(old(self).data@, old(self).pos as nat, buf@);
            assert(self.data@.len() == expected.len());
            assert forall|k: int| 0 <= k < expected.len() implies self.data@[k] == expected[k] by {
                if k < start {
                    assert(self.data@[k] == filled[k]);
                    assert(expected[k] == filled[k]);
                } else if k < start + count {
                    assert(self.data@[k] == buf@[k - start]);
                } else {
                    assert(self.data@[k] == filled[k]);
                    assert(expected[k] == filled[k]);
                }
            }
            assert(self.data@ =~= expected);
        }
        self.pos = self.pos + count as u64;
        Ok(())
    }

    fn seek(&mut self, pos: u64) -> (r: Result<(), PakError>) {
        self.pos = pos;
        Ok(())
    }

    fn position(&mut self) -> (r: Result<u64, PakError>) {
        Ok(self.pos)
    }

    fn length(&mut self) -> (r: Result<u64, PakError>) {
        Ok(self.data.len() as u64)
    }
}

} // verus!
