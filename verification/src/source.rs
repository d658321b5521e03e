//! Byte sources: the positioned-read abstraction the reader is built on.
//! `SliceSource` serves bytes already in memory; a file-backed source lives
//! with the application code.

use vstd::prelude::*;
use crate::error::IoError;

verus! {

/// A random-access source of bytes. Reads never mutate shared state, so a
/// source can be read through a shared reference.
pub trait ByteSource {
    /// The bytes the source holds.
    spec fn bytes(&self) -> Seq<u8>;

    /// Total length of the source, in bytes.
    fn len(&self) -> (n: u64)
        ensures
            n == self.bytes().len(),
    ;

    /// True when the source is empty.
    fn is_empty(&self) -> (b: bool)
        ensures
            b == (self.bytes().len() == 0),
    ;

    /// Fills `buf` entirely with the bytes starting at `offset`. Fails with
    /// `UnexpectedEof` when, and only when, fewer than `buf.len()` bytes
    /// remain; any other failure is another I/O error.
    fn read_exact_at(&self, buf: &mut [u8], offset: u64) -> (r: Result<(), IoError>)
        ensures
            final(buf)@.len() == old(buf)@.len(),
            r is Ok ==> offset + old(buf)@.len() <= self.bytes().len() && final(buf)@
                == self.bytes().subrange(offset as int, offset + old(buf)@.len()),
            offset + old(buf)@.len() > self.bytes().len() ==> r == Err::<(), IoError>(
                IoError::UnexpectedEof,
            ),
            r == Err::<(), IoError>(IoError::UnexpectedEof) ==> offset + old(buf)@.len() > self.bytes().len(),
    ;

    /// A borrow of the whole source, when the backend has one in memory.
    fn as_slice(&self) -> (r: Option<&[u8]>)
        ensures
            r matches Some(s) ==> s@ == self.bytes(),
    ;
}

/// An in-memory source, e.g. for tests or bytes already loaded by a caller.
#[derive(Debug)]
pub struct SliceSource(Vec<u8>);

impl SliceSource {
    pub fn new(bytes: Vec<u8>) -> (s: Self)
        ensures
            s.bytes() == bytes@,
    {
        SliceSource(bytes)
    }
}

impl ByteSource for SliceSource {
    closed spec fn bytes(&self) -> Seq<u8> {
        self.0@
    }

    fn len(&self) -> (n: u64) {
        self.0.len() as u64
    }

    fn is_empty(&self) -> (b: bool) {
        self.0.len() == 0
    }

    fn read_exact_at(&self, buf: &mut [u8], offset: u64) -> (r: Result<(), IoError>)
        ensures
            offset + old(buf)@.len() <= self.bytes().len() ==> r is Ok,
            r is Err ==> final(buf)@ == old(buf)@,
    {
        let n = self.0.len();
        if offset > n as u64 {
            return Err(IoError::UnexpectedEof);
        }
        let start = offset as usize;
        if buf.len() > n - start {
            return Err(IoError::UnexpectedEof);
        }
        let mut i: usize = 0;
        while i < buf.len()
            invariant
                n == self.0@.len(),
                start + old(buf)@.len() <= n,
                start == offset,
                i <= buf@.len(),
                buf@.len() == old(buf)@.len(),
                forall|j: int| 0 <= j < i ==> buf@[j] == self.0@[start + j],
            decreases buf@.len() - i,
        {
            buf[i] = self.0[start + i];
            i = i + 1;
        }
        assert(buf@ =~= self.0@.subrange(offset as int, offset + old(buf)@.len()));
        Ok(())
    }

    fn as_slice(&self) -> (r: Option<&[u8]>)
        ensures
            r matches Some(s) && s@ == self.bytes(),
    {
        Some(self.0.as_slice())
    }
}

} // verus!
