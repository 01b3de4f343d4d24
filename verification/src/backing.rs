//! The block-addressed backing store: the sole authority for persistent
//! bytes.
//!
//! `LikeFile` abstracts over what the engine mirrors — an on-disk file in
//! the real program, an in-memory buffer in tests — exactly as the engine
//! is generic over its backing in the first place. `MemFile` is the
//! in-memory implementation, verified against the same contracts that an
//! unverified file-backed implementation must be trusted to meet.

use vstd::prelude::*;
use crate::model::{read_seq, write_seq};

verus! {

/// A seekable random-access byte store. The `contents` view is the whole
/// byte string it holds; a read stops at its end, and a write past its end
/// first extends it with zeroes (the behaviour of a seekable file and of an
/// in-memory cursor alike).
///
/// An implementation outside this crate is not verified: its contracts are
/// trusted, like every other boundary to real input and output.
pub trait LikeFile: Sized {
    /// The bytes the store holds.
    spec fn contents(&self) -> Seq<u8>;

    /// How many bytes the store holds.
    fn file_len(&self) -> (r: u64)
        requires
            self.contents().len() <= u64::MAX,
        ensures
            r == self.contents().len(),
    ;

    /// Read up to `n` bytes at absolute offset `off`; the result is short
    /// exactly when the range runs past the end of the store.
    fn read_at(&mut self, off: u64, n: usize) -> (r: Vec<u8>)
        ensures
            final(self).contents() == old(self).contents(),
            r@ == read_seq(old(self).contents(), off as int, n as int),
    ;

    /// Write all of `data` at absolute offset `off`.
    fn write_at(&mut self, off: u64, data: &[u8])
        requires
            off + data@.len() <= usize::MAX,
        ensures
            final(self).contents() == write_seq(old(self).contents(), off as int, data@),
    ;
}

/// Copy `src[from..to]` into a fresh buffer.
pub fn copy_range(src: &Vec<u8>, from: usize, to: usize) -> (r: Vec<u8>)
    requires
        from <= to <= src@.len(),
    ensures
        r@ == src@.subrange(from as int, to as int),
{
    let mut r: Vec<u8> = Vec::new();
    let mut i: usize = from;
    while i < to
        invariant
            from <= i <= to <= src@.len(),
            r@ == src@.subrange(from as int, i as int),
        decreases to - i,
    {
        let b = src[i];
        r.push(b);
        proof {
            assert(r@ =~= src@.subrange(from as int, i + 1));
        }
        i = i + 1;
    }
    r
}

/// An in-memory backing store: a growable byte buffer, used by the tests
/// in place of a real file.
pub struct MemFile {
    pub data: Vec<u8>,
}

impl MemFile {
    /// Wrap an owned buffer as a backing store.
    pub fn new(data: Vec<u8>) -> (r: MemFile)
        ensures
            r.contents() == data@,
    {
        MemFile { data }
    }

    /// Borrow the bytes currently held.
    pub fn get_ref(&self) -> (r: &Vec<u8>)
        ensures
            r@ == self.contents(),
    {
        &self.data
    }

    /// Give the bytes back to the caller.
    pub fn into_vec(self) -> (r: Vec<u8>)
        ensures
            r@ == self.contents(),
    {
        self.data
    }
}

impl LikeFile for MemFile {
    open spec fn contents(&self) -> Seq<u8> {
        self.data@
    }

    fn file_len(&self) -> (r: u64) {
        self.data.len() as u64
    }

    fn read_at(&mut self, off: u64, n: usize) -> (r: Vec<u8>) {
        let len = self.data.len();
        let start: usize = if off >= len as u64 {
            len
        } else {
            off as usize
        };
        let avail = len - start;
        let m = if n < avail {
            n
        } else {
            avail
        };
        let mut r: Vec<u8> = Vec::new();
        let mut i: usize = 0;
        while i < m
            invariant
                0 <= i <= m,
                start + m <= self.data.len(),
                r@ == self.data@.subrange(start as int, start + i),
            decreases m - i,
        {
            let b = self.data[start + i];
            r.push(b);
            proof {
                assert(r@ =~= self.data@.subrange(start as int, start + i + 1));
            }
            i = i + 1;
        }
        proof {
            assert(r@ =~= read_seq(self.data@, off as int, n as int));
        }
        r
    }

    fn write_at(&mut self, off: u64, data: &[u8]) {
        let ghost orig = self.data@;
        let dlen: usize = data.len();
        let start = off as usize;
        let end = start + dlen;
        while self.data.len() < end
            invariant
                self.data@.len() >= orig.len(),
                self.data@.len() == orig.len() || self.data@.len() <= end,
                forall|j: int| 0 <= j < orig.len() ==> self.data@[j] == orig[j],
                forall|j: int| orig.len() <= j < self.data@.len() ==> self.data@[j] == 0u8,
            decreases end - self.data.len(),
        {
            self.data.push(0u8);
        }
        let ghost padded = self.data@;
        let mut i: usize = 0;
        while i < dlen
            invariant
                0 <= i <= dlen,
                dlen == data@.len(),
                end == start + dlen,
                end <= padded.len(),
                padded.len() >= orig.len(),
                padded.len() == orig.len() || padded.len() == end,
                forall|j: int| 0 <= j < orig.len() ==> padded[j] == orig[j],
                forall|j: int| orig.len() <= j < padded.len() ==> padded[j] == 0u8,
                self.data@.len() == padded.len(),
                forall|j: int|
                    0 <= j < self.data@.len() && !(start <= j < start + i) ==> self.data@[j]
                        == padded[j],
                forall|j: int| start <= j < start + i ==> self.data@[j] == data@[j - start],
            decreases dlen - i,
        {
            self.data[start + i] = data[i];
            i = i + 1;
        }
        proof {
            let w = write_seq(orig, off as int, data@);
            assert(start == off as int);
            assert(self.data@.len() == w.len());
            assert forall|j: int| 0 <= j < w.len() implies self.data@[j] == w[j] by {
                if start <= j < end {
                    assert(self.data@[j] == data@[j - start]);
                } else if j < orig.len() {
                    assert(self.data@[j] == padded[j]);
                } else {
                    assert(self.data@[j] == padded[j]);
                    assert(padded[j] == 0u8);
                }
            }
            assert(self.data@ =~= w);
        }
    }
}

} // verus!
