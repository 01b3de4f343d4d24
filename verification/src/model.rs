//! Byte-level mathematical model shared by the contracts.
//!
//! The backing store, the cached payloads, and the virtual file are all
//! described as sequences of bytes; the functions here say what a read, a
//! write, and a block-sized commit do to such a sequence.

use vstd::prelude::*;

verus! {

/// The bytes a read of `n` bytes at offset `off` returns from a store `s`:
/// the range clipped to the end of the store, so a read at or past the end
/// returns nothing and a read across the end returns what is there.
pub open spec fn read_seq(s: Seq<u8>, off: int, n: int) -> Seq<u8> {
    let lo = vstd::math::min(off, s.len() as int);
    let hi = vstd::math::max(lo, vstd::math::min(off + n, s.len() as int));
    s.subrange(lo, hi)
}

/// A store of `len` bytes after writing `d` at offset `off`: bytes of `d`
/// land at `off..off + |d|`, bytes before and after keep their value, and a
/// write past the current end first extends the store with zeroes (as a
/// seekable file or an in-memory cursor does).
pub open spec fn write_seq(s: Seq<u8>, off: int, d: Seq<u8>) -> Seq<u8> {
    Seq::new(
        vstd::math::max(s.len() as int, off + d.len()) as nat,
        |j: int|
            if off <= j < off + d.len() {
                d[j - off]
            } else if j < s.len() {
                s[j]
            } else {
                0u8
            },
    )
}

/// `s` with `d` overlaid at `off`, inside the existing bounds: the length
/// does not change.
pub open spec fn splice(s: Seq<u8>, off: int, d: Seq<u8>) -> Seq<u8> {
    Seq::new(
        s.len(),
        |j: int|
            if off <= j < off + d.len() {
                d[j - off]
            } else {
                s[j]
            },
    )
}

/// Ordering of queue entries: earliest deadline first, ties broken by
/// ascending block index.
pub open spec fn entry_le(d1: u64, b1: u64, d2: u64, b2: u64) -> bool {
    d1 < d2 || (d1 == d2 && b1 <= b2)
}

} // verus!
