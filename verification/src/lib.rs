//! A block-mirroring engine that deliberately delays and reorders writes.
//!
//! Writes applied through the block-aligned facade are buffered in a dirty
//! block cache and committed to the backing store at randomized deadlines,
//! so that the backing bytes after a sudden stop look like the aftermath of
//! a power loss: some later writes visible, some earlier ones missing.

use vstd::prelude::*;

pub mod alist;
pub mod backing;
pub mod cache;
pub mod engine;
pub mod facade;
pub mod laws;
pub mod model;

verus! {

/// Number of blocks needed to cover a store of `len` bytes at block size `bs`
/// (the ceiling of `len / bs`).
pub fn block_count(len: u64, bs: u64) -> (r: u64)
    requires
        len >= 1,
        bs >= 1,
    ensures
        r == (len - 1) as int / bs as int + 1,
        r * bs >= len,
        (r - 1) * bs < len,
{
    let r = (len - 1) / bs + 1;
    proof {
        let l: int = len - 1;
        let b: int = bs as int;
        vstd::arithmetic::div_mod::lemma_fundamental_div_mod(l, b);
        vstd::arithmetic::div_mod::lemma_mod_bound(l, b);
        assert(r * bs == (l / b) * b + b) by (nonlinear_arith)
            requires
                r == l / b + 1,
                b == bs,
        ;
        assert((r - 1) * bs == (l / b) * b) by (nonlinear_arith)
            requires
                r == l / b + 1,
                b == bs,
        ;
    }
    r
}

} // verus!
