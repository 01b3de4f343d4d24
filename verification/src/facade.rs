//! The block-aligned I/O facade: byte-addressable read, write and seek
//! over the engine, read-through and write-behind against the dirty cache
//! and the backing store.
//!
//! A single read or write call touches at most one block; callers loop for
//! larger transfers (`read_exact2` is that loop for reads). A write builds
//! a fresh block-sized buffer — read-modify-write for a partial block —
//! and buffers it in the cache with a freshly sampled deadline; the cache
//! overlay is what gives a client read-after-write consistency while the
//! backing store lags behind in random order.

use vstd::prelude::*;
use vstd::arithmetic::div_mod::{lemma_fundamental_div_mod, lemma_fundamental_div_mod_converse};
use crate::backing::{copy_range, LikeFile};
use crate::engine::WritebackThread;
use crate::model::splice;

verus! {

/// Where a seek counts from: an absolute offset, the current cursor, or
/// the end of the backing store.
#[derive(Clone, Copy, Debug, PartialEq, Eq)]
pub enum SeekFrom {
    Start(u64),
    Current(i64),
    End(i64),
}

/// One open handle onto the engine: a byte cursor plus this handle's
/// write-delay configuration. The engine itself is passed to each call, so
/// several handles can share one engine.
pub struct VirtualFile {
    /// byte offset into the virtual file; starts at 0
    pub cursor: u64,
    /// capacity bound M on the dirty cache
    pub maxdirtyblocks: usize,
    /// lower bound of the uniform flush delay, in nanoseconds
    pub mindelay_ns: u64,
    /// upper bound of the uniform flush delay, in nanoseconds
    pub maxdelay_ns: u64,
}

impl<F: LikeFile> WritebackThread<F> {
    /// A fresh handle at cursor 0 with the given capacity and delay
    /// bounds.
    pub fn get_virtual_file(
        &self,
        maxdirtyblocks: usize,
        mindelay_ns: u64,
        maxdelay_ns: u64,
    ) -> (r: VirtualFile)
        requires
            mindelay_ns <= maxdelay_ns,
        ensures
            r.cursor == 0,
            r.maxdirtyblocks == maxdirtyblocks,
            r.mindelay_ns == mindelay_ns,
            r.maxdelay_ns == maxdelay_ns,
    {
        VirtualFile { cursor: 0, maxdirtyblocks, mindelay_ns, maxdelay_ns }
    }
}

/// A block-sized buffer of zeroes.
fn zero_block(bs: usize) -> (r: Vec<u8>)
    ensures
        r@ == Seq::new(bs as nat, |i: int| 0u8),
{
    let mut v: Vec<u8> = Vec::new();
    while v.len() < bs
        invariant
            v@.len() <= bs,
            forall|k: int| 0 <= k < v@.len() ==> v@[k] == 0u8,
        decreases bs - v.len(),
    {
        v.push(0u8);
    }
    proof {
        assert(v@ =~= Seq::new(bs as nat, |i: int| 0u8));
    }
    v
}

/// Read-through of one whole block: the cached payload if the block is
/// dirty, else the store bytes, zero-extended to a full block.
fn read_block<F: LikeFile>(w: &mut WritebackThread<F>, bi: u64) -> (r: Vec<u8>)
    requires
        old(w).wf(),
        (bi + 1) * old(w).bs() <= usize::MAX,
    ensures
        final(w).wf(),
        final(w).payloads() == old(w).payloads(),
        final(w).deadlines() == old(w).deadlines(),
        final(w).store() == old(w).store(),
        final(w).bs() == old(w).bs(),
        final(w).stopped() == old(w).stopped(),
        final(w).dirty_count() == old(w).dirty_count(),
        r@ == old(w).block_view(bi),
        r@.len() == old(w).bs(),
{
    let bs = w.blocksize;
    let cached = match w.s.get(bi) {
        Some(p) => {
            let n = p.len();
            Some(copy_range(p, 0, n))
        },
        None => None,
    };
    match cached {
        Some(c) => {
            proof {
                assert(c@ =~= old(w).block_view(bi));
            }
            c
        },
        None => {
            proof {
                let bsg = old(w).bs();
                assert((bi + 1) * bsg == bi * bsg + bsg) by (nonlinear_arith);
                assert(bi * bsg >= 0) by (nonlinear_arith)
                    requires
                        bsg >= 0,
                        bi >= 0,
                ;
                assert(usize::MAX <= u64::MAX);
            }
            let off = bi * (bs as u64);
            let mut v = w.f.read_at(off, bs);
            let ghost v0 = v@;
            while v.len() < bs
                invariant
                    v0.len() <= v@.len(),
                    v@.len() <= bs || v@.len() == v0.len(),
                    forall|k: int| 0 <= k < v0.len() ==> v@[k] == v0[k],
                    forall|k: int| v0.len() <= k < v@.len() ==> v@[k] == 0u8,
                decreases bs - v.len(),
            {
                v.push(0u8);
            }
            proof {
                let bsg = old(w).bs();
                let offi = bi * bsg;
                let slen = old(w).store().len() as int;
                assert(v0.len() <= bsg);
                assert(v@.len() == bsg);
                assert forall|k: int| 0 <= k < bsg implies #[trigger] v@[k] == old(
                    w,
                ).block_view(bi)[k] by {
                    if k < v0.len() {
                        assert(v0[k] == old(w).store()[offi + k]);
                    } else {
                        assert(offi + k >= slen);
                    }
                }
                assert(v@ =~= old(w).block_view(bi));
            }
            v
        },
    }
}

/// Bytes that agree pointwise with the overlay, at readable positions,
/// are what a read from `c` returns.
proof fn lemma_reads_from<F: LikeFile>(w: WritebackThread<F>, c: int, r: Seq<u8>)
    requires
        forall|k: int|
            0 <= k < r.len() ==> (#[trigger] r[k]) == w.virt_byte(c + k) && w.readable(c + k),
    ensures
        w.reads_from(c, r),
{
}

/// Two consecutive reads concatenate: what was read from `c` followed by
/// what was read from `c + |a|` is one read from `c`.
proof fn lemma_reads_from_append<F: LikeFile>(w: WritebackThread<F>, c: int, a: Seq<u8>, b: Seq<
    u8,
>)
    requires
        w.reads_from(c, a),
        w.reads_from(c + a.len(), b),
    ensures
        w.reads_from(c, a + b),
{
    assert forall|k: int| 0 <= k < (a + b).len() implies (#[trigger] (a + b)[k]) == w.virt_byte(
        c + k,
    ) && w.readable(c + k) by {
        if k < a.len() {
            w.lemma_reads_from_at(c, a, k);
            assert((a + b)[k] == a[k]);
        } else {
            w.lemma_reads_from_at(c + a.len(), b, k - a.len());
            assert((a + b)[k] == b[k - a.len()]);
        }
    }
    lemma_reads_from(w, c, a + b);
}

/// What a read served from the dirty cache returns: a subrange of the
/// pending payload is the overlay at the cursor.
proof fn lemma_cached_read_bytes<F: LikeFile>(
    w: WritebackThread<F>,
    c: int,
    bi: u64,
    pos: int,
    m: int,
    r: Seq<u8>,
)
    requires
        w.payloads().contains_key(bi),
        c == bi * w.bs() + pos,
        0 <= pos,
        0 <= m,
        pos + m <= w.bs(),
        r == w.payloads()[bi].subrange(pos, pos + m),
        pos + m <= w.payloads()[bi].len(),
    ensures
        w.reads_from(c, r),
{
    let bsi = w.bs();
    assert forall|k: int| 0 <= k < r.len() implies (#[trigger] r[k]) == w.virt_byte(c + k)
        && w.readable(c + k) by {
        lemma_fundamental_div_mod_converse(c + k, bsi, bi as int, pos + k);
        assert(((c + k) / bsi) as u64 == bi);
        assert(r[k] == w.payloads()[bi][pos + k]);
    }
    lemma_reads_from(w, c, r);
}

/// What a read-through of a clean block returns: the store bytes at the
/// cursor are the overlay there, and such a read comes up short exactly
/// at the end of the store, still inside the same clean block.
proof fn lemma_plain_read_bytes<F: LikeFile>(
    w: WritebackThread<F>,
    c: int,
    bi: u64,
    pos: int,
    m: int,
    r: Seq<u8>,
)
    requires
        w.bs() >= 1,
        !w.payloads().contains_key(bi),
        c == bi * w.bs() + pos,
        0 <= pos,
        0 <= m,
        pos + m <= w.bs(),
        r == crate::model::read_seq(w.store(), c, m),
    ensures
        w.reads_from(c, r),
        r.len() < m ==> !w.readable(c + r.len()),
{
    let bsi = w.bs();
    let slen = w.store().len() as int;
    assert forall|k: int| 0 <= k < r.len() implies (#[trigger] r[k]) == w.virt_byte(c + k)
        && w.readable(c + k) by {
        assert(c <= slen);
        assert(r[k] == w.store()[c + k]);
        assert(c + k < slen);
        lemma_fundamental_div_mod_converse(c + k, bsi, bi as int, pos + k);
        assert(((c + k) / bsi) as u64 == bi);
    }
    lemma_reads_from(w, c, r);
    if r.len() < m {
        let p = c + r.len();
        assert(p >= slen);
        assert(bi * bsi <= p < bi * bsi + bsi);
        lemma_fundamental_div_mod_converse(p, bsi, bi as int, p - bi * bsi);
        assert((p / bsi) as u64 == bi);
        assert(!w.readable(p));
    }
}

/// `reads_from` depends only on the cache, the store and the block size:
/// it carries over between engine states whose views agree.
proof fn lemma_reads_from_same_views<F: LikeFile>(
    w1: WritebackThread<F>,
    w2: WritebackThread<F>,
    c: int,
    r: Seq<u8>,
)
    requires
        w1.reads_from(c, r),
        w1.payloads() == w2.payloads(),
        w1.store() == w2.store(),
        w1.bs() == w2.bs(),
    ensures
        w2.reads_from(c, r),
{
    assert forall|k: int| 0 <= k < r.len() implies (#[trigger] r[k]) == w2.virt_byte(c + k)
        && w2.readable(c + k) by {
        w1.lemma_reads_from_at(c, r, k);
        assert(w1.virt_byte(c + k) == w2.virt_byte(c + k));
        assert(w1.readable(c + k) == w2.readable(c + k));
    }
    lemma_reads_from(w2, c, r);
}

impl VirtualFile {
    /// Read up to `n` bytes at the cursor, never crossing the end of the
    /// block the cursor stands in. A dirty block serves the pending
    /// payload; a clean one is read through to the backing store, short
    /// only at the end of the store. The cursor advances by what was read.
    #[verifier::rlimit(50)]
    pub fn read<F: LikeFile>(&mut self, w: &mut WritebackThread<F>, n: usize) -> (r: Vec<u8>)
        requires
            old(w).wf(),
            old(self).cursor + old(w).bs() <= u64::MAX,
        ensures
            final(w).wf(),
            final(w).payloads() == old(w).payloads(),
            final(w).deadlines() == old(w).deadlines(),
            final(w).store() == old(w).store(),
            final(w).bs() == old(w).bs(),
            final(w).stopped() == old(w).stopped(),
            final(w).dirty_count() == old(w).dirty_count(),
            final(self).maxdirtyblocks == old(self).maxdirtyblocks,
            final(self).mindelay_ns == old(self).mindelay_ns,
            final(self).maxdelay_ns == old(self).maxdelay_ns,
            ({
                let bs = old(w).bs();
                let c = old(self).cursor as int;
                let bi = (c / bs) as u64;
                let pos = c % bs;
                let m = vstd::math::min(n as int, bs - pos);
                &&& (old(w).payloads().contains_key(bi) ==> r@ == old(w).payloads()[bi].subrange(
                    pos,
                    pos + m,
                ) && final(self).cursor == old(self).cursor + m)
                &&& (!old(w).payloads().contains_key(bi) ==> r@ == crate::model::read_seq(
                    old(w).store(),
                    c,
                    m,
                ) && final(self).cursor == old(self).cursor + r@.len())
                &&& (c + m <= old(w).store().len() ==> r@ == old(w).virt().subrange(c, c + m)
                    && final(self).cursor == old(self).cursor + m)
                &&& r@.len() <= m
                &&& final(self).cursor == old(self).cursor + r@.len()
                &&& old(w).reads_from(c, r@)
                &&& (r@.len() < m ==> !old(w).readable(c + r@.len()))
            }),
    {
        let bs = w.blocksize;
        let cursor = self.cursor;
        let current_block = cursor / (bs as u64);
        let position_within_block = (cursor % (bs as u64)) as usize;
        let ghost c = cursor as int;
        let ghost bsi = old(w).bs();
        let ghost bi = current_block;
        let ghost pos = position_within_block as int;
        proof {
            lemma_fundamental_div_mod(c, bsi);
            vstd::arithmetic::div_mod::lemma_mod_bound(c, bsi);
            assert(bi == c / bsi);
            assert(pos == c % bsi);
            assert(bsi * (c / bsi) == bi * bsi) by (nonlinear_arith)
                requires
                    bi == c / bsi,
            ;
            assert(bi * bsi + pos == c);
        }
        let avail = bs - position_within_block;
        let m = if n > avail {
            avail
        } else {
            n
        };
        let ghost mi = m as int;
        let cached = match w.s.get(current_block) {
            Some(p) => {
                proof {
                    assert(old(w).payloads().contains_key(bi));
                    assert(old(w).payloads()[bi].len() == bsi);
                    assert(pos + mi <= p@.len());
                }
                Some(copy_range(p, position_within_block, position_within_block + m))
            },
            None => None,
        };
        match cached {
            Some(r) => {
                self.cursor = cursor + m as u64;
                proof {
                    if c + mi <= old(w).store().len() {
                        assert forall|k: int| 0 <= k < mi implies #[trigger] r@[k] == old(
                            w,
                        ).virt().subrange(c, c + mi)[k] by {
                            lemma_fundamental_div_mod_converse(c + k, bsi, bi as int, pos + k);
                        }
                        assert(r@ =~= old(w).virt().subrange(c, c + mi));
                    }
                    lemma_cached_read_bytes(*old(w), c, bi, pos, mi, r@);
                }
                r
            },
            None => {
                let r = w.f.read_at(cursor, m);
                let got = r.len();
                self.cursor = cursor + got as u64;
                proof {
                    let slen = old(w).store().len() as int;
                    if c + mi <= slen {
                        assert forall|k: int| 0 <= k < mi implies #[trigger] r@[k] == old(
                            w,
                        ).virt().subrange(c, c + mi)[k] by {
                            lemma_fundamental_div_mod_converse(c + k, bsi, bi as int, pos + k);
                        }
                        assert(r@ =~= old(w).virt().subrange(c, c + mi));
                    }
                    lemma_plain_read_bytes(*old(w), c, bi, pos, mi, r@);
                }
                r
            },
        }
    }

    /// Write up to `|data|` bytes at the cursor, never crossing the end of
    /// the block the cursor stands in. The block's new payload is its
    /// current read-through contents with the written bytes spliced in at
    /// the cursor's position, buffered in the cache: a block already dirty
    /// keeps its first-touch deadline, a fresh one is scheduled at
    /// `now_ns` plus a uniform draw from this handle's delay bounds —
    /// unless the cache is full, in which case nothing changes and `None`
    /// asks the caller to wait for a writeback and retry.
    pub fn write<F: LikeFile>(
        &mut self,
        w: &mut WritebackThread<F>,
        data: &[u8],
        now_ns: u64,
    ) -> (r: Option<usize>)
        requires
            old(w).wf(),
            old(self).mindelay_ns <= old(self).maxdelay_ns,
            now_ns + old(self).maxdelay_ns <= u64::MAX,
            old(self).cursor + old(w).bs() <= usize::MAX,
        ensures
            final(w).wf(),
            final(w).store() == old(w).store(),
            final(w).bs() == old(w).bs(),
            final(w).stopped() == old(w).stopped(),
            *final(self) == (VirtualFile { cursor: final(self).cursor, ..*old(self) }),
            ({
                let bs = old(w).bs();
                let c = old(self).cursor as int;
                let bi = (c / bs) as u64;
                let pos = c % bs;
                let m = vstd::math::min(data@.len() as int, bs - pos);
                let cut = data@.subrange(0, m);
                match r {
                    None => {
                        &&& !old(w).payloads().contains_key(bi)
                        &&& old(w).dirty_count() >= old(self).maxdirtyblocks
                        &&& final(self).cursor == old(self).cursor
                        &&& final(w).payloads() == old(w).payloads()
                        &&& final(w).deadlines() == old(w).deadlines()
                        &&& final(w).dirty_count() == old(w).dirty_count()
                    },
                    Some(written) => {
                        &&& written == m
                        &&& final(self).cursor == old(self).cursor + m
                        &&& final(w).payloads() == old(w).payloads().insert(
                            bi,
                            splice(old(w).block_view(bi), pos, cut),
                        )
                        &&& (old(w).payloads().contains_key(bi) ==> final(w).deadlines() == old(w).deadlines() && final(w).dirty_count() == old(w).dirty_count())
                        &&& (!old(w).payloads().contains_key(bi) ==> {
                            &&& old(w).dirty_count() < old(self).maxdirtyblocks
                            &&& final(w).dirty_count() == old(w).dirty_count() + 1
                            &&& final(w).deadlines() == old(w).deadlines().insert(
                                bi,
                                final(w).deadlines()[bi],
                            )
                            &&& now_ns + old(self).mindelay_ns <= final(w).deadlines()[bi]
                                <= now_ns + old(self).maxdelay_ns
                            &&& (old(self).mindelay_ns == old(self).maxdelay_ns ==> final(w).deadlines()[bi] == now_ns + old(self).mindelay_ns)
                        })
                        &&& ((bi + 1) * bs <= old(w).store().len() ==> final(w).virt() == splice(
                            old(w).virt(),
                            c,
                            cut,
                        ))
                    },
                }
            }),
    {
        let bs = w.blocksize;
        let cursor = self.cursor;
        let current_block = cursor / (bs as u64);
        let position_within_block = (cursor % (bs as u64)) as usize;
        let ghost c = cursor as int;
        let ghost bsi = old(w).bs();
        let ghost bi = current_block;
        let ghost pos = position_within_block as int;
        proof {
            lemma_fundamental_div_mod(c, bsi);
            vstd::arithmetic::div_mod::lemma_mod_bound(c, bsi);
            assert(bi == c / bsi);
            assert(pos == c % bsi);
            assert(bsi * (c / bsi) == bi * bsi) by (nonlinear_arith)
                requires
                    bi == c / bsi,
            ;
            assert(bi * bsi + pos == c);
            assert((bi + 1) * bsi == bi * bsi + bsi) by (nonlinear_arith);
            assert((bi + 1) * bsi <= usize::MAX);
        }
        let avail = bs - position_within_block;
        let dlen = data.len();
        let m = if dlen > avail {
            avail
        } else {
            dlen
        };
        let ghost mi = m as int;
        let ghost cut = data@.subrange(0, mi);
        let ghost bv = old(w).block_view(current_block);

        let mut block_to_be_written: Vec<u8>;
        if m < bs || position_within_block > 0 {
            block_to_be_written = read_block(w, current_block);
        } else {
            block_to_be_written = zero_block(bs);
        }
        let ghost base = block_to_be_written@;

        let mut k: usize = 0;
        while k < m
            invariant
                0 <= k <= m,
                m <= dlen,
                dlen == data@.len(),
                pos == position_within_block as int,
                pos + m <= bs,
                base.len() == bs,
                block_to_be_written@.len() == bs,
                forall|j: int|
                    0 <= j < bs && !(pos <= j < pos + k) ==> block_to_be_written@[j] == base[j],
                forall|j: int|
                    pos <= j < pos + k ==> block_to_be_written@[j] == data@[j - pos],
            decreases m - k,
        {
            let b = data[k];
            block_to_be_written[position_within_block + k] = b;
            k = k + 1;
        }
        proof {
            assert(block_to_be_written@ =~= splice(bv, pos, cut));
        }

        let ok = w.writeblock(
            current_block,
            block_to_be_written,
            self.maxdirtyblocks,
            self.mindelay_ns,
            self.maxdelay_ns,
            now_ns,
        );
        if ok {
            self.cursor = cursor + m as u64;
            proof {
                if (bi + 1) * bsi <= old(w).store().len() {
                    let vold = old(w).virt();
                    let vnew = w.virt();
                    let target = splice(vold, c, cut);
                    assert forall|j: int| 0 <= j < vnew.len() implies vnew[j] == target[j] by {
                        lemma_fundamental_div_mod(j, bsi);
                        vstd::arithmetic::div_mod::lemma_mod_bound(j, bsi);
                        let q = j / bsi;
                        assert(q <= bsi * q) by (nonlinear_arith)
                            requires
                                bsi >= 1,
                                q >= 0,
                        ;
                        assert(usize::MAX <= u64::MAX);
                        let bj = (j / bsi) as u64;
                        assert(bj == j / bsi);
                        if bj == bi {
                            assert(j % bsi == j - bi * bsi);
                            if c <= j < c + mi {
                                assert(vnew[j] == cut[j - c]);
                            } else {
                                if old(w).payloads().contains_key(bi) {
                                    assert(vnew[j] == bv[j - bi * bsi]);
                                    assert(vold[j] == bv[j - bi * bsi]);
                                } else {
                                    assert(vnew[j] == bv[j - bi * bsi]);
                                    assert(bv[j - bi * bsi] == old(w).store()[j]);
                                    assert(vold[j] == old(w).store()[j]);
                                }
                            }
                        } else {
                            assert(vnew[j] == vold[j]);
                            if c <= j < c + mi {
                                lemma_fundamental_div_mod_converse(j, bsi, bi as int, j - bi * bsi);
                                assert(false);
                            }
                        }
                    }
                    assert(vnew =~= target);
                }
            }
            Some(m)
        } else {
            None
        }
    }

    /// Deliberately a no-op: not honouring flushes is the point.
    pub fn flush(&mut self)
        ensures
            *final(self) == *old(self),
    {
    }

    /// Move the cursor: to an absolute offset, relative to the cursor, or
    /// relative to the end of the backing store. A target outside
    /// `[0, u64::MAX]` is refused and leaves the cursor where it was.
    pub fn seek<F: LikeFile>(&mut self, w: &WritebackThread<F>, pos: SeekFrom) -> (r: Option<u64>)
        requires
            w.wf(),
        ensures
            final(self).maxdirtyblocks == old(self).maxdirtyblocks,
            final(self).mindelay_ns == old(self).mindelay_ns,
            final(self).maxdelay_ns == old(self).maxdelay_ns,
            match pos {
                SeekFrom::Start(o) => r == Some(o) && final(self).cursor == o,
                SeekFrom::Current(d) => {
                    if 0 <= old(self).cursor + d <= u64::MAX {
                        r == Some((old(self).cursor + d) as u64) && final(self).cursor == old(self).cursor + d
                    } else {
                        r == None::<u64> && final(self).cursor == old(self).cursor
                    }
                },
                SeekFrom::End(d) => {
                    if 0 <= w.store().len() + d <= u64::MAX {
                        r == Some((w.store().len() + d) as u64) && final(self).cursor == w.store().len() + d
                    } else {
                        r == None::<u64> && final(self).cursor == old(self).cursor
                    }
                },
            },
    {
        match pos {
            SeekFrom::Start(o) => {
                self.cursor = o;
                Some(o)
            },
            SeekFrom::Current(d) => {
                let t: i128 = self.cursor as i128 + d as i128;
                if t >= 0 && t <= u64::MAX as i128 {
                    self.cursor = t as u64;
                    Some(self.cursor)
                } else {
                    None
                }
            },
            SeekFrom::End(d) => {
                let len = w.f.file_len();
                let t: i128 = len as i128 + d as i128;
                if t >= 0 && t <= u64::MAX as i128 {
                    self.cursor = t as u64;
                    Some(self.cursor)
                } else {
                    None
                }
            },
        }
    }

    /// Read exactly `n` bytes at the cursor by looping block-sized reads.
    /// Byte `k` of the result is the overlay byte at `cursor + k` — the
    /// dirty block's pending payload byte where that block is cached, else
    /// the store byte — and the cursor advances by what was read. The
    /// result is short only when the next unread position lies in a clean
    /// block at or past the end of the store.
    pub fn read_exact2<F: LikeFile>(&mut self, w: &mut WritebackThread<F>, n: usize) -> (r: Vec<
        u8,
    >)
        requires
            old(w).wf(),
            old(self).cursor + n + old(w).bs() <= u64::MAX,
        ensures
            final(w).wf(),
            final(w).payloads() == old(w).payloads(),
            final(w).deadlines() == old(w).deadlines(),
            final(w).store() == old(w).store(),
            final(w).bs() == old(w).bs(),
            final(w).stopped() == old(w).stopped(),
            final(w).dirty_count() == old(w).dirty_count(),
            final(self).maxdirtyblocks == old(self).maxdirtyblocks,
            final(self).mindelay_ns == old(self).mindelay_ns,
            final(self).maxdelay_ns == old(self).maxdelay_ns,
            r@.len() <= n,
            final(self).cursor == old(self).cursor + r@.len(),
            old(w).reads_from(old(self).cursor as int, r@),
            r@.len() < n ==> !old(w).readable(old(self).cursor + r@.len()),
            old(self).cursor + n <= old(w).store().len() ==> r@ == old(w).virt().subrange(
                old(self).cursor as int,
                old(self).cursor as int + n,
            ) && final(self).cursor == old(self).cursor + n,
    {
        let ghost c0 = old(self).cursor;
        let mut acc: Vec<u8> = Vec::new();
        let mut stuck = false;
        while !stuck && acc.len() < n
            invariant
                w.wf(),
                w.payloads() == old(w).payloads(),
                w.deadlines() == old(w).deadlines(),
                w.store() == old(w).store(),
                w.bs() == old(w).bs(),
                w.stopped() == old(w).stopped(),
                w.dirty_count() == old(w).dirty_count(),
                self.maxdirtyblocks == old(self).maxdirtyblocks,
                self.mindelay_ns == old(self).mindelay_ns,
                self.maxdelay_ns == old(self).maxdelay_ns,
                acc@.len() <= n,
                c0 + n + w.bs() <= u64::MAX,
                self.cursor == c0 + acc@.len(),
                old(w).reads_from(c0 as int, acc@),
                stuck ==> acc@.len() < n && !old(w).readable(c0 + acc@.len()),
            decreases (if stuck {
                0int
            } else {
                1int
            }), n - acc.len(),
        {
            let want = n - acc.len();
            let ghost cpre = self.cursor;
            let ghost wpre = *w;
            let ghost accpre = acc@;
            let mut chunk = self.read(w, want);
            proof {
                let bs = wpre.bs();
                let ci = cpre as int;
                let pos = ci % bs;
                let m = vstd::math::min(want as int, bs - pos);
                vstd::arithmetic::div_mod::lemma_mod_bound(ci, bs);
                assert(m >= 1);
                lemma_reads_from_same_views(wpre, *old(w), ci, chunk@);
            }
            if chunk.len() == 0 {
                stuck = true;
                proof {
                    assert(!wpre.readable(cpre as int));
                    assert(wpre.readable(cpre as int) == old(w).readable(cpre as int));
                    assert(!old(w).readable(c0 + acc@.len()));
                }
            } else {
                let ghost chunkpre = chunk@;
                acc.append(&mut chunk);
                proof {
                    assert(acc@ == accpre + chunkpre);
                    assert(cpre as int == c0 as int + accpre.len());
                    lemma_reads_from_append(*old(w), c0 as int, accpre, chunkpre);
                    assert(old(w).reads_from(c0 as int, acc@));
                }
            }
        }
        proof {
            let slen = old(w).store().len() as int;
            if c0 + n <= slen {
                assert(acc@.len() == n) by {
                    if acc@.len() < n {
                        assert(!old(w).readable(c0 + acc@.len()));
                        assert(c0 + acc@.len() < slen);
                    }
                }
                assert forall|k: int| 0 <= k < n implies (#[trigger] acc@[k]) == old(
                    w,
                ).virt().subrange(c0 as int, c0 as int + n)[k] by {
                    assert(acc@[k] == old(w).virt_byte(c0 as int + k));
                    assert(old(w).virt()[c0 + k] == old(w).virt_byte(c0 + k));
                }
                assert(acc@ =~= old(w).virt().subrange(c0 as int, c0 as int + n));
            }
        }
        acc
    }
}

} // verus!
