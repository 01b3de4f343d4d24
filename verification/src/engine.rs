//! The writeback engine: the dirty-block state, the backing store, and the
//! commit step that moves one due block from the first to the second.
//!
//! The engine is sequential and fully verified; waiting itself (condition
//! variables, a worker thread) is wiring that a caller puts around it. One
//! `run_step` call makes exactly the decision the worker loop needs: stop,
//! sleep indefinitely, sleep until the earliest deadline, or commit the one
//! due block that is first in `(deadline, block)` order.

use vstd::prelude::*;
use crate::backing::{copy_range, LikeFile};
use crate::cache::CacheState;
use crate::model::{entry_le, write_seq};

verus! {

/// Relies on rand::random_range over `min_ns..=max_ns`: a draw from the
/// inclusive range at nanosecond resolution, uniform up to the negligible
/// bias of rand's single-draw sampler. It panics only on an empty range,
/// which the precondition rules out; the thread-local generator can still
/// abort at its first use if the operating system yields no entropy, a
/// failure no precondition can exclude.
#[verifier::external_body]
fn sample_delay_ns(min_ns: u64, max_ns: u64) -> (r: u64)
    requires
        min_ns <= max_ns,
    ensures
        min_ns <= r <= max_ns,
{
    rand::random_range(min_ns..=max_ns)
}

/// What one turn of the engine decided.
#[derive(Debug, PartialEq, Eq)]
pub enum RunStep {
    /// The stop request was observed; nothing further is committed.
    Stopped,
    /// Nothing is pending: wait for attention with no timeout.
    Idle,
    /// The earliest deadline lies ahead: wait for attention until then.
    WaitUntil(u64),
    /// The named block was due and was committed to the backing store.
    Committed(u64),
}

/// The delayed, out-of-order write-back engine over a backing store `F`.
pub struct WritebackThread<F: LikeFile> {
    /// dirty cache and delay queue
    pub s: CacheState,
    /// the backing store; the engine is its only writer
    pub f: F,
    /// bytes per block
    pub blocksize: usize,
    /// set by `stop`; the engine abandons what is still cached
    pub please_stop: bool,
}

impl<F: LikeFile> WritebackThread<F> {
    /// The bytes of the backing store.
    pub open spec fn store(&self) -> Seq<u8> {
        self.f.contents()
    }

    /// Pending payloads by block index.
    pub open spec fn payloads(&self) -> Map<u64, Seq<u8>> {
        self.s.payloads()
    }

    /// Scheduled deadlines by block index.
    pub open spec fn deadlines(&self) -> Map<u64, u64> {
        self.s.deadlines()
    }

    /// The block size as a mathematical integer.
    pub open spec fn bs(&self) -> int {
        self.blocksize as int
    }

    /// Whether `stop` has been requested.
    pub open spec fn stopped(&self) -> bool {
        self.please_stop
    }

    /// How many blocks are dirty.
    pub open spec fn dirty_count(&self) -> int {
        self.s.cache@.len() as int
    }

    /// The engine's invariant: the cache/queue biconditional holds, every
    /// payload is exactly one block long, every cached block's byte range
    /// is addressable, and the store itself stays addressable.
    pub open spec fn wf(&self) -> bool {
        &&& self.s.wf()
        &&& self.blocksize >= 1
        &&& self.store().len() <= usize::MAX
        &&& forall|b: u64|
            #[trigger] self.payloads().contains_key(b) ==> self.payloads()[b].len() == self.bs()
                && (b + 1) * self.bs() <= usize::MAX
    }

    /// Block `b` is dirty and its deadline has passed at `now_ns`.
    pub open spec fn due(&self, now_ns: u64, b: u64) -> bool {
        self.payloads().contains_key(b) && self.deadlines()[b] <= now_ns
    }

    /// Byte position `j` lies inside some block that is due at `now_ns`.
    pub open spec fn due_covers(&self, now_ns: u64, j: int) -> bool {
        exists|b: u64| #[trigger] self.due(now_ns, b) && b * self.bs() <= j < (b + 1) * self.bs()
    }

    /// Some scheduled entry with deadline `d` is first in
    /// `(deadline, block)` order.
    pub open spec fn has_first(&self, d: u64) -> bool {
        exists|b: u64| #[trigger] self.first_due(b, d)
    }

    /// Entry `(b, d)` is scheduled and is first in `(deadline, block)`
    /// order among everything scheduled.
    pub open spec fn first_due(&self, b: u64, d: u64) -> bool {
        &&& self.deadlines().contains_key(b)
        &&& self.deadlines()[b] == d
        &&& forall|b2: u64| #[trigger]
            self.deadlines().contains_key(b2) ==> entry_le(d, b, self.deadlines()[b2], b2)
    }

    /// The full contents of block `bi` as a client sees it: the pending
    /// payload if the block is dirty, else the store bytes, zero-extended
    /// past the end of the store.
    pub open spec fn block_view(&self, bi: u64) -> Seq<u8> {
        if self.payloads().contains_key(bi) {
            self.payloads()[bi]
        } else {
            Seq::new(
                self.bs() as nat,
                |k: int|
                    if bi * self.bs() + k < self.store().len() {
                        self.store()[bi * self.bs() + k]
                    } else {
                        0u8
                    },
            )
        }
    }

    /// The byte a client of the facade sees at position `j`: the pending
    /// payload's byte where `j`'s block is dirty, else the store byte,
    /// else a zero of the extension a dirty block past the end implies.
    pub open spec fn virt_byte(&self, j: int) -> u8 {
        let b = (j / self.bs()) as u64;
        if self.payloads().contains_key(b) {
            self.payloads()[b][j % self.bs()]
        } else if j < self.store().len() {
            self.store()[j]
        } else {
            0u8
        }
    }

    /// Position `j` can be served by a read: its block is dirty, or it
    /// lies inside the backing store. A read stops exactly at the first
    /// position that is neither.
    pub open spec fn readable(&self, j: int) -> bool {
        self.payloads().contains_key((j / self.bs()) as u64) || j < self.store().len()
    }

    /// `bytes` is exactly what a read that started at position `start`
    /// returns: byte `k` is the overlay byte at `start + k`, and every
    /// position covered was readable.
    pub open spec fn reads_from(&self, start: int, bytes: Seq<u8>) -> bool {
        forall|k: int|
            0 <= k < bytes.len() ==> (#[trigger] bytes[k]) == self.virt_byte(start + k)
                && self.readable(start + k)
    }

    /// What `reads_from` says of one returned byte: byte `k` is the
    /// overlay byte at `start + k`, at a readable position.
    pub proof fn lemma_reads_from_at(self, start: int, bytes: Seq<u8>, k: int)
        requires
            self.reads_from(start, bytes),
            0 <= k < bytes.len(),
        ensures
            bytes[k] == self.virt_byte(start + k),
            self.readable(start + k),
    {
        assert((#[trigger] bytes[k]) == self.virt_byte(start + k) && self.readable(start + k));
    }

    /// The virtual file a client of the facade reads: dirty blocks
    /// overlaid on the store, at the store's length; byte `j` is
    /// `virt_byte(j)`.
    pub open spec fn virt(&self) -> Seq<u8> {
        Seq::new(
            self.store().len(),
            |j: int|
                {
                    let b = (j / self.bs()) as u64;
                    if self.payloads().contains_key(b) {
                        self.payloads()[b][j % self.bs()]
                    } else {
                        self.store()[j]
                    }
                },
        )
    }

    /// Start an engine over `file`, with nothing dirty and nothing
    /// scheduled.
    pub fn new(file: F, blocksize: usize) -> (r: WritebackThread<F>)
        requires
            blocksize >= 1,
            file.contents().len() <= usize::MAX,
        ensures
            r.wf(),
            r.store() == file.contents(),
            r.payloads() == Map::<u64, Seq<u8>>::empty(),
            r.deadlines() == Map::<u64, u64>::empty(),
            r.dirty_count() == 0,
            !r.stopped(),
            r.bs() == blocksize,
    {
        WritebackThread { s: CacheState::empty(), f: file, blocksize, please_stop: false }
    }

    /// Give the backing store back to the caller; whatever is still dirty
    /// is dropped, as a sudden power loss would drop it.
    pub fn into_file(self) -> (r: F)
        ensures
            r.contents() == self.store(),
    {
        self.f
    }

    /// Point query: is block `bi` dirty?
    pub fn checkblock(&self, bi: u64) -> (r: bool)
        ensures
            r == self.payloads().contains_key(bi),
    {
        self.s.has(bi)
    }

    /// Observe the pending payload of block `bi`: a copy of the cached
    /// bytes, never the cached buffer itself.
    pub fn useblock(&self, bi: u64) -> (r: Option<Vec<u8>>)
        requires
            self.wf(),
        ensures
            match r {
                Some(p) => self.payloads().contains_key(bi) && p@ == self.payloads()[bi],
                None => !self.payloads().contains_key(bi),
            },
    {
        match self.s.get(bi) {
            Some(p) => {
                let n = p.len();
                let c = copy_range(p, 0, n);
                proof {
                    assert(c@ =~= self.payloads()[bi]);
                }
                Some(c)
            },
            None => None,
        }
    }

    /// The current dirty count.
    pub fn size(&self) -> (r: usize)
        ensures
            r == self.dirty_count(),
    {
        self.s.len()
    }

    /// The earliest scheduled deadline, if anything is pending.
    pub fn peek_deadline(&self) -> (r: Option<u64>)
        requires
            self.wf(),
        ensures
            r matches Some(d) ==> self.has_first(d),
            r is None ==> self.dirty_count() == 0,
    {
        match self.s.peek_min() {
            Some(e) => {
                proof {
                    assert(self.first_due(e.0, e.1));
                    assert(self.has_first(e.1));
                }
                Some(e.1)
            },
            None => {
                proof {
                    assert(self.s.cache@.len() == 0) by {
                        if self.s.cache@.len() > 0 {
                            assert((self.s.centries()[0]).0 == self.s.cache@[0].0);
                            crate::alist::lemma_alist_map_dom(self.s.centries());
                            crate::alist::lemma_alist_map_dom(self.s.queue@);
                            assert(self.payloads().contains_key(self.s.cache@[0].0));
                        }
                    }
                }
                None
            },
        }
    }

    /// Buffer a whole-block write. A block already dirty has its payload
    /// replaced and keeps its first-touch deadline; a fresh block is
    /// admitted only below the `maxblocks` capacity — `false` means the
    /// caller must wait for a writeback to complete and try again — and is
    /// scheduled at `now_ns` plus an independent uniform draw from
    /// `[mindelay_ns, maxdelay_ns]`.
    pub fn writeblock(
        &mut self,
        bi: u64,
        data: Vec<u8>,
        maxblocks: usize,
        mindelay_ns: u64,
        maxdelay_ns: u64,
        now_ns: u64,
    ) -> (r: bool)
        requires
            old(self).wf(),
            data@.len() == old(self).bs(),
            (bi + 1) * old(self).bs() <= usize::MAX,
            mindelay_ns <= maxdelay_ns,
            now_ns + maxdelay_ns <= u64::MAX,
        ensures
            final(self).wf(),
            final(self).store() == old(self).store(),
            final(self).bs() == old(self).bs(),
            final(self).stopped() == old(self).stopped(),
            old(self).payloads().contains_key(bi) ==> {
                &&& r
                &&& final(self).payloads() == old(self).payloads().insert(bi, data@)
                &&& final(self).deadlines() == old(self).deadlines()
                &&& final(self).dirty_count() == old(self).dirty_count()
            },
            !old(self).payloads().contains_key(bi) && old(self).dirty_count() >= maxblocks ==> {
                &&& !r
                &&& *final(self) == *old(self)
            },
            !old(self).payloads().contains_key(bi) && old(self).dirty_count() < maxblocks ==> {
                &&& r
                &&& final(self).payloads() == old(self).payloads().insert(bi, data@)
                &&& final(self).deadlines() == old(self).deadlines().insert(
                    bi,
                    final(self).deadlines()[bi],
                )
                &&& now_ns + mindelay_ns <= final(self).deadlines()[bi] <= now_ns + maxdelay_ns
                &&& (mindelay_ns == maxdelay_ns ==> final(self).deadlines()[bi] == now_ns
                    + mindelay_ns)
                &&& final(self).dirty_count() == old(self).dirty_count() + 1
            },
            final(self).dirty_count() <= old(self).dirty_count() || final(self).dirty_count()
                <= maxblocks,
    {
        if self.s.has(bi) {
            self.s.replace_payload(bi, data);
            proof {
                assert forall|b: u64| #[trigger] self.payloads().contains_key(b) implies self
                    .payloads()[b].len() == self.bs() && (b + 1) * self.bs() <= usize::MAX by {
                    if b != bi {
                        assert(old(self).payloads().contains_key(b));
                    }
                }
            }
            return true;
        }
        if self.s.len() >= maxblocks {
            return false;
        }
        let delay = sample_delay_ns(mindelay_ns, maxdelay_ns);
        let deadline = now_ns + delay;
        self.s.insert_entry(bi, data, deadline);
        proof {
            assert forall|b: u64| #[trigger] self.payloads().contains_key(b) implies self
                .payloads()[b].len() == self.bs() && (b + 1) * self.bs() <= usize::MAX by {
                if b != bi {
                    assert(old(self).payloads().contains_key(b));
                }
            }
        }
        true
    }

    /// One turn of the engine: observe a stop request, or commit the one
    /// due block that is first in `(deadline, block)` order, or report how
    /// long to wait. A commit writes the block's exact payload — all
    /// `blocksize` bytes of it — at byte offset `block * blocksize` of the
    /// backing store.
    pub fn run_step(&mut self, now_ns: u64) -> (r: RunStep)
        requires
            old(self).wf(),
        ensures
            final(self).wf(),
            final(self).bs() == old(self).bs(),
            final(self).stopped() == old(self).stopped(),
            match r {
                RunStep::Stopped => old(self).stopped() && *final(self) == *old(self),
                RunStep::Idle => !old(self).stopped() && *final(self) == *old(self) && old(
                    self,
                ).dirty_count() == 0,
                RunStep::WaitUntil(d) => {
                    &&& !old(self).stopped()
                    &&& *final(self) == *old(self)
                    &&& d > now_ns
                    &&& exists|b: u64| #[trigger] old(self).first_due(b, d)
                },
                RunStep::Committed(b) => {
                    &&& !old(self).stopped()
                    &&& old(self).first_due(b, old(self).deadlines()[b])
                    &&& old(self).deadlines()[b] <= now_ns
                    &&& final(self).payloads() == old(self).payloads().remove(b)
                    &&& final(self).deadlines() == old(self).deadlines().remove(b)
                    &&& final(self).store() == write_seq(
                        old(self).store(),
                        b * old(self).bs(),
                        old(self).payloads()[b],
                    )
                    &&& final(self).dirty_count() == old(self).dirty_count() - 1
                },
            },
    {
        if self.please_stop {
            return RunStep::Stopped;
        }
        match self.s.peek_min() {
            None => {
                proof {
                    assert(self.s.cache@.len() == 0) by {
                        if self.s.cache@.len() > 0 {
                            assert((self.s.centries()[0]).0 == self.s.cache@[0].0);
                            crate::alist::lemma_alist_map_dom(self.s.centries());
                            crate::alist::lemma_alist_map_dom(self.s.queue@);
                            assert(self.deadlines().contains_key(self.s.cache@[0].0));
                        }
                    }
                }
                RunStep::Idle
            },
            Some((b, d)) => {
                if d <= now_ns {
                    let ghost pre = *self;
                    let p = self.s.remove_entry(b);
                    proof {
                        assert(pre.payloads().contains_key(b));
                        assert((b + 1) * pre.bs() <= usize::MAX);
                        assert((b + 1) * pre.bs() == b * pre.bs() + pre.bs()) by (nonlinear_arith);
                        assert(b * pre.bs() >= 0) by (nonlinear_arith)
                            requires
                                pre.bs() >= 0,
                                b >= 0,
                        ;
                        assert(b * pre.bs() <= usize::MAX);
                        assert(usize::MAX <= u64::MAX);
                        assert(b * pre.bs() == b * (pre.blocksize as u64));
                    }
                    let off = b * (self.blocksize as u64);
                    self.f.write_at(off, p.as_slice());
                    proof {
                        assert forall|b2: u64| #[trigger]
                            self.payloads().contains_key(b2) implies self.payloads()[b2].len()
                            == self.bs() && (b2 + 1) * self.bs() <= usize::MAX by {
                            assert(pre.payloads().contains_key(b2));
                        }
                        assert(self.store().len() <= usize::MAX);
                    }
                    RunStep::Committed(b)
                } else {
                    proof {
                        assert(self.first_due(b, d));
                    }
                    RunStep::WaitUntil(d)
                }
            },
        }
    }

    /// Run the engine's loop with the clock standing at `now_ns`: commit
    /// due blocks, earliest-first, until nothing due is left. Afterwards
    /// exactly the not-yet-due blocks are still dirty, each with its
    /// payload and deadline untouched; every block that was due sits
    /// committed at its own offset in the backing store; and every backing
    /// byte no due block covers keeps its old value (or is a zero of the
    /// extension a commit past the old end produced).
    pub fn run_until(&mut self, now_ns: u64)
        requires
            old(self).wf(),
        ensures
            final(self).wf(),
            final(self).bs() == old(self).bs(),
            final(self).stopped() == old(self).stopped(),
            old(self).stopped() ==> *final(self) == *old(self),
            !old(self).stopped() ==> {
                &&& forall|b: u64|
                    #![trigger final(self).payloads().contains_key(b)]
                    #![trigger old(self).payloads().contains_key(b)]
                    final(self).payloads().contains_key(b) <==> (
                    old(self).payloads().contains_key(b) && old(self).deadlines()[b] > now_ns)
                &&& forall|b: u64| #[trigger] final(self).payloads().contains_key(b)
                    ==> final(self).payloads()[b] == old(self).payloads()[b]
                        && final(self).deadlines().contains_key(b)
                        && final(self).deadlines()[b] == old(self).deadlines()[b]
                &&& forall|b: u64| #[trigger] old(self).due(now_ns, b)
                    ==> (b + 1) * old(self).bs() <= final(self).store().len()
                        && final(self).store().subrange(
                            b * old(self).bs(), (b + 1) * old(self).bs())
                            == old(self).payloads()[b]
                &&& forall|j: int|
                    0 <= j < old(self).store().len() && !old(self).due_covers(now_ns, j)
                        ==> final(self).store()[j] == old(self).store()[j]
                &&& forall|j: int|
                    old(self).store().len() <= j < final(self).store().len()
                        && !old(self).due_covers(now_ns, j) ==> final(self).store()[j] == 0u8
                &&& final(self).store().len() >= old(self).store().len()
                &&& (final(self).store().len() == old(self).store().len() || exists|b: u64|
                    #[trigger] old(self).due(now_ns, b) && final(self).store().len() == (b + 1)
                        * old(self).bs())
            },
    {
        if self.please_stop {
            return ;
        }
        let ghost w0 = *self;
        let mut done = false;
        while !done
            invariant
                self.wf(),
                w0.wf(),
                !w0.stopped(),
                self.blocksize == w0.blocksize,
                self.please_stop == w0.please_stop,
                forall|b: u64| #[trigger]
                    self.payloads().contains_key(b) ==> w0.payloads().contains_key(b)
                        && self.payloads()[b] == w0.payloads()[b]
                        && self.deadlines().contains_key(b) && w0.deadlines().contains_key(b)
                        && self.deadlines()[b] == w0.deadlines()[b],
                forall|b: u64| #[trigger]
                    w0.payloads().contains_key(b) && w0.deadlines()[b] > now_ns
                        ==> self.payloads().contains_key(b),
                forall|b: u64| #[trigger]
                    w0.payloads().contains_key(b) && !self.payloads().contains_key(b) ==> w0.due(
                        now_ns,
                        b,
                    ) && (b + 1) * w0.bs() <= self.store().len() && self.store().subrange(
                        b * w0.bs(),
                        (b + 1) * w0.bs(),
                    ) == w0.payloads()[b],
                forall|j: int|
                    0 <= j < w0.store().len() && !w0.due_covers(now_ns, j) ==> self.store()[j]
                        == w0.store()[j],
                forall|j: int|
                    w0.store().len() <= j < self.store().len() && !w0.due_covers(now_ns, j)
                        ==> self.store()[j] == 0u8,
                self.store().len() >= w0.store().len(),
                self.store().len() == w0.store().len() || exists|b: u64|
                    #[trigger] w0.due(now_ns, b) && self.store().len() == (b + 1) * w0.bs(),
                done ==> forall|b: u64| #[trigger]
                    self.payloads().contains_key(b) ==> self.deadlines()[b] > now_ns,
            decreases (if done {
                0int
            } else {
                1int
            }), self.s.cache@.len(),
        {
            let ghost prev = *self;
            match self.run_step(now_ns) {
                RunStep::Stopped => {
                    proof {
                        assert(false);
                    }
                    done = true;
                },
                RunStep::Idle => {
                    done = true;
                    proof {
                        assert(self.s.centries().len() == 0);
                        assert(self.payloads() == Map::<u64, Seq<u8>>::empty());
                    }
                },
                RunStep::WaitUntil(d) => {
                    done = true;
                    proof {
                        let bw = choose|bw: u64| #[trigger] prev.first_due(bw, d);
                        assert forall|b2: u64| #[trigger]
                            self.payloads().contains_key(b2) implies self.deadlines()[b2]
                            > now_ns by {
                            assert(self.deadlines().contains_key(b2));
                            assert(entry_le(d, bw, self.deadlines()[b2], b2));
                        }
                    }
                },
                RunStep::Committed(b) => {
                    proof {
                        let bs = w0.bs();
                        let off = b * bs;
                        assert(prev.deadlines().contains_key(b));
                        assert(prev.payloads().contains_key(b));
                        let pl = prev.payloads()[b];
                        assert(w0.payloads().contains_key(b));
                        assert(pl == w0.payloads()[b]);
                        assert(pl.len() == bs);
                        assert(prev.deadlines()[b] <= now_ns);
                        assert(w0.deadlines()[b] <= now_ns);
                        assert(w0.due(now_ns, b));
                        assert((b + 1) * bs == b * bs + bs) by (nonlinear_arith);
                        assert(self.store() == write_seq(prev.store(), off, pl));
                        assert(self.store().len() == vstd::math::max(
                            prev.store().len() as int,
                            off + bs,
                        ));
                        assert forall|j: int| off <= j < off + bs implies w0.due_covers(
                            now_ns,
                            j,
                        ) by {
                            assert(w0.due(now_ns, b));
                        }
                        assert forall|b2: u64| #[trigger]
                            w0.payloads().contains_key(b2)
                                && !self.payloads().contains_key(b2) implies w0.due(now_ns, b2) && (
                        b2 + 1) * bs <= self.store().len() && self.store().subrange(
                            b2 * bs,
                            (b2 + 1) * bs,
                        ) == w0.payloads()[b2] by {
                            assert((b2 + 1) * bs == b2 * bs + bs) by (nonlinear_arith);
                            if b2 == b {
                                assert(self.store().subrange(b2 * bs, (b2 + 1) * bs) =~= pl);
                            } else {
                                assert(!prev.payloads().contains_key(b2));
                                if b2 < b {
                                    assert((b2 + 1) * bs <= b * bs) by (nonlinear_arith)
                                        requires
                                            b2 + 1 <= b,
                                            bs >= 0,
                                    ;
                                } else {
                                    assert((b + 1) * bs <= b2 * bs) by (nonlinear_arith)
                                        requires
                                            b + 1 <= b2,
                                            bs >= 0,
                                    ;
                                }
                                assert(self.store().subrange(b2 * bs, (b2 + 1) * bs)
                                    =~= prev.store().subrange(b2 * bs, (b2 + 1) * bs));
                            }
                        }
                        assert forall|j: int|
                            0 <= j < w0.store().len() && !w0.due_covers(now_ns, j) implies self
                            .store()[j] == w0.store()[j] by {
                            if off <= j < off + bs {
                                assert(w0.due_covers(now_ns, j));
                            } else {
                                assert(w0.store().len() <= prev.store().len());
                                assert(self.store()[j] == prev.store()[j]);
                            }
                        }
                        assert forall|j: int|
                            w0.store().len() <= j < self.store().len() && !w0.due_covers(
                                now_ns,
                                j,
                            ) implies self.store()[j] == 0u8 by {
                            if off <= j < off + bs {
                                assert(w0.due_covers(now_ns, j));
                            } else if j < prev.store().len() {
                                assert(self.store()[j] == prev.store()[j]);
                            } else {
                                assert(self.store()[j] == 0u8);
                            }
                        }
                        if self.store().len() != w0.store().len() {
                            if self.store().len() == prev.store().len() {
                                let b3 = choose|b3: u64|
                                    #[trigger] w0.due(now_ns, b3) && prev.store().len() == (b3 + 1)
                                        * w0.bs();
                                assert(w0.due(now_ns, b3) && self.store().len() == (b3 + 1)
                                    * w0.bs());
                            } else {
                                assert(self.store().len() == off + bs);
                                assert(w0.due(now_ns, b) && self.store().len() == (b + 1)
                                    * w0.bs());
                            }
                        }
                    }
                },
            }
        }
    }

    /// Request the engine to stop and report how many dirty blocks are
    /// abandoned — the blocks intentionally lost, as a surprise power loss
    /// would lose them.
    pub fn stop(&mut self) -> (r: usize)
        ensures
            final(self).stopped(),
            r == old(self).dirty_count(),
            final(self).s == old(self).s,
            final(self).f == old(self).f,
            final(self).bs() == old(self).bs(),
            old(self).wf() ==> final(self).wf(),
    {
        self.please_stop = true;
        let r = self.s.len();
        proof {
            if old(self).wf() {
                assert forall|b: u64| #[trigger] self.payloads().contains_key(b) implies self
                    .payloads()[b].len() == self.bs() && (b + 1) * self.bs() <= usize::MAX by {
                    assert(old(self).payloads().contains_key(b));
                }
            }
        }
        r
    }
}

} // verus!
