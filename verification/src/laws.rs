//! The laws the engine and facade are built to keep, stated over the same
//! byte-level model the contracts use and proved once and for all.

use vstd::prelude::*;
use crate::backing::LikeFile;
use crate::engine::WritebackThread;
use crate::model::{splice, write_seq};

verus! {

/// A block index is in the dirty cache exactly when exactly one entry for
/// it is in the delay queue: the payload and deadline maps of a
/// well-formed engine have the same domain (and each map, being a map,
/// holds at most one entry per block).
pub proof fn lemma_cache_queue_agree<F: LikeFile>(w: &WritebackThread<F>)
    requires
        w.wf(),
    ensures
        forall|b: u64|
            #![trigger w.payloads().contains_key(b)]
            #![trigger w.deadlines().contains_key(b)]
            w.payloads().contains_key(b) <==> w.deadlines().contains_key(b),
{
}

/// The induction step of the capacity bound `0 <= |cache| <= M`: a
/// `writeblock` ensures the new dirty count is no more than the old one or
/// no more than `maxblocks`, so a count once within the bound stays within
/// it over any sequence of calls.
pub proof fn lemma_capacity_preserved(count0: int, count1: int, maxblocks: int)
    requires
        0 <= count0 <= maxblocks,
        count1 <= count0 || count1 <= maxblocks,
        0 <= count1,
    ensures
        0 <= count1 <= maxblocks,
{
}

/// Read-your-writes: a facade write splices the written bytes `cut` into
/// the block payload at the cursor's position, and a read of the same
/// range serves a subrange of that payload — which is exactly `cut`.
pub proof fn lemma_read_your_writes(p: Seq<u8>, pos: int, cut: Seq<u8>)
    requires
        0 <= pos,
        pos + cut.len() <= p.len(),
    ensures
        splice(p, pos, cut).subrange(pos, pos + cut.len()) == cut,
{
    assert(splice(p, pos, cut).subrange(pos, pos + cut.len()) =~= cut);
}

/// Read-modify-write correctness: a partial-block write leaves every byte
/// of the block outside the written range exactly as the read-through saw
/// it.
pub proof fn lemma_partial_write_preserves_rest(p: Seq<u8>, pos: int, cut: Seq<u8>, j: int)
    requires
        0 <= pos,
        pos + cut.len() <= p.len(),
        0 <= j < p.len(),
        !(pos <= j < pos + cut.len()),
    ensures
        splice(p, pos, cut)[j] == p[j],
{
}

/// Every commit writes exactly one block: committing payload `p` at
/// offset `off` makes the store's range `off..off + |p|` equal `p`, leaves
/// every other existing byte unchanged, and extends the store no further
/// than the end of the written range.
pub proof fn lemma_commit_places_block(s: Seq<u8>, off: int, p: Seq<u8>)
    requires
        0 <= off,
    ensures
        write_seq(s, off, p).len() == vstd::math::max(s.len() as int, off + p.len()),
        write_seq(s, off, p).subrange(off, off + p.len()) == p,
        forall|j: int|
            0 <= j < s.len() && !(off <= j < off + p.len()) ==> write_seq(s, off, p)[j] == s[j],
{
    assert(write_seq(s, off, p).subrange(off, off + p.len()) =~= p);
}

/// Eventual propagation in general, overwrites included. A dirty block's
/// deadline is sampled once, at its first touch at `t_first`, and lies
/// within `t_first + maxdelay`; every later overwrite replaces the payload
/// and keeps that deadline. So in the engine state `w` that a drain at
/// `now` sees — where `w.payloads()[b]` is the payload of the *last*
/// write — the block is due whenever `now` is at least `maxdelay` past
/// the last write (indeed past the first), and the drain's own clause,
/// quoted here as the premise over `post_store`, then places exactly the
/// last payload at the block's offset in the backing store.
pub proof fn lemma_eventual_propagation_general<F: LikeFile>(
    w: WritebackThread<F>,
    post_store: Seq<u8>,
    b: u64,
    t_first: u64,
    t_last: u64,
    maxdelay_ns: u64,
    now_ns: u64,
)
    requires
        w.payloads().contains_key(b),
        w.deadlines()[b] <= t_first + maxdelay_ns,
        t_first <= t_last,
        t_last + maxdelay_ns <= now_ns,
        forall|b2: u64| #[trigger]
            w.due(now_ns, b2) ==> (b2 + 1) * w.bs() <= post_store.len()
                && post_store.subrange(b2 * w.bs(), (b2 + 1) * w.bs()) == w.payloads()[b2],
    ensures
        w.due(now_ns, b),
        (b + 1) * w.bs() <= post_store.len(),
        post_store.subrange(b * w.bs(), (b + 1) * w.bs()) == w.payloads()[b],
{
    assert(w.due(now_ns, b));
}

/// Eventual propagation: once a drain has committed a block whose payload
/// was the read-through contents with `cut` spliced in at `pos`, a direct
/// read of the backing store at the written range — block offset plus
/// `pos` — yields exactly the bytes that were written.
pub proof fn lemma_eventual_propagation(
    store1: Seq<u8>,
    off: int,
    bv: Seq<u8>,
    pos: int,
    cut: Seq<u8>,
)
    requires
        0 <= off,
        0 <= pos,
        pos + cut.len() <= bv.len(),
        off + bv.len() <= store1.len(),
        store1.subrange(off, off + bv.len()) == splice(bv, pos, cut),
    ensures
        store1.subrange(off + pos, off + pos + cut.len()) == cut,
{
    let blk = store1.subrange(off, off + bv.len());
    assert forall|k: int| 0 <= k < cut.len() implies #[trigger] store1.subrange(
        off + pos,
        off + pos + cut.len(),
    )[k] == cut[k] by {
        assert(store1[off + pos + k] == blk[pos + k]);
    }
    assert(store1.subrange(off + pos, off + pos + cut.len()) =~= cut);
}

} // verus!
