//! The dirty block cache and the delay queue.
//!
//! Logically one structure, physically two: `cache` maps a block index to
//! its pending payload, `queue` holds one `(block, deadline)` entry per
//! cached block. The well-formedness invariant `wf` is the biconditional
//! the design rests on: a block index is in the cache exactly when exactly
//! one entry for it is in the queue.

use vstd::prelude::*;
use crate::alist::{
    alist_distinct,
    alist_has,
    alist_map,
    lemma_alist_map_dom,
    lemma_alist_map_index,
    lemma_alist_map_len,
    lemma_alist_map_push,
    lemma_alist_map_remove,
    lemma_alist_map_update,
};
use crate::model::entry_le;

verus! {

/// Pending payloads keyed by block index, and one scheduled deadline per
/// pending block.
pub struct CacheState {
    /// block index -> payload awaiting commit
    pub cache: Vec<(u64, Vec<u8>)>,
    /// (block index, deadline) pairs, one per cached block
    pub queue: Vec<(u64, u64)>,
}

impl CacheState {
    /// The cache pairs with payloads read as byte strings.
    pub open spec fn centries(&self) -> Seq<(u64, Seq<u8>)> {
        self.cache@.map_values(|e: (u64, Vec<u8>)| (e.0, e.1@))
    }

    /// The cache as a map from block index to pending payload.
    pub open spec fn payloads(&self) -> Map<u64, Seq<u8>> {
        alist_map(self.centries())
    }

    /// The queue as a map from block index to scheduled deadline.
    pub open spec fn deadlines(&self) -> Map<u64, u64> {
        alist_map(self.queue@)
    }

    /// A block index is cached exactly when exactly one queue entry
    /// schedules it (the pair vectors both carry distinct keys).
    pub open spec fn wf(&self) -> bool {
        &&& alist_distinct(self.centries())
        &&& alist_distinct(self.queue@)
        &&& forall|b: u64|
            #![trigger self.payloads().contains_key(b)]
            #![trigger self.deadlines().contains_key(b)]
            self.payloads().contains_key(b) <==> self.deadlines().contains_key(b)
    }

    /// A cache with nothing pending.
    pub fn empty() -> (r: CacheState)
        ensures
            r.wf(),
            r.payloads() == Map::<u64, Seq<u8>>::empty(),
            r.deadlines() == Map::<u64, u64>::empty(),
            r.cache@.len() == 0,
            r.queue@.len() == 0,
    {
        let r = CacheState { cache: Vec::new(), queue: Vec::new() };
        proof {
            assert(r.centries() =~= Seq::<(u64, Seq<u8>)>::empty());
        }
        r
    }

    /// The dirty count.
    pub fn len(&self) -> (r: usize)
        ensures
            r == self.cache@.len(),
    {
        self.cache.len()
    }

    /// With distinct keys, the dirty count equals the number of cached
    /// block indices.
    pub proof fn lemma_dirty_count(&self)
        requires
            self.wf(),
        ensures
            self.payloads().dom().finite(),
            self.payloads().dom().len() == self.cache@.len(),
    {
        lemma_alist_map_len(self.centries());
    }

    /// Index of the cache pair for block `b`, if one exists.
    fn find_cache(&self, b: u64) -> (r: Option<usize>)
        ensures
            match r {
                Some(i) => i < self.cache@.len() && self.cache@[i as int].0 == b,
                None => !alist_has(self.centries(), b),
            },
    {
        let n = self.cache.len();
        let mut i: usize = 0;
        while i < n
            invariant
                0 <= i <= n,
                n == self.cache@.len(),
                forall|j: int| 0 <= j < i ==> (#[trigger] self.cache@[j]).0 != b,
            decreases n - i,
        {
            if self.cache[i].0 == b {
                return Some(i);
            }
            i = i + 1;
        }
        proof {
            assert forall|j: int| 0 <= j < self.centries().len() implies (
            #[trigger] self.centries()[j]).0 != b by {
                assert((self.cache@[j]).0 != b);
            }
        }
        None
    }

    /// Index of the queue entry for block `b`, if one exists.
    fn find_queue(&self, b: u64) -> (r: Option<usize>)
        ensures
            match r {
                Some(i) => i < self.queue@.len() && self.queue@[i as int].0 == b,
                None => !alist_has(self.queue@, b),
            },
    {
        let n = self.queue.len();
        let mut i: usize = 0;
        while i < n
            invariant
                0 <= i <= n,
                n == self.queue@.len(),
                forall|j: int| 0 <= j < i ==> (#[trigger] self.queue@[j]).0 != b,
            decreases n - i,
        {
            if self.queue[i].0 == b {
                return Some(i);
            }
            i = i + 1;
        }
        None
    }

    /// Point query: is block `b` dirty?
    pub fn has(&self, b: u64) -> (r: bool)
        ensures
            r == self.payloads().contains_key(b),
    {
        proof {
            lemma_alist_map_dom(self.centries());
        }
        match self.find_cache(b) {
            Some(i) => {
                proof {
                    assert((self.centries()[i as int]).0 == b);
                }
                true
            },
            None => false,
        }
    }

    /// Borrow the pending payload of block `b`, if it is dirty.
    pub fn get(&self, b: u64) -> (r: Option<&Vec<u8>>)
        requires
            self.wf(),
        ensures
            match r {
                Some(p) => self.payloads().contains_key(b) && p@ == self.payloads()[b],
                None => !self.payloads().contains_key(b),
            },
    {
        proof {
            lemma_alist_map_dom(self.centries());
        }
        match self.find_cache(b) {
            Some(i) => {
                proof {
                    assert((self.centries()[i as int]).0 == b);
                    lemma_alist_map_index(self.centries(), i as int);
                }
                Some(&self.cache[i].1)
            },
            None => None,
        }
    }

    /// Replace the payload of an already-dirty block; its queue entry —
    /// and so its deadline — is left untouched.
    pub fn replace_payload(&mut self, b: u64, p: Vec<u8>)
        requires
            old(self).wf(),
            old(self).payloads().contains_key(b),
        ensures
            final(self).wf(),
            final(self).payloads() == old(self).payloads().insert(b, p@),
            final(self).deadlines() == old(self).deadlines(),
            final(self).cache@.len() == old(self).cache@.len(),
            final(self).queue@ == old(self).queue@,
    {
        proof {
            lemma_alist_map_dom(self.centries());
        }
        let i = match self.find_cache(b) {
            Some(i) => i,
            None => {
                proof {
                    assert(false);
                }
                0
            },
        };
        let ghost oldce = self.centries();
        self.cache[i] = (b, p);
        proof {
            assert(self.centries() =~= oldce.update(i as int, (b, p@)));
            lemma_alist_map_update(oldce, i as int, p@);
        }
    }

    /// Insert a fresh dirty block with its scheduled deadline.
    pub fn insert_entry(&mut self, b: u64, p: Vec<u8>, deadline: u64)
        requires
            old(self).wf(),
            !old(self).payloads().contains_key(b),
        ensures
            final(self).wf(),
            final(self).payloads() == old(self).payloads().insert(b, p@),
            final(self).deadlines() == old(self).deadlines().insert(b, deadline),
            final(self).cache@.len() == old(self).cache@.len() + 1,
            final(self).queue@.len() == old(self).queue@.len() + 1,
    {
        let ghost oldce = self.centries();
        let ghost oldq = self.queue@;
        proof {
            lemma_alist_map_dom(oldce);
            lemma_alist_map_dom(oldq);
        }
        self.cache.push((b, p));
        self.queue.push((b, deadline));
        proof {
            assert(self.centries() =~= oldce.push((b, p@)));
            lemma_alist_map_push(oldce, b, p@);
            lemma_alist_map_push(oldq, b, deadline);
            lemma_alist_map_dom(self.centries());
            lemma_alist_map_dom(self.queue@);
        }
    }

    /// The queue entry that is first in `(deadline, block)` order, without
    /// popping it; `None` exactly when nothing is pending.
    pub fn peek_min(&self) -> (r: Option<(u64, u64)>)
        requires
            alist_distinct(self.queue@),
        ensures
            match r {
                Some(e) => {
                    &&& self.deadlines().contains_key(e.0)
                    &&& self.deadlines()[e.0] == e.1
                    &&& forall|b2: u64| #[trigger] self.deadlines().contains_key(b2)
                        ==> entry_le(e.1, e.0, self.deadlines()[b2], b2)
                },
                None => self.queue@.len() == 0,
            },
    {
        let n = self.queue.len();
        if n == 0 {
            return None;
        }
        let mut bb: u64 = self.queue[0].0;
        let mut bd: u64 = self.queue[0].1;
        proof {
            assert(self.queue@[0] == (bb, bd));
        }
        let mut i: usize = 1;
        while i < n
            invariant
                1 <= i <= n,
                n == self.queue@.len(),
                exists|j: int| 0 <= j < n && self.queue@[j] == (bb, bd),
                forall|j: int|
                    0 <= j < i ==> entry_le(bd, bb, (#[trigger] self.queue@[j]).1, self.queue@[j].0),
            decreases n - i,
        {
            let e = self.queue[i];
            if e.1 < bd || (e.1 == bd && e.0 < bb) {
                bb = e.0;
                bd = e.1;
                proof {
                    assert(self.queue@[i as int] == (bb, bd));
                }
            }
            i = i + 1;
        }
        proof {
            let j = choose|j: int| 0 <= j < self.queue@.len() && self.queue@[j] == (bb, bd);
            assert((self.queue@[j]).0 == bb);
            lemma_alist_map_index(self.queue@, j);
            lemma_alist_map_dom(self.queue@);
            assert forall|b2: u64| #[trigger] self.deadlines().contains_key(b2) implies entry_le(
                bd,
                bb,
                self.deadlines()[b2],
                b2,
            ) by {
                let j2 = choose|j2: int|
                    0 <= j2 < self.queue@.len() && (#[trigger] self.queue@[j2]).0 == b2;
                lemma_alist_map_index(self.queue@, j2);
            }
        }
        Some((bb, bd))
    }

    /// Remove a dirty block and its queue entry, returning the pending
    /// payload.
    pub fn remove_entry(&mut self, b: u64) -> (p: Vec<u8>)
        requires
            old(self).wf(),
            old(self).payloads().contains_key(b),
        ensures
            final(self).wf(),
            final(self).payloads() == old(self).payloads().remove(b),
            final(self).deadlines() == old(self).deadlines().remove(b),
            p@ == old(self).payloads()[b],
            final(self).cache@.len() == old(self).cache@.len() - 1,
            final(self).queue@.len() == old(self).queue@.len() - 1,
    {
        proof {
            lemma_alist_map_dom(self.centries());
            lemma_alist_map_dom(self.queue@);
        }
        let i = match self.find_cache(b) {
            Some(i) => i,
            None => {
                proof {
                    assert(false);
                }
                0
            },
        };
        let j = match self.find_queue(b) {
            Some(j) => j,
            None => {
                proof {
                    assert(false);
                }
                0
            },
        };
        let ghost oldce = self.centries();
        let ghost oldq = self.queue@;
        proof {
            assert((oldce[i as int]).0 == b);
            lemma_alist_map_index(oldce, i as int);
        }
        let e = self.cache.remove(i);
        self.queue.remove(j);
        proof {
            assert(self.centries() =~= oldce.remove(i as int));
            lemma_alist_map_remove(oldce, i as int);
            lemma_alist_map_remove(oldq, j as int);
            lemma_alist_map_dom(self.centries());
            lemma_alist_map_dom(self.queue@);
        }
        e.1
    }
}

} // verus!
