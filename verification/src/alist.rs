//! Sequences of key/value pairs with distinct `u64` keys, read as maps.
//!
//! Both halves of the dirty-block state — the block cache and the delay
//! queue — are kept as vectors of pairs whose first component is a block
//! index. The spec functions here give such a vector its meaning as a
//! finite map, and the lemmas say how pushing, updating and removing a
//! pair act on that map.

use vstd::prelude::*;

verus! {

/// Some pair of `s` has key `k`.
pub open spec fn alist_has<V>(s: Seq<(u64, V)>, k: u64) -> bool {
    exists|i: int| 0 <= i < s.len() && (#[trigger] s[i]).0 == k
}

/// No two pairs of `s` share a key.
pub open spec fn alist_distinct<V>(s: Seq<(u64, V)>) -> bool {
    forall|i: int, j: int| 0 <= i < j < s.len() ==> (#[trigger] s[i]).0 != (#[trigger] s[j]).0
}

/// The map a pair sequence denotes; a later pair wins, though under
/// `alist_distinct` the case never arises.
pub open spec fn alist_map<V>(s: Seq<(u64, V)>) -> Map<u64, V>
    decreases s.len(),
{
    if s.len() == 0 {
        Map::empty()
    } else {
        alist_map(s.drop_last()).insert(s.last().0, s.last().1)
    }
}

/// The domain of the denoted map holds exactly the keys of the pairs.
pub proof fn lemma_alist_map_dom<V>(s: Seq<(u64, V)>)
    ensures
        forall|k: u64| #[trigger] alist_map(s).contains_key(k) <==> alist_has(s, k),
    decreases s.len(),
{
    if s.len() > 0 {
        let d = s.drop_last();
        lemma_alist_map_dom(d);
        assert forall|k: u64| #[trigger] alist_map(s).contains_key(k) implies alist_has(s, k) by {
            if k == s.last().0 {
                assert(0 <= s.len() - 1 < s.len() && (s[s.len() - 1]).0 == k);
            } else {
                assert(alist_map(d).contains_key(k));
                assert(alist_has(d, k));
                let i = choose|i: int| 0 <= i < d.len() && (#[trigger] d[i]).0 == k;
                assert((s[i]).0 == (d[i]).0);
            }
        }
        assert forall|k: u64| alist_has(s, k) implies #[trigger] alist_map(s).contains_key(k) by {
            let i = choose|i: int| 0 <= i < s.len() && (#[trigger] s[i]).0 == k;
            if i < s.len() - 1 {
                assert((d[i]).0 == (s[i]).0);
                assert(alist_has(d, k));
                assert(alist_map(d).contains_key(k));
            }
        }
    }
}

/// With distinct keys, the denoted map sends each pair's key to its value.
pub proof fn lemma_alist_map_index<V>(s: Seq<(u64, V)>, i: int)
    requires
        alist_distinct(s),
        0 <= i < s.len(),
    ensures
        alist_map(s).contains_key(s[i].0),
        alist_map(s)[s[i].0] == s[i].1,
    decreases s.len(),
{
    lemma_alist_map_dom(s);
    if i < s.len() - 1 {
        assert(alist_distinct(s.drop_last()));
        lemma_alist_map_index(s.drop_last(), i);
        assert(s.drop_last()[i] == s[i]);
        assert(s[i].0 != s.last().0);
    }
}

/// Pushing a pair with a fresh key inserts it into the denoted map.
pub proof fn lemma_alist_map_push<V>(s: Seq<(u64, V)>, k: u64, v: V)
    requires
        alist_distinct(s),
        !alist_has(s, k),
    ensures
        alist_map(s.push((k, v))) == alist_map(s).insert(k, v),
        alist_distinct(s.push((k, v))),
        forall|k2: u64| alist_has(s.push((k, v)), k2) <==> alist_has(s, k2) || k2 == k,
{
    let t = s.push((k, v));
    assert(t.drop_last() =~= s);
    assert forall|i: int, j: int| 0 <= i < j < t.len() implies (#[trigger] t[i]).0 != (
    #[trigger] t[j]).0 by {
        if j == t.len() - 1 {
            assert((s[i]).0 == (t[i]).0);
        }
    }
    assert forall|k2: u64| alist_has(t, k2) implies alist_has(s, k2) || k2 == k by {
        let i = choose|i: int| 0 <= i < t.len() && (#[trigger] t[i]).0 == k2;
        if i < s.len() {
            assert((s[i]).0 == k2);
        }
    }
    assert forall|k2: u64| alist_has(s, k2) implies alist_has(t, k2) by {
        let i = choose|i: int| 0 <= i < s.len() && (#[trigger] s[i]).0 == k2;
        assert((t[i]).0 == k2);
    }
    assert(alist_has(t, k)) by {
        assert((t[t.len() - 1]).0 == k);
    }
}

/// Updating the pair at `i` without changing its key updates the denoted
/// map at that key.
pub proof fn lemma_alist_map_update<V>(s: Seq<(u64, V)>, i: int, v: V)
    requires
        alist_distinct(s),
        0 <= i < s.len(),
    ensures
        alist_map(s.update(i, (s[i].0, v))) =~= alist_map(s).insert(s[i].0, v),
        alist_distinct(s.update(i, (s[i].0, v))),
        forall|k2: u64| alist_has(s.update(i, (s[i].0, v)), k2) <==> alist_has(s, k2),
    decreases s.len(),
{
    let k = s[i].0;
    let t = s.update(i, (k, v));
    assert forall|i2: int, j2: int| 0 <= i2 < j2 < t.len() implies (#[trigger] t[i2]).0 != (
    #[trigger] t[j2]).0 by {
        assert((t[i2]).0 == (s[i2]).0 && (t[j2]).0 == (s[j2]).0);
    }
    assert forall|k2: u64| alist_has(t, k2) implies alist_has(s, k2) by {
        let j = choose|j: int| 0 <= j < t.len() && (#[trigger] t[j]).0 == k2;
        assert((s[j]).0 == k2);
    }
    assert forall|k2: u64| alist_has(s, k2) implies alist_has(t, k2) by {
        let j = choose|j: int| 0 <= j < s.len() && (#[trigger] s[j]).0 == k2;
        assert((t[j]).0 == k2);
    }
    if i == s.len() - 1 {
        assert(t.drop_last() =~= s.drop_last());
    } else {
        assert(t.drop_last() =~= s.drop_last().update(i, (k, v)));
        assert(alist_distinct(s.drop_last()));
        assert(s.drop_last()[i] == s[i]);
        lemma_alist_map_update(s.drop_last(), i, v);
        assert(s.last().0 != k);
        assert(t.last() == s.last());
    }
}

/// Removing the pair at `i` removes its key from the denoted map.
pub proof fn lemma_alist_map_remove<V>(s: Seq<(u64, V)>, i: int)
    requires
        alist_distinct(s),
        0 <= i < s.len(),
    ensures
        alist_map(s.remove(i)) =~= alist_map(s).remove(s[i].0),
        alist_distinct(s.remove(i)),
        forall|k2: u64| alist_has(s.remove(i), k2) <==> alist_has(s, k2) && k2 != s[i].0,
    decreases s.len(),
{
    let k = s[i].0;
    let t = s.remove(i);
    lemma_alist_map_dom(s);
    lemma_alist_map_dom(s.drop_last());
    assert forall|i2: int, j2: int| 0 <= i2 < j2 < t.len() implies (#[trigger] t[i2]).0 != (
    #[trigger] t[j2]).0 by {
        let oi = if i2 < i { i2 } else { i2 + 1 };
        let oj = if j2 < i { j2 } else { j2 + 1 };
        assert((t[i2]).0 == (s[oi]).0 && (t[j2]).0 == (s[oj]).0);
    }
    assert forall|k2: u64| alist_has(t, k2) implies alist_has(s, k2) && k2 != k by {
        let j = choose|j: int| 0 <= j < t.len() && (#[trigger] t[j]).0 == k2;
        let oj = if j < i { j } else { j + 1 };
        assert((s[oj]).0 == k2);
        assert(oj != i);
    }
    assert forall|k2: u64| alist_has(s, k2) && k2 != k implies alist_has(t, k2) by {
        let j = choose|j: int| 0 <= j < s.len() && (#[trigger] s[j]).0 == k2;
        let nj = if j < i { j } else { j - 1 };
        assert((t[nj]).0 == k2);
    }
    if i == s.len() - 1 {
        assert(t =~= s.drop_last());
        assert(!alist_has(s.drop_last(), k)) by {
            if alist_has(s.drop_last(), k) {
                let j = choose|j: int|
                    0 <= j < s.drop_last().len() && (#[trigger] s.drop_last()[j]).0 == k;
                assert((s[j]).0 == k);
            }
        }
        assert(!alist_map(s.drop_last()).contains_key(k));
        assert(alist_map(s) == alist_map(s.drop_last()).insert(k, s.last().1));
        assert(alist_map(s).remove(k) =~= alist_map(s.drop_last()));
    } else {
        assert(alist_distinct(s.drop_last()));
        assert(s.drop_last()[i] == s[i]);
        lemma_alist_map_remove(s.drop_last(), i);
        assert(t.drop_last() =~= s.drop_last().remove(i));
        assert(t.last() == s.last());
        assert(s.last().0 != k);
    }
}

/// With distinct keys the denoted map has exactly one entry per pair.
pub proof fn lemma_alist_map_len<V>(s: Seq<(u64, V)>)
    requires
        alist_distinct(s),
    ensures
        alist_map(s).dom().finite(),
        alist_map(s).dom().len() == s.len(),
    decreases s.len(),
{
    if s.len() > 0 {
        assert(alist_distinct(s.drop_last()));
        lemma_alist_map_len(s.drop_last());
        lemma_alist_map_dom(s.drop_last());
        assert(!alist_has(s.drop_last(), s.last().0)) by {
            if alist_has(s.drop_last(), s.last().0) {
                let j = choose|j: int|
                    0 <= j < s.drop_last().len() && (#[trigger] s.drop_last()[j]).0 == s.last().0;
                assert((s[j]).0 == s.last().0);
            }
        }
        assert(alist_map(s).dom() =~= alist_map(s.drop_last()).dom().insert(s.last().0));
        vstd::set::axiom_set_insert_finite(alist_map(s.drop_last()).dom(), s.last().0);
        vstd::set::axiom_set_insert_len(alist_map(s.drop_last()).dom(), s.last().0);
    }
}

} // verus!
