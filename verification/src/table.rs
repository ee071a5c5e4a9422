//! A small association table from integer keys to arena indices.
//!
//! Both tiers of the map (the read snapshot and the dirty overlay) are
//! tables of this kind. The table is a sequence of key/index pairs with
//! pairwise-distinct keys; its abstraction is a finite `Map<u64, usize>`.

use vstd::prelude::*;

verus! {

/// The finite map described by a sequence of key/index pairs.
/// A later pair for the same key overrides an earlier one.
spec fn pairs_map(s: Seq<(u64, usize)>) -> Map<u64, usize>
    decreases s.len(),
{
    if s.len() == 0 {
        Map::empty()
    } else {
        pairs_map(s.drop_last()).insert(s.last().0, s.last().1)
    }
}

/// All keys in the pair sequence are pairwise distinct.
spec fn distinct_keys(s: Seq<(u64, usize)>) -> bool {
    forall|i: int, j: int|
        0 <= i < j < s.len() ==> (#[trigger] s[i]).0 != (#[trigger] s[j]).0
}

/// How `pairs_map` relates to the pair sequence: a key is in the map
/// exactly when some pair carries it, and (for distinct keys) each pair
/// gives its key's value. The domain is always finite.
proof fn lemma_pairs_map(s: Seq<(u64, usize)>)
    ensures
        forall|k: u64|
            pairs_map(s).contains_key(k) <==> exists|i: int|
                0 <= i < s.len() && (#[trigger] s[i]).0 == k,
        pairs_map(s).dom().finite(),
        distinct_keys(s) ==> forall|i: int|
            0 <= i < s.len() ==> pairs_map(s)[(#[trigger] s[i]).0] == s[i].1,
    decreases s.len(),
{
    if s.len() == 0 {
    } else {
        let t = s.drop_last();
        lemma_pairs_map(t);
        assert forall|k: u64| pairs_map(s).contains_key(k) implies exists|i: int|
            0 <= i < s.len() && (#[trigger] s[i]).0 == k by {
            if k == s.last().0 {
                assert((s[s.len() - 1]).0 == k);
            } else {
                let i = choose|i: int| 0 <= i < t.len() && (#[trigger] t[i]).0 == k;
                assert((s[i]).0 == k);
            }
        }
        assert forall|k: u64|
            (exists|i: int| 0 <= i < s.len() && (#[trigger] s[i]).0 == k) implies pairs_map(
            s,
        ).contains_key(k) by {
            let i = choose|i: int| 0 <= i < s.len() && (#[trigger] s[i]).0 == k;
            if i < s.len() - 1 {
                assert((t[i]).0 == k);
            }
        }
        if distinct_keys(s) {
            assert(distinct_keys(t)) by {
                assert forall|i: int, j: int| 0 <= i < j < t.len() implies (#[trigger] t[i]).0 != (
                #[trigger] t[j]).0 by {
                    assert((s[i]).0 != (s[j]).0);
                }
            }
            assert forall|i: int| 0 <= i < s.len() implies pairs_map(s)[(#[trigger] s[i]).0]
                == s[i].1 by {
                if i < s.len() - 1 {
                    assert((s[i]).0 != s.last().0);
                    assert(t[i] == s[i]);
                    assert(pairs_map(t)[(t[i]).0] == t[i].1);
                }
            }
        }
    }
}

/// With distinct keys, the pair sequence and the map domain have the
/// same cardinality.
proof fn lemma_pairs_map_len(s: Seq<(u64, usize)>)
    requires
        distinct_keys(s),
    ensures
        pairs_map(s).dom().len() == s.len(),
    decreases s.len(),
{
    lemma_pairs_map(s);
    if s.len() == 0 {
        assert(pairs_map(s).dom() =~= Set::<u64>::empty());
    } else {
        let t = s.drop_last();
        assert(distinct_keys(t)) by {
            assert forall|i: int, j: int| 0 <= i < j < t.len() implies (#[trigger] t[i]).0 != (
            #[trigger] t[j]).0 by {
                assert((s[i]).0 != (s[j]).0);
            }
        }
        lemma_pairs_map_len(t);
        lemma_pairs_map(t);
        assert(!pairs_map(t).contains_key(s.last().0)) by {
            if pairs_map(t).contains_key(s.last().0) {
                let i = choose|i: int| 0 <= i < t.len() && (#[trigger] t[i]).0 == s.last().0;
                assert((s[i]).0 == (s[s.len() - 1]).0);
            }
        }
        assert(pairs_map(s).dom() =~= pairs_map(t).dom().insert(s.last().0));
    }
}

/// An association table with pairwise-distinct keys.
pub struct Table {
    pairs: Vec<(u64, usize)>,
}

impl View for Table {
    type V = Map<u64, usize>;

    closed spec fn view(&self) -> Map<u64, usize> {
        pairs_map(self.pairs@)
    }
}

impl Table {
    /// The table's keys are pairwise distinct.
    pub closed spec fn wf(&self) -> bool {
        distinct_keys(self.pairs@)
    }

    /// The underlying pair sequence, for callers that walk the table.
    pub closed spec fn pair_seq(&self) -> Seq<(u64, usize)> {
        self.pairs@
    }

    /// Publishes the link between `pair_seq` and the table's map view.
    pub proof fn lemma_props(&self)
        requires
            self.wf(),
        ensures
            forall|k: u64|
                self@.contains_key(k) <==> exists|i: int|
                    0 <= i < self.pair_seq().len() && (#[trigger] self.pair_seq()[i]).0 == k,
            forall|i: int|
                0 <= i < self.pair_seq().len() ==> self@[(#[trigger] self.pair_seq()[i]).0]
                    == self.pair_seq()[i].1,
            forall|i: int, j: int|
                0 <= i < j < self.pair_seq().len() ==> (#[trigger] self.pair_seq()[i]).0 != (
                #[trigger] self.pair_seq()[j]).0,
            self@.dom().finite(),
    {
        lemma_pairs_map(self.pairs@);
        assert forall|k: u64| self@.contains_key(k) implies exists|i: int|
            0 <= i < self.pair_seq().len() && (#[trigger] self.pair_seq()[i]).0 == k by {
            let i = choose|i: int| 0 <= i < self.pairs@.len() && (#[trigger] self.pairs@[i]).0
                == k;
            assert((self.pair_seq()[i]).0 == k);
        }
        assert forall|k: u64|
            (exists|i: int| 0 <= i < self.pair_seq().len() && (#[trigger] self.pair_seq()[i]).0
                == k) implies self@.contains_key(k) by {
            let i = choose|i: int|
                0 <= i < self.pair_seq().len() && (#[trigger] self.pair_seq()[i]).0 == k;
            assert((self.pairs@[i]).0 == k);
        }
    }

    pub fn new() -> (t: Table)
        ensures
            t@ == Map::<u64, usize>::empty(),
            t.wf(),
            t.pair_seq() == Seq::<(u64, usize)>::empty(),
    {
        Table { pairs: Vec::new() }
    }

    /// The number of pairs, as executable code.
    pub fn pair_count(&self) -> (n: usize)
        ensures
            n == self.pair_seq().len(),
    {
        self.pairs.len()
    }

    /// The pair at position `j`.
    pub fn at(&self, j: usize) -> (p: (u64, usize))
        requires
            j < self.pair_seq().len(),
        ensures
            p == self.pair_seq()[j as int],
    {
        self.pairs[j]
    }

    /// Looks the key up.
    pub fn get(&self, key: u64) -> (r: Option<usize>)
        requires
            self.wf(),
        ensures
            match r {
                Some(i) => self@.contains_key(key) && self@[key] == i,
                None => !self@.contains_key(key),
            },
    {
        proof {
            lemma_pairs_map(self.pairs@);
        }
        let n = self.pairs.len();
        let mut j: usize = 0;
        while j < n
            invariant
                n == self.pairs@.len(),
                j <= n,
                self.wf(),
                forall|i: int| 0 <= i < j ==> (#[trigger] self.pairs@[i]).0 != key,
            decreases n - j,
        {
            let p = self.pairs[j];
            if p.0 == key {
                proof {
                    lemma_pairs_map(self.pairs@);
                }
                return Some(p.1);
            }
            j += 1;
        }
        proof {
            lemma_pairs_map(self.pairs@);
        }
        None
    }

    /// The number of keys in the table.
    pub fn len(&self) -> (n: usize)
        requires
            self.wf(),
        ensures
            n == self@.dom().len(),
    {
        proof {
            lemma_pairs_map_len(self.pairs@);
        }
        self.pairs.len()
    }

    /// Removes the key, reporting the index it was bound to.
    pub fn remove(&mut self, key: u64) -> (r: Option<usize>)
        requires
            old(self).wf(),
        ensures
            final(self).wf(),
            final(self)@ == old(self)@.remove(key),
            match r {
                Some(i) => old(self)@.contains_key(key) && old(self)@[key] == i,
                None => {
                    &&& !old(self)@.contains_key(key)
                    &&& *final(self) == *old(self)
                },
            },
    {
        proof {
            lemma_pairs_map(self.pairs@);
        }
        let ghost s = self.pairs@;
        let n = self.pairs.len();
        let mut j: usize = 0;
        while j < n
            invariant
                n == self.pairs@.len(),
                j <= n,
                self.wf(),
                self.pairs@ == s,
                old(self).pairs@ == s,
                *self == *old(self),
                forall|i: int| 0 <= i < j ==> (#[trigger] self.pairs@[i]).0 != key,
            decreases n - j,
        {
            let p = self.pairs[j];
            if p.0 == key {
                let _ = self.pairs.swap_remove(j);
                proof {
                    lemma_pairs_map(s);
                    let s2 = self.pairs@;
                    // Every pair of the new sequence comes from a position of
                    // the old one other than j.
                    assert(s2.len() == s.len() - 1);
                    assert(forall|x: int| 0 <= x < s2.len() && x != j ==> #[trigger] s2[x]
                        == s[x]);
                    assert(j < s2.len() ==> s2[j as int] == s[s.len() - 1]);
                    assert((s[j as int]).0 == key);
                    assert forall|a: int, b: int| 0 <= a < b < s2.len() implies (
                    #[trigger] s2[a]).0 != (#[trigger] s2[b]).0 by {
                        let pa: int = if a == j { s.len() - 1 } else { a };
                        let pb: int = if b == j { s.len() - 1 } else { b };
                        assert(s2[a] == s[pa]);
                        assert(s2[b] == s[pb]);
                    }
                    lemma_pairs_map(s2);
                    assert forall|k: u64| #[trigger]
                        pairs_map(s2).contains_key(k) implies pairs_map(s).remove(
                        key,
                    ).contains_key(k) by {
                        let a = choose|a: int| 0 <= a < s2.len() && (#[trigger] s2[a]).0 == k;
                        let pa: int = if a == j { s.len() - 1 } else { a };
                        assert(s[pa].0 == k);
                        assert(k != key);
                    }
                    assert forall|k: u64| #[trigger]
                        pairs_map(s).remove(key).contains_key(k) implies pairs_map(s2).contains_key(
                        k,
                    ) && pairs_map(s2)[k] == pairs_map(s).remove(key)[k] by {
                        let a = choose|a: int| 0 <= a < s.len() && (#[trigger] s[a]).0 == k;
                        assert(a != j);
                        let b: int = if a == s.len() - 1 { j as int } else { a };
                        assert(s2[b] == s[a]);
                        assert(pairs_map(s2)[k] == s2[b].1);
                        assert(pairs_map(s)[k] == s[a].1);
                    }
                    assert(pairs_map(s2) =~= pairs_map(s).remove(key));
                }
                return Some(p.1);
            }
            j += 1;
        }
        proof {
            lemma_pairs_map(self.pairs@);
            assert(self@ =~= old(self)@.remove(key));
        }
        None
    }

    /// Binds the key to the index, replacing any earlier binding.
    pub fn insert(&mut self, key: u64, idx: usize)
        requires
            old(self).wf(),
        ensures
            final(self).wf(),
            final(self)@ == old(self)@.insert(key, idx),
    {
        let _ = self.remove(key);
        let ghost s = self.pairs@;
        self.pairs.push((key, idx));
        proof {
            lemma_pairs_map(s);
            let s2 = self.pairs@;
            assert(s2.drop_last() =~= s);
            assert(pairs_map(s2) == pairs_map(s).insert(key, idx));
            assert forall|a: int, b: int| 0 <= a < b < s2.len() implies (#[trigger] s2[a]).0 != (
            #[trigger] s2[b]).0 by {
                if b == s2.len() - 1 {
                    assert(!pairs_map(s).contains_key(key));
                    assert(s2[a] == s[a]);
                }
            }
            assert(old(self)@.remove(key).insert(key, idx) =~= old(self)@.insert(key, idx));
        }
    }
}

} // verus!
