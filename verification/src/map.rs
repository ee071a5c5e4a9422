//! The two-tier map.
//!
//! Lookups probe an immutable read snapshot first and fall back to a
//! mutable dirty overlay; repeated fallbacks promote the overlay into a
//! new snapshot. Both tiers bind keys to indices into a map-owned arena
//! of entry slots, so an entry reachable from both tiers is shared, and
//! a key present in the snapshot keeps its entry for the lifetime of
//! the map. Values detached by a removal or an overwrite are retained
//! by the map until it is dropped, which stands in for deferred
//! reclamation: a reference handed out by `get` or `remove` can never
//! outlive the value it points to.

use vstd::prelude::*;
use vstd::set_lib::lemma_len_subset;
use crate::entry::Entry;
use crate::entry::Slot;
use crate::table::Table;

verus! {

/// A pin token. Every operation takes one, as the interface asks; in
/// this model the map retains detached values itself (see
/// `SyncMap::retained`), so the token carries no state.
pub struct Guard {}

/// The read snapshot: a frozen table plus the `amended` flag, which is
/// set when the dirty overlay holds keys the snapshot lacks.
pub struct ReadOnly {
    pub table: Table,
    pub amended: bool,
}

impl ReadOnly {
    /// An empty, unamended snapshot.
    pub fn new() -> (r: ReadOnly)
        ensures
            r.table@ == Map::<u64, usize>::empty(),
            r.table.wf(),
            r.amended == false,
    {
        ReadOnly { table: Table::new(), amended: false }
    }
}

/// The two-tier map from `u64` keys to values.
pub struct SyncMap<V> {
    entries: Vec<Entry<V>>,
    read: Option<ReadOnly>,
    dirty: Option<Table>,
    misses: usize,
    retired: Vec<V>,
}

impl<V> SyncMap<V> {
    /// The read snapshot's key-to-entry association. A key present here
    /// keeps its entry index for the lifetime of the map.
    pub closed spec fn read_map(&self) -> Map<u64, usize> {
        match self.read {
            Some(r) => r.table@,
            None => Map::empty(),
        }
    }

    /// The dirty overlay's key-to-entry association.
    pub closed spec fn dirty_map(&self) -> Map<u64, usize> {
        match self.dirty {
            Some(d) => d@,
            None => Map::empty(),
        }
    }

    /// Whether the dirty overlay is allocated.
    pub closed spec fn has_dirty(&self) -> bool {
        self.dirty is Some
    }

    /// Whether the overlay holds keys the snapshot lacks.
    pub closed spec fn amended(&self) -> bool {
        match self.read {
            Some(r) => r.amended,
            None => false,
        }
    }

    /// The combined key-to-entry association: overlay over snapshot.
    pub closed spec fn refs(&self) -> Map<u64, usize> {
        self.read_map().union_prefer_right(self.dirty_map())
    }

    /// The state of the entry at arena index `i`.
    pub closed spec fn slot_at(&self, i: usize) -> Slot<V> {
        self.entries@[i as int].state()
    }

    /// The map's logical contents: the keys whose entry is live, each
    /// bound to the live value.
    pub closed spec fn contents(&self) -> Map<u64, V> {
        Map::new(
            |k: u64| self.refs().contains_key(k) && self.slot_at(self.refs()[k]) is Live,
            |k: u64| self.slot_at(self.refs()[k])->Live_0,
        )
    }

    /// The values the map has detached and retains. Nothing is ever
    /// removed from this sequence while the map lives: a detached value
    /// is dropped no earlier than the map itself.
    pub closed spec fn retained(&self) -> Seq<V> {
        self.retired@
    }

    /// The overlay's cardinality, which is what `len` reports.
    pub closed spec fn overlay_len(&self) -> nat {
        match self.dirty {
            Some(d) => d@.dom().len(),
            None => 0,
        }
    }

    /// The slow-path miss counter; promotion fires when it reaches
    /// the overlay's size.
    pub closed spec fn miss_count(&self) -> nat {
        self.misses as nat
    }

    /// Entry indices drawn from `m` point into the arena.
    spec fn bounded(&self, m: Map<u64, usize>) -> bool {
        forall|k: u64| #[trigger] m.contains_key(k) ==> m[k] < self.entries@.len()
    }

    /// Distinct keys never share an entry.
    spec fn inj(&self) -> bool {
        forall|k1: u64, k2: u64|
            #![trigger self.refs()[k1], self.refs()[k2]]
            self.refs().contains_key(k1) && self.refs().contains_key(k2) && k1 != k2
                ==> self.refs()[k1] != self.refs()[k2]
    }

    /// The map's internal invariant.
    pub closed spec fn wf(&self) -> bool {
        &&& (self.read is None ==> self.dirty is None)
        &&& match self.read {
            Some(r) => r.table.wf() && self.bounded(r.table@),
            None => true,
        }
        &&& match self.dirty {
            Some(d) => d.wf() && self.bounded(d@),
            None => true,
        }
        &&& (self.amended() ==> self.dirty is Some)
        &&& (!self.amended() && self.dirty is Some ==> self.dirty_map().dom().subset_of(
            self.read_map().dom(),
        ))
        &&& (self.dirty is Some ==> forall|k: u64| #[trigger]
            self.read_map().contains_key(k) ==> {
                &&& (self.slot_at(self.read_map()[k]) is Expunged <==> !self.dirty_map(
                ).contains_key(k))
                &&& (self.dirty_map().contains_key(k) ==> self.dirty_map()[k] == self.read_map(
                )[k])
            })
        &&& (self.dirty is Some ==> forall|k: u64| #[trigger]
            self.dirty_map().contains_key(k) ==> !(self.slot_at(self.dirty_map()[k])
                is Expunged))
        &&& (self.dirty is None ==> forall|k: u64| #[trigger]
            self.read_map().contains_key(k) ==> !(self.slot_at(self.read_map()[k])
                is Expunged))
        &&& self.inj()
    }

    /// Keys the read snapshot holds both before and after an operation
    /// keep their entry index.
    pub open spec fn read_stable(pre: Self, post: Self) -> bool {
        forall|k: u64|
            pre.read_map().contains_key(k) && post.read_map().contains_key(k)
                ==> #[trigger] post.read_map()[k] == #[trigger] pre.read_map()[k]
    }

    /// How the combined association relates to the two tiers.
    proof fn lemma_refs(&self)
        requires
            self.wf(),
        ensures
            forall|k: u64|
                #[trigger] self.refs().contains_key(k) <==> (self.read_map().contains_key(k)
                    || self.dirty_map().contains_key(k)),
            forall|k: u64| #[trigger]
                self.read_map().contains_key(k) ==> self.refs().contains_key(k) && self.refs()[k]
                    == self.read_map()[k],
            forall|k: u64| #[trigger]
                self.dirty_map().contains_key(k) ==> self.refs().contains_key(k) && self.refs()[k]
                    == self.dirty_map()[k],
            forall|k: u64| #[trigger]
                self.refs().contains_key(k) ==> self.refs()[k] < self.entries@.len(),
    {
        assert forall|k: u64| #[trigger]
            self.read_map().contains_key(k) implies self.refs().contains_key(k) && self.refs()[k]
            == self.read_map()[k] by {
            if self.dirty_map().contains_key(k) {
                assert(self.dirty is Some);
            }
        }
    }

    /// How the logical contents relate to the tiers and the arena.
    proof fn lemma_contents(&self)
        ensures
            forall|k: u64|
                #[trigger] self.contents().contains_key(k) <==> (self.refs().contains_key(k)
                    && self.slot_at(self.refs()[k]) is Live),
            forall|k: u64| #[trigger]
                self.contents().contains_key(k) ==> self.contents()[k] == self.slot_at(
                    self.refs()[k],
                )->Live_0,
    {
    }

    /// The overlay's key set is finite.
    proof fn lemma_dirty_finite(&self)
        requires
            self.wf(),
        ensures
            self.dirty_map().dom().finite(),
    {
        match self.dirty {
            Some(d) => d.lemma_props(),
            None => {
                assert(self.dirty_map().dom() =~= Set::<u64>::empty());
            },
        }
    }

    /// An empty map.
    pub fn new() -> (m: SyncMap<V>)
        ensures
            m.wf(),
            m.contents() == Map::<u64, V>::empty(),
            m.retained() == Seq::<V>::empty(),
            m.read_map() == Map::<u64, usize>::empty(),
            !m.has_dirty(),
            m.overlay_len() == 0,
            !m.amended(),
            m.miss_count() == 0,
    {
        let m = SyncMap {
            entries: Vec::new(),
            read: None,
            dirty: None,
            misses: 0,
            retired: Vec::new(),
        };
        proof {
            assert(m.refs().dom() =~= Set::<u64>::empty());
            assert(m.contents() =~= Map::<u64, V>::empty());
        }
        m
    }

    /// An empty map that accepts a hash-builder for interface
    /// compatibility. The hashing policy is external to this core —
    /// keys index the tiers directly — so the builder is not consulted.
    pub fn with_hasher<S>(hash_builder: S) -> (m: SyncMap<V>)
        ensures
            m.wf(),
            m.contents() == Map::<u64, V>::empty(),
            m.retained() == Seq::<V>::empty(),
            m.read_map() == Map::<u64, usize>::empty(),
            !m.has_dirty(),
            m.overlay_len() == 0,
            !m.amended(),
            m.miss_count() == 0,
    {
        let _ = hash_builder;
        Self::new()
    }

    /// A pin token for use with this map. Detached values are retained
    /// by the map itself, so the token never expires early.
    pub fn guard(&self) -> Guard {
        Guard {  }
    }

    /// Allocates the two tiers on first use: an empty, unamended
    /// snapshot over an empty overlay.
    fn init_table(&mut self)
        requires
            old(self).wf(),
            old(self).read is None,
        ensures
            final(self).wf(),
            final(self).read is Some,
            final(self).dirty is Some,
            final(self).amended() == false,
            final(self).contents() == old(self).contents(),
            final(self).contents() == Map::<u64, V>::empty(),
            final(self).entries@ == old(self).entries@,
            final(self).retained() == old(self).retained(),
            final(self).read_map() == Map::<u64, usize>::empty(),
            final(self).dirty_map() == Map::<u64, usize>::empty(),
            final(self).miss_count() == old(self).miss_count(),
    {
        self.read = Some(ReadOnly::new());
        self.dirty = Some(Table::new());
        proof {
            assert(self.refs().dom() =~= Set::<u64>::empty());
            assert(self.contents() =~= Map::<u64, V>::empty());
            assert(old(self).refs().dom() =~= Set::<u64>::empty());
            assert(old(self).contents() =~= Map::<u64, V>::empty());
        }
    }

    /// Empties the map: publishes a fresh snapshot and a fresh overlay
    /// and resets the miss counter. The arena and the retained values
    /// are kept, so references handed out earlier stay valid.
    pub fn clear(&mut self, guard: &Guard)
        requires
            old(self).wf(),
        ensures
            final(self).wf(),
            final(self).contents() == Map::<u64, V>::empty(),
            final(self).retained() == old(self).retained(),
            final(self).read_map() == Map::<u64, usize>::empty(),
            final(self).has_dirty(),
            final(self).overlay_len() == 0,
            !final(self).amended(),
            final(self).miss_count() == 0,
            Self::read_stable(*old(self), *final(self)),
    {
        self.read = Some(ReadOnly::new());
        self.dirty = Some(Table::new());
        self.misses = 0;
        proof {
            assert(self.refs().dom() =~= Set::<u64>::empty());
            assert(self.contents() =~= Map::<u64, V>::empty());
            assert(self.dirty_map().dom() =~= Set::<u64>::empty());
        }
    }

    /// The overlay's cardinality: a best-effort size. Keys that live
    /// only in the read snapshot are not counted, but whenever the
    /// overlay is allocated it covers every live key, so the true size
    /// never exceeds the report.
    pub fn len(&self) -> (n: usize)
        requires
            self.wf(),
        ensures
            n == self.overlay_len(),
            self.has_dirty() ==> self.contents().dom().len() <= n,
    {
        match &self.dirty {
            Some(d) => {
                let n = d.len();
                proof {
                    self.lemma_refs();
                    self.lemma_contents();
                    d.lemma_props();
                    assert forall|k: u64| #[trigger]
                        self.contents().dom().contains(k) implies self.dirty_map().dom().contains(
                        k,
                    ) by {
                        if self.read_map().contains_key(k) && !self.dirty_map().contains_key(k) {
                            assert(self.slot_at(self.read_map()[k]) is Expunged);
                            assert(self.refs()[k] == self.read_map()[k]);
                        }
                    }
                    lemma_len_subset(self.contents().dom(), self.dirty_map().dom());
                }
                n
            },
            None => 0,
        }
    }

    /// Counts a slow-path miss; when the counter reaches the overlay's
    /// size, promotes the overlay into a new, unamended snapshot and
    /// clears the overlay. Promotion preserves the logical contents —
    /// every live key of the old state is live with the same value
    /// afterwards — and keys present in the snapshot both before and
    /// after keep their entry index, since the overlay refers to a
    /// shared snapshot entry by the same index.
    fn miss_locked(&mut self)
        requires
            old(self).wf(),
            old(self).dirty is Some,
        ensures
            final(self).wf(),
            final(self).read is Some,
            final(self).contents() == old(self).contents(),
            final(self).entries@ == old(self).entries@,
            final(self).retained() == old(self).retained(),
            Self::read_stable(*old(self), *final(self)),
            forall|k: u64| #[trigger]
                final(self).refs().contains_key(k) ==> old(self).refs().contains_key(k)
                    && final(self).refs()[k] == old(self).refs()[k],
            // The counter steps toward the overlay's size; promotion
            // fires exactly when it arrives: the overlay's association
            // becomes the new, unamended snapshot, the overlay is
            // cleared and the counter resets. Short of that, only the
            // counter changes.
            ({
                let stepped: nat = if old(self).miss_count() < old(self).overlay_len() {
                    old(self).miss_count() + 1
                } else {
                    old(self).miss_count()
                };
                if stepped >= old(self).overlay_len() {
                    &&& final(self).read_map() == old(self).dirty_map()
                    &&& !final(self).has_dirty()
                    &&& !final(self).amended()
                    &&& final(self).miss_count() == 0
                } else {
                    &&& final(self).read_map() == old(self).read_map()
                    &&& final(self).dirty_map() == old(self).dirty_map()
                    &&& final(self).has_dirty()
                    &&& final(self).amended() == old(self).amended()
                    &&& final(self).miss_count() == stepped
                }
            }),
    {
        proof {
            self.lemma_refs();
        }
        let d_len = match &self.dirty {
            Some(d) => d.len(),
            None => 0,
        };
        if self.misses < d_len {
            self.misses = self.misses + 1;
        }
        if self.misses >= d_len {
            let d = self.dirty.take().unwrap();
            self.read = Some(ReadOnly { table: d, amended: false });
            self.misses = 0;
            proof {
                let pre = *old(self);
                let post = *self;
                pre.lemma_refs();
                assert(post.refs().dom() =~= pre.dirty_map().dom());
                assert forall|k: u64| #[trigger]
                    post.refs().contains_key(k) implies pre.refs().contains_key(k)
                    && post.refs()[k] == pre.refs()[k] by {
                    assert(pre.dirty_map().contains_key(k));
                }
                assert(post.wf()) by {
                    assert forall|k1: u64, k2: u64|
                        #![trigger post.refs()[k1], post.refs()[k2]]
                        post.refs().contains_key(k1) && post.refs().contains_key(k2) && k1
                            != k2 implies post.refs()[k1] != post.refs()[k2] by {
                        assert(pre.refs()[k1] != pre.refs()[k2]);
                    }
                }
                assert forall|k: u64| #[trigger]
                    post.contents().contains_key(k) implies pre.contents().contains_key(k)
                    && post.contents()[k] == pre.contents()[k] by {
                    post.lemma_contents();
                    pre.lemma_contents();
                }
                assert forall|k: u64| #[trigger]
                    pre.contents().contains_key(k) implies post.contents().contains_key(k) by {
                    pre.lemma_contents();
                    post.lemma_contents();
                    if pre.read_map().contains_key(k) && !pre.dirty_map().contains_key(k) {
                        assert(pre.slot_at(pre.read_map()[k]) is Expunged);
                        assert(pre.refs()[k] == pre.read_map()[k]);
                    } else {
                        assert(pre.dirty_map().contains_key(k));
                        assert(pre.refs()[k] == pre.dirty_map()[k]);
                        assert(post.refs().contains_key(k));
                    }
                }
                assert(post.contents() =~= pre.contents());
            }
        }
    }
    /// Looks the key up. The read snapshot is probed first; only a miss
    /// on an amended snapshot consults the overlay and counts a miss
    /// (possibly promoting, which never changes the contents). The
    /// result is `Some` exactly when the key is live, and the reference
    /// is valid as long as the map lives.
    pub fn get(&mut self, key: &u64, guard: &Guard) -> (r: Option<&V>)
        requires
            old(self).wf(),
        ensures
            final(self).wf(),
            final(self).contents() == old(self).contents(),
            final(self).retained() == old(self).retained(),
            Self::read_stable(*old(self), *final(self)),
            match r {
                Some(v) => old(self).contents().contains_key(*key) && *v == old(self).contents()[*key],
                None => !old(self).contents().contains_key(*key),
            },
    {
        proof {
            self.lemma_refs();
            self.lemma_contents();
        }
        let k = *key;
        if self.read.is_none() {
            proof {
                assert(!old(self).contents().contains_key(k));
            }
            return None;
        }
        let ridx = match &self.read {
            Some(r) => r.table.get(k),
            None => None,
        };
        let amended = match &self.read {
            Some(r) => r.amended,
            None => false,
        };
        let mut eidx = ridx;
        if eidx.is_none() && amended {
            eidx = match &self.dirty {
                Some(d) => d.get(k),
                None => None,
            };
            self.miss_locked();
        }
        match eidx {
            Some(i) => {
                proof {
                    assert(old(self).refs().contains_key(k) && old(self).refs()[k] == i);
                    assert(i < self.entries@.len());
                }
                let e = &self.entries[i];
                let res = e.load();
                proof {
                    assert(self.entries@[i as int] == old(self).entries@[i as int]);
                    match res {
                        Some(v) => {
                            assert(old(self).slot_at(i) == Slot::Live(*v));
                            assert(old(self).contents().contains_key(k));
                        },
                        None => {
                            assert(!(old(self).slot_at(i) is Live));
                            assert(!old(self).contents().contains_key(k));
                        },
                    }
                }
                res
            },
            None => {
                proof {
                    if old(self).dirty is Some && !old(self).amended() {
                        assert(old(self).dirty_map().dom().subset_of(
                            old(self).read_map().dom(),
                        ));
                    }
                    assert(!old(self).refs().contains_key(k));
                    assert(!old(self).contents().contains_key(k));
                }
                None
            },
        }
    }
    /// Rebuilds the overlay from the snapshot, for the first novel
    /// insert after a promotion: every live snapshot entry is carried
    /// over by reference, and every tombstoned entry is expunged and
    /// left out, so a later write to it is forced through the slow
    /// path, where the entry is unexpunged and reinstalled here.
    fn rebuild_dirty(&mut self)
        requires
            old(self).wf(),
            old(self).read is Some,
            old(self).dirty is None,
        ensures
            final(self).wf(),
            final(self).dirty is Some,
            final(self).contents() == old(self).contents(),
            final(self).read == old(self).read,
            final(self).retained() == old(self).retained(),
            final(self).entries@.len() == old(self).entries@.len(),
            final(self).dirty_map().dom().subset_of(final(self).read_map().dom()),
            final(self).miss_count() == old(self).miss_count(),
            // The overlay receives exactly the live snapshot entries,
            // by reference.
            forall|k: u64|
                #![trigger final(self).dirty_map().contains_key(k)]
                final(self).dirty_map().contains_key(k) <==> (old(self).read_map().contains_key(k)
                    && old(self).slot_at(old(self).read_map()[k]) is Live),
            forall|k: u64| #[trigger]
                final(self).dirty_map().contains_key(k) ==> final(self).dirty_map()[k] == old(self).read_map()[k],
            // Every tombstoned snapshot entry is expunged (and omitted);
            // live entries are untouched.
            forall|k: u64| #[trigger]
                old(self).read_map().contains_key(k) ==> (if old(self).slot_at(
                    old(self).read_map()[k],
                ) is Live {
                    final(self).slot_at(old(self).read_map()[k]) == old(self).slot_at(
                        old(self).read_map()[k],
                    )
                } else {
                    final(self).slot_at(old(self).read_map()[k]) is Expunged
                }),
    {
        let ghost pre = *old(self);
        let ghost rs = match pre.read {
            Some(r) => r.table.pair_seq(),
            None => Seq::<(u64, usize)>::empty(),
        };
        let rs_len = match &self.read {
            Some(r) => {
                proof {
                    r.table.lemma_props();
                    pre.lemma_refs();
                    assert(rs == r.table.pair_seq());
                    assert forall|x: int| 0 <= x < rs.len() implies pre.read_map().contains_key(
                        (#[trigger] rs[x]).0,
                    ) && pre.read_map()[rs[x].0] == rs[x].1 && rs[x].1 < pre.entries@.len() by {
                        assert(rs[x] == r.table.pair_seq()[x]);
                        assert(r.table@[(r.table.pair_seq()[x]).0] == (r.table.pair_seq()[x]).1);
                    }
                    assert forall|x: int, y: int| 0 <= x < y < rs.len() implies (
                    #[trigger] rs[x]).0 != (#[trigger] rs[y]).0 by {
                        assert(rs[x] == r.table.pair_seq()[x]);
                        assert(rs[y] == r.table.pair_seq()[y]);
                    }
                }
                r.table.pair_count()
            },
            None => 0,
        };
        let mut t = Table::new();
        let mut j: usize = 0;
        while j < rs_len
            invariant
                pre.wf(),
                pre.read is Some,
                pre.dirty is None,
                self.read == pre.read,
                self.dirty == pre.dirty,
                self.misses == pre.misses,
                self.retired == pre.retired,
                rs == match pre.read {
                    Some(r) => r.table.pair_seq(),
                    None => Seq::<(u64, usize)>::empty(),
                },
                rs_len == rs.len(),
                j <= rs_len,
                self.entries@.len() == pre.entries@.len(),
                forall|x: int|
                    0 <= x < rs.len() ==> pre.read_map().contains_key((#[trigger] rs[x]).0)
                        && pre.read_map()[rs[x].0] == rs[x].1 && rs[x].1 < pre.entries@.len(),
                forall|x: int, y: int|
                    0 <= x < y < rs.len() ==> (#[trigger] rs[x]).0 != (#[trigger] rs[y]).0,
                t.wf(),
                forall|x: int|
                    0 <= x < j && pre.entries@[(#[trigger] rs[x]).1 as int].state() is Live
                        ==> self.entries@[rs[x].1 as int] == pre.entries@[rs[x].1 as int]
                        && t@.contains_key(rs[x].0) && t@[rs[x].0] == rs[x].1,
                forall|x: int|
                    0 <= x < j && !(pre.entries@[(#[trigger] rs[x]).1 as int].state() is Live)
                        ==> self.entries@[rs[x].1 as int].state() is Expunged && !t@.contains_key(
                        rs[x].0,
                    ),
                forall|k: u64| #[trigger]
                    t@.contains_key(k) ==> exists|x: int|
                        0 <= x < j && (#[trigger] rs[x]).0 == k && rs[x].1 == t@[k],
                forall|idx: int|
                    0 <= idx < self.entries@.len() && (forall|x: int|
                        0 <= x < j ==> (#[trigger] rs[x]).1 != idx) ==> #[trigger] self.entries@[idx]
                        == pre.entries@[idx],
            decreases rs_len - j,
        {
            let p = match &self.read {
                Some(r) => r.table.at(j),
                None => {
                    proof {
                        assert(false);
                    }
                    (0u64, 0usize)
                },
            };
            let k = p.0;
            let i = p.1;
            proof {
                pre.lemma_refs();
                assert(rs[j as int] == p);
                assert(rs[j as int].0 == k && rs[j as int].1 == i);
                assert(pre.read_map().contains_key(k));
                assert(pre.read_map()[k] == i);
                assert(i < self.entries@.len());
                // No earlier position carries this key or this index:
                // keys are distinct and distinct keys have distinct
                // entries.
                assert forall|x: int| 0 <= x < j implies (#[trigger] rs[x]).0 != k && rs[x].1
                    != i by {
                    assert(rs[x].0 != rs[j as int].0);
                    assert(pre.read_map().contains_key(rs[x].0) && pre.read_map()[rs[x].0]
                        == rs[x].1);
                    assert(pre.refs()[rs[x].0] == rs[x].1);
                    assert(pre.refs()[k] == i);
                    assert(pre.refs()[rs[x].0] != pre.refs()[k]);
                }
                assert(self.entries@[i as int] == pre.entries@[i as int]);
            }
            let ghost t_before = t;
            let ghost entries_before = self.entries@;
            let mut e = swap_entry(&mut self.entries, i, Entry::new(None));
            let exp = e.try_unexpunge_locked();
            let _ = swap_entry(&mut self.entries, i, e);
            if !exp {
                t.insert(k, i);
                proof {
                    assert forall|k2: u64| #[trigger] t@.contains_key(k2) implies exists|x: int|
                        0 <= x < j + 1 && (#[trigger] rs[x]).0 == k2 && rs[x].1 == t@[k2] by {
                        if k2 == k {
                            assert(rs[j as int].0 == k2 && rs[j as int].1 == t@[k2]);
                        }
                    }
                }
            } else {
                proof {
                    // The entry was a tombstone (never expunged while the
                    // overlay is absent), so the key was not live.
                    assert(!(pre.entries@[i as int].state() is Live));
                    assert forall|k2: u64| #[trigger] t@.contains_key(k2) implies k2 != k by {
                        let x = choose|x: int|
                            0 <= x < j && (#[trigger] rs[x]).0 == k2 && rs[x].1 == t@[k2];
                        assert(rs[x].0 != rs[j as int].0);
                    }
                }
            }
            proof {
                assert(self.entries@ =~= entries_before.update(i as int, self.entries@[i as int]));
                assert forall|x: int|
                    0 <= x < j && pre.entries@[(#[trigger] rs[x]).1 as int].state()
                        is Live implies self.entries@[rs[x].1 as int] == pre.entries@[rs[x].1 as int]
                    && t@.contains_key(rs[x].0) && t@[rs[x].0] == rs[x].1 by {
                    assert(rs[x].1 != i && rs[x].0 != k);
                    assert(self.entries@[rs[x].1 as int] == entries_before[rs[x].1 as int]);
                }
                assert forall|x: int|
                    0 <= x < j && !(pre.entries@[(#[trigger] rs[x]).1 as int].state()
                        is Live) implies self.entries@[rs[x].1 as int].state() is Expunged
                    && !t@.contains_key(rs[x].0) by {
                    assert(rs[x].1 != i && rs[x].0 != k);
                    assert(self.entries@[rs[x].1 as int] == entries_before[rs[x].1 as int]);
                }
            }
            j += 1;
        }
        self.dirty = Some(t);
        proof {
            let post = *self;
            pre.lemma_refs();
            match pre.read {
                Some(r) => r.table.lemma_props(),
                None => {},
            }
            // Every snapshot key stands at some position of `rs`.
            assert forall|k: u64| #[trigger]
                post.read_map().contains_key(k) implies exists|x: int|
                0 <= x < rs.len() && (#[trigger] rs[x]).0 == k && rs[x].1 == post.read_map()[k] by {
                let x = choose|x: int| 0 <= x < rs.len() && (#[trigger] rs[x]).0 == k;
                assert(rs[x].1 == pre.read_map()[rs[x].0]);
            }
            // The overlay agrees with the snapshot and omits exactly the
            // expunged entries.
            assert forall|k: u64| #[trigger]
                post.read_map().contains_key(k) implies {
                &&& (post.slot_at(post.read_map()[k]) is Expunged <==> !post.dirty_map(
                ).contains_key(k))
                &&& (post.dirty_map().contains_key(k) ==> post.dirty_map()[k] == post.read_map(
                )[k])
            } by {
                let x = choose|x: int|
                    0 <= x < rs.len() && (#[trigger] rs[x]).0 == k && rs[x].1 == post.read_map()[k];
                if pre.entries@[rs[x].1 as int].state() is Live {
                    assert(post.entries@[rs[x].1 as int] == pre.entries@[rs[x].1 as int]);
                } else {
                    assert(post.slot_at(post.read_map()[k]) is Expunged);
                }
            }
            assert forall|k: u64| #[trigger]
                post.dirty_map().contains_key(k) implies pre.read_map().contains_key(k)
                && pre.slot_at(pre.read_map()[k]) is Live && post.dirty_map()[k]
                == pre.read_map()[k] by {
                let x = choose|x: int|
                    0 <= x < rs.len() && (#[trigger] rs[x]).0 == k && rs[x].1 == post.dirty_map(
                    )[k];
                assert(pre.read_map().contains_key(rs[x].0) && pre.read_map()[rs[x].0]
                    == rs[x].1);
                assert(pre.entries@[rs[x].1 as int].state() is Live);
            }
            assert forall|k: u64|
                pre.read_map().contains_key(k) && pre.slot_at(pre.read_map()[k])
                    is Live implies #[trigger] post.dirty_map().contains_key(k) by {
                let x = choose|x: int|
                    0 <= x < rs.len() && (#[trigger] rs[x]).0 == k && rs[x].1 == pre.read_map()[k];
            }
            assert forall|k: u64| #[trigger]
                pre.read_map().contains_key(k) implies (if pre.slot_at(pre.read_map()[k])
                is Live {
                post.slot_at(pre.read_map()[k]) == pre.slot_at(pre.read_map()[k])
            } else {
                post.slot_at(pre.read_map()[k]) is Expunged
            }) by {
                let x = choose|x: int|
                    0 <= x < rs.len() && (#[trigger] rs[x]).0 == k && rs[x].1 == pre.read_map()[k];
                if pre.entries@[rs[x].1 as int].state() is Live {
                    assert(post.entries@[rs[x].1 as int] == pre.entries@[rs[x].1 as int]);
                }
            }
            assert(post.dirty_map().dom().subset_of(post.read_map().dom())) by {
                assert forall|k: u64| #[trigger]
                    post.dirty_map().contains_key(k) implies post.read_map().contains_key(k) by {
                    let x = choose|x: int|
                        0 <= x < rs.len() && (#[trigger] rs[x]).0 == k && rs[x].1 == post.dirty_map(
                        )[k];
                }
            }
            // The combined association equals the snapshot's.
            assert forall|k: u64| #[trigger]
                post.refs().contains_key(k) implies post.read_map().contains_key(k) && post.refs(
            )[k] == post.read_map()[k] by {
                if post.dirty_map().contains_key(k) {
                    let x = choose|x: int|
                        0 <= x < rs.len() && (#[trigger] rs[x]).0 == k && rs[x].1 == post.dirty_map(
                        )[k];
                }
            }
            assert(post.wf()) by {
                assert forall|k: u64| #[trigger]
                    post.dirty_map().contains_key(k) implies !(post.slot_at(post.dirty_map()[k])
                    is Expunged) by {
                    let x = choose|x: int|
                        0 <= x < rs.len() && (#[trigger] rs[x]).0 == k && rs[x].1 == post.dirty_map(
                        )[k];
                    assert(pre.entries@[rs[x].1 as int].state() is Live);
                    assert(post.entries@[rs[x].1 as int] == pre.entries@[rs[x].1 as int]);
                }
                assert forall|k: u64| #[trigger]
                    post.dirty_map().contains_key(k) implies post.dirty_map()[k]
                    < post.entries@.len() by {
                    assert(post.read_map().contains_key(k));
                }
                assert forall|k1: u64, k2: u64|
                    #![trigger post.refs()[k1], post.refs()[k2]]
                    post.refs().contains_key(k1) && post.refs().contains_key(k2) && k1
                        != k2 implies post.refs()[k1] != post.refs()[k2] by {
                    assert(pre.refs()[k1] == pre.read_map()[k1]);
                    assert(pre.refs()[k2] == pre.read_map()[k2]);
                }
            }
            // The logical contents are untouched: live entries kept
            // their state, tombstones merely became expunged.
            assert forall|k: u64|
                #![trigger post.contents().contains_key(k)]
                true implies {
                &&& (post.contents().contains_key(k) <==> pre.contents().contains_key(k))
                &&& (post.contents().contains_key(k) ==> post.contents()[k] == pre.contents()[k])
            } by {
                pre.lemma_contents();
                post.lemma_contents();
                if pre.refs().contains_key(k) {
                    assert(pre.read_map().contains_key(k));
                    assert(pre.refs()[k] == pre.read_map()[k]);
                    assert(post.refs().contains_key(k) && post.refs()[k] == pre.read_map()[k]);
                    let x = choose|x: int|
                        0 <= x < rs.len() && (#[trigger] rs[x]).0 == k && rs[x].1
                            == post.read_map()[k];
                    if pre.entries@[rs[x].1 as int].state() is Live {
                        assert(post.entries@[rs[x].1 as int] == pre.entries@[rs[x].1 as int]);
                    } else {
                        assert(post.slot_at(post.refs()[k]) is Expunged);
                        assert(!(pre.slot_at(pre.refs()[k]) is Live));
                    }
                } else {
                    assert(!post.refs().contains_key(k));
                }
            }
            assert(post.contents() =~= pre.contents());
        }
    }
    /// Inserts the binding. A key the snapshot holds is updated in
    /// place unless its entry is expunged; everything else goes through
    /// the slow path: an expunged entry is unexpunged and reinstalled
    /// into the overlay, an overlay key is updated there, and a novel
    /// key gets a fresh entry in the overlay (rebuilding the overlay
    /// from the snapshot first, when it is absent). A displaced value
    /// is retained, never dropped.
    pub fn insert(&mut self, key: u64, value: V, guard: &Guard)
        requires
            old(self).wf(),
        ensures
            final(self).wf(),
            final(self).contents() == old(self).contents().insert(key, value),
            old(self).retained().is_prefix_of(final(self).retained()),
            old(self).contents().contains_key(key) ==> final(self).retained() == old(self).retained().push(old(self).contents()[key]),
            !old(self).contents().contains_key(key) ==> final(self).retained() == old(self).retained(),
            Self::read_stable(*old(self), *final(self)),
            final(self).read_map() == old(self).read_map(),
            final(self).miss_count() == old(self).miss_count(),
            // Fast path: an un-expunged snapshot entry is stored in
            // place; the overlay and the flag are untouched.
            old(self).read_map().contains_key(key) && !(old(self).slot_at(
                old(self).read_map()[key],
            ) is Expunged) ==> ({
                &&& final(self).dirty_map() == old(self).dirty_map()
                &&& final(self).has_dirty() == old(self).has_dirty()
                &&& final(self).overlay_len() == old(self).overlay_len()
                &&& final(self).amended() == old(self).amended()
                &&& final(self).slot_at(old(self).read_map()[key]) == Slot::<V>::Live(value)
            }),
            // Expunged snapshot entry: unexpunged in place and
            // reinstalled into the overlay at its snapshot entry.
            old(self).read_map().contains_key(key) && old(self).slot_at(
                old(self).read_map()[key],
            ) is Expunged ==> ({
                &&& final(self).dirty_map() == old(self).dirty_map().insert(
                    key,
                    old(self).read_map()[key],
                )
                &&& final(self).overlay_len() == old(self).overlay_len() + 1
                &&& final(self).amended() == old(self).amended()
                &&& final(self).slot_at(old(self).read_map()[key]) == Slot::<V>::Live(value)
            }),
            // Overlay hit: stored in place at the overlay's entry.
            !old(self).read_map().contains_key(key) && old(self).dirty_map().contains_key(key)
                ==> ({
                &&& final(self).dirty_map() == old(self).dirty_map()
                &&& final(self).overlay_len() == old(self).overlay_len()
                &&& final(self).amended() == old(self).amended()
                &&& final(self).slot_at(old(self).dirty_map()[key]) == Slot::<V>::Live(value)
            }),
            // Novel key: the overlay (rebuilt from the snapshot's live
            // entries when it was absent) receives the key in a fresh
            // live entry, and the snapshot counts as amended.
            !old(self).read_map().contains_key(key) && !old(self).dirty_map().contains_key(key)
                ==> ({
                &&& final(self).has_dirty()
                &&& final(self).amended()
                &&& final(self).dirty_map().contains_key(key)
                &&& final(self).slot_at(final(self).dirty_map()[key]) == Slot::<V>::Live(value)
                &&& (old(self).has_dirty() ==> final(self).dirty_map() == old(self).dirty_map().insert(key, final(self).dirty_map()[key]) && final(self).overlay_len() == old(self).overlay_len() + 1)
                &&& (!old(self).has_dirty() ==> forall|k2: u64|
                    #![trigger final(self).dirty_map().contains_key(k2)]
                    k2 != key ==> (final(self).dirty_map().contains_key(k2) <==> (old(self).read_map().contains_key(k2) && old(self).slot_at(
                        old(self).read_map()[k2],
                    ) is Live)))
                &&& (!old(self).has_dirty() && old(self).read_map() == Map::<u64, usize>::empty()
                    ==> final(self).overlay_len() == 1)
            }),
    {
        self.put(key, value)
    }

    /// The write path shared by `insert`.
    fn put(&mut self, key: u64, value: V)
        requires
            old(self).wf(),
        ensures
            final(self).wf(),
            final(self).contents() == old(self).contents().insert(key, value),
            old(self).retained().is_prefix_of(final(self).retained()),
            old(self).contents().contains_key(key) ==> final(self).retained() == old(self).retained().push(old(self).contents()[key]),
            !old(self).contents().contains_key(key) ==> final(self).retained() == old(self).retained(),
            Self::read_stable(*old(self), *final(self)),
            final(self).read_map() == old(self).read_map(),
            final(self).miss_count() == old(self).miss_count(),
            // Fast path: an un-expunged snapshot entry is stored in
            // place; the overlay and the flag are untouched.
            old(self).read_map().contains_key(key) && !(old(self).slot_at(
                old(self).read_map()[key],
            ) is Expunged) ==> ({
                &&& final(self).dirty_map() == old(self).dirty_map()
                &&& final(self).has_dirty() == old(self).has_dirty()
                &&& final(self).overlay_len() == old(self).overlay_len()
                &&& final(self).amended() == old(self).amended()
                &&& final(self).slot_at(old(self).read_map()[key]) == Slot::<V>::Live(value)
            }),
            // Expunged snapshot entry: unexpunged in place and
            // reinstalled into the overlay at its snapshot entry.
            old(self).read_map().contains_key(key) && old(self).slot_at(
                old(self).read_map()[key],
            ) is Expunged ==> ({
                &&& final(self).dirty_map() == old(self).dirty_map().insert(
                    key,
                    old(self).read_map()[key],
                )
                &&& final(self).overlay_len() == old(self).overlay_len() + 1
                &&& final(self).amended() == old(self).amended()
                &&& final(self).slot_at(old(self).read_map()[key]) == Slot::<V>::Live(value)
            }),
            // Overlay hit: stored in place at the overlay's entry.
            !old(self).read_map().contains_key(key) && old(self).dirty_map().contains_key(key)
                ==> ({
                &&& final(self).dirty_map() == old(self).dirty_map()
                &&& final(self).overlay_len() == old(self).overlay_len()
                &&& final(self).amended() == old(self).amended()
                &&& final(self).slot_at(old(self).dirty_map()[key]) == Slot::<V>::Live(value)
            }),
            // Novel key: the overlay (rebuilt from the snapshot's live
            // entries when it was absent) receives the key in a fresh
            // live entry, and the snapshot counts as amended.
            !old(self).read_map().contains_key(key) && !old(self).dirty_map().contains_key(key)
                ==> ({
                &&& final(self).has_dirty()
                &&& final(self).amended()
                &&& final(self).dirty_map().contains_key(key)
                &&& final(self).slot_at(final(self).dirty_map()[key]) == Slot::<V>::Live(value)
                &&& (old(self).has_dirty() ==> final(self).dirty_map() == old(self).dirty_map().insert(key, final(self).dirty_map()[key]) && final(self).overlay_len() == old(self).overlay_len() + 1)
                &&& (!old(self).has_dirty() ==> forall|k2: u64|
                    #![trigger final(self).dirty_map().contains_key(k2)]
                    k2 != key ==> (final(self).dirty_map().contains_key(k2) <==> (old(self).read_map().contains_key(k2) && old(self).slot_at(
                        old(self).read_map()[k2],
                    ) is Live)))
                &&& (!old(self).has_dirty() && old(self).read_map() == Map::<u64, usize>::empty()
                    ==> final(self).overlay_len() == 1)
            }),
    {
        if self.read.is_none() {
            self.init_table();
        }
        let ghost pre = *self;
        proof {
            pre.lemma_refs();
            pre.lemma_contents();
            assert(pre.contents() == old(self).contents());
            assert(pre.retained() == old(self).retained());
            assert(pre.read_map() == old(self).read_map());
            assert(pre.dirty_map() == old(self).dirty_map());
            assert(pre.amended() == old(self).amended());
            assert(pre.entries@ == old(self).entries@);
            assert(pre.miss_count() == old(self).miss_count());
        }
        let ridx = match &self.read {
            Some(r) => r.table.get(key),
            None => None,
        };
        if let Some(i) = ridx {
            proof {
                assert(pre.refs().contains_key(key) && pre.refs()[key] == i);
                assert(i < self.entries@.len());
            }
            let mut e = swap_entry(&mut self.entries, i, Entry::new(None));
            match e.try_store(value) {
                Ok(displaced) => {
                    let _ = swap_entry(&mut self.entries, i, e);
                    if let Some(w) = displaced {
                        self.retired.push(w);
                    }
                    proof {
                        Self::lemma_store_frame(pre, *self, key, value);
                        assert(pre.retired@.is_prefix_of(self.retired@)) by {
                            assert(self.retired@.subrange(0, pre.retired@.len() as int)
                                =~= pre.retired@);
                        }
                        assert(i == old(self).read_map()[key]);
                        assert(!(old(self).slot_at(i) is Expunged));
                        assert(self.slot_at(i) == Slot::<V>::Live(value));
                        assert(self.read_map() == old(self).read_map());
                        assert(self.dirty_map() == old(self).dirty_map());
                    }
                    return;
                },
                Err(v) => {
                    // The entry is expunged: unexpunge it, store, and
                    // reinstall it into the overlay, which the expunged
                    // state guarantees to exist.
                    let _ = e.unexpunge_locked();
                    let displaced = e.store_locked(v);
                    let _ = swap_entry(&mut self.entries, i, e);
                    proof {
                        assert(displaced is None);
                        assert(pre.slot_at(i) is Expunged);
                        assert(pre.dirty is Some);
                    }
                    match &mut self.dirty {
                        Some(d) => d.insert(key, i),
                        None => {
                            proof {
                                assert(false);
                            }
                        },
                    }
                    proof {
                        Self::lemma_store_frame(pre, *self, key, value);
                        assert(pre.retired@.is_prefix_of(self.retired@)) by {
                            assert(self.retired@.subrange(0, pre.retired@.len() as int)
                                =~= pre.retired@);
                        }
                        assert(i == old(self).read_map()[key]);
                        assert(old(self).slot_at(i) is Expunged);
                        assert(self.slot_at(i) == Slot::<V>::Live(value));
                        assert(self.read_map() == old(self).read_map());
                        assert(self.dirty_map() == old(self).dirty_map().insert(key, i));
                        assert(!pre.dirty_map().contains_key(key));
                        pre.lemma_dirty_finite();
                        assert(self.dirty_map().dom() =~= pre.dirty_map().dom().insert(key));
                        assert(self.overlay_len() == old(self).overlay_len() + 1);
                    }
                    return;
                },
            }
        }
        let didx = match &self.dirty {
            Some(d) => d.get(key),
            None => None,
        };
        if let Some(j) = didx {
            proof {
                assert(pre.refs().contains_key(key) && pre.refs()[key] == j);
                assert(j < self.entries@.len());
                assert(!(pre.slot_at(j) is Expunged));
            }
            let mut e = swap_entry(&mut self.entries, j, Entry::new(None));
            let displaced = e.store_locked(value);
            let _ = swap_entry(&mut self.entries, j, e);
            if let Some(w) = displaced {
                self.retired.push(w);
            }
            proof {
                Self::lemma_store_frame(pre, *self, key, value);
                assert(pre.retired@.is_prefix_of(self.retired@)) by {
                    assert(self.retired@.subrange(0, pre.retired@.len() as int) =~= pre.retired@);
                }
                assert(!old(self).read_map().contains_key(key));
                assert(j == old(self).dirty_map()[key]);
                assert(self.slot_at(j) == Slot::<V>::Live(value));
                assert(self.read_map() == old(self).read_map());
                assert(self.dirty_map() == old(self).dirty_map());
            }
            return;
        }
        // Novel key.
        let amended = match &self.read {
            Some(r) => r.amended,
            None => false,
        };
        if !amended && self.dirty.is_none() {
            self.rebuild_dirty();
        }
        let ghost mid = *self;
        proof {
            assert(mid.wf());
            assert(mid.contents() == pre.contents());
            assert(mid.read is Some && mid.dirty is Some);
            assert(!mid.read_map().contains_key(key));
            assert(!mid.dirty_map().contains_key(key));
            assert(mid.retained() == pre.retained());
        }
        let n = self.entries.len();
        self.entries.push(Entry::new(Some(value)));
        match &mut self.dirty {
            Some(d) => d.insert(key, n),
            None => {
                proof {
                    assert(false);
                }
            },
        }
        match &mut self.read {
            Some(r) => {
                if !r.amended {
                    r.amended = true;
                }
            },
            None => {
                proof {
                    assert(false);
                }
            },
        }
        proof {
            Self::lemma_novel_frame(mid, *self, key, n, value);
            assert(pre.retired@.is_prefix_of(self.retired@)) by {
                assert(self.retired@.subrange(0, pre.retired@.len() as int) =~= pre.retired@);
            }
            assert(!old(self).read_map().contains_key(key));
            assert(!old(self).dirty_map().contains_key(key));
            assert(self.dirty_map() == mid.dirty_map().insert(key, n));
            assert(self.dirty_map()[key] == n);
            assert(!mid.dirty_map().contains_key(key));
            mid.lemma_dirty_finite();
            assert(self.dirty_map().dom() =~= mid.dirty_map().dom().insert(key));
            assert(self.overlay_len() == mid.overlay_len() + 1);
            assert(self.read_map() == mid.read_map());
            assert(self.read_map() == old(self).read_map());
            assert(self.amended());
            assert(self.slot_at(self.dirty_map()[key]) == Slot::<V>::Live(value));
            if old(self).has_dirty() {
                assert(mid.dirty_map() == old(self).dirty_map());
                assert(self.overlay_len() == old(self).overlay_len() + 1);
            } else if old(self).read is None {
                // The tiers were just allocated: the overlay was empty
                // and the snapshot is empty.
                assert(mid.dirty_map() == Map::<u64, usize>::empty());
                assert forall|k2: u64|
                    #![trigger self.dirty_map().contains_key(k2)]
                    k2 != key implies (self.dirty_map().contains_key(k2) <==> (old(self).read_map().contains_key(k2) && old(self).slot_at(old(self).read_map()[k2])
                    is Live)) by {
                    assert(!old(self).read_map().contains_key(k2));
                }
                assert(mid.dirty_map().dom() =~= Set::<u64>::empty());
                assert(self.overlay_len() == 1);
            } else {
                // The overlay was rebuilt from the snapshot's live
                // entries just above.
                assert forall|k2: u64|
                    #![trigger self.dirty_map().contains_key(k2)]
                    k2 != key implies (self.dirty_map().contains_key(k2) <==> (old(self).read_map().contains_key(k2) && old(self).slot_at(old(self).read_map()[k2])
                    is Live)) by {
                    assert(mid.dirty_map().contains_key(k2) <==> (pre.read_map().contains_key(k2)
                        && pre.slot_at(pre.read_map()[k2]) is Live));
                }
                if old(self).read_map() == Map::<u64, usize>::empty() {
                    assert(mid.dirty_map().dom() =~= Set::<u64>::empty()) by {
                        assert forall|k2: u64| !(#[trigger] mid.dirty_map().dom().contains(
                            k2,
                        )) by {
                            if mid.dirty_map().contains_key(k2) {
                                assert(pre.read_map().contains_key(k2));
                            }
                        }
                    }
                    assert(self.overlay_len() == 1);
                }
            }
        }
    }

    /// Removes the key. A snapshot hit empties the entry in place; a
    /// miss on an amended snapshot detaches the key from the overlay
    /// (counting a miss, possibly promoting) and then empties the
    /// detached entry. The detached value is retained by the map and a
    /// reference to it is returned.
    pub fn remove(&mut self, key: &u64, guard: &Guard) -> (r: Option<&V>)
        requires
            old(self).wf(),
        ensures
            final(self).wf(),
            final(self).contents() == old(self).contents().remove(*key),
            Self::read_stable(*old(self), *final(self)),
            match r {
                Some(v) => {
                    &&& old(self).contents().contains_key(*key)
                    &&& *v == old(self).contents()[*key]
                    &&& final(self).retained() == old(self).retained().push(*v)
                },
                None => {
                    &&& !old(self).contents().contains_key(*key)
                    &&& final(self).retained() == old(self).retained()
                },
            },
            old(self).retained().is_prefix_of(final(self).retained()),
    {
        let ghost pre = *old(self);
        proof {
            pre.lemma_refs();
            pre.lemma_contents();
        }
        let k = *key;
        if self.read.is_none() {
            proof {
                assert(!pre.contents().contains_key(k));
                assert(pre.contents().remove(k) =~= pre.contents());
                assert(pre.retired@.is_prefix_of(self.retired@)) by {
                    assert(self.retired@.subrange(0, pre.retired@.len() as int) =~= pre.retired@);
                }
            }
            return None;
        }
        let ridx = match &self.read {
            Some(r) => r.table.get(k),
            None => None,
        };
        if let Some(i) = ridx {
            proof {
                assert(pre.refs().contains_key(k) && pre.refs()[k] == i);
                assert(i < self.entries@.len());
            }
            let mut e = swap_entry(&mut self.entries, i, Entry::new(None));
            let detached = e.remove();
            let _ = swap_entry(&mut self.entries, i, e);
            match detached {
                Some(v) => {
                    proof {
                        assert(pre.slot_at(i) == Slot::Live(v));
                        assert(pre.contents().contains_key(k) && pre.contents()[k] == v);
                        Self::lemma_detach_frame(pre, *self, k);
                    }
                    self.retired.push(v);
                    let idx = self.retired.len() - 1;
                    proof {
                        assert(pre.retired@.is_prefix_of(self.retired@)) by {
                            assert(self.retired@.subrange(0, pre.retired@.len() as int)
                                =~= pre.retired@);
                        }
                    }
                    return Some(&self.retired[idx]);
                },
                None => {
                    proof {
                        assert(!(pre.slot_at(i) is Live));
                        assert(!pre.contents().contains_key(k));
                        assert(self.entries@ =~= pre.entries@);
                        assert(self.wf());
                        assert(self.contents() =~= pre.contents()) by {
                            self.lemma_contents();
                            pre.lemma_contents();
                            assert(self.refs() == pre.refs());
                            assert forall|k2: u64| true implies #[trigger] self.slot_at(
                                self.refs()[k2],
                            ) == pre.slot_at(pre.refs()[k2]) by {
                                assert(self.entries@ == pre.entries@);
                            }
                        }
                        assert(pre.contents().remove(k) =~= pre.contents());
                        assert(pre.retired@.is_prefix_of(self.retired@)) by {
                            assert(self.retired@.subrange(0, pre.retired@.len() as int)
                                =~= pre.retired@);
                        }
                    }
                    return None;
                },
            }
        }
        let amended = match &self.read {
            Some(r) => r.amended,
            None => false,
        };
        if amended {
            let didx = match &self.dirty {
                Some(d) => d.get(k),
                None => None,
            };
            if let Some(j) = didx {
                proof {
                    assert(pre.refs().contains_key(k) && pre.refs()[k] == j);
                }
                match &mut self.dirty {
                    Some(d) => {
                        let _ = d.remove(k);
                    },
                    None => {
                        proof {
                            assert(false);
                        }
                    },
                }
                proof {
                    Self::lemma_overlay_detach(pre, *self, k);
                }
                let ghost s1 = *self;
                self.miss_locked();
                let ghost s2 = *self;
                proof {
                    assert forall|k2: u64| #[trigger]
                        s2.refs().contains_key(k2) implies s2.refs()[k2] != j by {
                        assert(s1.refs().contains_key(k2) && s2.refs()[k2] == s1.refs()[k2]);
                        assert(pre.refs().contains_key(k2) && s1.refs()[k2] == pre.refs()[k2]);
                        assert(k2 != k);
                        assert(pre.refs()[k2] != pre.refs()[k]);
                    }
                    assert(j < self.entries@.len());
                }
                let mut e = swap_entry(&mut self.entries, j, Entry::new(None));
                let detached = e.remove();
                let _ = swap_entry(&mut self.entries, j, e);
                proof {
                    Self::lemma_unreferenced_frame(s2, *self, j);
                }
                match detached {
                    Some(v) => {
                        proof {
                            assert(pre.slot_at(j) == Slot::Live(v));
                            assert(pre.contents().contains_key(k) && pre.contents()[k] == v);
                        }
                        self.retired.push(v);
                        let idx = self.retired.len() - 1;
                        proof {
                            assert(pre.retired@.is_prefix_of(self.retired@)) by {
                                assert(self.retired@.subrange(0, pre.retired@.len() as int)
                                    =~= pre.retired@);
                            }
                        }
                        return Some(&self.retired[idx]);
                    },
                    None => {
                        proof {
                            assert(!(pre.slot_at(j) is Live));
                            assert(!pre.contents().contains_key(k));
                            assert(pre.contents().remove(k) =~= pre.contents());
                            assert(pre.retired@.is_prefix_of(self.retired@)) by {
                                assert(self.retired@.subrange(0, pre.retired@.len() as int)
                                    =~= pre.retired@);
                            }
                        }
                        return None;
                    },
                }
            }
            self.miss_locked();
            proof {
                assert(!pre.refs().contains_key(k));
                assert(!pre.contents().contains_key(k));
                assert(pre.contents().remove(k) =~= pre.contents());
                assert(pre.retired@.is_prefix_of(self.retired@)) by {
                    assert(self.retired@.subrange(0, pre.retired@.len() as int) =~= pre.retired@);
                }
            }
            return None;
        }
        proof {
            if pre.dirty is Some {
                assert(pre.dirty_map().dom().subset_of(pre.read_map().dom()));
            }
            assert(!pre.refs().contains_key(k));
            assert(!pre.contents().contains_key(k));
            assert(pre.contents().remove(k) =~= pre.contents());
            assert(pre.retired@.is_prefix_of(self.retired@)) by {
                assert(self.retired@.subrange(0, pre.retired@.len() as int) =~= pre.retired@);
            }
        }
        None
    }

    /// Storing a value into the entry of a key the map already refers
    /// to (possibly installing the key back into the overlay at its
    /// snapshot entry) inserts the binding and preserves the invariant.
    proof fn lemma_store_frame(pre: Self, post: Self, k: u64, value: V)
        requires
            pre.wf(),
            post.read == pre.read,
            pre.refs().contains_key(k),
            post.dirty == pre.dirty || (pre.read_map().contains_key(k) && pre.dirty is Some
                && post.dirty is Some && post.dirty_map() == pre.dirty_map().insert(
                k,
                pre.read_map()[k],
            )),
            match post.dirty {
                Some(d) => d.wf(),
                None => true,
            },
            post.entries@.len() == pre.entries@.len(),
            post.slot_at(pre.refs()[k]) == Slot::Live(value),
            forall|idx: int|
                0 <= idx < pre.entries@.len() && idx != pre.refs()[k] as int ==> #[trigger]
                    post.entries@[idx] == pre.entries@[idx],
            !(pre.slot_at(pre.refs()[k]) is Expunged) || post.dirty_map().contains_key(k),
        ensures
            post.wf(),
            post.contents() == pre.contents().insert(k, value),
    {
        pre.lemma_refs();
        let i = pre.refs()[k];
        assert(post.refs() =~= pre.refs()) by {
            if post.dirty != pre.dirty {
                assert(pre.refs()[k] == pre.read_map()[k]) by {
                    if pre.dirty_map().contains_key(k) {
                        assert(pre.dirty_map()[k] == pre.read_map()[k]);
                    }
                }
                assert forall|k2: u64| #[trigger]
                    post.refs().contains_key(k2) implies pre.refs().contains_key(k2)
                    && post.refs()[k2] == pre.refs()[k2] by {
                    if k2 != k && post.dirty_map().contains_key(k2) {
                        assert(pre.dirty_map().contains_key(k2));
                    }
                }
                assert forall|k2: u64| #[trigger]
                    pre.refs().contains_key(k2) implies post.refs().contains_key(k2) by {
                    if k2 != k && pre.dirty_map().contains_key(k2) {
                        assert(post.dirty_map().contains_key(k2));
                    }
                }
            }
        }
        assert(post.wf()) by {
            assert(post.read_map() == pre.read_map());
            if post.dirty is Some {
                assert forall|k2: u64| #[trigger]
                    post.read_map().contains_key(k2) implies {
                    &&& (post.slot_at(post.read_map()[k2]) is Expunged <==> !post.dirty_map(
                    ).contains_key(k2))
                    &&& (post.dirty_map().contains_key(k2) ==> post.dirty_map()[k2]
                        == post.read_map()[k2])
                } by {
                    if k2 == k {
                        assert(pre.refs()[k] == pre.read_map()[k]) by {
                            if pre.dirty_map().contains_key(k) {
                                assert(pre.dirty_map()[k] == pre.read_map()[k]);
                            }
                        }
                        assert(post.slot_at(post.read_map()[k2]) == Slot::Live(value));
                        if post.dirty == pre.dirty {
                            assert(!(pre.slot_at(pre.refs()[k]) is Expunged));
                            assert(pre.dirty_map().contains_key(k));
                        }
                    } else {
                        assert(pre.read_map()[k2] == pre.refs()[k2]);
                        assert(pre.refs()[k2] != i);
                        assert(post.slot_at(post.read_map()[k2]) == pre.slot_at(
                            pre.read_map()[k2],
                        ));
                        assert(post.dirty_map().contains_key(k2) == pre.dirty_map().contains_key(
                            k2,
                        ));
                    }
                }
                assert forall|k2: u64| #[trigger]
                    post.dirty_map().contains_key(k2) implies !(post.slot_at(
                    post.dirty_map()[k2],
                ) is Expunged) by {
                    if k2 == k {
                        if post.dirty == pre.dirty {
                            assert(pre.dirty_map().contains_key(k));
                            assert(post.dirty_map()[k2] == pre.refs()[k]);
                        } else {
                            assert(post.dirty_map()[k2] == pre.read_map()[k]);
                            assert(pre.refs()[k] == pre.read_map()[k]) by {
                                if pre.dirty_map().contains_key(k) {
                                    assert(pre.dirty_map()[k] == pre.read_map()[k]);
                                }
                            }
                        }
                        assert(post.slot_at(post.dirty_map()[k2]) == Slot::Live(value));
                    } else {
                        assert(pre.dirty_map().contains_key(k2));
                        assert(pre.dirty_map()[k2] == pre.refs()[k2]);
                        assert(pre.refs()[k2] != i);
                    }
                }
                assert forall|k2: u64| #[trigger]
                    post.dirty_map().contains_key(k2) implies post.dirty_map()[k2]
                    < post.entries@.len() by {
                    if k2 == k {
                    } else {
                        assert(pre.dirty_map().contains_key(k2));
                    }
                }
            }
            if post.dirty is None {
                assert forall|k2: u64| #[trigger]
                    post.read_map().contains_key(k2) implies !(post.slot_at(
                    post.read_map()[k2],
                ) is Expunged) by {
                    if k2 != k {
                        assert(pre.read_map()[k2] == pre.refs()[k2]);
                        assert(pre.refs()[k2] != i);
                    } else {
                        assert(post.slot_at(post.read_map()[k2]) == Slot::Live(value));
                    }
                }
            }
            if !post.amended() && post.dirty is Some {
                assert(post.dirty_map().dom().subset_of(post.read_map().dom())) by {
                    assert forall|k2: u64| #[trigger]
                        post.dirty_map().contains_key(k2) implies post.read_map().contains_key(
                        k2,
                    ) by {
                        if k2 != k {
                            assert(pre.dirty_map().contains_key(k2));
                        }
                    }
                }
            }
            assert forall|k1: u64, k2: u64|
                #![trigger post.refs()[k1], post.refs()[k2]]
                post.refs().contains_key(k1) && post.refs().contains_key(k2) && k1
                    != k2 implies post.refs()[k1] != post.refs()[k2] by {
                assert(pre.refs()[k1] != pre.refs()[k2]);
            }
        }
        assert(post.contents() =~= pre.contents().insert(k, value)) by {
            pre.lemma_contents();
            post.lemma_contents();
            assert forall|k2: u64|
                #![trigger post.contents().contains_key(k2)]
                k2 != k implies (post.contents().contains_key(k2) == pre.contents().contains_key(
                k2,
            ) && (post.contents().contains_key(k2) ==> post.contents()[k2]
                == pre.contents()[k2])) by {
                if pre.refs().contains_key(k2) {
                    assert(pre.refs()[k2] != i);
                    assert(post.slot_at(post.refs()[k2]) == pre.slot_at(pre.refs()[k2]));
                }
            }
            assert(post.contents().contains_key(k) && post.contents()[k] == value);
        }
    }

    /// Emptying the entry of a live key the map refers to removes the
    /// binding and preserves the invariant.
    proof fn lemma_detach_frame(pre: Self, post: Self, k: u64)
        requires
            pre.wf(),
            post.read == pre.read,
            post.dirty == pre.dirty,
            pre.refs().contains_key(k),
            pre.slot_at(pre.refs()[k]) is Live,
            post.slot_at(pre.refs()[k]) is Empty,
            post.entries@.len() == pre.entries@.len(),
            forall|idx: int|
                0 <= idx < pre.entries@.len() && idx != pre.refs()[k] as int ==> #[trigger]
                    post.entries@[idx] == pre.entries@[idx],
        ensures
            post.wf(),
            post.contents() == pre.contents().remove(k),
    {
        pre.lemma_refs();
        let i = pre.refs()[k];
        assert(post.refs() == pre.refs());
        assert(post.wf()) by {
            if post.dirty is Some {
                assert forall|k2: u64| #[trigger]
                    post.read_map().contains_key(k2) implies {
                    &&& (post.slot_at(post.read_map()[k2]) is Expunged <==> !post.dirty_map(
                    ).contains_key(k2))
                    &&& (post.dirty_map().contains_key(k2) ==> post.dirty_map()[k2]
                        == post.read_map()[k2])
                } by {
                    if k2 == k && pre.read_map().contains_key(k) {
                        assert(pre.read_map()[k] == pre.refs()[k]);
                        assert(!(pre.slot_at(pre.refs()[k]) is Expunged));
                        assert(pre.dirty_map().contains_key(k));
                    } else {
                        assert(pre.read_map()[k2] == pre.refs()[k2]);
                        assert(pre.refs()[k2] != i);
                    }
                }
                assert forall|k2: u64| #[trigger]
                    post.dirty_map().contains_key(k2) implies !(post.slot_at(
                    post.dirty_map()[k2],
                ) is Expunged) by {
                    assert(pre.dirty_map()[k2] == pre.refs()[k2]);
                    if k2 != k {
                        assert(pre.refs()[k2] != i);
                    }
                }
            }
            if post.dirty is None {
                assert forall|k2: u64| #[trigger]
                    post.read_map().contains_key(k2) implies !(post.slot_at(
                    post.read_map()[k2],
                ) is Expunged) by {
                    assert(pre.read_map()[k2] == pre.refs()[k2]);
                    if k2 != k {
                        assert(pre.refs()[k2] != i);
                    }
                }
            }
        }
        assert(post.contents() =~= pre.contents().remove(k)) by {
            pre.lemma_contents();
            post.lemma_contents();
            assert forall|k2: u64|
                #![trigger post.contents().contains_key(k2)]
                k2 != k implies (post.contents().contains_key(k2) == pre.contents().contains_key(
                k2,
            ) && (post.contents().contains_key(k2) ==> post.contents()[k2]
                == pre.contents()[k2])) by {
                if pre.refs().contains_key(k2) {
                    assert(pre.refs()[k2] != i);
                    assert(post.slot_at(post.refs()[k2]) == pre.slot_at(pre.refs()[k2]));
                }
            }
            assert(!post.contents().contains_key(k));
        }
    }

    /// Installing a fresh live entry for a key neither tier holds
    /// inserts the binding and preserves the invariant.
    proof fn lemma_novel_frame(pre: Self, post: Self, k: u64, n: usize, value: V)
        requires
            pre.wf(),
            pre.read is Some,
            pre.dirty is Some,
            post.dirty is Some,
            !pre.read_map().contains_key(k),
            !pre.dirty_map().contains_key(k),
            match (post.read, pre.read) {
                (Some(a), Some(b)) => a.table == b.table,
                _ => false,
            },
            post.amended(),
            match post.dirty {
                Some(d) => d.wf(),
                None => true,
            },
            n == pre.entries@.len(),
            post.dirty_map() == pre.dirty_map().insert(k, n),
            post.entries@.len() == pre.entries@.len() + 1,
            forall|idx: int|
                0 <= idx < pre.entries@.len() ==> #[trigger] post.entries@[idx]
                    == pre.entries@[idx],
            post.slot_at(n) == Slot::Live(value),
        ensures
            post.wf(),
            post.contents() == pre.contents().insert(k, value),
    {
        pre.lemma_refs();
        assert(post.read_map() == pre.read_map());
        assert(post.refs() =~= pre.refs().insert(k, n)) by {
            assert forall|k2: u64| #[trigger]
                post.refs().contains_key(k2) && k2 != k implies pre.refs().contains_key(k2)
                && post.refs()[k2] == pre.refs()[k2] by {
                if post.dirty_map().contains_key(k2) {
                    assert(pre.dirty_map().contains_key(k2));
                }
            }
            assert forall|k2: u64| #[trigger]
                pre.refs().contains_key(k2) implies post.refs().contains_key(k2) by {
                if pre.dirty_map().contains_key(k2) {
                    assert(post.dirty_map().contains_key(k2));
                }
            }
            assert(post.refs().contains_key(k) && post.refs()[k] == n);
        }
        assert(post.wf()) by {
            assert forall|k2: u64| #[trigger]
                post.read_map().contains_key(k2) implies {
                &&& (post.slot_at(post.read_map()[k2]) is Expunged <==> !post.dirty_map(
                ).contains_key(k2))
                &&& (post.dirty_map().contains_key(k2) ==> post.dirty_map()[k2]
                    == post.read_map()[k2])
            } by {
                assert(k2 != k);
                assert(pre.read_map()[k2] < n);
                assert(post.slot_at(post.read_map()[k2]) == pre.slot_at(pre.read_map()[k2]));
            }
            assert forall|k2: u64| #[trigger]
                post.dirty_map().contains_key(k2) implies !(post.slot_at(post.dirty_map()[k2])
                is Expunged) && post.dirty_map()[k2] < post.entries@.len() by {
                if k2 != k {
                    assert(pre.dirty_map().contains_key(k2));
                    assert(pre.dirty_map()[k2] < n);
                }
            }
            assert forall|k1: u64, k2: u64|
                #![trigger post.refs()[k1], post.refs()[k2]]
                post.refs().contains_key(k1) && post.refs().contains_key(k2) && k1
                    != k2 implies post.refs()[k1] != post.refs()[k2] by {
                if k1 != k && k2 != k {
                    assert(pre.refs()[k1] != pre.refs()[k2]);
                } else if k1 == k {
                    assert(pre.refs().contains_key(k2) && pre.refs()[k2] < n);
                } else {
                    assert(pre.refs().contains_key(k1) && pre.refs()[k1] < n);
                }
            }
        }
        assert(post.contents() =~= pre.contents().insert(k, value)) by {
            pre.lemma_contents();
            post.lemma_contents();
            assert forall|k2: u64|
                #![trigger post.contents().contains_key(k2)]
                k2 != k implies (post.contents().contains_key(k2) == pre.contents().contains_key(
                k2,
            ) && (post.contents().contains_key(k2) ==> post.contents()[k2]
                == pre.contents()[k2])) by {
                if pre.refs().contains_key(k2) {
                    assert(pre.refs()[k2] < n);
                    assert(post.slot_at(post.refs()[k2]) == pre.slot_at(pre.refs()[k2]));
                }
            }
            assert(post.contents().contains_key(k) && post.contents()[k] == value);
        }
    }

    /// Detaching an overlay-only key from the overlay removes the
    /// binding and preserves the invariant; no surviving key moves.
    proof fn lemma_overlay_detach(pre: Self, post: Self, k: u64)
        requires
            pre.wf(),
            post.read == pre.read,
            post.entries@ == pre.entries@,
            pre.dirty is Some,
            post.dirty is Some,
            match post.dirty {
                Some(d) => d.wf(),
                None => true,
            },
            !pre.read_map().contains_key(k),
            post.dirty_map() == pre.dirty_map().remove(k),
        ensures
            post.wf(),
            post.contents() == pre.contents().remove(k),
            forall|k2: u64| #[trigger]
                post.refs().contains_key(k2) ==> pre.refs().contains_key(k2) && post.refs()[k2]
                    == pre.refs()[k2],
    {
        pre.lemma_refs();
        assert forall|k2: u64| #[trigger]
            post.refs().contains_key(k2) implies pre.refs().contains_key(k2) && post.refs()[k2]
            == pre.refs()[k2] by {
            if post.dirty_map().contains_key(k2) {
                assert(pre.dirty_map().contains_key(k2));
            }
        }
        assert(post.wf()) by {
            assert forall|k2: u64| #[trigger]
                post.read_map().contains_key(k2) implies {
                &&& (post.slot_at(post.read_map()[k2]) is Expunged <==> !post.dirty_map(
                ).contains_key(k2))
                &&& (post.dirty_map().contains_key(k2) ==> post.dirty_map()[k2]
                    == post.read_map()[k2])
            } by {
                assert(k2 != k);
            }
            assert forall|k1: u64, k2: u64|
                #![trigger post.refs()[k1], post.refs()[k2]]
                post.refs().contains_key(k1) && post.refs().contains_key(k2) && k1
                    != k2 implies post.refs()[k1] != post.refs()[k2] by {
                assert(pre.refs()[k1] != pre.refs()[k2]);
            }
        }
        assert(post.contents() =~= pre.contents().remove(k)) by {
            pre.lemma_contents();
            post.lemma_contents();
            assert forall|k2: u64|
                #![trigger post.contents().contains_key(k2)]
                k2 != k implies (post.contents().contains_key(k2) == pre.contents().contains_key(
                k2,
            ) && (post.contents().contains_key(k2) ==> post.contents()[k2]
                == pre.contents()[k2])) by {
                if pre.refs().contains_key(k2) && post.refs().contains_key(k2) {
                    assert(post.slot_at(post.refs()[k2]) == pre.slot_at(pre.refs()[k2]));
                }
            }
            assert(!post.contents().contains_key(k));
        }
    }

    /// Changing an entry that no key refers to leaves the contents and
    /// the invariant untouched.
    proof fn lemma_unreferenced_frame(pre: Self, post: Self, j: usize)
        requires
            pre.wf(),
            post.read == pre.read,
            post.dirty == pre.dirty,
            post.entries@.len() == pre.entries@.len(),
            forall|k: u64| #[trigger] pre.refs().contains_key(k) ==> pre.refs()[k] != j,
            forall|idx: int|
                0 <= idx < pre.entries@.len() && idx != j as int ==> #[trigger] post.entries@[idx]
                    == pre.entries@[idx],
        ensures
            post.wf(),
            post.contents() == pre.contents(),
    {
        pre.lemma_refs();
        assert(post.refs() == pre.refs());
        assert(post.wf()) by {
            if post.dirty is Some {
                assert forall|k2: u64| #[trigger]
                    post.read_map().contains_key(k2) implies {
                    &&& (post.slot_at(post.read_map()[k2]) is Expunged <==> !post.dirty_map(
                    ).contains_key(k2))
                    &&& (post.dirty_map().contains_key(k2) ==> post.dirty_map()[k2]
                        == post.read_map()[k2])
                } by {
                    assert(pre.read_map()[k2] == pre.refs()[k2]);
                    assert(pre.refs()[k2] != j);
                }
                assert forall|k2: u64| #[trigger]
                    post.dirty_map().contains_key(k2) implies !(post.slot_at(
                    post.dirty_map()[k2],
                ) is Expunged) by {
                    assert(pre.dirty_map()[k2] == pre.refs()[k2]);
                    assert(pre.refs()[k2] != j);
                }
            }
            if post.dirty is None {
                assert forall|k2: u64| #[trigger]
                    post.read_map().contains_key(k2) implies !(post.slot_at(
                    post.read_map()[k2],
                ) is Expunged) by {
                    assert(pre.read_map()[k2] == pre.refs()[k2]);
                    assert(pre.refs()[k2] != j);
                }
            }
        }
        assert(post.contents() =~= pre.contents()) by {
            pre.lemma_contents();
            post.lemma_contents();
            assert forall|k2: u64|
                #![trigger post.contents().contains_key(k2)]
                true implies (post.contents().contains_key(k2) == pre.contents().contains_key(k2)
                && (post.contents().contains_key(k2) ==> post.contents()[k2]
                == pre.contents()[k2])) by {
                if pre.refs().contains_key(k2) {
                    assert(pre.refs()[k2] != j);
                    assert(post.slot_at(post.refs()[k2]) == pre.slot_at(pre.refs()[k2]));
                }
            }
        }
    }
}

impl<V> Default for SyncMap<V> {
    /// The same map `new` builds.
    fn default() -> (m: Self)
        ensures
            m.wf(),
            m.contents() == Map::<u64, V>::empty(),
            m.retained() == Seq::<V>::empty(),
            m.read_map() == Map::<u64, usize>::empty(),
            !m.has_dirty(),
            m.overlay_len() == 0,
            !m.amended(),
            m.miss_count() == 0,
    {
        SyncMap::new()
    }
}

/// Read-your-writes: after an insert of `(k, v)`, a lookup of `k`
/// yields `v`, and it keeps yielding `v` across inserts and removals
/// of other keys — only an `insert` or `remove` on `k` itself can
/// disturb the binding. `insert` ensures the contents become
/// `old.insert(key, value)` and `get` returns exactly the binding of
/// the contents, so this law carries over to the operations.
pub proof fn lemma_read_your_writes<V>(m: Map<u64, V>, k: u64, v: V, k2: u64, v2: V)
    requires
        k2 != k,
    ensures
        m.insert(k, v).contains_key(k),
        m.insert(k, v)[k] == v,
        m.insert(k, v).insert(k2, v2).contains_key(k),
        m.insert(k, v).insert(k2, v2)[k] == v,
        m.insert(k, v).remove(k2).contains_key(k),
        m.insert(k, v).remove(k2)[k] == v,
{
}

/// A removed key stays absent: after a removal of `k`, a lookup of `k`
/// misses and a second removal changes nothing and finds nothing —
/// until a later insert of `k` restores the key.
pub proof fn lemma_removed_stays_absent<V>(m: Map<u64, V>, k: u64, v: V)
    ensures
        !m.remove(k).contains_key(k),
        m.remove(k).remove(k) == m.remove(k),
        m.remove(k).insert(k, v).contains_key(k),
{
    assert(m.remove(k).remove(k) =~= m.remove(k));
}

/// Round trip: an insert followed by a removal of the same key leaves
/// the key absent, as if it had never been inserted.
pub proof fn lemma_insert_remove<V>(m: Map<u64, V>, k: u64, v: V)
    ensures
        !m.insert(k, v).remove(k).contains_key(k),
        !m.contains_key(k) ==> m.insert(k, v).remove(k) == m,
{
    if !m.contains_key(k) {
        assert(m.insert(k, v).remove(k) =~= m);
    }
}

/// Last write wins: of two inserts to one key, the later value is the
/// one a lookup returns.
pub proof fn lemma_last_write_wins<V>(m: Map<u64, V>, k: u64, v1: V, v2: V)
    ensures
        m.insert(k, v1).insert(k, v2).contains_key(k),
        m.insert(k, v1).insert(k, v2)[k] == v2,
{
}

/// After `clear`, whose contents are the empty map, every lookup
/// misses.
pub proof fn lemma_clear_get<V>(k: u64)
    ensures
        !Map::<u64, V>::empty().contains_key(k),
{
}

/// Provenance of observed values: an operation on another key never
/// changes what `k` is bound to. So if two lookups of `k` observe
/// values with no removal of `k` in between, the later value is either
/// the earlier one or the value of an intervening insert on `k`.
pub proof fn lemma_value_provenance<V>(m: Map<u64, V>, k: u64, k2: u64, v2: V)
    requires
        k2 != k,
    ensures
        m.insert(k2, v2).contains_key(k) == m.contains_key(k),
        m.contains_key(k) ==> m.insert(k2, v2)[k] == m[k],
        m.remove(k2).contains_key(k) == m.contains_key(k),
        m.contains_key(k) ==> m.remove(k2)[k] == m[k],
{
}

/// Replaces the arena entry at `i`, handing the previous entry back.
fn swap_entry<V>(entries: &mut Vec<Entry<V>>, i: usize, e: Entry<V>) -> (prev: Entry<V>)
    requires
        i < old(entries)@.len(),
    ensures
        prev == old(entries)@[i as int],
        final(entries)@ == old(entries)@.update(i as int, e),
{
    entries.push(e);
    let prev = entries.swap_remove(i);
    proof {
        assert(entries@ =~= old(entries)@.update(i as int, e));
    }
    prev
}

} // verus!


