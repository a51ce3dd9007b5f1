//! Identity-keyed memoization cache: `resolve once` semantics for
//! per-declaration work, with explicit in-progress placeholders so that
//! re-entrant requests for a key currently being computed can be answered
//! with an identity reference instead of recursing.
use vstd::prelude::*;

verus! {

broadcast use
    vstd::seq_lib::group_seq_properties,
    Seq::lemma_push_to_set_commute,
    Seq::lemma_take_succ_push,
;

/// A cache from stable identity keys to computed values.
///
/// A key is either absent, *pending* (its computation has begun but not
/// finished — the placeholder state), or *done* (computed exactly once).
/// Pending keys are what make self-referential declarations safe: a
/// re-entrant request observes the placeholder and refers to the key by
/// identity instead of re-deriving the value.
pub struct MemoizeMap<V> {
    pending_keys: Vec<u64>,
    entries: Vec<(u64, V)>,
}

impl<V> MemoizeMap<V> {
    /// The finished portion of the cache, as a mathematical map.
    pub closed spec fn done(&self) -> Map<u64, V> {
        Self::entries_map(self.entries@)
    }

    /// The keys whose computation has begun but not finished.
    pub closed spec fn pending(&self) -> Set<u64> {
        self.pending_keys@.to_set()
    }

    pub closed spec fn entries_map(s: Seq<(u64, V)>) -> Map<u64, V>
        decreases s.len(),
    {
        if s.len() == 0 {
            Map::empty()
        } else {
            Self::entries_map(s.drop_last()).insert(s.last().0, s.last().1)
        }
    }

    spec fn keys_distinct(s: Seq<(u64, V)>) -> bool {
        forall|i: int, j: int| 0 <= i < j < s.len() ==> s[i].0 != s[j].0
    }

    /// Well-formedness: no key is recorded twice, and no key is both
    /// pending and done.
    pub closed spec fn wf(&self) -> bool {
        &&& Self::keys_distinct(self.entries@)
        &&& (forall|i: int| 0 <= i < self.pending_keys@.len()
                ==> !self.done().contains_key(#[trigger] self.pending_keys@[i]))
    }

    /// Whether some entry of `s` carries the key `k`.
    spec fn key_in(s: Seq<(u64, V)>, k: u64) -> bool {
        exists|i: int| 0 <= i < s.len() && (#[trigger] s[i]).0 == k
    }

    proof fn lemma_entries_map_domain(s: Seq<(u64, V)>)
        ensures
            forall|k: u64| #[trigger] Self::entries_map(s).contains_key(k) <==> Self::key_in(s, k),
        decreases s.len(),
    {
        if s.len() > 0 {
            Self::lemma_entries_map_domain(s.drop_last());
            assert forall|k: u64| #[trigger] Self::entries_map(s).contains_key(k)
                implies Self::key_in(s, k) by {
                if s.last().0 == k {
                    let j: int = s.len() - 1;
                    assert(s[j].0 == k);
                } else {
                    assert(Self::entries_map(s.drop_last()).contains_key(k));
                    let i = choose|i: int| 0 <= i < s.drop_last().len()
                        && (#[trigger] s.drop_last()[i]).0 == k;
                    assert(s.drop_last()[i] == s[i]);
                    assert(s[i].0 == k);
                }
            }
            assert forall|k: u64| Self::key_in(s, k)
                implies #[trigger] Self::entries_map(s).contains_key(k) by {
                assert(Self::entries_map(s)
                    == Self::entries_map(s.drop_last()).insert(s.last().0, s.last().1));
                let i = choose|i: int| 0 <= i < s.len() && (#[trigger] s[i]).0 == k;
                if i < s.len() - 1 {
                    assert(s.drop_last()[i] == s[i]);
                    assert(s.drop_last()[i].0 == k);
                    assert(Self::key_in(s.drop_last(), k));
                    assert(Self::entries_map(s.drop_last()).contains_key(k));
                } else {
                    assert(s.last() == s[i]);
                    assert(s.last().0 == k);
                }
            }
        }
    }

    proof fn lemma_entries_map_index(s: Seq<(u64, V)>, i: int)
        requires
            Self::keys_distinct(s),
            0 <= i < s.len(),
        ensures
            Self::entries_map(s).contains_key(s[i].0),
            Self::entries_map(s)[s[i].0] == s[i].1,
        decreases s.len(),
    {
        Self::lemma_entries_map_domain(s);
        if i < s.len() - 1 {
            assert(Self::keys_distinct(s.drop_last()));
            assert(s.drop_last()[i] == s[i]);
            Self::lemma_entries_map_index(s.drop_last(), i);
            assert(s.last().0 != s[i].0);
        }
    }

    /// An empty cache.
    pub fn new() -> (r: Self)
        ensures
            r.wf(),
            r.done() == Map::<u64, V>::empty(),
            r.pending() == Set::<u64>::empty(),
    {
        let r = MemoizeMap { pending_keys: Vec::new(), entries: Vec::new() };
        proof {
            assert(r.pending_keys@.to_set() =~= Set::<u64>::empty());
        }
        r
    }

    fn find(entries: &Vec<(u64, V)>, key: u64) -> (r: Option<usize>)
        requires
            Self::keys_distinct(entries@),
        ensures
            match r {
                Some(i) => i < entries@.len() && entries@[i as int].0 == key,
                None => forall|i: int| 0 <= i < entries@.len()
                    ==> (#[trigger] entries@[i]).0 != key,
            },
    {
        let mut i: usize = 0;
        while i < entries.len()
            invariant
                0 <= i <= entries@.len(),
                forall|j: int| 0 <= j < i ==> (#[trigger] entries@[j]).0 != key,
            decreases entries@.len() - i,
        {
            if entries[i].0 == key {
                return Some(i);
            }
            i += 1;
        }
        None
    }

    /// Whether `key` has a finished value.
    pub fn contains(&self, key: u64) -> (r: bool)
        requires
            self.wf(),
        ensures
            r == self.done().contains_key(key),
    {
        proof {
            Self::lemma_entries_map_domain(self.entries@);
        }
        Self::find(&self.entries, key).is_some()
    }

    /// Whether `key` is currently being computed (placeholder registered).
    pub fn is_pending(&self, key: u64) -> (r: bool)
        ensures
            r == self.pending().contains(key),
    {
        let mut i: usize = 0;
        let n = self.pending_keys.len();
        while i < n
            invariant
                0 <= i <= self.pending_keys@.len(),
                n == self.pending_keys@.len(),
                forall|j: int| 0 <= j < i ==> self.pending_keys@[j] != key,
            decreases self.pending_keys@.len() - i,
        {
            if self.pending_keys[i] == key {
                assert(self.pending_keys@.to_set().contains(key));
                return true;
            }
            i += 1;
        }
        proof {
            assert(!self.pending_keys@.contains(key));
        }
        false
    }

    /// The finished value for `key`, if any.
    pub fn get(&self, key: u64) -> (r: Option<&V>)
        requires
            self.wf(),
        ensures
            match r {
                Some(v) => self.done().contains_key(key) && *v == self.done()[key],
                None => !self.done().contains_key(key),
            },
    {
        proof {
            Self::lemma_entries_map_domain(self.entries@);
        }
        match Self::find(&self.entries, key) {
            Some(i) => {
                proof {
                    Self::lemma_entries_map_index(self.entries@, i as int);
                }
                Some(&self.entries[i].1)
            }
            None => None,
        }
    }

    /// Register the placeholder for a computation that is about to start.
    pub fn begin(&mut self, key: u64)
        requires
            old(self).wf(),
            !old(self).done().contains_key(key),
            !old(self).pending().contains(key),
        ensures
            final(self).wf(),
            final(self).done() == old(self).done(),
            final(self).pending() == old(self).pending().insert(key),
    {
        self.pending_keys.push(key);
        proof {
            assert(self.pending_keys@ == old(self).pending_keys@.push(key));
            assert(self.pending_keys@.to_set() =~= old(self).pending_keys@.to_set().insert(key));
            assert forall|i: int| 0 <= i < self.pending_keys@.len()
                implies !self.done().contains_key(#[trigger] self.pending_keys@[i]) by {
                if i < old(self).pending_keys@.len() {
                    assert(self.pending_keys@[i] == old(self).pending_keys@[i]);
                }
            }
        }
    }

    /// Record the finished value for a pending key, replacing its placeholder.
    pub fn finish(&mut self, key: u64, v: V)
        requires
            old(self).wf(),
            old(self).pending().contains(key),
            !old(self).done().contains_key(key),
        ensures
            final(self).wf(),
            final(self).done() == old(self).done().insert(key, v),
            final(self).pending() == old(self).pending().remove(key),
    {
        proof {
            Self::lemma_entries_map_domain(self.entries@);
        }
        self.entries.push((key, v));
        let ghost oldp = self.pending_keys@;
        // retire every placeholder entry for this key
        let mut rest: Vec<u64> = Vec::new();
        let n = self.pending_keys.len();
        let mut i: usize = 0;
        while i < n
            invariant
                0 <= i <= oldp.len(),
                n == oldp.len(),
                self.pending_keys@ == oldp,
                rest@.to_set() == oldp.take(i as int).to_set().remove(key),
                forall|j: int| 0 <= j < rest@.len() ==> rest@[j] != key,
                forall|j: int| 0 <= j < rest@.len() ==> oldp.contains(#[trigger] rest@[j]),
            decreases n - i,
        {
            let k = self.pending_keys[i];
            proof {
                assert(oldp.take(i as int + 1) == oldp.take(i as int).push(oldp[i as int]));
                assert(oldp.contains(oldp[i as int]));
            }
            if k != key {
                rest.push(k);
                proof {
                    assert(rest@.to_set() =~= oldp.take(i as int + 1).to_set().remove(key));
                }
            } else {
                proof {
                    assert(oldp.take(i as int + 1).to_set().remove(key)
                        =~= oldp.take(i as int).to_set().remove(key));
                }
            }
            i += 1;
        }
        proof {
            assert(oldp.take(n as int) == oldp);
        }
        self.pending_keys = rest;
        proof {
            assert(self.pending_keys@.to_set() =~= oldp.to_set().remove(key));
            assert(self.entries@ == old(self).entries@.push((key, v)));
            assert(self.entries@.drop_last() =~= old(self).entries@);
            assert(Self::keys_distinct(self.entries@)) by {
                Self::lemma_entries_map_domain(old(self).entries@);
            }
            assert(self.done() == old(self).done().insert(key, v));
            Self::lemma_entries_map_domain(self.entries@);
            assert forall|i2: int| 0 <= i2 < self.pending_keys@.len()
                implies !self.done().contains_key(#[trigger] self.pending_keys@[i2]) by {
                assert(self.pending_keys@[i2] != key);
                assert(oldp.contains(self.pending_keys@[i2]));
                assert(oldp.to_set().contains(self.pending_keys@[i2]));
                assert(!old(self).done().contains_key(self.pending_keys@[i2]));
            }
        }
    }

    /// `get_or_compute(key, f)`: return the cached value for `key`, running
    /// `f` only if no value is cached yet. The contract makes the
    /// single-producer property explicit: when `key` was already done the
    /// cache is unchanged and the cached value is returned, so `f` runs at
    /// most once per key over a cache's lifetime.
    pub fn get_or_compute<F: FnOnce() -> V>(&mut self, key: u64, f: F) -> (r: &V)
        requires
            old(self).wf(),
            !old(self).pending().contains(key),
            call_requires(f, ()),
        ensures
            final(self).wf(),
            final(self).pending() == old(self).pending(),
            final(self).done().contains_key(key),
            *r == final(self).done()[key],
            old(self).done().contains_key(key)
                ==> final(self).done() == old(self).done() && *r == old(self).done()[key],
            !old(self).done().contains_key(key)
                ==> call_ensures(f, (), *r) && final(self).done() == old(self).done().insert(key, *r),
    {
        proof {
            Self::lemma_entries_map_domain(self.entries@);
        }
        match Self::find(&self.entries, key) {
            Some(i) => {
                proof {
                    Self::lemma_entries_map_index(self.entries@, i as int);
                }
                &self.entries[i].1
            }
            None => {
                let v = f();
                self.entries.push((key, v));
                proof {
                    assert(self.entries@.drop_last() =~= old(self).entries@);
                    assert(Self::keys_distinct(self.entries@));
                    Self::lemma_entries_map_domain(self.entries@);
                    Self::lemma_entries_map_index(self.entries@, self.entries@.len() - 1);
                    assert forall|i2: int| 0 <= i2 < self.pending_keys@.len()
                        implies !self.done().contains_key(#[trigger] self.pending_keys@[i2]) by {
                        assert(old(self).pending_keys@.contains(old(self).pending_keys@[i2]));
                        assert(old(self).pending().contains(self.pending_keys@[i2]));
                        assert(self.pending_keys@[i2] != key);
                        assert(!old(self).done().contains_key(self.pending_keys@[i2]));
                    }
                }
                let n = self.entries.len() - 1;
                &self.entries[n].1
            }
        }
    }
}

/// Law: memoization is idempotent. If a first `get_or_compute` on `key`
/// computed and cached `r1`, then a second call on the resulting cache with
/// the same key leaves the cache unchanged and returns the same value:
/// `compute_fn` is invoked at most once per distinct key, however many times
/// the cache is asked.
pub proof fn lemma_memoize_idempotent<V>(
    m0: MemoizeMap<V>,
    m1: MemoizeMap<V>,
    m2: MemoizeMap<V>,
    key: u64,
    r1: V,
    r2: V,
)
    requires
        // what the first call ensures when it computed `r1`
        m1.done() == m0.done().insert(key, r1),
        // what the second call ensures when the key is already done
        m1.done().contains_key(key) ==> m2.done() == m1.done() && r2 == m1.done()[key],
    ensures
        r2 == r1,
        m2.done() == m1.done(),
{
    assert(m1.done().contains_key(key));
    assert(m1.done()[key] == r1);
}

} // verus!
