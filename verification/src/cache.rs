//! A time-boxed memoisation cache.
//!
//! Entries are keyed by an operation-plus-arguments string and remember when
//! they were stored. A lookup at time `now` answers only from an entry
//! younger than the time-to-live; an expired entry is invisible and is
//! overwritten by the next store. Times are plain seconds handed in by the
//! caller, so the cache itself never consults a clock.

use vstd::prelude::*;

verus! {

/// One memoised result and the moment it was stored.
pub struct CacheEntry<V> {
    pub key: String,
    pub value: V,
    pub stored_at: u64,
}

/// The map meant by a sequence of entries: inserted in order, later wins.
pub open spec fn cache_map_of<V>(entries: Seq<CacheEntry<V>>) -> Map<Seq<char>, (V, u64)>
    decreases entries.len(),
{
    if entries.len() == 0 {
        Map::empty()
    } else {
        cache_map_of(entries.drop_last()).insert(
            entries.last().key@,
            (entries.last().value, entries.last().stored_at),
        )
    }
}

/// No two entries share a key.
pub open spec fn distinct_keys<V>(entries: Seq<CacheEntry<V>>) -> bool {
    forall|i: int, j: int| 0 <= i < j < entries.len() ==> entries[i].key@ != entries[j].key@
}

/// A memoisation cache with a fixed time-to-live.
pub struct TtlCache<V> {
    pub entries: Vec<CacheEntry<V>>,
    pub ttl: u64,
}

impl<V> View for TtlCache<V> {
    type V = Map<Seq<char>, (V, u64)>;

    open spec fn view(&self) -> Map<Seq<char>, (V, u64)> {
        cache_map_of(self.entries@)
    }
}

/// The value at a key is the one of its last occurrence.
proof fn lemma_cache_map_last<V>(entries: Seq<CacheEntry<V>>, key: Seq<char>, i: int)
    requires
        0 <= i < entries.len(),
        entries[i].key@ == key,
        forall|j: int| i < j < entries.len() ==> entries[j].key@ != key,
    ensures
        cache_map_of(entries).contains_key(key),
        cache_map_of(entries)[key] == (entries[i].value, entries[i].stored_at),
    decreases entries.len(),
{
    if i < entries.len() - 1 {
        lemma_cache_map_last(entries.drop_last(), key, i);
    }
}

/// A key that occurs nowhere is not in the map.
proof fn lemma_cache_map_absent<V>(entries: Seq<CacheEntry<V>>, key: Seq<char>)
    requires
        forall|j: int| 0 <= j < entries.len() ==> entries[j].key@ != key,
    ensures
        !cache_map_of(entries).contains_key(key),
    decreases entries.len(),
{
    if entries.len() > 0 {
        assert(forall|j: int|
            0 <= j < entries.len() - 1 ==> entries.drop_last()[j] == entries[j]);
        lemma_cache_map_absent(entries.drop_last(), key);
    }
}

/// Index of the last entry with the given key, if any.
fn find_key<V>(entries: &Vec<CacheEntry<V>>, key: &str) -> (r: Option<usize>)
    ensures
        match r {
            Some(i) => {
                &&& i < entries@.len()
                &&& entries@[i as int].key@ == key@
                &&& forall|j: int| i < j < entries@.len() ==> entries@[j].key@ != key@
            },
            None => forall|j: int| 0 <= j < entries@.len() ==> entries@[j].key@ != key@,
        },
{
    let mut found: Option<usize> = None;
    let n = entries.len();
    let mut i: usize = 0;
    while i < n
        invariant
            i <= n,
            n == entries@.len(),
            match found {
                Some(f) => {
                    &&& f < i
                    &&& entries@[f as int].key@ == key@
                    &&& forall|j: int| f < j < i ==> entries@[j].key@ != key@
                },
                None => forall|j: int| 0 <= j < i ==> entries@[j].key@ != key@,
            },
        decreases n - i,
    {
        if crate::text::str_eq(entries[i].key.as_str(), key) {
            found = Some(i);
        }
        i = i + 1;
    }
    found
}

impl<V> TtlCache<V> {
    /// Pairwise-distinct keys: the well-formed shape every operation keeps.
    pub open spec fn wf(&self) -> bool {
        distinct_keys(self.entries@)
    }

    /// Whether the entry at a key is alive at time `now`.
    pub open spec fn fresh_at(&self, key: Seq<char>, now: u64) -> bool {
        &&& self@.contains_key(key)
        &&& self@[key].1 <= now
        &&& now - self@[key].1 < self.ttl
    }

    /// An empty cache whose entries live for `ttl` seconds.
    pub fn new(ttl: u64) -> (r: TtlCache<V>)
        ensures
            r@ == Map::<Seq<char>, (V, u64)>::empty(),
            r.ttl == ttl,
            r.wf(),
    {
        TtlCache { entries: Vec::new(), ttl }
    }

    /// The memoised value for a key, if one was stored within the
    /// time-to-live before `now`. An expired or missing entry yields `None`,
    /// the caller's signal to recompute and `put`.
    pub fn get(&self, key: &str, now: u64) -> (r: Option<&V>)
        ensures
            match r {
                Some(v) => self.fresh_at(key@, now) && self@[key@].0 == *v,
                None => !self.fresh_at(key@, now),
            },
    {
        match find_key(&self.entries, key) {
            Some(i) => {
                proof {
                    lemma_cache_map_last(self.entries@, key@, i as int);
                }
                let e = &self.entries[i];
                if e.stored_at <= now && now - e.stored_at < self.ttl {
                    Some(&e.value)
                } else {
                    None
                }
            },
            None => {
                proof {
                    lemma_cache_map_absent(self.entries@, key@);
                }
                None
            },
        }
    }

    /// Store a value for a key at time `now`, replacing any earlier entry.
    pub fn put(&mut self, key: String, value: V, now: u64)
        ensures
            final(self)@ == old(self)@.insert(key@, (value, now)),
            final(self).ttl == old(self).ttl,
            old(self).wf() ==> final(self).wf(),
    {
        match find_key(&self.entries, key.as_str()) {
            Some(i) => {
                self.entries.set(i, CacheEntry { key, value, stored_at: now });
                proof {
                    let e = self.entries@[i as int];
                    assert(self.entries@ == old(self).entries@.update(i as int, e));
                    lemma_cache_map_update_last(old(self).entries@, i as int, e);
                    if old(self).wf() {
                        assert forall|p: int, q: int|
                            0 <= p < q < self.entries@.len() implies self.entries@[p].key@
                            != self.entries@[q].key@ by {
                            assert(self.entries@[p].key@ == old(self).entries@[p].key@);
                            assert(self.entries@[q].key@ == old(self).entries@[q].key@);
                        }
                    }
                }
            },
            None => {
                self.entries.push(CacheEntry { key, value, stored_at: now });
                proof {
                    assert(self.entries@.drop_last() =~= old(self).entries@);
                    if old(self).wf() {
                        assert forall|p: int, q: int|
                            0 <= p < q < self.entries@.len() implies self.entries@[p].key@
                            != self.entries@[q].key@ by {
                            if q < self.entries@.len() - 1 {
                                assert(self.entries@[p].key@ == old(self).entries@[p].key@);
                                assert(self.entries@[q].key@ == old(self).entries@[q].key@);
                            } else {
                                assert(self.entries@[p].key@ == old(self).entries@[p].key@);
                            }
                        }
                    }
                }
            },
        }
    }
}

/// Overwriting the last occurrence of a key updates only that key.
proof fn lemma_cache_map_update_last<V>(entries: Seq<CacheEntry<V>>, i: int, e: CacheEntry<V>)
    requires
        0 <= i < entries.len(),
        entries[i].key@ == e.key@,
        forall|j: int| i < j < entries.len() ==> entries[j].key@ != e.key@,
    ensures
        cache_map_of(entries.update(i, e)) == cache_map_of(entries).insert(
            e.key@,
            (e.value, e.stored_at),
        ),
    decreases entries.len(),
{
    if i == entries.len() - 1 {
        assert(entries.update(i, e).drop_last() =~= entries.drop_last());
        assert(cache_map_of(entries.update(i, e))
            =~= cache_map_of(entries).insert(e.key@, (e.value, e.stored_at)));
    } else {
        let prefix = entries.drop_last();
        assert forall|j: int| i < j < prefix.len() implies prefix[j].key@ != e.key@ by {
            assert(prefix[j] == entries[j]);
        }
        lemma_cache_map_update_last(prefix, i, e);
        assert(entries.update(i, e).drop_last() =~= prefix.update(i, e));
        assert(entries.update(i, e).last() == entries.last());
        assert(cache_map_of(entries.update(i, e))
            =~= cache_map_of(entries).insert(e.key@, (e.value, e.stored_at)));
    }
}

/// Law: a hit within the time-to-live suppresses recomputation. Once `put`
/// stores a result for a key at time `t0`, a `get` of that key at any time
/// `t1` in the window `[t0, t0 + ttl)` is a hit, so a caller that consults
/// the upstream only when `get` answers `None` issues no second upstream
/// call for that key inside the window.
pub proof fn lemma_cache_hit_within_ttl<V>(c: TtlCache<V>, key: Seq<char>, t0: u64, t1: u64)
    requires
        c@.contains_key(key),
        c@[key].1 == t0,
        t0 <= t1,
        t1 - t0 < c.ttl,
    ensures
        c.fresh_at(key, t1),
{
}

} // verus!
