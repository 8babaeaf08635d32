use vstd::prelude::*;
use lru::LruCache;
use std::num::NonZeroUsize;

pub use crate::ranking::Scored;

verus! {

/// A cached query: its fingerprint and the ranked results stored for it.
pub type Entry = (u64, Seq<Scored>);

/// The largest capacity a cache can be created with: the cache's table is
/// allocated for the whole capacity when the cache is made.
pub const MAX_CAPACITY: usize = 1_048_576;

/// `lru::LruCache`, opaque to the verifier.
#[verifier::external_type_specification]
#[verifier::external_body]
#[verifier::reject_recursive_types(K)]
#[verifier::reject_recursive_types(V)]
#[verifier::reject_recursive_types(S)]
pub struct ExLruCache<K, V, S>(LruCache<K, V, S>);

/// `lru::DefaultHasher`, the hash builder of an `lru::LruCache` made by
/// `LruCache::new`, opaque to the verifier.
#[verifier::external_type_specification]
#[verifier::external_body]
pub struct ExLruHasher(lru::DefaultHasher);

/// What an `lru::LruCache` holds: its entries from the most recently used to
/// the least recently used, each value by its view.
pub uninterp spec fn lru_entries(c: LruCache<u64, Vec<(u64, u32)>>) -> Seq<(u64, Seq<(u64, u32)>)>;

/// The capacity an `lru::LruCache` was created with.
pub uninterp spec fn lru_capacity(c: LruCache<u64, Vec<(u64, u32)>>) -> nat;

/// Whether some entry has the given key.
pub open spec fn holds(entries: Seq<Entry>, key: u64) -> bool {
    exists|i: int| 0 <= i < entries.len() && (#[trigger] entries[i]).0 == key
}

/// The position of an entry with the given key, where one exists.
pub open spec fn slot(entries: Seq<Entry>, key: u64) -> int {
    choose|i: int| 0 <= i < entries.len() && (#[trigger] entries[i]).0 == key
}

/// No two entries share a key.
pub open spec fn distinct_keys(entries: Seq<Entry>) -> bool {
    forall|i: int, j: int|
        0 <= i < j < entries.len() ==> (#[trigger] entries[i]).0 != (#[trigger] entries[j]).0
}

/// The entries after the one at position `i` has become the most recently
/// used.
pub open spec fn promoted(entries: Seq<Entry>, i: int) -> Seq<Entry> {
    seq![entries[i]] + entries.remove(i)
}

/// The entries after `key` has been given `value`: an existing entry is
/// overwritten and promoted; a new one goes to the front, and at capacity the
/// least recently used entry leaves.
pub open spec fn after_put(entries: Seq<Entry>, capacity: nat, key: u64, value: Seq<Scored>) -> Seq<
    Entry,
> {
    if holds(entries, key) {
        seq![(key, value)] + entries.remove(slot(entries, key))
    } else if entries.len() == capacity {
        seq![(key, value)] + entries.drop_last()
    } else {
        seq![(key, value)] + entries
    }
}

/// The entries after a lookup of `key`: a hit promotes its entry, a miss
/// changes nothing.
pub open spec fn after_get(entries: Seq<Entry>, key: u64) -> Seq<Entry> {
    if holds(entries, key) {
        promoted(entries, slot(entries, key))
    } else {
        entries
    }
}

/// `LruCache::new`: an empty cache of the given capacity. The capacity is
/// bounded because the table is allocated for it at once.
#[verifier::external_body]
fn lru_new(capacity: usize) -> (c: LruCache<u64, Vec<(u64, u32)>>)
    requires
        0 < capacity <= MAX_CAPACITY,
    ensures
        lru_entries(c) == Seq::<Entry>::empty(),
        lru_capacity(c) == capacity,
{
    LruCache::new(NonZeroUsize::new(capacity).unwrap())
}

/// `LruCache::put`: overwrites or inserts, makes the entry the most recently
/// used, evicts the least recently used entry when a new key arrives at
/// capacity, and returns the value that was overwritten.
#[verifier::external_body]
fn lru_put(c: &mut LruCache<u64, Vec<(u64, u32)>>, key: u64, value: Vec<(u64, u32)>) -> (r: Option<
    Vec<(u64, u32)>,
>)
    ensures
        lru_capacity(*final(c)) == lru_capacity(*old(c)),
        lru_entries(*final(c)) == after_put(
            lru_entries(*old(c)),
            lru_capacity(*old(c)),
            key,
            value@,
        ),
        match r {
            Some(previous) => holds(lru_entries(*old(c)), key) && previous@ == lru_entries(
                *old(c),
            )[slot(lru_entries(*old(c)), key)].1,
            None => !holds(lru_entries(*old(c)), key),
        },
{
    c.put(key, value)
}

/// `LruCache::get`: on a hit the entry becomes the most recently used and a
/// copy of its value is returned; on a miss nothing changes.
#[verifier::external_body]
fn lru_get(c: &mut LruCache<u64, Vec<(u64, u32)>>, key: &u64) -> (r: Option<Vec<(u64, u32)>>)
    ensures
        lru_capacity(*final(c)) == lru_capacity(*old(c)),
        lru_entries(*final(c)) == after_get(lru_entries(*old(c)), *key),
        match r {
            Some(found) => holds(lru_entries(*old(c)), *key) && found@ == lru_entries(
                *old(c),
            )[slot(lru_entries(*old(c)), *key)].1,
            None => !holds(lru_entries(*old(c)), *key),
        },
{
    c.get(key).cloned()
}

/// `LruCache::contains`: whether the key is present; recency is untouched.
#[verifier::external_body]
fn lru_contains(c: &LruCache<u64, Vec<(u64, u32)>>, key: &u64) -> (r: bool)
    ensures
        r == holds(lru_entries(*c), *key),
{
    c.contains(key)
}

/// `LruCache::len`: the number of entries.
#[verifier::external_body]
fn lru_len(c: &LruCache<u64, Vec<(u64, u32)>>) -> (r: usize)
    ensures
        r == lru_entries(*c).len(),
{
    c.len()
}

/// `LruCache::clear`: removes every entry and keeps the capacity.
#[verifier::external_body]
fn lru_clear(c: &mut LruCache<u64, Vec<(u64, u32)>>)
    ensures
        lru_capacity(*final(c)) == lru_capacity(*old(c)),
        lru_entries(*final(c)) == Seq::<Entry>::empty(),
{
    c.clear()
}

/// With distinct keys, the slot of a held key is the one position that has it.
pub proof fn lemma_slot(entries: Seq<Entry>, i: int)
    requires
        distinct_keys(entries),
        0 <= i < entries.len(),
    ensures
        holds(entries, entries[i].0),
        slot(entries, entries[i].0) == i,
{
    let key = entries[i].0;
    let j = slot(entries, key);
    assert(0 <= j < entries.len() && entries[j].0 == key);
    if j < i {
        assert(entries[j].0 != entries[i].0);
    } else if i < j {
        assert(entries[i].0 != entries[j].0);
    }
}

/// A put keeps keys distinct and the length within the capacity, leaves `key`
/// at the front, and brings in no entry but the new one.
pub proof fn lemma_after_put(entries: Seq<Entry>, capacity: nat, key: u64, value: Seq<Scored>)
    requires
        distinct_keys(entries),
        entries.len() <= capacity,
        capacity > 0,
    ensures
        distinct_keys(after_put(entries, capacity, key, value)),
        after_put(entries, capacity, key, value).len() <= capacity,
        after_put(entries, capacity, key, value).len() == if holds(entries, key) {
            entries.len()
        } else if entries.len() == capacity {
            capacity
        } else {
            entries.len() + 1
        },
        after_put(entries, capacity, key, value)[0] == (key, value),
        forall|i: int|
            1 <= i < after_put(entries, capacity, key, value).len() ==> entries.contains(
                #[trigger] after_put(entries, capacity, key, value)[i],
            ) && after_put(entries, capacity, key, value)[i].0 != key,
{
    let out = after_put(entries, capacity, key, value);
    if holds(entries, key) {
        let s = slot(entries, key);
        assert(0 <= s < entries.len() && entries[s].0 == key);
        let rest = entries.remove(s);
        assert forall|i: int| 0 <= i < rest.len() implies entries.contains(#[trigger] rest[i])
            && rest[i].0 != key by {
            if i < s {
                assert(rest[i] == entries[i]);
                assert(entries[i].0 != entries[s].0);
            } else {
                assert(rest[i] == entries[i + 1]);
                assert(entries[s].0 != entries[i + 1].0);
            }
        }
        assert forall|i: int, j: int| 0 <= i < j < rest.len() implies (#[trigger] rest[i]).0 != (
        #[trigger] rest[j]).0 by {
            let a = if i < s { i } else { i + 1 };
            let b = if j < s { j } else { j + 1 };
            assert(rest[i] == entries[a] && rest[j] == entries[b]);
            assert(entries[a].0 != entries[b].0);
        }
        assert forall|i: int| 1 <= i < out.len() implies entries.contains(#[trigger] out[i])
            && out[i].0 != key by {
            assert(out[i] == rest[i - 1]);
        }
        assert forall|i: int, j: int| 0 <= i < j < out.len() implies (#[trigger] out[i]).0 != (
        #[trigger] out[j]).0 by {
            assert(out[j] == rest[j - 1]);
            if i > 0 {
                assert(out[i] == rest[i - 1]);
            }
        }
    } else {
        let rest = if entries.len() == capacity {
            entries.drop_last()
        } else {
            entries
        };
        assert forall|i: int| 0 <= i < rest.len() implies entries.contains(#[trigger] rest[i])
            && rest[i].0 != key by {
            assert(rest[i] == entries[i]);
        }
        assert forall|i: int| 1 <= i < out.len() implies entries.contains(#[trigger] out[i])
            && out[i].0 != key by {
            assert(out[i] == rest[i - 1]);
        }
        assert forall|i: int, j: int| 0 <= i < j < out.len() implies (#[trigger] out[i]).0 != (
        #[trigger] out[j]).0 by {
            assert(out[j] == rest[j - 1] && rest[j - 1] == entries[j - 1]);
            if i > 0 {
                assert(out[i] == rest[i - 1] && rest[i - 1] == entries[i - 1]);
                assert(entries[i - 1].0 != entries[j - 1].0);
            }
        }
    }
}

/// A lookup keeps keys distinct and the length, and reorders without adding
/// or dropping an entry.
pub proof fn lemma_after_get(entries: Seq<Entry>, key: u64)
    requires
        distinct_keys(entries),
    ensures
        distinct_keys(after_get(entries, key)),
        after_get(entries, key).len() == entries.len(),
        forall|i: int|
            0 <= i < entries.len() ==> entries.contains(#[trigger] after_get(entries, key)[i]),
        forall|k: u64| holds(after_get(entries, key), k) == holds(entries, k),
{
    let out = after_get(entries, key);
    if holds(entries, key) {
        let s = slot(entries, key);
        assert(0 <= s < entries.len() && entries[s].0 == key);
        let rest = entries.remove(s);
        assert forall|i: int| 0 <= i < out.len() implies entries.contains(#[trigger] out[i]) by {
            if i == 0 {
                assert(out[0] == entries[s]);
            } else if i - 1 < s {
                assert(out[i] == entries[i - 1]);
            } else {
                assert(out[i] == entries[i]);
            }
        }
        assert forall|i: int, j: int| 0 <= i < j < out.len() implies (#[trigger] out[i]).0 != (
        #[trigger] out[j]).0 by {
            let b = if j - 1 < s { j - 1 } else { j };
            assert(out[j] == entries[b]);
            if i == 0 {
                assert(out[0] == entries[s]);
                if b < s {
                    assert(entries[b].0 != entries[s].0);
                } else {
                    assert(entries[s].0 != entries[b].0);
                }
            } else {
                let a = if i - 1 < s { i - 1 } else { i };
                assert(out[i] == entries[a]);
                assert(entries[a].0 != entries[b].0);
            }
        }
        assert forall|k: u64| holds(out, k) == holds(entries, k) by {
            if holds(out, k) {
                let i = slot(out, k);
                assert(0 <= i < out.len() && out[i].0 == k);
                assert(entries.contains(out[i]));
                let j = choose|j: int| 0 <= j < entries.len() && entries[j] == out[i];
                assert(entries[j].0 == k);
            }
            if holds(entries, k) {
                let j = slot(entries, k);
                assert(0 <= j < entries.len() && entries[j].0 == k);
                let i = if j == s { 0 } else if j < s { j + 1 } else { j };
                assert(out[i] == entries[j]);
                assert(out[i].0 == k);
            }
        }
    }
}

/// The entries after each of `keys` has in turn been given the value at its
/// position in `values`.
pub open spec fn after_puts(
    entries: Seq<Entry>,
    capacity: nat,
    keys: Seq<u64>,
    values: Seq<Seq<Scored>>,
) -> Seq<Entry>
    decreases keys.len(),
{
    if keys.len() == 0 {
        entries
    } else {
        after_put(
            after_puts(entries, capacity, keys.drop_last(), values.drop_last()),
            capacity,
            keys.last(),
            values.last(),
        )
    }
}

/// An empty cache that is given distinct keys holds as many entries as it
/// was given keys, up to its capacity: after one key more than the capacity,
/// exactly the capacity. Every key it holds is one of those given.
pub proof fn lemma_distinct_puts(capacity: nat, keys: Seq<u64>, values: Seq<Seq<Scored>>)
    requires
        capacity > 0,
        keys.no_duplicates(),
        values.len() == keys.len(),
    ensures
        distinct_keys(after_puts(Seq::empty(), capacity, keys, values)),
        after_puts(Seq::empty(), capacity, keys, values).len() == if keys.len() < capacity {
            keys.len()
        } else {
            capacity
        },
        forall|i: int|
            0 <= i < after_puts(Seq::empty(), capacity, keys, values).len() ==> keys.contains(
                (#[trigger] after_puts(Seq::empty(), capacity, keys, values)[i]).0,
            ),
    decreases keys.len(),
{
    if keys.len() > 0 {
        let front = keys.drop_last();
        let before = after_puts(Seq::empty(), capacity, front, values.drop_last());
        let out = after_puts(Seq::empty(), capacity, keys, values);
        lemma_distinct_puts(capacity, front, values.drop_last());
        lemma_after_put(before, capacity, keys.last(), values.last());
        if holds(before, keys.last()) {
            let s = slot(before, keys.last());
            assert(0 <= s < before.len() && before[s].0 == keys.last());
            assert(front.contains(before[s].0));
            let j = choose|j: int| 0 <= j < front.len() && front[j] == before[s].0;
            assert(keys[j] == keys[keys.len() - 1]);
        }
        assert forall|i: int| 0 <= i < out.len() implies keys.contains((#[trigger] out[i]).0) by {
            if i == 0 {
                assert(keys[keys.len() - 1] == out[0].0);
            } else {
                assert(before.contains(out[i]));
                let b = choose|b: int| 0 <= b < before.len() && before[b] == out[i];
                assert(front.contains(before[b].0));
                let j = choose|j: int| 0 <= j < front.len() && front[j] == before[b].0;
                assert(keys[j] == out[i].0);
            }
        }
    }
}

/// Hit and miss counters of a cache.
#[derive(Debug)]
pub struct CacheStats {
    pub hits: u64,
    pub misses: u64,
}

impl Default for CacheStats {
    fn default() -> (r: CacheStats)
        ensures
            r.hits == 0,
            r.misses == 0,
    {
        CacheStats { hits: 0, misses: 0 }
    }
}

/// A bounded least-recently-used store of ranked results, keyed by query
/// fingerprint, that counts its hits and misses.
pub struct SearchCache {
    cache: LruCache<u64, Vec<(u64, u32)>>,
    stats: CacheStats,
}

/// An empty cache of the given capacity; a requested capacity of zero gives
/// one of capacity one hundred.
pub fn create_search_cache(capacity: usize) -> (r: SearchCache)
    requires
        capacity <= MAX_CAPACITY,
    ensures
        r.wf(),
        r.entries() == Seq::<Entry>::empty(),
        r.capacity() == if capacity == 0 { 100 } else { capacity as nat },
        r.counters().hits == 0,
        r.counters().misses == 0,
{
    if capacity == 0 {
        SearchCache::new(100)
    } else {
        SearchCache::new(capacity)
    }
}

impl SearchCache {
    /// The entries from most to least recently used.
    pub closed spec fn entries(&self) -> Seq<Entry> {
        lru_entries(self.cache)
    }

    /// The number of entries the cache can hold.
    pub closed spec fn capacity(&self) -> nat {
        lru_capacity(self.cache)
    }

    /// The hit and miss counters.
    pub closed spec fn counters(&self) -> CacheStats {
        self.stats
    }

    /// Keys are distinct and the entries fit the capacity, which is positive.
    pub open spec fn wf(&self) -> bool {
        &&& distinct_keys(self.entries())
        &&& self.entries().len() <= self.capacity()
        &&& 0 < self.capacity() <= MAX_CAPACITY
    }

    /// An empty cache with zeroed counters. A requested capacity of zero
    /// gives a cache of capacity one.
    pub fn new(capacity: usize) -> (r: SearchCache)
        requires
            capacity <= MAX_CAPACITY,
        ensures
            r.wf(),
            r.entries() == Seq::<Entry>::empty(),
            r.capacity() == if capacity == 0 { 1 } else { capacity as nat },
            r.counters().hits == 0,
            r.counters().misses == 0,
    {
        let non_zero_capacity: usize = if capacity == 0 { 1 } else { capacity };
        SearchCache { cache: lru_new(non_zero_capacity), stats: CacheStats { hits: 0, misses: 0 } }
    }

    /// Stores `value` under `key` as the most recently used entry and returns
    /// the value it replaced. A new key at capacity evicts the least recently
    /// used entry. The counters are untouched.
    pub fn put(&mut self, key: u64, value: Vec<Scored>) -> (r: Option<Vec<Scored>>)
        requires
            old(self).wf(),
        ensures
            final(self).wf(),
            final(self).capacity() == old(self).capacity(),
            final(self).counters() == old(self).counters(),
            final(self).entries() == after_put(
                old(self).entries(),
                old(self).capacity(),
                key,
                value@,
            ),
            final(self).entries()[0] == (key, value@),
            holds(final(self).entries(), key),
            final(self).entries().len() == if holds(old(self).entries(), key) {
                old(self).entries().len()
            } else if old(self).entries().len() == old(self).capacity() {
                old(self).capacity()
            } else {
                old(self).entries().len() + 1
            },
            match r {
                Some(previous) => holds(old(self).entries(), key) && previous@ == old(
                    self,
                ).entries()[slot(old(self).entries(), key)].1,
                None => !holds(old(self).entries(), key),
            },
    {
        proof {
            lemma_after_put(self.entries(), self.capacity(), key, value@);
            lemma_slot(after_put(self.entries(), self.capacity(), key, value@), 0);
        }
        lru_put(&mut self.cache, key, value)
    }

    /// Looks `key` up. A hit returns a copy of the stored results, promotes
    /// the entry and counts as a hit; a miss counts as a miss.
    pub fn get(&mut self, key: &u64) -> (r: Option<Vec<Scored>>)
        requires
            old(self).wf(),
            old(self).counters().hits < u64::MAX,
            old(self).counters().misses < u64::MAX,
        ensures
            final(self).wf(),
            final(self).capacity() == old(self).capacity(),
            final(self).entries() == after_get(old(self).entries(), *key),
            match r {
                Some(found) => {
                    &&& holds(old(self).entries(), *key)
                    &&& found@ == old(self).entries()[slot(old(self).entries(), *key)].1
                    &&& final(self).counters().hits == old(self).counters().hits + 1
                    &&& final(self).counters().misses == old(self).counters().misses
                },
                None => {
                    &&& !holds(old(self).entries(), *key)
                    &&& final(self).counters().hits == old(self).counters().hits
                    &&& final(self).counters().misses == old(self).counters().misses + 1
                },
            },
    {
        proof {
            lemma_after_get(self.entries(), *key);
        }
        let result = lru_get(&mut self.cache, key);
        if result.is_some() {
            self.stats.hits += 1;
        } else {
            self.stats.misses += 1;
        }
        result
    }

    /// Whether `key` is cached. Neither recency nor the counters change.
    pub fn contains(&self, key: &u64) -> (r: bool)
        ensures
            r == holds(self.entries(), *key),
    {
        lru_contains(&self.cache, key)
    }

    /// The hit and miss counters.
    pub fn stats(&self) -> (r: &CacheStats)
        ensures
            *r == self.counters(),
    {
        &self.stats
    }

    /// The number of cached entries.
    pub fn len(&self) -> (r: usize)
        ensures
            r == self.entries().len(),
    {
        lru_len(&self.cache)
    }

    /// Removes every entry and resets both counters to zero.
    pub fn clear(&mut self)
        ensures
            final(self).entries() == Seq::<Entry>::empty(),
            final(self).capacity() == old(self).capacity(),
            final(self).counters().hits == 0,
            final(self).counters().misses == 0,
            old(self).wf() ==> final(self).wf(),
    {
        lru_clear(&mut self.cache);
        self.stats.hits = 0;
        self.stats.misses = 0;
    }
}

} // verus!
