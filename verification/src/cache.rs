//! The bounded per-origin object cache.
//!
//! Each origin owns one `LogCache`: a fixed-capacity (1024 entries) map
//! from sanitized relative path to full object bytes, with
//! least-recently-touched eviction. The cache is the `lru` crate's
//! `LruCache`, taken on trust through the contracts below; its contents
//! are modelled as a sequence of `(key, value)` pairs ordered from most
//! recently to least recently touched. `get` returns a copy of the bytes
//! and marks the key most recently used; `put` inserts at the front and
//! drops the least recently used entry when the capacity would be
//! exceeded.

use vstd::prelude::*;

verus! {

#[verifier::external_type_specification]
#[verifier::external_body]
#[verifier::reject_recursive_types(K)]
#[verifier::reject_recursive_types(V)]
#[verifier::reject_recursive_types(S)]
pub struct ExLruCache<K, V, S>(lru::LruCache<K, V, S>);

/// The entries of an `lru::LruCache`, most recently used first.
pub uninterp spec fn lru_entries(c: lru::LruCache<String, Vec<u8>>) -> Seq<(Seq<char>, Seq<u8>)>;

/// The capacity an `lru::LruCache` was created with.
pub uninterp spec fn lru_capacity(c: lru::LruCache<String, Vec<u8>>) -> nat;

/// No key occurs twice.
pub open spec fn distinct_keys(es: Seq<(Seq<char>, Seq<u8>)>) -> bool {
    forall|i: int, j: int| 0 <= i < j < es.len() ==> es[i].0 != es[j].0
}

pub open spec fn has_key(es: Seq<(Seq<char>, Seq<u8>)>, k: Seq<char>) -> bool {
    exists|i: int| 0 <= i < es.len() && es[i].0 == k
}

/// Index of the first entry with key `k`, or -1.
pub open spec fn key_index(es: Seq<(Seq<char>, Seq<u8>)>, k: Seq<char>) -> int
    decreases es.len(),
{
    if es.len() == 0 {
        -1
    } else if es[0].0 == k {
        0
    } else {
        let r = key_index(es.skip(1), k);
        if r < 0 {
            -1
        } else {
            r + 1
        }
    }
}

/// The value stored under `k`, if any.
pub open spec fn lookup_key(es: Seq<(Seq<char>, Seq<u8>)>, k: Seq<char>) -> Option<Seq<u8>> {
    if key_index(es, k) >= 0 {
        Some(es[key_index(es, k)].1)
    } else {
        None
    }
}

/// `es` with the first entry keyed `k` removed.
pub open spec fn remove_key(es: Seq<(Seq<char>, Seq<u8>)>, k: Seq<char>) -> Seq<
    (Seq<char>, Seq<u8>),
>
    decreases es.len(),
{
    if es.len() == 0 {
        es
    } else if es[0].0 == k {
        es.skip(1)
    } else {
        seq![es[0]] + remove_key(es.skip(1), k)
    }
}

/// What `get` does to the entries: a hit moves the entry to the front,
/// value unchanged; a miss changes nothing.
pub open spec fn get_model(es: Seq<(Seq<char>, Seq<u8>)>, k: Seq<char>) -> Seq<
    (Seq<char>, Seq<u8>),
> {
    match lookup_key(es, k) {
        Some(v) => seq![(k, v)] + remove_key(es, k),
        None => es,
    }
}

/// What `put` does to the entries: the pair goes to the front; a present
/// key is updated in place (no eviction), and a fresh key on a full cache
/// evicts the least recently used entry.
pub open spec fn put_model(
    es: Seq<(Seq<char>, Seq<u8>)>,
    cap: nat,
    k: Seq<char>,
    v: Seq<u8>,
) -> Seq<(Seq<char>, Seq<u8>)> {
    if has_key(es, k) {
        seq![(k, v)] + remove_key(es, k)
    } else if es.len() < cap {
        seq![(k, v)] + es
    } else {
        seq![(k, v)] + es.drop_last()
    }
}

/// `key_index` finds the first occurrence, inside the sequence.
pub proof fn lemma_key_index(es: Seq<(Seq<char>, Seq<u8>)>, k: Seq<char>)
    ensures
        has_key(es, k) <==> key_index(es, k) >= 0,
        has_key(es, k) ==> 0 <= key_index(es, k) < es.len() && es[key_index(es, k)].0 == k,
    decreases es.len(),
{
    if es.len() == 0 {
    } else if es[0].0 == k {
    } else {
        lemma_key_index(es.skip(1), k);
        assert forall|i: int| 0 <= i < es.len() && es[i].0 == k implies has_key(es.skip(1), k) by {
            assert(es.skip(1)[i - 1] == es[i]);
        }
    }
}

/// Under distinct keys, removal drops exactly the entry keyed `k`.
pub proof fn lemma_remove_key(es: Seq<(Seq<char>, Seq<u8>)>, k: Seq<char>)
    requires
        distinct_keys(es),
    ensures
        distinct_keys(remove_key(es, k)),
        !has_key(remove_key(es, k), k),
        remove_key(es, k).len() == if has_key(es, k) {
            es.len() - 1
        } else {
            es.len() as int
        },
        forall|i: int|
            0 <= i < remove_key(es, k).len() ==> es.contains(#[trigger] remove_key(es, k)[i]),
    decreases es.len(),
{
    lemma_key_index(es, k);
    if es.len() == 0 {
    } else if es[0].0 == k {
        let r = es.skip(1);
        assert forall|i: int| 0 <= i < r.len() implies es.contains(#[trigger] r[i]) by {
            assert(r[i] == es[i + 1]);
        }
        if has_key(r, k) {
            let i = choose|i: int| 0 <= i < r.len() && r[i].0 == k;
            assert(es[i + 1].0 == k);
            assert(false);
        }
    } else {
        let t = es.skip(1);
        assert(distinct_keys(t)) by {
            assert forall|i: int, j: int| 0 <= i < j < t.len() implies t[i].0 != t[j].0 by {
                assert(t[i] == es[i + 1] && t[j] == es[j + 1]);
            }
        }
        lemma_remove_key(t, k);
        lemma_key_index(t, k);
        let r = seq![es[0]] + remove_key(t, k);
        assert forall|i: int| 0 <= i < r.len() implies es.contains(#[trigger] r[i]) by {
            if i == 0 {
                assert(es[0] == r[0]);
            } else {
                assert(r[i] == remove_key(t, k)[i - 1]);
                assert(t.contains(r[i]));
                let w = choose|w: int| 0 <= w < t.len() && t[w] == r[i];
                assert(es[w + 1] == r[i]);
            }
        }
        assert forall|i: int, j: int| 0 <= i < j < r.len() implies r[i].0 != r[j].0 by {
            if i == 0 {
                assert(t.contains(r[j]));
                let w = choose|w: int| 0 <= w < t.len() && t[w] == r[j];
                assert(es[w + 1] == r[j]);
                assert(es[0].0 != es[w + 1].0);
            } else {
                assert(r[i] == remove_key(t, k)[i - 1] && r[j] == remove_key(t, k)[j - 1]);
            }
        }
        if has_key(r, k) {
            let i = choose|i: int| 0 <= i < r.len() && r[i].0 == k;
            assert(i > 0);
            assert(remove_key(t, k)[i - 1].0 == k);
            assert(has_key(remove_key(t, k), k));
        }
        assert forall|i: int| 0 <= i < es.len() && es[i].0 == k implies has_key(t, k) by {
            assert(t[i - 1] == es[i]);
        }
    }
}

/// Under distinct keys, looking up the key of any entry yields its value.
pub proof fn lemma_lookup_at(es: Seq<(Seq<char>, Seq<u8>)>, idx: int)
    requires
        distinct_keys(es),
        0 <= idx < es.len(),
    ensures
        lookup_key(es, es[idx].0) == Some(es[idx].1),
    decreases es.len(),
{
    if idx == 0 {
    } else {
        let t = es.skip(1);
        assert(distinct_keys(t)) by {
            assert forall|i: int, j: int| 0 <= i < j < t.len() implies t[i].0 != t[j].0 by {
                assert(t[i] == es[i + 1] && t[j] == es[j + 1]);
            }
        }
        assert(t[idx - 1] == es[idx]);
        lemma_lookup_at(t, idx - 1);
        assert(es[0].0 != es[idx].0);
        let k0 = es[idx].0;
        let r = key_index(t, k0);
        lemma_key_index(t, k0);
        assert(lookup_key(t, k0) == Some(es[idx].1));
        assert(r >= 0);
        assert(r < t.len());
        assert(t[r].1 == es[idx].1);
        assert(key_index(es, k0) == r + 1);
        assert(es[r + 1] == t[r]);
    }
}

/// Absent keys look up to `None`.
pub proof fn lemma_lookup_absent(es: Seq<(Seq<char>, Seq<u8>)>, k: Seq<char>)
    requires
        !has_key(es, k),
    ensures
        lookup_key(es, k) is None,
{
    lemma_key_index(es, k);
}

/// Law: what was just stored is found — a `get` right after a `put` of
/// `(k, v)` returns `v`, whatever the cache held before.
pub proof fn lemma_get_after_put(es: Seq<(Seq<char>, Seq<u8>)>, cap: nat, k: Seq<char>, v: Seq<u8>)
    ensures
        lookup_key(put_model(es, cap, k, v), k) == Some(v),
{
    let r = put_model(es, cap, k, v);
    assert(r[0] == (k, v));
    assert(key_index(r, k) == 0);
}

/// Relies on lru::LruCache::new: a fresh cache is empty and holds at most
/// `cap` entries.
#[verifier::external_body]
fn lru_new(cap: usize) -> (c: lru::LruCache<String, Vec<u8>>)
    requires
        cap >= 1,
    ensures
        lru_entries(c) == Seq::<(Seq<char>, Seq<u8>)>::empty(),
        lru_capacity(c) == cap as nat,
{
    lru::LruCache::new(std::num::NonZeroUsize::new(cap).unwrap())
}

/// Relies on lru::LruCache::get: a hit returns the stored value and moves
/// the entry to the head of the recency list; a miss changes nothing.
#[verifier::external_body]
fn lru_get(c: &mut lru::LruCache<String, Vec<u8>>, key: &str) -> (r: Option<Vec<u8>>)
    ensures
        lru_capacity(*final(c)) == lru_capacity(*old(c)),
        lru_entries(*final(c)) == get_model(lru_entries(*old(c)), key@),
        match r {
            Some(v) => lookup_key(lru_entries(*old(c)), key@) == Some(v@),
            None => lookup_key(lru_entries(*old(c)), key@) is None,
        },
{
    c.get(key).cloned()
}

/// Relies on lru::LruCache::put: inserts at the head of the recency list,
/// updating a present key in place and otherwise evicting the tail entry
/// when the cache is full.
#[verifier::external_body]
fn lru_put(c: &mut lru::LruCache<String, Vec<u8>>, key: String, value: Vec<u8>)
    requires
        lru_entries(*old(c)).len() <= lru_capacity(*old(c)),
    ensures
        lru_capacity(*final(c)) == lru_capacity(*old(c)),
        lru_entries(*final(c)) == put_model(
            lru_entries(*old(c)),
            lru_capacity(*old(c)),
            key@,
            value@,
        ),
{
    c.put(key, value);
}

/// Relies on lru::LruCache::len: the number of entries held.
#[verifier::external_body]
fn lru_len(c: &lru::LruCache<String, Vec<u8>>) -> (n: usize)
    ensures
        n == lru_entries(*c).len(),
{
    c.len()
}

/// The number of objects one origin's cache holds at most.
pub const CACHE_CAPACITY: usize = 1024;

/// One origin's object cache: sanitized relative path to full object
/// bytes, bounded at `CACHE_CAPACITY` entries, least-recently-touched
/// eviction. Bytes are copied out on read, so callers never hold a
/// reference into the shared storage.
pub struct LogCache {
    lru: lru::LruCache<String, Vec<u8>>,
}

impl LogCache {
    /// The cached entries, most recently touched first.
    pub closed spec fn entries(&self) -> Seq<(Seq<char>, Seq<u8>)> {
        lru_entries(self.lru)
    }

    pub closed spec fn capacity(&self) -> nat {
        lru_capacity(self.lru)
    }

    /// The cache never exceeds its fixed capacity and never holds a key
    /// twice.
    pub open spec fn wf(&self) -> bool {
        &&& self.capacity() == CACHE_CAPACITY
        &&& distinct_keys(self.entries())
        &&& self.entries().len() <= CACHE_CAPACITY
    }

    /// The bytes stored under `k`, if any.
    pub open spec fn spec_lookup(&self, k: Seq<char>) -> Option<Seq<u8>> {
        lookup_key(self.entries(), k)
    }

    /// An empty cache of capacity `CACHE_CAPACITY`.
    pub fn new() -> (c: LogCache)
        ensures
            c.wf(),
            c.entries() == Seq::<(Seq<char>, Seq<u8>)>::empty(),
    {
        LogCache { lru: lru_new(CACHE_CAPACITY) }
    }

    /// Returns a copy of the bytes under `key` and marks the key most
    /// recently used; `None` on a miss.
    pub fn get(&mut self, key: &str) -> (r: Option<Vec<u8>>)
        requires
            old(self).wf(),
        ensures
            final(self).wf(),
            final(self).entries() == get_model(old(self).entries(), key@),
            match r {
                Some(v) => old(self).spec_lookup(key@) == Some(v@),
                None => old(self).spec_lookup(key@) is None,
            },
    {
        let r = lru_get(&mut self.lru, key);
        proof {
            let es = old(self).entries();
            lemma_key_index(es, key@);
            if lookup_key(es, key@) is Some {
                lemma_remove_key(es, key@);
                let g = get_model(es, key@);
                assert(g == seq![(key@, lookup_key(es, key@).unwrap())] + remove_key(es, key@));
                assert forall|i: int, j: int| 0 <= i < j < g.len() implies g[i].0 != g[j].0 by {
                    if i == 0 {
                        assert(g[j] == remove_key(es, key@)[j - 1]);
                        assert(!has_key(remove_key(es, key@), key@));
                        if g[j].0 == key@ {
                            assert(has_key(remove_key(es, key@), key@));
                        }
                    } else {
                        assert(g[i] == remove_key(es, key@)[i - 1]);
                        assert(g[j] == remove_key(es, key@)[j - 1]);
                    }
                }
            }
        }
        r
    }

    /// Stores `value` under `key`, overwriting any previous value, and
    /// marks the key most recently used; evicts the least recently
    /// touched entry if the cache would exceed its capacity.
    pub fn put(&mut self, key: String, value: Vec<u8>)
        requires
            old(self).wf(),
        ensures
            final(self).wf(),
            final(self).entries() == put_model(
                old(self).entries(),
                CACHE_CAPACITY as nat,
                key@,
                value@,
            ),
    {
        proof {
            let es = old(self).entries();
            let k = key@;
            lemma_key_index(es, k);
            lemma_remove_key(es, k);
            let p = put_model(es, CACHE_CAPACITY as nat, k, value@);
            let tail = if has_key(es, k) {
                remove_key(es, k)
            } else if es.len() < CACHE_CAPACITY {
                es
            } else {
                es.drop_last()
            };
            assert(p == seq![(k, value@)] + tail);
            assert(distinct_keys(tail) && !has_key(tail, k)) by {
                if has_key(es, k) {
                } else if es.len() < CACHE_CAPACITY {
                    if has_key(es, k) {
                    }
                } else {
                    assert forall|i: int, j: int|
                        0 <= i < j < es.drop_last().len() implies es.drop_last()[i].0
                        != es.drop_last()[j].0 by {
                        assert(es.drop_last()[i] == es[i] && es.drop_last()[j] == es[j]);
                    }
                    if has_key(es.drop_last(), k) {
                        let i = choose|i: int|
                            0 <= i < es.drop_last().len() && es.drop_last()[i].0 == k;
                        assert(es[i].0 == k);
                        assert(has_key(es, k));
                    }
                }
            }
            assert forall|i: int, j: int| 0 <= i < j < p.len() implies p[i].0 != p[j].0 by {
                if i == 0 {
                    assert(p[j] == tail[j - 1]);
                    if p[j].0 == k {
                        assert(has_key(tail, k));
                    }
                } else {
                    assert(p[i] == tail[i - 1] && p[j] == tail[j - 1]);
                }
            }
        }
        lru_put(&mut self.lru, key, value);
    }

    /// The number of objects currently cached.
    pub fn len(&self) -> (n: usize)
        ensures
            n == self.entries().len(),
    {
        lru_len(&self.lru)
    }
}

/// The entries after `i` successive `put`s of `(keys[j], vals[j])` into an
/// initially empty cache of capacity `cap`.
pub open spec fn fill_model(keys: Seq<Seq<char>>, vals: Seq<Seq<u8>>, cap: nat, i: int) -> Seq<
    (Seq<char>, Seq<u8>),
>
    decreases i,
{
    if i <= 0 {
        Seq::empty()
    } else {
        put_model(fill_model(keys, vals, cap, i - 1), cap, keys[i - 1], vals[i - 1])
    }
}

/// Filling an empty cache with at most `cap` distinct fresh keys keeps
/// them all, most recent first.
pub proof fn lemma_fill_fresh(keys: Seq<Seq<char>>, vals: Seq<Seq<u8>>, cap: nat, i: int)
    requires
        keys.len() == vals.len(),
        forall|a: int, b: int| 0 <= a < b < keys.len() ==> keys[a] != keys[b],
        0 <= i <= keys.len(),
        i <= cap,
    ensures
        fill_model(keys, vals, cap, i) == Seq::new(i as nat, |j: int| (keys[i - 1 - j], vals[i - 1
            - j])),
    decreases i,
{
    if i > 0 {
        lemma_fill_fresh(keys, vals, cap, i - 1);
        let prev = fill_model(keys, vals, cap, i - 1);
        if has_key(prev, keys[i - 1]) {
            let j = choose|j: int| 0 <= j < prev.len() && prev[j].0 == keys[i - 1];
            assert(prev[j].0 == keys[i - 2 - j]);
            assert(false);
        }
        assert(prev.len() < cap);
        assert(fill_model(keys, vals, cap, i) =~= Seq::new(
            i as nat,
            |j: int| (keys[i - 1 - j], vals[i - 1 - j]),
        ));
    } else {
        assert(fill_model(keys, vals, cap, i) =~= Seq::new(
            i as nat,
            |j: int| (keys[i - 1 - j], vals[i - 1 - j]),
        ));
    }
}

/// Law: inserting 1025 distinct keys into an empty capacity-1024 cache
/// drops exactly the least recently touched key — the first one — and
/// every other key is still retrievable with the bytes stored under it.
pub proof fn lemma_eviction(keys: Seq<Seq<char>>, vals: Seq<Seq<u8>>)
    requires
        keys.len() == 1025,
        vals.len() == 1025,
        forall|a: int, b: int| 0 <= a < b < 1025 ==> keys[a] != keys[b],
    ensures
        ({
            let es = fill_model(keys, vals, 1024, 1025);
            &&& lookup_key(es, keys[0]) is None
            &&& forall|i: int| 1 <= i < 1025 ==> lookup_key(es, #[trigger] keys[i]) == Some(
                vals[i],
            )
        }),
{
    lemma_fill_fresh(keys, vals, 1024, 1024);
    let prev = fill_model(keys, vals, 1024, 1024);
    let es = fill_model(keys, vals, 1024, 1025);
    if has_key(prev, keys[1024]) {
        let j = choose|j: int| 0 <= j < prev.len() && prev[j].0 == keys[1024];
        assert(prev[j].0 == keys[1023 - j]);
        assert(false);
    }
    assert(prev.len() == 1024);
    assert(es == seq![(keys[1024], vals[1024])] + prev.drop_last());
    assert(es =~= Seq::new(1024, |j: int| (keys[1024 - j], vals[1024 - j])));
    assert(distinct_keys(es)) by {
        assert forall|a: int, b: int| 0 <= a < b < es.len() implies es[a].0 != es[b].0 by {
            assert(es[a].0 == keys[1024 - a] && es[b].0 == keys[1024 - b]);
        }
    }
    if has_key(es, keys[0]) {
        let j = choose|j: int| 0 <= j < es.len() && es[j].0 == keys[0];
        assert(es[j].0 == keys[1024 - j]);
        assert(false);
    }
    lemma_lookup_absent(es, keys[0]);
    assert forall|i: int| 1 <= i < 1025 implies lookup_key(es, #[trigger] keys[i]) == Some(
        vals[i],
    ) by {
        assert(es[1024 - i] == (keys[i], vals[i]));
        lemma_lookup_at(es, 1024 - i);
    }
}

} // verus!
