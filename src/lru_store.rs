use crate::bucket::BucketKey;
use crate::fill::Fill;
use lru::LruCache;
use std::collections::hash_map::RandomState;
use vstd::prelude::*;

verus! {

#[verifier::external_type_specification]
#[verifier::external_body]
#[verifier::reject_recursive_types(K)]
#[verifier::reject_recursive_types(V)]
#[verifier::reject_recursive_types(S)]
pub struct ExLruCache<K, V, S>(LruCache<K, V, S>);

/// The bucket cache as the library stores it.
pub type BucketLru = LruCache<BucketKey, Vec<Fill>, RandomState>;

/// What an lru cache of buckets maps each key to.
pub uninterp spec fn lru_entries(c: BucketLru) -> Map<BucketKey, Seq<Fill>>;

/// The keys of an lru cache of buckets, least recently used first.
pub uninterp spec fn lru_order(c: BucketLru) -> Seq<BucketKey>;

/// The capacity an lru cache of buckets was made with.
pub uninterp spec fn lru_capacity(c: BucketLru) -> nat;

/// The state of a recency-ordered bucket cache.
pub struct CacheModel {
    pub entries: Map<BucketKey, Seq<Fill>>,
    /// Least recently used first.
    pub order: Seq<BucketKey>,
    pub capacity: nat,
}

pub open spec fn model_of(c: BucketLru) -> CacheModel {
    CacheModel { entries: lru_entries(c), order: lru_order(c), capacity: lru_capacity(c) }
}

impl CacheModel {
    /// Each key appears once in the recency order, exactly the cached keys appear
    /// there, and there are no more of them than the capacity.
    pub open spec fn wf(self) -> bool {
        &&& self.capacity > 0
        &&& self.order.no_duplicates()
        &&& forall|k: BucketKey| self.entries.contains_key(k) <==> self.order.contains(k)
        &&& self.order.len() <= self.capacity
    }

    /// `k` made the most recently used key.
    pub open spec fn touch(self, k: BucketKey) -> CacheModel {
        CacheModel { order: self.order.remove_value(k).push(k), ..self }
    }

    /// Reading `k`: a hit refreshes its recency, a miss changes nothing.
    pub open spec fn get(self, k: BucketKey) -> CacheModel {
        if self.entries.contains_key(k) {
            self.touch(k)
        } else {
            self
        }
    }

    /// The cache is at capacity.
    pub open spec fn full(self) -> bool {
        self.order.len() >= self.capacity
    }

    /// Storing `v` under `k`: an existing key is overwritten and refreshed; a new
    /// key into a full cache first evicts the least recently used key.
    pub open spec fn put(self, k: BucketKey, v: Seq<Fill>) -> CacheModel {
        if self.entries.contains_key(k) {
            CacheModel {
                entries: self.entries.insert(k, v),
                order: self.order.remove_value(k).push(k),
                capacity: self.capacity,
            }
        } else if self.full() {
            CacheModel {
                entries: self.entries.remove(self.order[0]).insert(k, v),
                order: self.order.drop_first().push(k),
                capacity: self.capacity,
            }
        } else {
            CacheModel {
                entries: self.entries.insert(k, v),
                order: self.order.push(k),
                capacity: self.capacity,
            }
        }
    }
}

/// Relies on `LruCache::with_hasher`: a cache of the given capacity holding nothing.
#[verifier::external_body]
pub(crate) fn lru_new(cap: usize) -> (r: BucketLru)
    requires
        cap > 0,
    ensures
        forall|k: BucketKey| !lru_entries(r).contains_key(k),
        lru_order(r).len() == 0,
        lru_capacity(r) == cap as nat,
{
    LruCache::with_hasher(std::num::NonZeroUsize::new(cap).unwrap(), RandomState::new())
}

/// Relies on `LruCache::contains`: whether the key is cached, with no change of recency.
#[verifier::external_body]
pub(crate) fn lru_contains(c: &BucketLru, k: &BucketKey) -> (r: bool)
    ensures
        r == lru_entries(*c).contains_key(*k),
{
    c.contains(k)
}

/// Relies on `LruCache::get`: the cached value of the key, which becomes the most
/// recently used; on a miss nothing changes. The value is handed out as a copy.
#[verifier::external_body]
pub(crate) fn lru_get(c: &mut BucketLru, k: &BucketKey) -> (r: Option<Vec<Fill>>)
    ensures
        lru_entries(*final(c)) == lru_entries(*old(c)),
        lru_order(*final(c)) == model_of(*old(c)).get(*k).order,
        lru_capacity(*final(c)) == lru_capacity(*old(c)),
        lru_entries(*old(c)).contains_key(*k) ==> (r matches Some(v) && v@ == lru_entries(
            *old(c),
        )[*k]),
        !lru_entries(*old(c)).contains_key(*k) ==> r is None,
{
    c.get(k).cloned()
}

/// Relies on `LruCache::put`: overwrites and refreshes an existing key; a new key
/// into a cache at capacity evicts the least recently used entry first.
#[verifier::external_body]
pub(crate) fn lru_put(c: &mut BucketLru, k: BucketKey, v: Vec<Fill>)
    ensures
        lru_entries(*final(c)) == model_of(*old(c)).put(k, v@).entries,
        lru_order(*final(c)) == model_of(*old(c)).put(k, v@).order,
        lru_capacity(*final(c)) == lru_capacity(*old(c)),
{
    let _ = c.put(k, v);
}

/// Removing one occurrence of `k` from a duplicate-free order that holds it
/// leaves exactly the other keys, still without duplicates.
pub proof fn lemma_remove_value(order: Seq<BucketKey>, k: BucketKey)
    requires
        order.no_duplicates(),
        order.contains(k),
    ensures
        order.remove_value(k).no_duplicates(),
        order.remove_value(k).len() == order.len() - 1,
        forall|x: BucketKey| order.remove_value(k).contains(x) <==> (order.contains(x) && x != k),
{
    order.index_of_first_ensures(k);
    let i = order.index_of_first(k)->0;
    let r = order.remove(i);
    assert(r == order.remove_value(k));
    assert forall|x: BucketKey| r.contains(x) <==> (order.contains(x) && x != k) by {
        if r.contains(x) {
            let j = choose|j: int| 0 <= j < r.len() && r[j] == x;
            if j < i {
                assert(order[j] == x);
            } else {
                assert(order[j + 1] == x);
            }
        }
        if order.contains(x) && x != k {
            let j = choose|j: int| 0 <= j < order.len() && order[j] == x;
            if j < i {
                assert(r[j] == x);
            } else {
                assert(j != i);
                assert(r[j - 1] == x);
            }
        }
    }
    assert forall|a: int, b: int| 0 <= a < r.len() && 0 <= b < r.len() && a != b implies r[a] != r[b] by {
        let ia = if a < i { a } else { a + 1 };
        let ib = if b < i { b } else { b + 1 };
        assert(r[a] == order[ia]);
        assert(r[b] == order[ib]);
    }
}

/// Appending a key that is not yet in a duplicate-free order.
pub proof fn lemma_push_fresh(order: Seq<BucketKey>, k: BucketKey)
    requires
        order.no_duplicates(),
        !order.contains(k),
    ensures
        order.push(k).no_duplicates(),
        forall|x: BucketKey| order.push(k).contains(x) <==> (order.contains(x) || x == k),
{
    let p = order.push(k);
    assert forall|x: BucketKey| p.contains(x) <==> (order.contains(x) || x == k) by {
        if p.contains(x) {
            let j = choose|j: int| 0 <= j < p.len() && p[j] == x;
            if j < order.len() {
                assert(order[j] == x);
            }
        }
        if order.contains(x) {
            let j = choose|j: int| 0 <= j < order.len() && order[j] == x;
            assert(p[j] == x);
        }
        if x == k {
            assert(p[order.len() as int] == k);
        }
    }
    assert forall|a: int, b: int| 0 <= a < p.len() && 0 <= b < p.len() && a != b implies p[a] != p[b] by {
        if a == order.len() {
            assert(order[b] == p[b]);
        } else if b == order.len() {
            assert(order[a] == p[a]);
        }
    }
}

/// Reading the cache keeps it well formed and leaves its contents alone.
pub proof fn lemma_get_wf(m: CacheModel, k: BucketKey)
    requires
        m.wf(),
    ensures
        m.get(k).wf(),
        m.get(k).entries == m.entries,
        m.get(k).capacity == m.capacity,
        m.get(k).order.len() == m.order.len(),
{
    if m.entries.contains_key(k) {
        assert(m.order.contains(k));
        lemma_remove_value(m.order, k);
        assert(!m.order.remove_value(k).contains(k));
        lemma_push_fresh(m.order.remove_value(k), k);
        let g = m.get(k);
        assert forall|x: BucketKey| g.entries.contains_key(x) <==> g.order.contains(x) by {
            assert(m.entries.contains_key(x) <==> m.order.contains(x));
        }
    }
}

/// Storing keeps the cache well formed; the stored key is then cached with the
/// given value, and the order grows by one only for a new key into a cache with room.
pub proof fn lemma_put_wf(m: CacheModel, k: BucketKey, v: Seq<Fill>)
    requires
        m.wf(),
    ensures
        m.put(k, v).wf(),
        m.put(k, v).capacity == m.capacity,
        m.put(k, v).entries.contains_key(k),
        m.put(k, v).entries[k] == v,
        !m.full() ==> forall|x: BucketKey| m.entries.contains_key(x) ==> m.put(k, v).entries.contains_key(x),
        m.put(k, v).order.len() as int == if !m.entries.contains_key(k) && !m.full() {
            m.order.len() + 1int
        } else {
            m.order.len() as int
        },
{
    let p = m.put(k, v);
    if m.entries.contains_key(k) {
        assert(m.order.contains(k));
        lemma_remove_value(m.order, k);
        assert(!m.order.remove_value(k).contains(k));
        lemma_push_fresh(m.order.remove_value(k), k);
        assert forall|x: BucketKey| p.entries.contains_key(x) <==> p.order.contains(x) by {
            assert(m.entries.contains_key(x) <==> m.order.contains(x));
        }
    } else if m.full() {
        let d = m.order.drop_first();
        assert(m.order.contains(m.order[0]));
        assert forall|x: BucketKey| d.contains(x) <==> (m.order.contains(x) && x != m.order[0]) by {
            if d.contains(x) {
                let j = choose|j: int| 0 <= j < d.len() && d[j] == x;
                assert(m.order[j + 1] == x);
            }
            if m.order.contains(x) && x != m.order[0] {
                let j = choose|j: int| 0 <= j < m.order.len() && m.order[j] == x;
                assert(j != 0);
                assert(d[j - 1] == x);
            }
        }
        assert forall|a: int, b: int| 0 <= a < d.len() && 0 <= b < d.len() && a != b implies d[a] != d[b] by {
            assert(d[a] == m.order[a + 1]);
            assert(d[b] == m.order[b + 1]);
        }
        lemma_push_fresh(d, k);
        assert forall|x: BucketKey| p.entries.contains_key(x) <==> p.order.contains(x) by {
            assert(m.entries.contains_key(x) <==> m.order.contains(x));
            assert(d.contains(x) <==> (m.order.contains(x) && x != m.order[0]));
            assert(d.push(k).contains(x) <==> (d.contains(x) || x == k));
        }
    } else {
        lemma_push_fresh(m.order, k);
        assert forall|x: BucketKey| p.entries.contains_key(x) <==> p.order.contains(x) by {
            assert(m.entries.contains_key(x) <==> m.order.contains(x));
        }
    }
}

} // verus!
