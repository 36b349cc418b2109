use crate::aggregate::{answer, answer_of};
use crate::bucket::{
    after_keys, before_keys, bucket_index, bucket_start, in_span, key_at, required_keys,
    time_in_limits, BucketKey, BUCKET_SIZE, MAX_CACHE_SIZE, PREFETCH_COUNT,
};
use crate::fill::Fill;
use crate::lru_store::{
    lemma_get_wf, lemma_put_wf, lru_contains, lru_get, lru_new, lru_put, model_of, BucketLru,
    CacheModel,
};
use crate::query::{parse_query, query_of_tokens, whitespace_tokens, Answer, Query, QueryError};
use vstd::prelude::*;

verus! {

/// Whether a key is missing from the cache's contents.
pub open spec fn uncached(entries: Map<BucketKey, Seq<Fill>>) -> spec_fn(BucketKey) -> bool {
    |k: BucketKey| !entries.contains_key(k)
}

/// Whether a fill's timestamp lies in `(lo, hi]`.
pub open spec fn within(lo: int, hi: int) -> spec_fn(Fill) -> bool {
    |f: Fill| in_span(lo, hi, f.timestamp as int)
}

/// The buckets numbered `lo` through `hi`, in order.
pub open spec fn range_keys(lo: int, hi: int) -> Seq<BucketKey> {
    Seq::new(
        if lo <= hi {
            (hi - lo + 1) as nat
        } else {
            0
        },
        |i: int| key_at(lo + i),
    )
}

/// The keys among `keys` that the cache does not hold, in order.
pub open spec fn absent(keys: Seq<BucketKey>, entries: Map<BucketKey, Seq<Fill>>) -> Seq<BucketKey> {
    keys.filter(uncached(entries))
}

/// The buckets a query `(start, end]` has to fetch: the uncached required buckets,
/// and, only when there is one, the uncached prefetch buckets before and after.
pub open spec fn missing_keys(entries: Map<BucketKey, Seq<Fill>>, start: int, end: int) -> Seq<
    BucketKey,
> {
    let req = absent(required_keys(start, end), entries);
    if req.len() > 0 {
        req + absent(before_keys(start), entries) + absent(after_keys(end), entries)
    } else {
        req
    }
}

/// The least bucket start among the keys.
pub open spec fn fetch_lo(keys: Seq<BucketKey>) -> i64
    decreases keys.len(),
{
    if keys.len() <= 1 {
        keys[0].0
    } else {
        let rest = fetch_lo(keys.drop_last());
        if keys.last().0 < rest {
            keys.last().0
        } else {
            rest
        }
    }
}

/// The greatest bucket end among the keys.
pub open spec fn fetch_hi(keys: Seq<BucketKey>) -> i64
    decreases keys.len(),
{
    if keys.len() <= 1 {
        keys[0].1
    } else {
        let rest = fetch_hi(keys.drop_last());
        if keys.last().1 > rest {
            keys.last().1
        } else {
            rest
        }
    }
}

/// The fetched fills that fall in bucket `k`.
pub open spec fn bucket_slice(fetched: Seq<Fill>, k: BucketKey) -> Seq<Fill> {
    fetched.filter(within(k.0 as int, k.1 as int))
}

/// The cache after storing, key by key, each bucket's slice of the fetched fills.
pub open spec fn store_all(m: CacheModel, keys: Seq<BucketKey>, fetched: Seq<Fill>) -> CacheModel
    decreases keys.len(),
{
    if keys.len() == 0 {
        m
    } else {
        store_all(m, keys.drop_last(), fetched).put(keys.last(), bucket_slice(fetched, keys.last()))
    }
}

/// Every one of the keys is cached.
pub open spec fn all_cached(entries: Map<BucketKey, Seq<Fill>>, keys: Seq<BucketKey>) -> bool {
    forall|i: int| 0 <= i < keys.len() ==> entries.contains_key(#[trigger] keys[i])
}

/// The cache after reading each of the keys in turn.
pub open spec fn get_all(m: CacheModel, keys: Seq<BucketKey>) -> CacheModel
    decreases keys.len(),
{
    if keys.len() == 0 {
        m
    } else {
        get_all(m, keys.drop_last()).get(keys.last())
    }
}

/// The fills that lie in `(start, end]`.
pub open spec fn in_query(fills: Seq<Fill>, start: int, end: int) -> Seq<Fill> {
    fills.filter(within(start, end))
}

/// The cached fills of each key in turn, each cut to `(start, end]`.
pub open spec fn assembled(
    entries: Map<BucketKey, Seq<Fill>>,
    keys: Seq<BucketKey>,
    start: int,
    end: int,
) -> Seq<Fill>
    decreases keys.len(),
{
    if keys.len() == 0 {
        Seq::empty()
    } else {
        assembled(entries, keys.drop_last(), start, end) + in_query(entries[keys.last()], start, end)
    }
}

/// The answer to `q` from what the cache holds.
pub open spec fn answer_from(entries: Map<BucketKey, Seq<Fill>>, q: Query) -> Result<
    Answer,
    QueryError,
> {
    let req = required_keys(q.start as int, q.end as int);
    if all_cached(entries, req) {
        answer_of(q.kind, assembled(entries, req, q.start as int, q.end as int))
    } else {
        Err(QueryError::MissingBucket)
    }
}

/// The fills whose timestamps lie in `(lo, hi]`, in order.
pub fn fills_within(fills: &Vec<Fill>, lo: i64, hi: i64) -> (r: Vec<Fill>)
    ensures
        r@ == fills@.filter(within(lo as int, hi as int)),
{
    let mut out: Vec<Fill> = Vec::new();
    let mut i: usize = 0;
    while i < fills.len()
        invariant
            i <= fills.len(),
            out@ == fills@.take(i as int).filter(within(lo as int, hi as int)),
        decreases fills.len() - i,
    {
        let f = fills[i];
        proof {
            assert(fills@.take(i + 1) =~= fills@.take(i as int).push(f));
            fills@.take(i as int).lemma_filter_push(f, within(lo as int, hi as int));
        }
        if lo < f.timestamp && f.timestamp <= hi {
            out.push(f);
        }
        i += 1;
    }
    proof {
        assert(fills@.take(fills.len() as int) =~= fills@);
    }
    out
}

/// The least bucket start and the greatest bucket end among the keys.
pub fn fetch_span(keys: &Vec<BucketKey>) -> (r: (i64, i64))
    requires
        keys.len() > 0,
    ensures
        r == (fetch_lo(keys@), fetch_hi(keys@)),
{
    let mut lo = keys[0].0;
    let mut hi = keys[0].1;
    let mut i: usize = 1;
    proof {
        assert(keys@.take(1).len() == 1);
    }
    while i < keys.len()
        invariant
            1 <= i <= keys.len(),
            lo == fetch_lo(keys@.take(i as int)),
            hi == fetch_hi(keys@.take(i as int)),
        decreases keys.len() - i,
    {
        proof {
            assert(keys@.take(i + 1).drop_last() =~= keys@.take(i as int));
        }
        if keys[i].0 < lo {
            lo = keys[i].0;
        }
        if keys[i].1 > hi {
            hi = keys[i].1;
        }
        i += 1;
    }
    proof {
        assert(keys@.take(keys.len() as int) =~= keys@);
    }
    (lo, hi)
}

/// Storing distinct keys into an empty cache with room for them all keeps them in
/// the order stored, least recently used first.
pub proof fn lemma_store_fresh_keys(m: CacheModel, keys: Seq<BucketKey>, fetched: Seq<Fill>)
    requires
        m.wf(),
        m.order.len() == 0,
        keys.no_duplicates(),
        keys.len() <= m.capacity,
    ensures
        store_all(m, keys, fetched).wf(),
        store_all(m, keys, fetched).capacity == m.capacity,
        store_all(m, keys, fetched).order == keys,
    decreases keys.len(),
{
    if keys.len() > 0 {
        let rest = keys.drop_last();
        let last = keys.last();
        assert forall|a: int, b: int| 0 <= a < rest.len() && 0 <= b < rest.len() && a != b implies rest[a]
            != rest[b] by {
            assert(rest[a] == keys[a] && rest[b] == keys[b]);
        }
        lemma_store_fresh_keys(m, rest, fetched);
        let prev = store_all(m, rest, fetched);
        assert(!rest.contains(last)) by {
            if rest.contains(last) {
                let j = choose|j: int| 0 <= j < rest.len() && rest[j] == last;
                assert(keys[j] == keys[keys.len() - 1]);
            }
        }
        assert(!prev.entries.contains_key(last));
        lemma_put_wf(prev, last, bucket_slice(fetched, last));
        assert(rest.push(last) =~= keys);
    }
}

/// Storing capacity + 1 distinct buckets into an empty cache evicts exactly the
/// first one stored, the least recently used, and keeps all the others.
pub proof fn lemma_capacity_plus_one_evicts_first(
    m: CacheModel,
    keys: Seq<BucketKey>,
    fetched: Seq<Fill>,
)
    requires
        m.wf(),
        m.order.len() == 0,
        keys.no_duplicates(),
        keys.len() == m.capacity + 1,
    ensures
        forall|k: BucketKey|
            #[trigger] store_all(m, keys, fetched).entries.contains_key(k) <==> (keys.contains(k) && k
                != keys[0]),
{
    let rest = keys.drop_last();
    let last = keys.last();
    assert forall|a: int, b: int| 0 <= a < rest.len() && 0 <= b < rest.len() && a != b implies rest[a]
        != rest[b] by {
        assert(rest[a] == keys[a] && rest[b] == keys[b]);
    }
    lemma_store_fresh_keys(m, rest, fetched);
    let prev = store_all(m, rest, fetched);
    assert(!rest.contains(last)) by {
        if rest.contains(last) {
            let j = choose|j: int| 0 <= j < rest.len() && rest[j] == last;
            assert(keys[j] == keys[keys.len() - 1]);
        }
    }
    assert(!prev.entries.contains_key(last));
    assert(prev.full());
    assert(prev.order[0] == keys[0]);
    assert forall|k: BucketKey|
        #[trigger] store_all(m, keys, fetched).entries.contains_key(k) <==> (keys.contains(k) && k
            != keys[0]) by {
        if keys.contains(k) && k != last {
            let j = choose|j: int| 0 <= j < keys.len() && keys[j] == k;
            assert(rest[j] == k);
            assert(prev.order.contains(k));
        }
        if prev.entries.contains_key(k) {
            assert(prev.order.contains(k));
            let j = choose|j: int| 0 <= j < rest.len() && rest[j] == k;
            assert(keys[j] == k);
        }
        if k == last {
            assert(keys[keys.len() - 1] == k);
            assert(keys[0] != keys[keys.len() - 1]);
        }
    }
}

/// What a query ends in once the fetch of its missing buckets gave `res`: a
/// failed fetch leaves the cache as it was; fetched fills are stored and the
/// query answered from the cache.
pub open spec fn fetched_outcome(
    m0: CacheModel,
    m1: CacheModel,
    q: Query,
    missing: Seq<BucketKey>,
    res: Result<Vec<Fill>, String>,
    r: Result<Answer, QueryError>,
) -> bool {
    match res {
        Err(msg) => r == Err::<Answer, QueryError>(QueryError::FetchFailed(msg)) && m1 == m0,
        Ok(v) => {
            let stored = store_all(m0, missing, v@);
            r == answer_from(stored.entries, q) && m1.entries == stored.entries
        },
    }
}

/// Once every required bucket of a range is cached, as a successful query leaves
/// them, the same query finds nothing missing and so makes no fetch.
pub proof fn lemma_repeat_query_needs_no_fetch(
    entries: Map<BucketKey, Seq<Fill>>,
    start: int,
    end: int,
)
    requires
        all_cached(entries, required_keys(start, end)),
    ensures
        missing_keys(entries, start, end).len() == 0,
{
    let req = required_keys(start, end);
    let a = absent(req, entries);
    if a.len() > 0 {
        req.lemma_filter_pred(uncached(entries), 0);
        assert(a.contains(a[0]));
        req.lemma_filter_contains_rev(uncached(entries), a[0]);
        let j = choose|j: int| 0 <= j < req.len() && req[j] == a[0];
        assert(entries.contains_key(req[j]));
    }
}

/// Storing keys into a well-formed cache with room for all of them evicts nothing:
/// every key cached before, and every stored key, is cached after.
pub proof fn lemma_store_without_eviction(m: CacheModel, keys: Seq<BucketKey>, fetched: Seq<Fill>)
    requires
        m.wf(),
        m.order.len() + keys.len() <= m.capacity,
    ensures
        store_all(m, keys, fetched).wf(),
        store_all(m, keys, fetched).capacity == m.capacity,
        store_all(m, keys, fetched).order.len() <= m.order.len() + keys.len(),
        forall|k: BucketKey|
            m.entries.contains_key(k) || keys.contains(k) ==> #[trigger] store_all(
                m,
                keys,
                fetched,
            ).entries.contains_key(k),
    decreases keys.len(),
{
    if keys.len() > 0 {
        let rest = keys.drop_last();
        let last = keys.last();
        lemma_store_without_eviction(m, rest, fetched);
        let prev = store_all(m, rest, fetched);
        lemma_put_wf(prev, last, bucket_slice(fetched, last));
        assert forall|k: BucketKey|
            m.entries.contains_key(k) || keys.contains(k) implies #[trigger] store_all(
                m,
                keys,
                fetched,
            ).entries.contains_key(k) by {
            if k != last && keys.contains(k) {
                let j = choose|j: int| 0 <= j < keys.len() && keys[j] == k;
                assert(rest[j] == k);
                assert(rest.contains(k));
            }
        }
    }
}

/// Gap-filling covers the query: when the cache has room for every missing
/// bucket, each required bucket is cached once the fetched fills are stored.
pub proof fn lemma_gap_fill_covers(m: CacheModel, start: int, end: int, fetched: Seq<Fill>)
    requires
        m.wf(),
        m.order.len() + missing_keys(m.entries, start, end).len() <= m.capacity,
    ensures
        all_cached(
            store_all(m, missing_keys(m.entries, start, end), fetched).entries,
            required_keys(start, end),
        ),
{
    let missing = missing_keys(m.entries, start, end);
    let req = required_keys(start, end);
    lemma_store_without_eviction(m, missing, fetched);
    assert forall|i: int| 0 <= i < req.len() implies store_all(
        m,
        missing,
        fetched,
    ).entries.contains_key(#[trigger] req[i]) by {
        if !m.entries.contains_key(req[i]) {
            req.lemma_filter_contains(uncached(m.entries), i);
            let a = absent(req, m.entries);
            assert(a.contains(req[i]));
            let j = choose|j: int| 0 <= j < a.len() && a[j] == req[i];
            assert(missing[j] == req[i]);
            assert(missing.contains(req[i]));
        }
    }
}

/// A new bucket stored into a full cache evicts exactly the least recently used
/// bucket and keeps every other one; a later query that needs the evicted bucket
/// then has it missing, and so fetches again.
pub proof fn lemma_eviction(m: CacheModel, k: BucketKey, v: Seq<Fill>, start: int, end: int)
    requires
        m.wf(),
        m.full(),
        !m.entries.contains_key(k),
    ensures
        m.put(k, v).entries == m.entries.remove(m.order[0]).insert(k, v),
        !m.put(k, v).entries.contains_key(m.order[0]),
        forall|x: BucketKey|
            m.entries.contains_key(x) && x != m.order[0] ==> #[trigger] m.put(k, v).entries.contains_key(x),
        required_keys(start, end).contains(m.order[0]) ==> missing_keys(
            m.put(k, v).entries,
            start,
            end,
        ).len() > 0,
{
    assert(m.order.contains(m.order[0]));
    let e = m.put(k, v).entries;
    let req = required_keys(start, end);
    if req.contains(m.order[0]) {
        let j = choose|j: int| 0 <= j < req.len() && req[j] == m.order[0];
        req.lemma_filter_contains(uncached(e), j);
        assert(absent(req, e).len() > 0);
    }
}

/// Answers range queries over fills, keeping fetched buckets in a recency cache.
pub struct Processor {
    cache: BucketLru,
}

impl Processor {
    /// The state of the bucket cache.
    pub closed spec fn model(&self) -> CacheModel {
        model_of(self.cache)
    }

    pub open spec fn wf(&self) -> bool {
        self.model().wf()
    }

    /// A processor with an empty cache of `MAX_CACHE_SIZE` buckets.
    pub fn new() -> (r: Result<Processor, QueryError>)
        ensures
            r matches Ok(p) && p.wf() && p.model().capacity == MAX_CACHE_SIZE && p.model().order.len()
                == 0,
    {
        Processor::with_capacity(MAX_CACHE_SIZE)
    }

    /// A processor with an empty cache of `capacity` buckets; a zero capacity is refused.
    pub fn with_capacity(capacity: usize) -> (r: Result<Processor, QueryError>)
        ensures
            r is Err <==> capacity == 0,
            r matches Err(e) ==> e == QueryError::ZeroCapacity,
            r matches Ok(p) ==> p.wf() && p.model().capacity == capacity && p.model().order.len() == 0
                && forall|k: BucketKey| !p.model().entries.contains_key(k),
    {
        if capacity == 0 {
            return Err(QueryError::ZeroCapacity);
        }
        let p = Processor { cache: lru_new(capacity) };
        proof {
            assert(p.model().order =~= Seq::<BucketKey>::empty());
        }
        Ok(p)
    }

    /// Start of the bucket holding `t`.
    pub fn get_bucket_start(&self, t: i64) -> (r: i64)
        requires
            time_in_limits(t as int),
        ensures
            r == crate::bucket::spec_bucket_start(t as int),
    {
        bucket_start(t)
    }

    /// Appends to `out` the uncached buckets among those numbered `nlo` through
    /// `nhi`, whose starts are `lo` and `hi`.
    fn append_absent(
        &self,
        out: &mut Vec<BucketKey>,
        lo: i64,
        hi: i64,
        Ghost(nlo): Ghost<int>,
        Ghost(nhi): Ghost<int>,
    )
        requires
            lo == nlo * BUCKET_SIZE,
            hi == nhi * BUCKET_SIZE,
            -2_000_000_000_000_000_000 <= lo,
            hi <= 2_000_000_000_000_000_000,
        ensures
            final(out)@ == old(out)@ + absent(range_keys(nlo, nhi), self.model().entries),
    {
        let ghost keys = range_keys(nlo, nhi);
        let ghost entries = self.model().entries;
        let ghost start = old(out)@;
        let mut b = lo;
        let ghost mut i: int = 0;
        proof {
            assert(keys.take(0) =~= Seq::<BucketKey>::empty());
            assert(start + absent(keys.take(0), entries) =~= start);
        }
        while b <= hi
            invariant
                0 <= i,
                b == (nlo + i) * BUCKET_SIZE,
                lo == nlo * BUCKET_SIZE,
                hi == nhi * BUCKET_SIZE,
                -2_000_000_000_000_000_000 <= lo,
                hi <= 2_000_000_000_000_000_000,
                i <= keys.len(),
                keys == range_keys(nlo, nhi),
                entries == self.model().entries,
                out@ == start + absent(keys.take(i), entries),
            decreases nhi - nlo + 1 - i,
        {
            let k: BucketKey = (b, b + BUCKET_SIZE);
            proof {
                assert(nlo + i <= nhi);
                assert(k == keys[i]);
                assert(keys.take(i + 1) =~= keys.take(i).push(k));
                keys.take(i).lemma_filter_push(k, uncached(entries));
            }
            if !lru_contains(&self.cache, &k) {
                out.push(k);
            }
            proof {
                assert(out@ =~= start + absent(keys.take(i + 1), entries));
            }
            b = b + BUCKET_SIZE;
            proof {
                i = i + 1;
            }
        }
        proof {
            assert(i == keys.len());
            assert(keys.take(i) =~= keys);
        }
    }

    /// The buckets that a query `(start, end]` has to fetch: the uncached required
    /// buckets and, only when there is one, the uncached prefetch buckets.
    pub fn missing_buckets(&self, start: i64, end: i64) -> (r: Vec<BucketKey>)
        requires
            time_in_limits(start as int),
            time_in_limits(end as int),
        ensures
            r@ == missing_keys(self.model().entries, start as int, end as int),
    {
        let first = bucket_start(start);
        let last = bucket_start(end);
        let ghost ns = bucket_index(start as int);
        let ghost ne = bucket_index(end as int);
        let ghost entries = self.model().entries;
        proof {
            assert(required_keys(start as int, end as int) =~= range_keys(ns, ne));
            assert(before_keys(start as int) =~= range_keys(ns - PREFETCH_COUNT, ns - 1));
            assert(after_keys(end as int) =~= range_keys(ne + 1, ne + PREFETCH_COUNT));
        }
        let mut missing: Vec<BucketKey> = Vec::new();
        self.append_absent(&mut missing, first, last, Ghost(ns), Ghost(ne));
        proof {
            assert(missing@ =~= absent(required_keys(start as int, end as int), entries));
        }
        if missing.len() > 0 {
            self.append_absent(
                &mut missing,
                first - PREFETCH_COUNT * BUCKET_SIZE,
                first - BUCKET_SIZE,
                Ghost(ns - PREFETCH_COUNT),
                Ghost(ns - 1),
            );
            self.append_absent(
                &mut missing,
                last + BUCKET_SIZE,
                last + PREFETCH_COUNT * BUCKET_SIZE,
                Ghost(ne + 1),
                Ghost(ne + PREFETCH_COUNT),
            );
        }
        missing
    }

    /// Stores in the cache, key by key, each bucket's slice of the fetched fills,
    /// an empty slice included.
    pub fn store_fetched(&mut self, keys: &Vec<BucketKey>, fetched: &Vec<Fill>)
        requires
            old(self).wf(),
        ensures
            final(self).wf(),
            final(self).model() == store_all(old(self).model(), keys@, fetched@),
            final(self).model().capacity == old(self).model().capacity,
    {
        let ghost m0 = self.model();
        let mut i: usize = 0;
        proof {
            assert(keys@.take(0) =~= Seq::<BucketKey>::empty());
        }
        while i < keys.len()
            invariant
                i <= keys.len(),
                self.wf(),
                self.model() == store_all(m0, keys@.take(i as int), fetched@),
                self.model().capacity == m0.capacity,
                m0 == old(self).model(),
            decreases keys.len() - i,
        {
            let k = keys[i];
            let slice = fills_within(fetched, k.0, k.1);
            proof {
                assert(keys@.take(i + 1).drop_last() =~= keys@.take(i as int));
                lemma_put_wf(self.model(), k, slice@);
            }
            lru_put(&mut self.cache, k, slice);
            i += 1;
        }
        proof {
            assert(keys@.take(keys.len() as int) =~= keys@);
        }
    }

    /// Reads every required bucket of `(start, end]`, refreshing its recency, and
    /// gathers its fills that lie in the range; fails on the first bucket that is
    /// not cached.
    pub fn collect_fills(&mut self, start: i64, end: i64) -> (r: Result<Vec<Fill>, QueryError>)
        requires
            old(self).wf(),
            time_in_limits(start as int),
            time_in_limits(end as int),
        ensures
            final(self).wf(),
            final(self).model().entries == old(self).model().entries,
            final(self).model().capacity == old(self).model().capacity,
            r is Ok <==> all_cached(
                old(self).model().entries,
                required_keys(start as int, end as int),
            ),
            r matches Ok(v) ==> v@ == assembled(
                old(self).model().entries,
                required_keys(start as int, end as int),
                start as int,
                end as int,
            ) && final(self).model() == get_all(
                old(self).model(),
                required_keys(start as int, end as int),
            ),
            r matches Err(e) ==> e == QueryError::MissingBucket,
    {
        let ghost m0 = self.model();
        let ghost entries = m0.entries;
        let ghost keys = required_keys(start as int, end as int);
        let ghost ns = bucket_index(start as int);
        let ghost ne = bucket_index(end as int);
        let first = bucket_start(start);
        let last = bucket_start(end);
        let mut result: Vec<Fill> = Vec::new();
        let mut b = first;
        let ghost mut i: int = 0;
        proof {
            assert(keys.take(0) =~= Seq::<BucketKey>::empty());
        }
        while b <= last
            invariant
                0 <= i <= keys.len(),
                keys == required_keys(start as int, end as int),
                ns == bucket_index(start as int),
                ne == bucket_index(end as int),
                b == (ns + i) * BUCKET_SIZE,
                last == ne * BUCKET_SIZE,
                time_in_limits(start as int),
                time_in_limits(end as int),
                self.wf(),
                self.model() == get_all(m0, keys.take(i)),
                m0 == old(self).model(),
                entries == m0.entries,
                self.model().entries == entries,
                self.model().capacity == m0.capacity,
                all_cached(entries, keys.take(i)),
                result@ == assembled(entries, keys.take(i), start as int, end as int),
            decreases ne - ns + 1 - i,
        {
            let k: BucketKey = (b, b + BUCKET_SIZE);
            proof {
                assert(k == keys[i]);
                assert(keys.take(i + 1).drop_last() =~= keys.take(i));
                assert(keys.take(i + 1).last() == k);
                lemma_get_wf(self.model(), k);
            }
            match lru_get(&mut self.cache, &k) {
                Some(fills) => {
                    let part = fills_within(&fills, start, end);
                    result.append(&mut part.clone());
                    proof {
                        assert(all_cached(entries, keys.take(i + 1))) by {
                            assert forall|j: int| 0 <= j < keys.take(i + 1).len() implies entries.contains_key(
                                #[trigger] keys.take(i + 1)[j],
                            ) by {
                                if j < i {
                                    assert(keys.take(i + 1)[j] == keys.take(i)[j]);
                                }
                            }
                        }
                    }
                },
                None => {
                    proof {
                        assert(!all_cached(entries, keys)) by {
                            assert(keys[i] == k);
                        }
                        assert(self.model().entries == entries);
                        assert(self.model().capacity == m0.capacity);
                    }
                    return Err(QueryError::MissingBucket);
                },
            }
            b = b + BUCKET_SIZE;
            proof {
                i = i + 1;
            }
        }
        proof {
            assert(i == keys.len());
            assert(keys.take(i) =~= keys);
        }
        Ok(result)
    }

    /// Answers the query line `<kind> <start> <end>`. When a required bucket is not
    /// cached, `fetch` is called once, over the span of every missing bucket,
    /// prefetch buckets included; what it returns is stored bucket by bucket, and
    /// the answer is computed from the cache.
    pub fn process_query<F>(&mut self, query: String, fetch: F) -> (r: Result<Answer, QueryError>)
        where
            F: FnOnce(i64, i64) -> Result<Vec<Fill>, String>,
        requires
            old(self).wf(),
            forall|a: i64, b: i64| fetch.requires((a, b)),
        ensures
            final(self).wf(),
            final(self).model().capacity == old(self).model().capacity,
            match query_of_tokens(whitespace_tokens(query@)) {
                Err(e) => r == Err::<Answer, QueryError>(e) && final(self).model() == old(
                    self,
                ).model(),
                Ok(q) => {
                    let missing = missing_keys(old(self).model().entries, q.start as int, q.end as int);
                    if missing.len() == 0 {
                        r == answer_from(old(self).model().entries, q) && final(self).model().entries
                            == old(self).model().entries
                    } else {
                        exists|res: Result<Vec<Fill>, String>|
                            #[trigger] fetch.ensures((fetch_lo(missing), fetch_hi(missing)), res)
                                && fetched_outcome(
                                old(self).model(),
                                final(self).model(),
                                q,
                                missing,
                                res,
                                r,
                            )
                    }
                },
            },
            r is Ok ==> (query_of_tokens(whitespace_tokens(query@)) matches Ok(q) && all_cached(
                final(self).model().entries,
                required_keys(q.start as int, q.end as int),
            )),
    {
        let q = match parse_query(query.as_str()) {
            Ok(q) => q,
            Err(e) => return Err(e),
        };
        let ghost m0 = self.model();
        let missing = self.missing_buckets(q.start, q.end);
        if missing.len() > 0 {
            let (lo, hi) = fetch_span(&missing);
            let fetched = fetch(lo, hi);
            let ghost res = fetched;
            match fetched {
                Ok(fills) => {
                    self.store_fetched(&missing, &fills);
                    let collected = self.collect_fills(q.start, q.end);
                    let r = match collected {
                        Ok(v) => answer(q.kind, &v),
                        Err(e) => Err(e),
                    };
                    proof {
                        assert(fetched_outcome(m0, self.model(), q, missing@, res, r));
                    }
                    r
                },
                Err(msg) => {
                    proof {
                        assert(fetched_outcome(m0, self.model(), q, missing@, res, Err(QueryError::FetchFailed(msg))));
                    }
                    Err(QueryError::FetchFailed(msg))
                },
            }
        } else {
            proof {
                assert forall|i: int| 0 <= i < required_keys(q.start as int, q.end as int).len()
                    implies m0.entries.contains_key(#[trigger] required_keys(q.start as int, q.end as int)[i]) by {
                    let req = required_keys(q.start as int, q.end as int);
                    if !m0.entries.contains_key(req[i]) {
                        req.lemma_filter_contains(uncached(m0.entries), i);
                        assert(absent(req, m0.entries).contains(req[i]));
                    }
                }
            }
            match self.collect_fills(q.start, q.end) {
                Ok(v) => answer(q.kind, &v),
                Err(e) => Err(e),
            }
        }
    }

    /// Whether the bucket is cached; its recency is left alone.
    pub fn is_cached(&self, k: &BucketKey) -> (r: bool)
        ensures
            r == self.model().entries.contains_key(*k),
    {
        lru_contains(&self.cache, k)
    }
}

} // verus!
