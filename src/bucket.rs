use vstd::prelude::*;

verus! {

/// Width of a bucket in seconds.
pub const BUCKET_SIZE: i64 = 3600;

/// Buckets prefetched on each side of a query's span when it has a gap.
pub const PREFETCH_COUNT: i64 = 1;

/// Number of buckets the cache holds.
pub const MAX_CACHE_SIZE: usize = 200;

/// Widest query range, `end - start`, in seconds.
pub const MAX_RANGE: i64 = 3600;

/// Largest magnitude of a query bound; keeps every bucket bound within `i64`.
pub const TIME_LIMIT: i64 = 1_000_000_000_000_000_000;

/// A bucket as `(start, end)`, with `end == start + BUCKET_SIZE`.
pub type BucketKey = (i64, i64);

/// A query bound that bucket arithmetic can handle without overflow.
pub open spec fn time_in_limits(t: int) -> bool {
    -TIME_LIMIT <= t <= TIME_LIMIT
}

/// Number of the bucket holding `t`: `t` divided by `BUCKET_SIZE`, rounded down.
pub open spec fn bucket_index(t: int) -> int {
    t / (BUCKET_SIZE as int)
}

/// Start of the bucket holding `t`: `t` rounded down to a multiple of `BUCKET_SIZE`.
pub open spec fn spec_bucket_start(t: int) -> int {
    bucket_index(t) * BUCKET_SIZE
}

/// The left-open, right-closed membership test used for buckets and queries.
pub open spec fn in_span(lo: int, hi: int, t: int) -> bool {
    lo < t <= hi
}

/// The bucket with number `n`.
pub open spec fn key_at(n: int) -> BucketKey {
    ((n * BUCKET_SIZE) as i64, (n * BUCKET_SIZE + BUCKET_SIZE) as i64)
}

/// Number of buckets from the one holding `start` to the one holding `end`.
pub open spec fn span_len(start: int, end: int) -> nat {
    if bucket_index(start) <= bucket_index(end) {
        (bucket_index(end) - bucket_index(start) + 1) as nat
    } else {
        0
    }
}

/// Every bucket from the one holding `start` to the one holding `end`, in order.
pub open spec fn required_keys(start: int, end: int) -> Seq<BucketKey> {
    Seq::new(span_len(start, end), |i: int| key_at(bucket_index(start) + i))
}

/// The `PREFETCH_COUNT` buckets right before the bucket holding `start`.
pub open spec fn before_keys(start: int) -> Seq<BucketKey> {
    Seq::new(PREFETCH_COUNT as nat, |i: int| key_at(bucket_index(start) - PREFETCH_COUNT + i))
}

/// The `PREFETCH_COUNT` buckets right after the bucket holding `end`.
pub open spec fn after_keys(end: int) -> Seq<BucketKey> {
    Seq::new(PREFETCH_COUNT as nat, |i: int| key_at(bucket_index(end) + 1 + i))
}

/// Rounds `t` down to the start of its bucket, by floor division.
pub fn bucket_start(t: i64) -> (r: i64)
    requires
        time_in_limits(t as int),
    ensures
        r == spec_bucket_start(t as int),
{
    proof {
        vstd::arithmetic::div_mod::lemma_fundamental_div_mod(t as int, BUCKET_SIZE as int);
    }
    match t.checked_rem_euclid(BUCKET_SIZE) {
        Some(rem) => t - rem,
        None => t,
    }
}

/// Every timestamp lies in the bucket that starts at `bucket_start` of it, and
/// that start is a multiple of the bucket width.
pub proof fn lemma_bucket_alignment(t: int)
    ensures
        spec_bucket_start(t) <= t < spec_bucket_start(t) + BUCKET_SIZE,
        spec_bucket_start(t) % (BUCKET_SIZE as int) == 0,
{
    vstd::arithmetic::div_mod::lemma_fundamental_div_mod(t, BUCKET_SIZE as int);
    vstd::arithmetic::div_mod::lemma_mod_multiples_basic(bucket_index(t), BUCKET_SIZE as int);
}

/// A query `[start, end]` takes a fill stamped `end` and leaves out one stamped `start`.
pub proof fn lemma_boundary_inclusion(start: int, end: int)
    requires
        start < end,
    ensures
        in_span(start, end, end),
        !in_span(start, end, start),
{
}

} // verus!
