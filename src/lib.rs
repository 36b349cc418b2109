//! Time-bucketed caching and gap-filling for range queries over trade fills.

pub mod aggregate;
pub mod bucket;
pub mod decimal;
pub mod fill;
pub mod lru_store;
pub mod processor;
pub mod query;

pub use aggregate::{answer, count_trades, total_volume};
pub use bucket::{bucket_start, BucketKey, BUCKET_SIZE, MAX_CACHE_SIZE, MAX_RANGE, PREFETCH_COUNT};
pub use decimal::Dec;
pub use fill::{Fill, BUY, SELL};
pub use processor::{fetch_span, fills_within, Processor};
pub use query::{parse_query, parse_query_tokens, Answer, Query, QueryError, QueryKind};
