use bucket_cache::{
    bucket_start, count_trades, fills_within, parse_query, total_volume, Answer, Dec, Fill,
    Processor, QueryError, QueryKind, BUY, SELL,
};
use rust_decimal::Decimal;
use std::cell::RefCell;
use std::str::FromStr;

fn dec(mantissa: i128, scale: u32) -> Dec {
    Dec::new(mantissa, scale).unwrap()
}

fn create_test_fill(sequence_number: u64, timestamp: i64, direction: i32, price: Dec, quantity: Dec) -> Fill {
    Fill { sequence_number, timestamp, direction, price, quantity }
}

fn to_decimal(d: Dec) -> Decimal {
    Decimal::from_i128_with_scale(d.mantissa(), d.scale())
}

fn sample_fills() -> Vec<Fill> {
    vec![
        create_test_fill(1, 1701386700, 1, dec(1000, 1), dec(15, 1)),
        create_test_fill(1, 1701386750, 1, dec(1010, 1), dec(5, 1)),
        create_test_fill(2, 1701386800, -1, dec(1020, 1), dec(20, 1)),
    ]
}

fn no_fetch(_: i64, _: i64) -> Result<Vec<Fill>, String> {
    panic!("unexpected fetch")
}

#[test]
fn test_processor_initialization() {
    let processor = Processor::new();
    assert!(processor.is_ok());
}

#[test]
fn test_get_bucket_start() {
    let processor = Processor::new().unwrap();
    assert_eq!(processor.get_bucket_start(3600), 3600);
    assert_eq!(processor.get_bucket_start(4500), 3600);
}

#[test]
fn test_query_calculations() {
    let fills = sample_fills();
    assert_eq!(count_trades(&fills, QueryKind::Count), 2);
    assert_eq!(count_trades(&fills, QueryKind::BuyCount), 1);
    assert_eq!(count_trades(&fills, QueryKind::SellCount), 1);
    let total_volume = total_volume(&fills).unwrap();
    assert_eq!(to_decimal(total_volume), Decimal::from_str("404.5").unwrap());
}

#[test]
fn test_invalid_query_format() {
    let mut processor = Processor::new().unwrap();
    let result = processor.process_query("invalid query".to_string(), no_fetch);
    assert!(result.is_err());
}

#[test]
fn bucket_start_floors_negative_times() {
    assert_eq!(bucket_start(0), 0);
    assert_eq!(bucket_start(3599), 0);
    assert_eq!(bucket_start(-1), -3600);
    assert_eq!(bucket_start(-3600), -3600);
    assert_eq!(bucket_start(1701386700), 1701385200);
}

#[test]
fn zero_capacity_is_refused() {
    assert!(matches!(Processor::with_capacity(0), Err(QueryError::ZeroCapacity)));
    assert!(Processor::with_capacity(1).is_ok());
}

#[test]
fn end_to_end_answers() {
    let cases = [("C", 2usize), ("B", 1), ("S", 1)];
    for (kind, expected) in cases {
        let mut p = Processor::new().unwrap();
        let q = format!("{} 1701385200 1701388800", kind);
        let r = p.process_query(q, |_, _| Ok(sample_fills())).unwrap();
        assert!(matches!(r, Answer::Trades(n) if n == expected));
    }
    let mut p = Processor::new().unwrap();
    let r = p.process_query("V 1701385200 1701388800".to_string(), |_, _| Ok(sample_fills())).unwrap();
    match r {
        Answer::Volume(v) => assert_eq!(to_decimal(v), Decimal::from_str("404.5").unwrap()),
        _ => panic!("expected a volume"),
    }
}

#[test]
fn boundary_fill_at_end_included_at_start_excluded() {
    let fills = vec![
        create_test_fill(1, 1000, BUY, dec(1, 0), dec(1, 0)),
        create_test_fill(2, 2000, SELL, dec(1, 0), dec(1, 0)),
    ];
    let mut p = Processor::new().unwrap();
    let r = p.process_query("C 1000 2000".to_string(), move |_, _| Ok(fills)).unwrap();
    assert!(matches!(r, Answer::Trades(1)));
    let r = p.process_query("S 1000 2000".to_string(), no_fetch).unwrap();
    assert!(matches!(r, Answer::Trades(1)));
    let r = p.process_query("B 1000 2000".to_string(), no_fetch).unwrap();
    assert!(matches!(r, Answer::Trades(0)));
}

#[test]
fn repeated_query_fetches_once() {
    let calls = RefCell::new(Vec::new());
    let mut p = Processor::new().unwrap();
    for _ in 0..2 {
        let r = p
            .process_query("C 3600 7200".to_string(), |lo, hi| {
                calls.borrow_mut().push((lo, hi));
                Ok(Vec::new())
            })
            .unwrap();
        assert!(matches!(r, Answer::Trades(0)));
    }
    assert_eq!(*calls.borrow(), vec![(0, 14400)]);
}

#[test]
fn gap_filling_caches_required_and_prefetch_buckets() {
    let mut p = Processor::new().unwrap();
    let missing = p.missing_buckets(3600, 7200);
    assert_eq!(missing, vec![(3600, 7200), (7200, 10800), (0, 3600), (10800, 14400)]);
    p.process_query("C 3600 7200".to_string(), |_, _| Ok(Vec::new())).unwrap();
    for k in [(0, 3600), (3600, 7200), (7200, 10800), (10800, 14400)] {
        assert!(p.is_cached(&k));
    }
    assert!(!p.is_cached(&(14400, 18000)));
    assert!(p.missing_buckets(3600, 7200).is_empty());
}

#[test]
fn fully_cached_query_does_not_prefetch() {
    let mut p = Processor::new().unwrap();
    p.process_query("C 3601 7200".to_string(), |_, _| Ok(Vec::new())).unwrap();
    // buckets 3600 and 7200 are cached together with 0 and 10800; 14400 is not.
    assert!(p.missing_buckets(7201, 10800).is_empty());
    assert_eq!(p.missing_buckets(10801, 14400), vec![(14400, 18000), (18000, 21600)]);
}

#[test]
fn deduplicates_counts_but_not_volume() {
    let fills = vec![
        create_test_fill(7, 10, BUY, dec(2, 0), dec(3, 0)),
        create_test_fill(7, 20, SELL, dec(5, 0), dec(1, 0)),
    ];
    assert_eq!(count_trades(&fills, QueryKind::Count), 1);
    assert_eq!(count_trades(&fills, QueryKind::BuyCount), 1);
    assert_eq!(count_trades(&fills, QueryKind::SellCount), 1);
    assert_eq!(to_decimal(total_volume(&fills).unwrap()), Decimal::from(11));
}

#[test]
fn eviction_drops_least_recently_used_and_refetches() {
    let calls = RefCell::new(0usize);
    let mut p = Processor::with_capacity(4).unwrap();
    let fetch = |_: i64, _: i64| -> Result<Vec<Fill>, String> {
        *calls.borrow_mut() += 1;
        Ok(Vec::new())
    };
    // fills the cache: 3600 and 7200 (required), 0 and 10800 (prefetch)
    p.process_query("C 3601 7200".to_string(), fetch).unwrap();
    // stores 14400, 18000 and 21600, evicting 0, 10800 and then 3600
    p.process_query("C 14401 18000".to_string(), fetch).unwrap();
    assert_eq!(*calls.borrow(), 2);
    assert!(!p.is_cached(&(3600, 7200)));
    assert!(!p.is_cached(&(0, 3600)));
    assert!(p.is_cached(&(7200, 10800)));
    // 3600 is fetched again; storing it with its prefetch buckets evicts 7200,
    // the other required bucket, which the query then reports missing
    let r = p.process_query("C 3601 7200".to_string(), fetch);
    assert_eq!(*calls.borrow(), 3);
    assert!(matches!(r, Err(QueryError::MissingBucket)));
    assert!(p.is_cached(&(3600, 7200)));
    assert!(!p.is_cached(&(7200, 10800)));
}

#[test]
fn validation_rejects_bad_lines() {
    assert!(matches!(parse_query("X 0 5000"), Err(QueryError::RangeTooWide)));
    assert!(matches!(parse_query("C 0"), Err(QueryError::WrongTokenCount)));
    assert!(matches!(parse_query("C 0 10 20"), Err(QueryError::WrongTokenCount)));
    assert!(matches!(parse_query("C zero 10"), Err(QueryError::InvalidNumber)));
    assert!(matches!(parse_query("C 0 1x"), Err(QueryError::InvalidNumber)));
    assert!(matches!(parse_query("X 0 10"), Err(QueryError::UnknownKind)));
    assert!(matches!(parse_query("C 0 2000000000000000000"), Err(QueryError::RangeTooWide)));
    assert!(matches!(
        parse_query("C 2000000000000000000 2000000000000000000"),
        Err(QueryError::TimeOutOfLimits)
    ));
    let mut p = Processor::new().unwrap();
    assert!(matches!(
        p.process_query("X 0 5000".to_string(), no_fetch),
        Err(QueryError::RangeTooWide)
    ));
}

#[test]
fn parses_valid_lines() {
    let q = parse_query("  V\t+100   3700 ").unwrap();
    assert_eq!(q.kind, QueryKind::Volume);
    assert_eq!(q.start, 100);
    assert_eq!(q.end, 3700);
    let q = parse_query("B -50 -10").unwrap();
    assert_eq!((q.kind, q.start, q.end), (QueryKind::BuyCount, -50, -10));
}

#[test]
fn failed_fetch_leaves_cache_untouched() {
    let mut p = Processor::new().unwrap();
    let r = p.process_query("C 3601 7200".to_string(), |_, _| Err("down".to_string()));
    assert!(matches!(r, Err(QueryError::FetchFailed(ref m)) if m == "down"));
    assert_eq!(p.missing_buckets(3601, 7200).len(), 4);
}

#[test]
fn volume_overflow_is_reported() {
    let big = Dec::new(bucket_cache::decimal::MAX_MANTISSA, 0).unwrap();
    let fills = vec![create_test_fill(1, 10, BUY, big, big)];
    assert!(total_volume(&fills).is_none());
    let mut p = Processor::new().unwrap();
    let r = p.process_query("V 0 100".to_string(), move |_, _| Ok(fills));
    assert!(matches!(r, Err(QueryError::VolumeOverflow)));
}

#[test]
fn decimal_bounds() {
    assert!(Dec::new(1, 29).is_none());
    assert!(Dec::new(bucket_cache::decimal::MAX_MANTISSA + 1, 0).is_none());
    let d = Dec::new(-12345, 2).unwrap();
    assert_eq!((d.mantissa(), d.scale()), (-12345, 2));
}

#[test]
fn slices_and_span() {
    let fills = sample_fills();
    let inside = fills_within(&fills, 1701386700, 1701386800);
    assert_eq!(inside.len(), 2);
    assert_eq!(inside[0].timestamp, 1701386750);
    assert_eq!(bucket_cache::fetch_span(&vec![(7200, 10800), (0, 3600), (3600, 7200)]), (0, 10800));
}

#[test]
fn capacity_plus_one_buckets_evict_the_first() {
    let mut p = Processor::with_capacity(2).unwrap();
    let fills = vec![create_test_fill(3, 5000, BUY, dec(1, 0), dec(1, 0))];
    p.store_fetched(&vec![(0, 3600), (3600, 7200), (7200, 10800)], &fills);
    assert!(!p.is_cached(&(0, 3600)));
    assert!(p.is_cached(&(3600, 7200)));
    assert!(p.is_cached(&(7200, 10800)));
    assert!(p.missing_buckets(1, 3600).contains(&(0, 3600)));
    let got = p.collect_fills(3601, 7200).unwrap();
    assert_eq!(got.len(), 1);
    assert_eq!(got[0].sequence_number, 3);
    assert!(matches!(p.collect_fills(1, 3600), Err(QueryError::MissingBucket)));
}
