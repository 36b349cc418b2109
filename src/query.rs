use crate::bucket::{time_in_limits, MAX_RANGE, TIME_LIMIT};
use crate::decimal::Dec;
use vstd::prelude::*;

verus! {

/// What a query asks for.
#[derive(Clone, Copy, Debug, PartialEq, Eq, Structural)]
pub enum QueryKind {
    /// Distinct trades.
    Count,
    /// Distinct trades among buy fills.
    BuyCount,
    /// Distinct trades among sell fills.
    SellCount,
    /// Sum of `price * quantity` over every fill.
    Volume,
}

/// A validated query over the range `(start, end]`.
#[derive(Clone, Copy, Debug, PartialEq, Eq, Structural)]
pub struct Query {
    pub kind: QueryKind,
    pub start: i64,
    pub end: i64,
}

/// Why a query produced no answer.
#[derive(Clone, Debug)]
pub enum QueryError {
    /// The line does not hold exactly three whitespace-separated tokens.
    WrongTokenCount,
    /// A bound is not a decimal integer that fits in `i64`.
    InvalidNumber,
    /// `end - start` exceeds `MAX_RANGE`.
    RangeTooWide,
    /// A bound lies beyond `TIME_LIMIT` in magnitude.
    TimeOutOfLimits,
    /// The kind token is none of `C`, `B`, `S`, `V`.
    UnknownKind,
    /// The remote source failed; its message.
    FetchFailed(String),
    /// A bucket that gap-filling should have stored is not cached.
    MissingBucket,
    /// The volume does not fit in a decimal.
    VolumeOverflow,
    /// A cache of no buckets was asked for.
    ZeroCapacity,
}

/// The answer to a query.
#[derive(Clone, Copy, Debug)]
pub enum Answer {
    Trades(usize),
    Volume(Dec),
}

/// What splitting a string at runs of whitespace gives.
pub uninterp spec fn whitespace_tokens(s: Seq<char>) -> Seq<Seq<char>>;

/// Relies on `str::split_whitespace`: the tokens of the line, in order.
#[verifier::external_body]
fn split_tokens(s: &str) -> (r: Vec<String>)
    ensures
        r@.len() == whitespace_tokens(s@).len(),
        forall|i: int| 0 <= i < r@.len() ==> #[trigger] r@[i]@ == whitespace_tokens(s@)[i],
{
    s.split_whitespace().map(|t| t.to_string()).collect()
}

pub open spec fn is_digit(c: char) -> bool {
    '0' <= c && c <= '9'
}

/// The number a string of decimal digits spells.
pub open spec fn digits_value(s: Seq<char>) -> int
    decreases s.len(),
{
    if s.len() == 0 {
        0
    } else {
        digits_value(s.drop_last()) * 10 + ((s.last() as u32) - ('0' as u32))
    }
}

/// An optional `+` or `-` followed by one or more decimal digits, and its value.
pub open spec fn decimal_integer(s: Seq<char>) -> Option<int> {
    let signed = s.len() > 0 && (s[0] == '+' || s[0] == '-');
    let digits = if signed {
        s.skip(1)
    } else {
        s
    };
    if digits.len() > 0 && forall|i: int| 0 <= i < digits.len() ==> is_digit(#[trigger] digits[i]) {
        if signed && s[0] == '-' {
            Some(-digits_value(digits))
        } else {
            Some(digits_value(digits))
        }
    } else {
        None
    }
}

/// A decimal integer that fits in `i64`.
pub open spec fn parsed_i64(s: Seq<char>) -> Option<i64> {
    match decimal_integer(s) {
        Some(v) => if i64::MIN <= v <= i64::MAX {
            Some(v as i64)
        } else {
            None
        },
        None => None,
    }
}

/// Relies on `str::parse::<i64>`: an optional sign and then decimal digits, whose
/// value must fit in `i64`; anything else is an error.
#[verifier::external_body]
fn parse_i64(s: &str) -> (r: Option<i64>)
    ensures
        r == parsed_i64(s@),
{
    s.parse::<i64>().ok()
}

/// The kind a token names.
pub open spec fn kind_of(t: Seq<char>) -> Option<QueryKind> {
    if t == "C"@ {
        Some(QueryKind::Count)
    } else if t == "B"@ {
        Some(QueryKind::BuyCount)
    } else if t == "S"@ {
        Some(QueryKind::SellCount)
    } else if t == "V"@ {
        Some(QueryKind::Volume)
    } else {
        None
    }
}

/// The query that the tokens `<kind> <start> <end>` denote, or why they denote none.
pub open spec fn query_of_tokens(toks: Seq<Seq<char>>) -> Result<Query, QueryError> {
    if toks.len() != 3 {
        Err(QueryError::WrongTokenCount)
    } else {
        match (parsed_i64(toks[1]), parsed_i64(toks[2])) {
            (Some(start), Some(end)) => if end - start > MAX_RANGE {
                Err(QueryError::RangeTooWide)
            } else if !time_in_limits(start as int) || !time_in_limits(end as int) {
                Err(QueryError::TimeOutOfLimits)
            } else {
                match kind_of(toks[0]) {
                    Some(kind) => Ok(Query { kind, start, end }),
                    None => Err(QueryError::UnknownKind),
                }
            },
            _ => Err(QueryError::InvalidNumber),
        }
    }
}

pub open spec fn token_views(toks: Seq<String>) -> Seq<Seq<char>> {
    toks.map_values(|t: String| t@)
}

fn parse_kind(t: &String) -> (r: Option<QueryKind>)
    ensures
        r == kind_of(t@),
{
    if *t == "C".to_owned() {
        Some(QueryKind::Count)
    } else if *t == "B".to_owned() {
        Some(QueryKind::BuyCount)
    } else if *t == "S".to_owned() {
        Some(QueryKind::SellCount)
    } else if *t == "V".to_owned() {
        Some(QueryKind::Volume)
    } else {
        None
    }
}

/// Validates the tokens of a query line.
pub fn parse_query_tokens(toks: &Vec<String>) -> (r: Result<Query, QueryError>)
    ensures
        r == query_of_tokens(token_views(toks@)),
{
    if toks.len() != 3 {
        return Err(QueryError::WrongTokenCount);
    }
    let start = parse_i64(toks[1].as_str());
    let end = parse_i64(toks[2].as_str());
    match (start, end) {
        (Some(start), Some(end)) => {
            if (end as i128) - (start as i128) > MAX_RANGE as i128 {
                Err(QueryError::RangeTooWide)
            } else if !(-TIME_LIMIT <= start && start <= TIME_LIMIT) || !(-TIME_LIMIT <= end && end
                <= TIME_LIMIT) {
                Err(QueryError::TimeOutOfLimits)
            } else {
                match parse_kind(&toks[0]) {
                    Some(kind) => Ok(Query { kind, start, end }),
                    None => Err(QueryError::UnknownKind),
                }
            }
        },
        _ => Err(QueryError::InvalidNumber),
    }
}

/// Splits a query line into tokens and validates them.
pub fn parse_query(line: &str) -> (r: Result<Query, QueryError>)
    ensures
        r == query_of_tokens(whitespace_tokens(line@)),
{
    let toks = split_tokens(line);
    proof {
        assert(token_views(toks@) =~= whitespace_tokens(line@));
    }
    parse_query_tokens(&toks)
}

} // verus!
