use crate::decimal::Dec;
use vstd::prelude::*;

verus! {

/// Direction code of a fill on the buying side.
pub const BUY: i32 = 1;

/// Direction code of a fill on the selling side.
pub const SELL: i32 = -1;

/// One executed-trade record. Several fills may share a `sequence_number`.
#[derive(Clone, Copy, Debug)]
pub struct Fill {
    pub sequence_number: u64,
    /// Seconds since the epoch.
    pub timestamp: i64,
    /// `BUY` or `SELL`.
    pub direction: i32,
    pub price: Dec,
    pub quantity: Dec,
}

} // verus!
