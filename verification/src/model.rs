//! The two row types of the store.
//!
//! Prices and volumes are fixed-point integers (a scaled decimal), timestamps
//! are seconds since the epoch. Raw ticks are append-only input; OHLCV bars
//! are the aggregated output, unique per (ticker, bucket start).

use vstd::prelude::*;

verus! {

/// One raw trade tick, as stored in the raw price table.
#[derive(Debug)]
pub struct RawTick {
    /// Instrument identifier; never empty in well-formed input.
    pub ticker: String,
    /// Seconds since the epoch.
    pub timestamp: u64,
    /// Fixed-point trade price.
    pub price: i64,
    /// Fixed-point traded volume.
    pub volume: u64,
}

impl Clone for RawTick {
    fn clone(&self) -> (r: Self)
        ensures
            r == *self,
    {
        RawTick {
            ticker: self.ticker.clone(),
            timestamp: self.timestamp,
            price: self.price,
            volume: self.volume,
        }
    }
}

/// One aggregated OHLCV bar: the row type of every destination table.
#[derive(Debug)]
pub struct OhlcBar {
    /// Instrument identifier.
    pub ticker: String,
    /// Start of the bucket, seconds since the epoch.
    pub timestamp: u64,
    /// Price of the earliest tick in the bucket.
    pub open: i64,
    /// Highest price in the bucket.
    pub high: i64,
    /// Lowest price in the bucket.
    pub low: i64,
    /// Price of the latest tick in the bucket.
    pub close: i64,
    /// Sum of the volumes in the bucket.
    pub volume: u64,
}

impl Clone for OhlcBar {
    fn clone(&self) -> (r: Self)
        ensures
            r == *self,
    {
        OhlcBar {
            ticker: self.ticker.clone(),
            timestamp: self.timestamp,
            open: self.open,
            high: self.high,
            low: self.low,
            close: self.close,
            volume: self.volume,
        }
    }
}

/// Why aggregating one ticker failed. Such a failure is isolated to its
/// ticker: it never aborts the rest of a job.
#[derive(Clone, Copy, Debug, PartialEq, Eq, Structural)]
pub enum AggError {
    /// The volumes of one bucket do not fit in a fixed-point volume.
    VolumeOverflow,
}

} // verus!
