//! Incremental OHLCV bar aggregation.
//!
//! The library turns append-only raw price ticks into open/high/low/close/volume
//! bars at a chosen timeframe (minute, hour, day). Aggregation is incremental:
//! for each ticker a watermark (the latest bar timestamp already stored) bounds
//! which raw ticks are rescanned, and results are written by an idempotent
//! keyed upsert. A failure while aggregating one ticker is isolated: it leaves
//! that ticker's rows untouched and does not disturb any other ticker.

pub mod agg;
pub mod job;
pub mod laws;
pub mod model;
pub mod table;
pub mod timeframe;
pub mod watermark;

pub use job::Job;
pub use timeframe::OhlcTimeframe;
