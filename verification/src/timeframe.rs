//! The timeframe registry and bucket arithmetic.
//!
//! A timeframe maps to a truncation unit (in seconds) and a destination table
//! name. Timestamps are seconds since the epoch; truncating a timestamp to a
//! unit yields the key of the bucket the tick falls into.

use vstd::prelude::*;

verus! {

/// Seconds in one minute bucket.
pub const SECS_PER_MINUTE: u64 = 60;
/// Seconds in one hour bucket.
pub const SECS_PER_HOUR: u64 = 3600;
/// Seconds in one calendar day.
pub const SECS_PER_DAY: u64 = 86400;

/// The timeframes at which raw ticks can be aggregated into OHLCV bars.
#[derive(Clone, Copy, Debug, PartialEq, Eq, Structural)]
pub enum OhlcTimeframe {
    Minute,
    Hour,
    Daily,
}

impl OhlcTimeframe {
    /// Length in seconds of one bucket of this timeframe.
    pub open spec fn spec_unit_secs(self) -> u64 {
        match self {
            OhlcTimeframe::Minute => SECS_PER_MINUTE,
            OhlcTimeframe::Hour => SECS_PER_HOUR,
            OhlcTimeframe::Daily => SECS_PER_DAY,
        }
    }

    /// Length in seconds of one bucket of this timeframe.
    #[verifier::when_used_as_spec(spec_unit_secs)]
    pub fn unit_secs(self) -> (u: u64)
        ensures
            u == self.spec_unit_secs(),
    {
        match self {
            OhlcTimeframe::Minute => SECS_PER_MINUTE,
            OhlcTimeframe::Hour => SECS_PER_HOUR,
            OhlcTimeframe::Daily => SECS_PER_DAY,
        }
    }

    /// Name of the truncation unit of this timeframe.
    pub open spec fn spec_unit_name(self) -> Seq<char> {
        match self {
            OhlcTimeframe::Minute => "minute"@,
            OhlcTimeframe::Hour => "hour"@,
            OhlcTimeframe::Daily => "day"@,
        }
    }

    /// Name of the destination table of this timeframe.
    pub open spec fn spec_table_name(self) -> Seq<char> {
        match self {
            OhlcTimeframe::Minute => "minute_ohlc_data"@,
            OhlcTimeframe::Hour => "hour_ohlc_data"@,
            OhlcTimeframe::Daily => "daily_ohlc_data"@,
        }
    }

    /// The registry mapping: truncation unit name and destination table name.
    pub fn resolve(self) -> (r: (&'static str, &'static str))
        ensures
            r.0@ == self.spec_unit_name(),
            r.1@ == self.spec_table_name(),
    {
        match self {
            OhlcTimeframe::Minute => ("minute", "minute_ohlc_data"),
            OhlcTimeframe::Hour => ("hour", "hour_ohlc_data"),
            OhlcTimeframe::Daily => ("day", "daily_ohlc_data"),
        }
    }
}

/// Largest multiple of `unit` at or below `ts`.
pub open spec fn spec_trunc(unit: u64, ts: u64) -> u64
    recommends
        unit > 0,
{
    (ts - (ts % unit)) as u64
}

/// Start of the calendar day containing `ts`.
pub open spec fn spec_day_start(ts: u64) -> u64 {
    spec_trunc(SECS_PER_DAY, ts)
}

/// Key of the bucket that a tick at `ts` falls into, at timeframe `tf`.
pub open spec fn bucket_key(tf: OhlcTimeframe, ts: u64) -> u64 {
    spec_trunc(tf.spec_unit_secs(), ts)
}

/// Truncate `ts` down to a multiple of `unit`.
pub fn trunc(unit: u64, ts: u64) -> (r: u64)
    requires
        unit > 0,
    ensures
        r == spec_trunc(unit, ts),
{
    proof {
        assert(ts % unit <= ts) by (nonlinear_arith)
            requires
                unit > 0,
        ;
    }
    ts - (ts % unit)
}

/// Start of the calendar day containing `ts`.
pub fn day_start(ts: u64) -> (r: u64)
    ensures
        r == spec_day_start(ts),
{
    trunc(SECS_PER_DAY, ts)
}

/// A truncated timestamp is a multiple of its unit, lies at or below the
/// timestamp, and the timestamp lies strictly inside the bucket it starts.
pub proof fn lemma_trunc_basic(unit: u64, ts: u64)
    requires
        unit > 0,
    ensures
        spec_trunc(unit, ts) <= ts,
        spec_trunc(unit, ts) % unit == 0,
        ts < spec_trunc(unit, ts) + unit,
{
    vstd::arithmetic::div_mod::lemma_fundamental_div_mod(ts as int, unit as int);
    let q = ts as int / unit as int;
    assert(spec_trunc(unit, ts) as int == unit as int * q);
    vstd::arithmetic::div_mod::lemma_mod_multiples_basic(q, unit as int);
    assert((q * unit as int) % unit as int == 0);
    assert(unit as int * q == q * unit as int) by (nonlinear_arith);
}

/// Truncation respects aligned bounds: for `m` a multiple of `unit`,
/// `ts >= m` holds exactly when `trunc(unit, ts) >= m` does.
pub proof fn lemma_trunc_align(unit: u64, m: u64, ts: u64)
    requires
        unit > 0,
        m % unit == 0,
    ensures
        (ts >= m) <==> (spec_trunc(unit, ts) >= m),
{
    lemma_trunc_basic(unit, ts);
    if ts >= m && spec_trunc(unit, ts) < m {
        vstd::arithmetic::div_mod::lemma_fundamental_div_mod(ts as int, unit as int);
        vstd::arithmetic::div_mod::lemma_fundamental_div_mod(m as int, unit as int);
        let q = ts as int / unit as int;
        let qm = m as int / unit as int;
        assert(spec_trunc(unit, ts) == unit * q);
        assert(m == unit * qm);
        assert(unit * q < unit * qm);
        assert(q < qm) by (nonlinear_arith)
            requires
                unit > 0,
                unit * q < unit * qm,
        ;
        assert(unit * (q + 1) <= unit * qm) by (nonlinear_arith)
            requires
                unit > 0,
                q + 1 <= qm,
        ;
        assert(unit * (q + 1) == unit * q + unit) by (nonlinear_arith);
        assert(ts < unit * q + unit);
        assert(false);
    }
}

/// Truncation is monotone in the timestamp.
pub proof fn lemma_trunc_monotone(unit: u64, a: u64, b: u64)
    requires
        unit > 0,
        a <= b,
    ensures
        spec_trunc(unit, a) <= spec_trunc(unit, b),
{
    lemma_trunc_basic(unit, a);
    lemma_trunc_basic(unit, b);
    lemma_trunc_align(unit, spec_trunc(unit, a), b);
}

/// A day start is aligned to every timeframe's unit.
pub proof fn lemma_day_aligned(tf: OhlcTimeframe, ts: u64)
    ensures
        spec_day_start(ts) % tf.spec_unit_secs() == 0,
{
    vstd::arithmetic::div_mod::lemma_fundamental_div_mod(ts as int, SECS_PER_DAY as int);
    let q = ts as int / SECS_PER_DAY as int;
    assert(spec_day_start(ts) == SECS_PER_DAY * q);
    let unit = tf.spec_unit_secs() as int;
    let c: int = match tf {
        OhlcTimeframe::Minute => 1440,
        OhlcTimeframe::Hour => 24,
        OhlcTimeframe::Daily => 1,
    };
    assert(SECS_PER_DAY * q == (c * q) * unit) by (nonlinear_arith)
        requires
            c * unit == SECS_PER_DAY as int,
    ;
    vstd::arithmetic::div_mod::lemma_mod_multiples_basic(c * q, unit);
}

} // verus!
