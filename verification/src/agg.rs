//! The bar aggregator: windowing, bucketing, and per-bucket OHLCV values.
//!
//! The scan window of a ticker is bounded below by the start of the
//! watermark's calendar day (the whole day is rescanned so that a bucket
//! still open at watermark time is completed); an absent watermark scans
//! everything. Window ticks are partitioned into buckets by truncating the
//! timestamp to the timeframe's unit, and each bucket yields one bar.
//!
//! Ties on timestamps are broken by position in the input: among ticks with
//! the earliest timestamp of a bucket the first one opens it, and among ticks
//! with the latest timestamp the last one closes it. This is the deterministic
//! total order (timestamp, then input position) that reruns reproduce.

use vstd::prelude::*;

use crate::model::{AggError, OhlcBar, RawTick};
use crate::timeframe::{bucket_key, day_start, spec_day_start, trunc, OhlcTimeframe};

verus! {

/// Does a tick at `ts` fall inside the scan window for watermark `w`?
pub open spec fn in_window(ts: u64, w: Option<u64>) -> bool {
    match w {
        Option::None => true,
        Option::Some(wm) => ts >= spec_day_start(wm),
    }
}

/// The ticks of `raw` that belong to ticker `tk` and fall inside the
/// window for watermark `w`, in their original order.
pub open spec fn window_of(raw: Seq<RawTick>, tk: Seq<char>, w: Option<u64>) -> Seq<RawTick>
    decreases raw.len(),
{
    if raw.len() == 0 {
        Seq::empty()
    } else {
        let rest = window_of(raw.drop_last(), tk, w);
        if raw.last().ticker@ == tk && in_window(raw.last().timestamp, w) {
            rest.push(raw.last())
        } else {
            rest
        }
    }
}

/// The ticks of `s` whose bucket at timeframe `tf` is `k`, in order.
pub open spec fn bucket_of(s: Seq<RawTick>, tf: OhlcTimeframe, k: u64) -> Seq<RawTick>
    decreases s.len(),
{
    if s.len() == 0 {
        Seq::empty()
    } else {
        let rest = bucket_of(s.drop_last(), tf, k);
        if bucket_key(tf, s.last().timestamp) == k {
            rest.push(s.last())
        } else {
            rest
        }
    }
}

/// The tick that opens a bucket: earliest timestamp, earliest position on ties.
pub open spec fn open_tick(s: Seq<RawTick>) -> RawTick
    recommends
        s.len() > 0,
    decreases s.len(),
{
    if s.len() <= 1 {
        s[0]
    } else {
        let prev = open_tick(s.drop_last());
        if s.last().timestamp < prev.timestamp {
            s.last()
        } else {
            prev
        }
    }
}

/// The tick that closes a bucket: latest timestamp, latest position on ties.
pub open spec fn close_tick(s: Seq<RawTick>) -> RawTick
    recommends
        s.len() > 0,
    decreases s.len(),
{
    if s.len() <= 1 {
        s[0]
    } else {
        let prev = close_tick(s.drop_last());
        if s.last().timestamp >= prev.timestamp {
            s.last()
        } else {
            prev
        }
    }
}

/// Highest price in `s`.
pub open spec fn high_of(s: Seq<RawTick>) -> i64
    recommends
        s.len() > 0,
    decreases s.len(),
{
    if s.len() <= 1 {
        s[0].price
    } else {
        let prev = high_of(s.drop_last());
        if s.last().price > prev {
            s.last().price
        } else {
            prev
        }
    }
}

/// Lowest price in `s`.
pub open spec fn low_of(s: Seq<RawTick>) -> i64
    recommends
        s.len() > 0,
    decreases s.len(),
{
    if s.len() <= 1 {
        s[0].price
    } else {
        let prev = low_of(s.drop_last());
        if s.last().price < prev {
            s.last().price
        } else {
            prev
        }
    }
}

/// Total volume of `s`, as an unbounded integer.
pub open spec fn vol_of(s: Seq<RawTick>) -> int
    decreases s.len(),
{
    if s.len() == 0 {
        0
    } else {
        vol_of(s.drop_last()) + s.last().volume
    }
}

/// Does some tick of `s` fall into bucket `k`?
pub open spec fn has_bucket(s: Seq<RawTick>, tf: OhlcTimeframe, k: u64) -> bool {
    exists|i: int| 0 <= i < s.len() && bucket_key(tf, s[i].timestamp) == k
}

/// Aggregating `s` at `tf` overflows when some bucket's total volume does
/// not fit in a fixed-point volume.
pub open spec fn overflows(s: Seq<RawTick>, tf: OhlcTimeframe) -> bool {
    exists|k: u64| has_bucket(s, tf, k) && vol_of(bucket_of(s, tf, k)) > u64::MAX
}

/// `b` is the correct OHLCV bar for bucket `k` of the one-ticker tick
/// sequence `s`.
pub open spec fn bar_for(b: OhlcBar, s: Seq<RawTick>, tf: OhlcTimeframe, tk: Seq<char>, k: u64) -> bool {
    let bu = bucket_of(s, tf, k);
    &&& b.ticker@ == tk
    &&& b.timestamp == k
    &&& bu.len() > 0
    &&& b.open == open_tick(bu).price
    &&& b.high == high_of(bu)
    &&& b.low == low_of(bu)
    &&& b.close == close_tick(bu).price
    &&& b.volume == vol_of(bu)
}

/// Does `bars` hold a bar whose bucket start is `k`?
pub open spec fn has_bar(bars: Seq<OhlcBar>, k: u64) -> bool {
    exists|j: int| 0 <= j < bars.len() && bars[j].timestamp == k
}

/// `bars` is exactly the aggregation of `s`: one bar per occupied bucket,
/// each correct, and no bucket missing.
pub open spec fn bars_for(bars: Seq<OhlcBar>, s: Seq<RawTick>, tf: OhlcTimeframe, tk: Seq<char>) -> bool {
    &&& forall|i: int, j: int| 0 <= i < j < bars.len() ==> bars[i].timestamp != bars[j].timestamp
    &&& forall|i: int| 0 <= i < bars.len() ==> bar_for(#[trigger] bars[i], s, tf, tk, bars[i].timestamp)
    &&& forall|i: int| 0 <= i < s.len() ==> has_bar(bars, bucket_key(tf, (#[trigger] s[i]).timestamp))
}

/// Extending the scanned prefix by one raw tick extends the window by that
/// tick exactly when the tick matches the ticker and the window bound.
pub proof fn lemma_window_take_step(raw: Seq<RawTick>, tk: Seq<char>, w: Option<u64>, i: int)
    requires
        0 <= i < raw.len(),
    ensures
        window_of(raw.take(i + 1), tk, w) == if raw[i].ticker@ == tk && in_window(raw[i].timestamp, w) {
            window_of(raw.take(i), tk, w).push(raw[i])
        } else {
            window_of(raw.take(i), tk, w)
        },
{
    assert(raw.take(i + 1).drop_last() =~= raw.take(i));
    assert(raw.take(i + 1).last() == raw[i]);
}

/// Pushing a tick extends exactly the bucket it falls into.
pub proof fn lemma_bucket_push(s: Seq<RawTick>, tf: OhlcTimeframe, t: RawTick, k: u64)
    ensures
        bucket_of(s.push(t), tf, k) == if bucket_key(tf, t.timestamp) == k {
            bucket_of(s, tf, k).push(t)
        } else {
            bucket_of(s, tf, k)
        },
{
    assert(s.push(t).drop_last() =~= s);
    assert(s.push(t).last() == t);
}

/// How each per-bucket value changes when one tick is appended to a
/// non-empty bucket.
pub proof fn lemma_agg_push(bu: Seq<RawTick>, t: RawTick)
    requires
        bu.len() > 0,
    ensures
        open_tick(bu.push(t)) == (if t.timestamp < open_tick(bu).timestamp {
            t
        } else {
            open_tick(bu)
        }),
        close_tick(bu.push(t)) == (if t.timestamp >= close_tick(bu).timestamp {
            t
        } else {
            close_tick(bu)
        }),
        high_of(bu.push(t)) == (if t.price > high_of(bu) {
            t.price
        } else {
            high_of(bu)
        }),
        low_of(bu.push(t)) == (if t.price < low_of(bu) {
            t.price
        } else {
            low_of(bu)
        }),
        vol_of(bu.push(t)) == vol_of(bu) + t.volume,
{
    assert(bu.push(t).drop_last() =~= bu);
    assert(bu.push(t).last() == t);
    assert(bu.push(t).len() > 1);
}

/// The per-bucket values of a one-tick bucket.
pub proof fn lemma_agg_singleton(t: RawTick)
    ensures
        open_tick(seq![t]) == t,
        close_tick(seq![t]) == t,
        high_of(seq![t]) == t.price,
        low_of(seq![t]) == t.price,
        vol_of(seq![t]) == t.volume as int,
{
    assert(seq![t].drop_last() =~= Seq::<RawTick>::empty());
    assert(vol_of(Seq::<RawTick>::empty()) == 0);
    assert(seq![t][0] == t);
}

/// Appending one tick never shrinks a bucket's volume.
pub proof fn lemma_vol_push(bu: Seq<RawTick>, t: RawTick)
    ensures
        vol_of(bu.push(t)) == vol_of(bu) + t.volume,
{
    assert(bu.push(t).drop_last() =~= bu);
    assert(bu.push(t).last() == t);
}

/// The window over a scanned prefix is a prefix of the full window.
pub proof fn lemma_window_take_prefix(raw: Seq<RawTick>, tk: Seq<char>, w: Option<u64>, m: int)
    requires
        0 <= m <= raw.len(),
    ensures
        window_of(raw.take(m), tk, w).is_prefix_of(window_of(raw, tk, w)),
    decreases raw.len() - m,
{
    if m == raw.len() {
        assert(raw.take(m) =~= raw);
    } else {
        lemma_window_take_step(raw, tk, w, m);
        lemma_window_take_prefix(raw, tk, w, m + 1);
        let a = window_of(raw.take(m), tk, w);
        let b = window_of(raw.take(m + 1), tk, w);
        assert(a.is_prefix_of(b)) by {
            if raw[m].ticker@ == tk && in_window(raw[m].timestamp, w) {
                assert(b == a.push(raw[m]));
                assert(a =~= b.take(a.len() as int));
            } else {
                assert(a =~= b.take(a.len() as int));
            }
        }
        let c = window_of(raw, tk, w);
        assert(a =~= c.take(a.len() as int)) by {
            assert(a =~= b.take(a.len() as int));
            assert(b =~= c.take(b.len() as int));
        }
    }
}

/// A bucket's volume over a scanned prefix never exceeds its volume over the
/// whole input.
pub proof fn lemma_window_vol_monotone(
    raw: Seq<RawTick>,
    tk: Seq<char>,
    w: Option<u64>,
    tf: OhlcTimeframe,
    k: u64,
    m: int,
)
    requires
        0 <= m <= raw.len(),
    ensures
        vol_of(bucket_of(window_of(raw.take(m), tk, w), tf, k)) <= vol_of(
            bucket_of(window_of(raw, tk, w), tf, k),
        ),
    decreases raw.len() - m,
{
    if m == raw.len() {
        assert(raw.take(m) =~= raw);
    } else {
        lemma_window_take_step(raw, tk, w, m);
        if raw[m].ticker@ == tk && in_window(raw[m].timestamp, w) {
            lemma_bucket_push(window_of(raw.take(m), tk, w), tf, raw[m], k);
            if bucket_key(tf, raw[m].timestamp) == k {
                lemma_vol_push(bucket_of(window_of(raw.take(m), tk, w), tf, k), raw[m]);
            }
        }
        lemma_window_vol_monotone(raw, tk, w, tf, k, m + 1);
    }
}

/// A bucket is non-empty exactly when some tick of `s` falls into it.
pub proof fn lemma_bucket_len(s: Seq<RawTick>, tf: OhlcTimeframe, k: u64)
    ensures
        (bucket_of(s, tf, k).len() > 0) <==> has_bucket(s, tf, k),
    decreases s.len(),
{
    if s.len() > 0 {
        lemma_bucket_len(s.drop_last(), tf, k);
        if bucket_key(tf, s.last().timestamp) == k {
            assert(bucket_key(tf, s[s.len() - 1].timestamp) == k);
        } else {
            if has_bucket(s, tf, k) {
                let i = choose|i: int| 0 <= i < s.len() && bucket_key(tf, s[i].timestamp) == k;
                assert(s.drop_last()[i] == s[i]);
            }
            if has_bucket(s.drop_last(), tf, k) {
                let i = choose|i: int|
                    0 <= i < s.drop_last().len() && bucket_key(
                        tf,
                        s.drop_last()[i].timestamp,
                    ) == k;
                assert(s[i] == s.drop_last()[i]);
            }
        }
    }
}

/// Running per-bucket accumulator; the open/close timestamps carry the
/// tie-break order between reruns of the loop.
#[derive(Clone, Copy)]
struct BucketAcc {
    key: u64,
    open_ts: u64,
    open: i64,
    high: i64,
    low: i64,
    close_ts: u64,
    close: i64,
    volume: u64,
}

/// The accumulator holds exactly the per-bucket values of the bucket `bu`.
spec fn acc_ok(a: BucketAcc, bu: Seq<RawTick>) -> bool {
    &&& bu.len() > 0
    &&& a.open_ts == open_tick(bu).timestamp
    &&& a.open == open_tick(bu).price
    &&& a.close_ts == close_tick(bu).timestamp
    &&& a.close == close_tick(bu).price
    &&& a.high == high_of(bu)
    &&& a.low == low_of(bu)
    &&& a.volume == vol_of(bu)
}

spec fn has_acc(accs: Seq<BucketAcc>, k: u64) -> bool {
    exists|j: int| 0 <= j < accs.len() && accs[j].key == k
}

/// Linear scan for the accumulator of bucket `k`.
fn find_acc(accs: &Vec<BucketAcc>, k: u64) -> (r: Option<usize>)
    ensures
        match r {
            Option::Some(j) => j < accs@.len() && accs@[j as int].key == k,
            Option::None => !has_acc(accs@, k),
        },
{
    let mut j: usize = 0;
    while j < accs.len()
        invariant
            j <= accs@.len(),
            forall|p: int| 0 <= p < j ==> accs@[p].key != k,
        decreases accs@.len() - j,
    {
        if accs[j].key == k {
            return Option::Some(j);
        }
        j += 1;
    }
    Option::None
}

/// Aggregate all raw ticks of `ticker` at or after the watermark's calendar
/// day into one OHLCV bar per occupied bucket of timeframe `tf`.
///
/// Succeeds exactly when every bucket's total volume fits in a fixed-point
/// volume; the returned bars then cover every bucket of the window, each with
/// its exact open/high/low/close/volume values.
pub fn aggregate_ticker(
    raw: &Vec<RawTick>,
    ticker: &String,
    tf: OhlcTimeframe,
    watermark: Option<u64>,
) -> (r: Result<Vec<OhlcBar>, AggError>)
    ensures
        ({
            let win = window_of(raw@, ticker@, watermark);
            match r {
                Result::Ok(bars) => bars_for(bars@, win, tf, ticker@) && !overflows(win, tf),
                Result::Err(e) => overflows(win, tf) && e == AggError::VolumeOverflow,
            }
        }),
{
    let ghost tk = ticker@;
    let unit = tf.unit_secs();
    assert(unit > 0);
    let bound: Option<u64> = match watermark {
        Option::None => Option::None,
        Option::Some(wm) => Option::Some(day_start(wm)),
    };
    let mut accs: Vec<BucketAcc> = Vec::new();
    let mut i: usize = 0;
    while i < raw.len()
        invariant
            i <= raw@.len(),
            unit == tf.spec_unit_secs(),
            unit > 0,
            tk == ticker@,
            bound == (match watermark {
                Option::None => Option::<u64>::None,
                Option::Some(wm) => Option::Some(spec_day_start(wm)),
            }),
            forall|p: int, q: int|
                0 <= p < q < accs@.len() ==> (#[trigger] accs@[p]).key != (#[trigger] accs@[q]).key,
            forall|j: int|
                0 <= j < accs@.len() ==> acc_ok(
                    #[trigger] accs@[j],
                    bucket_of(window_of(raw@.take(i as int), tk, watermark), tf, accs@[j].key),
                ),
            forall|p: int|
                0 <= p < window_of(raw@.take(i as int), tk, watermark).len() ==> has_acc(
                    accs@,
                    bucket_key(
                        tf,
                        (#[trigger] window_of(raw@.take(i as int), tk, watermark)[p]).timestamp,
                    ),
                ),
        decreases raw@.len() - i,
    {
        let ghost win = window_of(raw@.take(i as int), tk, watermark);
        let t = &raw[i];
        let in_win = match bound {
            Option::None => true,
            Option::Some(b) => t.timestamp >= b,
        };
        proof {
            lemma_window_take_step(raw@, tk, watermark, i as int);
        }
        if t.ticker == *ticker && in_win {
            assert(window_of(raw@.take(i as int + 1), tk, watermark) == win.push(raw@[i as int]));
            let k0 = trunc(unit, t.timestamp);
            assert(k0 == bucket_key(tf, t.timestamp));
            proof {
                assert forall|k: u64|
                    bucket_of(win.push(raw@[i as int]), tf, k) == (if bucket_key(
                        tf,
                        raw@[i as int].timestamp,
                    ) == k {
                        bucket_of(win, tf, k).push(raw@[i as int])
                    } else {
                        bucket_of(win, tf, k)
                    }) by {
                    lemma_bucket_push(win, tf, raw@[i as int], k);
                }
            }
            match find_acc(&accs, k0) {
                Option::Some(j) => {
                    let ghost accs0 = accs@;
                    let mut a = accs[j];
                    proof {
                        lemma_agg_push(bucket_of(win, tf, k0), raw@[i as int]);
                    }
                    match a.volume.checked_add(t.volume) {
                        Option::Some(v) => {
                            a.volume = v;
                            if t.timestamp < a.open_ts {
                                a.open_ts = t.timestamp;
                                a.open = t.price;
                            }
                            if t.timestamp >= a.close_ts {
                                a.close_ts = t.timestamp;
                                a.close = t.price;
                            }
                            if t.price > a.high {
                                a.high = t.price;
                            }
                            if t.price < a.low {
                                a.low = t.price;
                            }
                            accs.set(j, a);
                            proof {
                                let w1 = window_of(raw@.take(i as int + 1), tk, watermark);
                                assert(accs@[j as int].key == k0);
                                assert forall|p: int| 0 <= p < w1.len() implies has_acc(
                                    accs@,
                                    bucket_key(tf, w1[p].timestamp),
                                ) by {
                                    if p < win.len() {
                                        assert(w1[p] == win[p]);
                                        let q = choose|q: int|
                                            0 <= q < accs0.len() && accs0[q].key == bucket_key(
                                                tf,
                                                win[p].timestamp,
                                            );
                                        assert(accs@[q].key == bucket_key(tf, w1[p].timestamp));
                                    } else {
                                        assert(w1[p] == raw@[i as int]);
                                    }
                                }
                            }
                        },
                        Option::None => {
                            proof {
                                let win1 = window_of(raw@.take(i as int + 1), tk, watermark);
                                let full = window_of(raw@, tk, watermark);
                                lemma_vol_push(bucket_of(win, tf, k0), raw@[i as int]);
                                assert(vol_of(bucket_of(win1, tf, k0)) > u64::MAX);
                                lemma_window_take_prefix(raw@, tk, watermark, i as int + 1);
                                assert(win1[win1.len() - 1] == full[win1.len() - 1]);
                                assert(bucket_key(tf, full[win1.len() - 1].timestamp) == k0);
                                assert(has_bucket(full, tf, k0));
                                lemma_window_vol_monotone(raw@, tk, watermark, tf, k0, i as int + 1);
                                assert(vol_of(bucket_of(full, tf, k0)) > u64::MAX);
                                assert(overflows(full, tf));
                            }
                            return Result::Err(AggError::VolumeOverflow);
                        },
                    }
                },
                Option::None => {
                    let ghost accs0 = accs@;
                    proof {
                        lemma_bucket_len(win, tf, k0);
                        assert forall|p: int| 0 <= p < win.len() implies bucket_key(
                            tf,
                            win[p].timestamp,
                        ) != k0 by {
                            if bucket_key(tf, win[p].timestamp) == k0 {
                                assert(has_bucket(win, tf, k0));
                                assert(has_acc(accs@, k0));
                            }
                        }
                        assert(bucket_of(win, tf, k0).len() == 0) by {
                            lemma_bucket_len(win, tf, k0);
                        }
                        assert(bucket_of(win, tf, k0) =~= Seq::<RawTick>::empty());
                        assert(bucket_of(win.push(raw@[i as int]), tf, k0) =~= seq![
                            raw@[i as int],
                        ]);
                        lemma_agg_singleton(raw@[i as int]);
                    }
                    accs.push(
                        BucketAcc {
                            key: k0,
                            open_ts: t.timestamp,
                            open: t.price,
                            high: t.price,
                            low: t.price,
                            close_ts: t.timestamp,
                            close: t.price,
                            volume: t.volume,
                        },
                    );
                    proof {
                        let w1 = window_of(raw@.take(i as int + 1), tk, watermark);
                        assert(accs@[accs@.len() - 1].key == k0);
                        assert forall|p: int| 0 <= p < w1.len() implies has_acc(
                            accs@,
                            bucket_key(tf, w1[p].timestamp),
                        ) by {
                            if p < win.len() {
                                assert(w1[p] == win[p]);
                                let q = choose|q: int|
                                    0 <= q < accs0.len() && accs0[q].key == bucket_key(
                                        tf,
                                        win[p].timestamp,
                                    );
                                assert(accs@[q].key == bucket_key(tf, w1[p].timestamp));
                            } else {
                                assert(w1[p] == raw@[i as int]);
                            }
                        }
                    }
                },
            }
        } else {
            assert(window_of(raw@.take(i as int + 1), tk, watermark) == win);
        }
        i += 1;
    }
    assert(raw@.take(i as int) =~= raw@);
    let ghost full = window_of(raw@, tk, watermark);
    proof {
        assert forall|k: u64| has_bucket(full, tf, k) implies vol_of(bucket_of(full, tf, k))
            <= u64::MAX by {
            let p = choose|p: int| 0 <= p < full.len() && bucket_key(tf, full[p].timestamp) == k;
            assert(has_acc(accs@, bucket_key(tf, full[p].timestamp)));
            let j = choose|j: int| 0 <= j < accs@.len() && accs@[j].key == k;
            assert(acc_ok(accs@[j], bucket_of(full, tf, k)));
        }
        assert(!overflows(full, tf));
    }
    let mut bars: Vec<OhlcBar> = Vec::new();
    let mut j: usize = 0;
    while j < accs.len()
        invariant
            j <= accs@.len(),
            bars@.len() == j,
            tk == ticker@,
            full == window_of(raw@, tk, watermark),
            forall|p: int, q: int|
                0 <= p < q < accs@.len() ==> (#[trigger] accs@[p]).key != (#[trigger] accs@[q]).key,
            forall|p: int|
                0 <= p < accs@.len() ==> acc_ok(
                    #[trigger] accs@[p],
                    bucket_of(full, tf, accs@[p].key),
                ),
            forall|p: int|
                0 <= p < full.len() ==> has_acc(
                    accs@,
                    bucket_key(tf, (#[trigger] full[p]).timestamp),
                ),
            forall|p: int|
                0 <= p < j ==> {
                    let b = #[trigger] bars@[p];
                    &&& b.timestamp == accs@[p].key
                    &&& b.ticker@ == tk
                    &&& b.open == accs@[p].open
                    &&& b.high == accs@[p].high
                    &&& b.low == accs@[p].low
                    &&& b.close == accs@[p].close
                    &&& b.volume == accs@[p].volume
                },
        decreases accs@.len() - j,
    {
        let a = accs[j];
        bars.push(
            OhlcBar {
                ticker: ticker.clone(),
                timestamp: a.key,
                open: a.open,
                high: a.high,
                low: a.low,
                close: a.close,
                volume: a.volume,
            },
        );
        j += 1;
    }
    proof {
        assert forall|p: int| 0 <= p < full.len() implies has_bar(
            bars@,
            bucket_key(tf, full[p].timestamp),
        ) by {
            assert(has_acc(accs@, bucket_key(tf, full[p].timestamp)));
            let q = choose|q: int|
                0 <= q < accs@.len() && accs@[q].key == bucket_key(tf, full[p].timestamp);
            assert(bars@[q].timestamp == bucket_key(tf, full[p].timestamp));
        }
        assert(bars_for(bars@, full, tf, tk));
    }
    Result::Ok(bars)
}

} // verus!
