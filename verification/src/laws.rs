//! The laws of the aggregation job, stated and proved against the contracts
//! of the other modules: bucket completeness, incrementality, idempotence,
//! failure isolation, and new-ticker coverage.

use vstd::prelude::*;

use crate::agg::{
    bar_for, bucket_of, has_bucket, in_window, lemma_bucket_len, overflows, vol_of, window_of,
};
use crate::model::{OhlcBar, RawTick};
use crate::table::{
    lemma_find_contains, lemma_watermark_by_contains, lemma_watermark_char, spec_watermark,
    tbl_contains, tbl_find, tbl_unique,
};
use crate::timeframe::{
    bucket_key, lemma_day_aligned, lemma_trunc_align, lemma_trunc_basic, lemma_trunc_monotone,
    spec_day_start, OhlcTimeframe, SECS_PER_DAY,
};
use crate::watermark::distinct_tickers;
use crate::job::{job_post, job_updates, ticker_fails};

verus! {

/// Two distinct multiples of `unit` lie at least `unit` apart.
proof fn lemma_multiple_gap(unit: u64, a: u64, b: u64)
    requires
        unit > 0,
        a % unit == 0,
        b % unit == 0,
        a < b,
    ensures
        a + unit <= b,
{
    vstd::arithmetic::div_mod::lemma_fundamental_div_mod(a as int, unit as int);
    vstd::arithmetic::div_mod::lemma_fundamental_div_mod(b as int, unit as int);
    let qa = a as int / unit as int;
    let qb = b as int / unit as int;
    assert(a == unit * qa && b == unit * qb);
    assert(qa < qb) by (nonlinear_arith)
        requires
            unit > 0,
            unit * qa < unit * qb,
    ;
    assert(unit * (qa + 1) <= unit * qb) by (nonlinear_arith)
        requires
            unit > 0,
            qa + 1 <= qb,
    ;
    assert(unit * (qa + 1) == unit * qa + unit) by (nonlinear_arith);
}

/// Every tick falls into exactly one bucket: its truncated timestamp is the
/// single unit-aligned key whose interval contains the timestamp.
pub proof fn lemma_one_bucket(tf: OhlcTimeframe, ts: u64, k: u64)
    ensures
        (k % tf.spec_unit_secs() == 0 && k <= ts < k + tf.spec_unit_secs()) <==> k == bucket_key(
            tf,
            ts,
        ),
{
    let unit = tf.spec_unit_secs();
    assert(unit > 0);
    lemma_trunc_basic(unit, ts);
    if k % unit == 0 && k <= ts < k + unit {
        lemma_trunc_align(unit, k, ts);
        if k < bucket_key(tf, ts) {
            lemma_multiple_gap(unit, k, bucket_key(tf, ts));
        }
    }
}

/// Every tick of a bucket carries that bucket's key.
pub proof fn lemma_bucket_elems(s: Seq<RawTick>, tf: OhlcTimeframe, k: u64)
    ensures
        forall|p: int|
            0 <= p < bucket_of(s, tf, k).len() ==> bucket_key(
                tf,
                (#[trigger] bucket_of(s, tf, k)[p]).timestamp,
            ) == k,
    decreases s.len(),
{
    if s.len() > 0 {
        lemma_bucket_elems(s.drop_last(), tf, k);
        let rest = bucket_of(s.drop_last(), tf, k);
        if bucket_key(tf, s.last().timestamp) == k {
            assert(bucket_of(s, tf, k) == rest.push(s.last()));
            assert forall|p: int| 0 <= p < rest.push(s.last()).len() implies bucket_key(
                tf,
                rest.push(s.last())[p].timestamp,
            ) == k by {
                if p < rest.len() {
                    assert(rest.push(s.last())[p] == rest[p]);
                }
            }
        } else {
            assert(bucket_of(s, tf, k) == rest);
        }
    }
}

/// A bucket below the window's day-start bound is empty in that window.
pub proof fn lemma_window_bucket_below(
    raw: Seq<RawTick>,
    tk: Seq<char>,
    wm: u64,
    tf: OhlcTimeframe,
    k: u64,
)
    requires
        k < spec_day_start(wm),
    ensures
        bucket_of(window_of(raw, tk, Option::Some(wm)), tf, k).len() == 0,
    decreases raw.len(),
{
    if raw.len() > 0 {
        lemma_window_bucket_below(raw.drop_last(), tk, wm, tf, k);
        let t = raw.last();
        if t.ticker@ == tk && in_window(t.timestamp, Option::Some(wm)) {
            assert(window_of(raw, tk, Option::Some(wm)) == window_of(
                raw.drop_last(),
                tk,
                Option::Some(wm),
            ).push(t));
            crate::agg::lemma_bucket_push(
                window_of(raw.drop_last(), tk, Option::Some(wm)),
                tf,
                t,
                k,
            );
            if bucket_key(tf, t.timestamp) == k {
                lemma_day_aligned(tf, wm);
                lemma_trunc_align(tf.spec_unit_secs(), spec_day_start(wm), t.timestamp);
            }
        }
    }
}

/// Completeness per bucket: once a bucket lies at or after the window's
/// day-start bound, the window holds every raw tick of the ticker whose
/// truncated timestamp is the bucket key — the bucket, and so its bar, is
/// the same as over an unbounded scan.
pub proof fn lemma_bucket_window_complete(
    raw: Seq<RawTick>,
    tk: Seq<char>,
    w: Option<u64>,
    tf: OhlcTimeframe,
    k: u64,
)
    requires
        match w {
            Option::None => true,
            Option::Some(wm) => k >= spec_day_start(wm),
        },
    ensures
        bucket_of(window_of(raw, tk, w), tf, k) == bucket_of(window_of(raw, tk, Option::None), tf, k),
    decreases raw.len(),
{
    if raw.len() > 0 {
        lemma_bucket_window_complete(raw.drop_last(), tk, w, tf, k);
        let t = raw.last();
        let winrest = window_of(raw.drop_last(), tk, w);
        let allrest = window_of(raw.drop_last(), tk, Option::None);
        if t.ticker@ == tk {
            crate::agg::lemma_bucket_push(allrest, tf, t, k);
            if in_window(t.timestamp, w) {
                crate::agg::lemma_bucket_push(winrest, tf, t, k);
            } else {
                // the tick lies below the day-start bound, so not in bucket k
                if bucket_key(tf, t.timestamp) == k {
                    lemma_trunc_basic(tf.spec_unit_secs(), t.timestamp);
                    assert(t.timestamp >= k);
                    assert(false);
                }
            }
        }
    }
}

/// A bucket occupied in a watermark-bounded window lies at or after the
/// window's day-start bound.
pub proof fn lemma_occupied_bucket_aligned(
    raw: Seq<RawTick>,
    tk: Seq<char>,
    wm: u64,
    tf: OhlcTimeframe,
    k: u64,
)
    requires
        has_bucket(window_of(raw, tk, Option::Some(wm)), tf, k),
    ensures
        k >= spec_day_start(wm),
{
    lemma_bucket_len(window_of(raw, tk, Option::Some(wm)), tf, k);
    if k < spec_day_start(wm) {
        lemma_window_bucket_below(raw, tk, wm, tf, k);
    }
}

/// Option rows hold the same stored column values.
pub open spec fn same_row(a: Option<OhlcBar>, b: Option<OhlcBar>) -> bool {
    match (a, b) {
        (Option::Some(x), Option::Some(y)) => {
            &&& x.ticker@ == y.ticker@
            &&& x.timestamp == y.timestamp
            &&& x.open == y.open
            &&& x.high == y.high
            &&& x.low == y.low
            &&& x.close == y.close
            &&& x.volume == y.volume
        },
        (Option::None, Option::None) => true,
        _ => false,
    }
}

/// Incrementality: a run against a table whose watermark for `tk` is at day
/// D never touches a row of `tk` strictly before D's start of day.
pub proof fn lemma_incremental(
    raw: Seq<RawTick>,
    dest0: Seq<OhlcBar>,
    dest1: Seq<OhlcBar>,
    tf: OhlcTimeframe,
    tk: Seq<char>,
    d: u64,
    ts: u64,
)
    requires
        job_post(raw, dest0, dest1, tf),
        spec_watermark(dest0, tk) == Option::Some(d),
        ts < spec_day_start(d),
    ensures
        tbl_find(dest1, tk, ts) == tbl_find(dest0, tk, ts),
{
    if job_updates(raw, dest0, tf, tk, ts) {
        lemma_occupied_bucket_aligned(raw, tk, d, tf, ts);
        assert(false);
    }
    assert(tbl_find(dest1, tk, ts) == tbl_find(dest0, tk, ts));
}

/// New-ticker coverage: a ticker present in the raw data with no stored bars
/// is listed by the resolver with an absent watermark, so its first pass
/// scans its whole raw history.
pub proof fn lemma_new_ticker(raw: Seq<RawTick>, dest: Seq<OhlcBar>, tk: Seq<char>)
    requires
        exists|i: int| 0 <= i < raw.len() && (#[trigger] raw[i]).ticker@ == tk,
        forall|ts: u64| !tbl_contains(dest, tk, ts),
    ensures
        distinct_tickers(raw).contains(tk),
        spec_watermark(dest, tk) == Option::<u64>::None,
        window_of(raw, tk, spec_watermark(dest, tk)) == window_of(raw, tk, Option::<u64>::None),
{
    crate::watermark::lemma_distinct_contains(raw, tk);
    lemma_watermark_char(dest, tk);
    if spec_watermark(dest, tk) is Some {
        assert(tbl_contains(dest, tk, spec_watermark(dest, tk).unwrap()));
    }
}

/// Isolation: in one run, a deterministically failing ticker keeps all its
/// rows untouched, while every ticker whose aggregation does not fail still
/// gets its bars written, whatever other tickers failed.
pub proof fn lemma_isolation(
    raw: Seq<RawTick>,
    dest0: Seq<OhlcBar>,
    dest1: Seq<OhlcBar>,
    tf: OhlcTimeframe,
    x: Seq<char>,
    tk: Seq<char>,
    ts: u64,
)
    requires
        job_post(raw, dest0, dest1, tf),
        ticker_fails(raw, dest0, tf, x),
        distinct_tickers(raw).contains(tk),
        !ticker_fails(raw, dest0, tf, tk),
    ensures
        tbl_find(dest1, x, ts) == tbl_find(dest0, x, ts),
        has_bucket(window_of(raw, tk, spec_watermark(dest0, tk)), tf, ts) ==> tbl_find(
            dest1,
            tk,
            ts,
        ) is Some && bar_for(
            tbl_find(dest1, tk, ts).unwrap(),
            window_of(raw, tk, spec_watermark(dest0, tk)),
            tf,
            tk,
            ts,
        ),
{
    assert(!job_updates(raw, dest0, tf, x, ts));
    assert(tbl_find(dest1, x, ts) == tbl_find(dest0, x, ts));
    if has_bucket(window_of(raw, tk, spec_watermark(dest0, tk)), tf, ts) {
        assert(job_updates(raw, dest0, tf, tk, ts));
        assert(tbl_find(dest1, tk, ts) is Some);
    }
}

/// After a run in which ticker `tk` did not fail, re-resolving its watermark
/// bounds a window whose occupied buckets are exactly the occupied buckets
/// of the first window, with identical ticks; and the rerun cannot fail.
proof fn lemma_second_window(
    raw: Seq<RawTick>,
    dest0: Seq<OhlcBar>,
    dest1: Seq<OhlcBar>,
    tf: OhlcTimeframe,
    tk: Seq<char>,
)
    requires
        tbl_unique(dest0),
        job_post(raw, dest0, dest1, tf),
        distinct_tickers(raw).contains(tk),
        !ticker_fails(raw, dest0, tf, tk),
    ensures
        !ticker_fails(raw, dest1, tf, tk),
        forall|k: u64| #![trigger bucket_of(window_of(raw, tk, spec_watermark(dest1, tk)), tf, k)]
            has_bucket(window_of(raw, tk, spec_watermark(dest1, tk)), tf, k) ==> bucket_of(
                window_of(raw, tk, spec_watermark(dest1, tk)),
                tf,
                k,
            ) == bucket_of(window_of(raw, tk, spec_watermark(dest0, tk)), tf, k) && has_bucket(
                window_of(raw, tk, spec_watermark(dest0, tk)),
                tf,
                k,
            ),
{
    let w1 = spec_watermark(dest0, tk);
    let w2 = spec_watermark(dest1, tk);
    let win1 = window_of(raw, tk, w1);
    let win2 = window_of(raw, tk, w2);
    lemma_watermark_char(dest0, tk);
    lemma_watermark_char(dest1, tk);
    assert forall|ts: u64|
        tbl_contains(dest1, tk, ts) <==> (job_updates(raw, dest0, tf, tk, ts) || tbl_contains(
            dest0,
            tk,
            ts,
        )) by {
        lemma_find_contains(dest1, tk, ts);
        lemma_find_contains(dest0, tk, ts);
        if job_updates(raw, dest0, tf, tk, ts) {
            assert(tbl_find(dest1, tk, ts) is Some);
        } else {
            assert(tbl_find(dest1, tk, ts) == tbl_find(dest0, tk, ts));
        }
    }
    assert forall|k: u64|
        has_bucket(win2, tf, k) implies bucket_of(win2, tf, k) == bucket_of(win1, tf, k)
        && has_bucket(win1, tf, k) by {
        match (w1, w2) {
            (Option::None, Option::None) => {},
            (Option::Some(m1), Option::None) => {
                assert(tbl_contains(dest0, tk, m1));
                assert(tbl_contains(dest1, tk, m1));
                assert(false);
            },
            (Option::None, Option::Some(m2)) => {
                lemma_occupied_bucket_aligned(raw, tk, m2, tf, k);
                lemma_bucket_window_complete(raw, tk, w2, tf, k);
                lemma_bucket_len(win2, tf, k);
                lemma_bucket_len(win1, tf, k);
            },
            (Option::Some(m1), Option::Some(m2)) => {
                assert(tbl_contains(dest0, tk, m1));
                assert(tbl_contains(dest1, tk, m1));
                assert(m1 <= m2);
                lemma_trunc_monotone(SECS_PER_DAY, m1, m2);
                lemma_occupied_bucket_aligned(raw, tk, m2, tf, k);
                lemma_bucket_window_complete(raw, tk, w2, tf, k);
                lemma_bucket_window_complete(raw, tk, w1, tf, k);
                lemma_bucket_len(win2, tf, k);
                lemma_bucket_len(win1, tf, k);
            },
        }
    }
    if ticker_fails(raw, dest1, tf, tk) {
        let k = choose|k: u64| has_bucket(win2, tf, k) && vol_of(bucket_of(win2, tf, k))
            > u64::MAX;
        assert(vol_of(bucket_of(win1, tf, k)) > u64::MAX);
        assert(has_bucket(win1, tf, k));
        assert(overflows(win1, tf));
        assert(false);
    }
}

/// Idempotence: running the aggregation twice in succession with no new raw
/// data between runs leaves the stored rows identical: no duplicates, no
/// value drift, for every ticker and bucket.
pub proof fn lemma_idempotent(
    raw: Seq<RawTick>,
    dest0: Seq<OhlcBar>,
    dest1: Seq<OhlcBar>,
    dest2: Seq<OhlcBar>,
    tf: OhlcTimeframe,
)
    requires
        tbl_unique(dest0),
        job_post(raw, dest0, dest1, tf),
        job_post(raw, dest1, dest2, tf),
    ensures
        forall|tk: Seq<char>, ts: u64| #![trigger tbl_find(dest2, tk, ts)]
            same_row(tbl_find(dest2, tk, ts), tbl_find(dest1, tk, ts)),
{
    assert forall|tk: Seq<char>, ts: u64|
        same_row(tbl_find(dest2, tk, ts), tbl_find(dest1, tk, ts)) by {
        if !distinct_tickers(raw).contains(tk) {
            assert(!job_updates(raw, dest1, tf, tk, ts));
            assert(tbl_find(dest2, tk, ts) == tbl_find(dest1, tk, ts));
        } else if ticker_fails(raw, dest0, tf, tk) {
            assert forall|ts2: u64|
                tbl_contains(dest1, tk, ts2) <==> tbl_contains(dest0, tk, ts2) by {
                assert(!job_updates(raw, dest0, tf, tk, ts2));
                assert(tbl_find(dest1, tk, ts2) == tbl_find(dest0, tk, ts2));
                lemma_find_contains(dest1, tk, ts2);
                lemma_find_contains(dest0, tk, ts2);
            }
            lemma_watermark_by_contains(dest1, dest0, tk);
            assert(ticker_fails(raw, dest1, tf, tk));
            assert(!job_updates(raw, dest1, tf, tk, ts));
            assert(tbl_find(dest2, tk, ts) == tbl_find(dest1, tk, ts));
        } else {
            lemma_second_window(raw, dest0, dest1, tf, tk);
            let w1 = spec_watermark(dest0, tk);
            let w2 = spec_watermark(dest1, tk);
            let win1 = window_of(raw, tk, w1);
            let win2 = window_of(raw, tk, w2);
            if job_updates(raw, dest1, tf, tk, ts) {
                assert(has_bucket(win2, tf, ts));
                assert(bucket_of(win2, tf, ts) == bucket_of(win1, tf, ts) && has_bucket(
                    win1,
                    tf,
                    ts,
                ));
                assert(job_updates(raw, dest0, tf, tk, ts));
                assert(tbl_find(dest2, tk, ts) is Some && bar_for(
                    tbl_find(dest2, tk, ts).unwrap(),
                    win2,
                    tf,
                    tk,
                    ts,
                ));
                assert(tbl_find(dest1, tk, ts) is Some && bar_for(
                    tbl_find(dest1, tk, ts).unwrap(),
                    win1,
                    tf,
                    tk,
                    ts,
                ));
            } else {
                assert(tbl_find(dest2, tk, ts) == tbl_find(dest1, tk, ts));
            }
        }
    }
}

} // verus!
