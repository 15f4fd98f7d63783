//! The job entry point and the per-ticker fan-out.
//!
//! One run resolves every ticker's watermark first, then aggregates each
//! ticker independently. A ticker whose aggregation fails is only recorded;
//! it neither touches its own stored rows nor disturbs any other ticker's
//! (log-and-continue, not fail-fast).

use vstd::prelude::*;

use crate::agg::{aggregate_ticker, bar_for, has_bucket, overflows, window_of};
use crate::model::{OhlcBar, RawTick};
use crate::table::{spec_watermark, tbl_contains, tbl_find, tbl_unique, upsert_bars};
use crate::timeframe::OhlcTimeframe;
use crate::watermark::{distinct_tickers, lemma_distinct_no_dup, resolve_watermarks};

verus! {

/// Does aggregating ticker `tk` fail in a run over `raw` against `dest`?
/// Failure is deterministic: some bucket of the ticker's window has a total
/// volume that does not fit in a fixed-point volume.
pub open spec fn ticker_fails(
    raw: Seq<RawTick>,
    dest: Seq<OhlcBar>,
    tf: OhlcTimeframe,
    tk: Seq<char>,
) -> bool {
    overflows(window_of(raw, tk, spec_watermark(dest, tk)), tf)
}

/// Does a run over `raw` against `dest` write the key `(tk, ts)`? It does
/// exactly when the ticker appears in the raw data, its aggregation does not
/// fail, and its scan window has a tick in bucket `ts`.
pub open spec fn job_updates(
    raw: Seq<RawTick>,
    dest: Seq<OhlcBar>,
    tf: OhlcTimeframe,
    tk: Seq<char>,
    ts: u64,
) -> bool {
    &&& distinct_tickers(raw).contains(tk)
    &&& !ticker_fails(raw, dest, tf, tk)
    &&& has_bucket(window_of(raw, tk, spec_watermark(dest, tk)), tf, ts)
}

/// The whole effect of one aggregation run: `dest1` is `dest0` with exactly
/// the updated keys overwritten by their freshly computed bars, and every
/// other row unchanged.
pub open spec fn job_post(
    raw: Seq<RawTick>,
    dest0: Seq<OhlcBar>,
    dest1: Seq<OhlcBar>,
    tf: OhlcTimeframe,
) -> bool {
    &&& tbl_unique(dest1)
    &&& forall|tk: Seq<char>, ts: u64| #![trigger tbl_find(dest1, tk, ts)]
        if job_updates(raw, dest0, tf, tk, ts) {
            tbl_find(dest1, tk, ts) is Some && bar_for(
                tbl_find(dest1, tk, ts).unwrap(),
                window_of(raw, tk, spec_watermark(dest0, tk)),
                tf,
                tk,
                ts,
            )
        } else {
            tbl_find(dest1, tk, ts) == tbl_find(dest0, tk, ts)
        }
}

/// The tickers of `tks` whose aggregation fails, in order.
pub open spec fn spec_failed(
    tks: Seq<Seq<char>>,
    raw: Seq<RawTick>,
    dest: Seq<OhlcBar>,
    tf: OhlcTimeframe,
) -> Seq<Seq<char>>
    decreases tks.len(),
{
    if tks.len() == 0 {
        Seq::empty()
    } else {
        let rest = spec_failed(tks.drop_last(), raw, dest, tf);
        if ticker_fails(raw, dest, tf, tks.last()) {
            rest.push(tks.last())
        } else {
            rest
        }
    }
}

/// One aggregation run: resolve every ticker's watermark against `dest`,
/// aggregate each ticker's window, and upsert the computed bars. Returns the
/// tickers whose aggregation failed; their rows, and nothing else, are left
/// exactly as they were.
pub fn run_tick_aggregation(raw: &Vec<RawTick>, dest: &mut Vec<OhlcBar>, tf: OhlcTimeframe) -> (failed: Vec<String>)
    requires
        tbl_unique(old(dest)@),
    ensures
        job_post(raw@, old(dest)@, final(dest)@, tf),
        failed@.map_values(|s: String| s@) == spec_failed(
            distinct_tickers(raw@),
            raw@,
            old(dest)@,
            tf,
        ),
{
    let ghost dest0 = dest@;
    let ghost dd = distinct_tickers(raw@);
    proof {
        lemma_distinct_no_dup(raw@);
    }
    let wms = resolve_watermarks(raw, dest);
    let mut failed: Vec<String> = Vec::new();
    let mut i: usize = 0;
    while i < wms.len()
        invariant
            i <= wms@.len(),
            dd == distinct_tickers(raw@),
            wms@.len() == dd.len(),
            forall|p: int|
                0 <= p < wms@.len() ==> (#[trigger] wms@[p]).0@ == dd[p] && wms@[p].1
                    == spec_watermark(dest0, dd[p]),
            forall|p: int, q: int| 0 <= p < q < dd.len() ==> dd[p] != dd[q],
            tbl_unique(dest@),
            tbl_unique(dest0),
            forall|tk: Seq<char>, ts: u64| #![trigger tbl_find(dest@, tk, ts)]
                if (exists|p: int| 0 <= p < i && dd[p] == tk) && job_updates(
                    raw@,
                    dest0,
                    tf,
                    tk,
                    ts,
                ) {
                    tbl_find(dest@, tk, ts) is Some && bar_for(
                        tbl_find(dest@, tk, ts).unwrap(),
                        window_of(raw@, tk, spec_watermark(dest0, tk)),
                        tf,
                        tk,
                        ts,
                    )
                } else {
                    tbl_find(dest@, tk, ts) == tbl_find(dest0, tk, ts)
                },
            failed@.map_values(|s: String| s@) == spec_failed(
                dd.take(i as int),
                raw@,
                dest0,
                tf,
            ),
        decreases wms@.len() - i,
    {
        let ticker = &wms[i].0;
        let wm = wms[i].1;
        let ghost tk = ticker@;
        let ghost win = window_of(raw@, tk, spec_watermark(dest0, tk));
        proof {
            assert(dd.take(i as int + 1).drop_last() =~= dd.take(i as int));
            assert(dd.take(i as int + 1).last() == dd[i as int]);
        }
        match aggregate_ticker(raw, ticker, tf, wm) {
            Result::Ok(bars) => {
                let ghost prev = dest@;
                proof {
                    // batch keys are pairwise distinct: one ticker, distinct buckets
                    assert(tbl_unique(bars@)) by {
                        assert(forall|p: int, q: int|
                            0 <= p < q < bars@.len() ==> (#[trigger] bars@[p]).timestamp != (
                            #[trigger] bars@[q]).timestamp);
                    }
                }
                upsert_bars(dest, &bars);
                proof {
                    // the batch holds exactly the keys (tk, k) with a tick in bucket k
                    assert forall|tk2: Seq<char>, ts: u64|
                        tbl_contains(bars@, tk2, ts) <==> (tk2 == tk && has_bucket(
                            win,
                            tf,
                            ts,
                        )) by {
                        if tbl_contains(bars@, tk2, ts) {
                            let p = choose|p: int|
                                0 <= p < bars@.len() && (#[trigger] bars@[p]).ticker@ == tk2
                                    && bars@[p].timestamp == ts;
                            assert(bar_for(bars@[p], win, tf, tk, bars@[p].timestamp));
                            crate::agg::lemma_bucket_len(win, tf, ts);
                        }
                        if tk2 == tk && has_bucket(win, tf, ts) {
                            let p = choose|p: int|
                                0 <= p < win.len() && crate::timeframe::bucket_key(
                                    tf,
                                    win[p].timestamp,
                                ) == ts;
                            assert(crate::agg::has_bar(bars@, ts));
                            let q = choose|q: int|
                                0 <= q < bars@.len() && bars@[q].timestamp == ts;
                            assert(bars@[q].ticker@ == tk && bars@[q].timestamp == ts);
                        }
                    }
                    // restore the per-key invariant
                    assert forall|tk2: Seq<char>, ts: u64|
                        (!((exists|p: int| 0 <= p < i + 1 && dd[p] == tk2) && job_updates(
                            raw@,
                            dest0,
                            tf,
                            tk2,
                            ts,
                        ))) implies tbl_find(dest@, tk2, ts) == tbl_find(dest0, tk2, ts) by {
                        assert(tbl_find(dest@, tk2, ts) == (if tbl_contains(bars@, tk2, ts) {
                            Option::Some(bars@[crate::table::tbl_index_of(bars@, tk2, ts)])
                        } else {
                            tbl_find(prev, tk2, ts)
                        }));
                        if tbl_contains(bars@, tk2, ts) {
                            // then tk2 == tk and ts is an occupied bucket: the key was updated
                            assert(tk2 == tk && has_bucket(win, tf, ts));
                            assert(dd[i as int] == tk2);
                            assert(exists|p: int| 0 <= p < i + 1 && dd[p] == tk2);
                            assert(job_updates(raw@, dest0, tf, tk2, ts));
                            assert(false);
                        } else {
                            if exists|p: int| 0 <= p < i && dd[p] == tk2 {
                                let p = choose|p: int| 0 <= p < i && dd[p] == tk2;
                                assert(exists|p2: int| 0 <= p2 < i + 1 && dd[p2] == tk2);
                                if job_updates(raw@, dest0, tf, tk2, ts) {
                                    assert(false);
                                }
                            }
                        }
                    }
                    assert forall|tk2: Seq<char>, ts: u64|
                        ((exists|p: int| 0 <= p < i + 1 && dd[p] == tk2) && job_updates(
                            raw@,
                            dest0,
                            tf,
                            tk2,
                            ts,
                        )) implies tbl_find(dest@, tk2, ts) is Some && bar_for(
                        tbl_find(dest@, tk2, ts).unwrap(),
                        window_of(raw@, tk2, spec_watermark(dest0, tk2)),
                        tf,
                        tk2,
                        ts,
                    ) by {
                        let p = choose|p: int| 0 <= p < i + 1 && dd[p] == tk2;
                        assert(tbl_find(dest@, tk2, ts) == (if tbl_contains(bars@, tk2, ts) {
                            Option::Some(bars@[crate::table::tbl_index_of(bars@, tk2, ts)])
                        } else {
                            tbl_find(prev, tk2, ts)
                        }));
                        if p == i {
                            // this iteration's ticker: its bars were just written
                            assert(tk2 == tk);
                            assert(has_bucket(win, tf, ts));
                            assert(tbl_contains(bars@, tk2, ts));
                            let q = crate::table::tbl_index_of(bars@, tk2, ts);
                            assert(0 <= q < bars@.len() && bars@[q].ticker@ == tk2
                                && bars@[q].timestamp == ts);
                            assert(bar_for(bars@[q], win, tf, tk, bars@[q].timestamp));
                        } else {
                            // an earlier ticker: its rows were not touched by this batch
                            assert(dd[p] != dd[i as int]);
                            assert(tk2 != tk);
                            assert(!tbl_contains(bars@, tk2, ts));
                            assert(exists|p2: int| 0 <= p2 < i && dd[p2] == tk2);
                        }
                    }
                    // the failed list is unchanged: this ticker did not fail
                    assert(!ticker_fails(raw@, dest0, tf, dd[i as int]));
                    assert(spec_failed(dd.take(i as int + 1), raw@, dest0, tf) == spec_failed(
                        dd.take(i as int),
                        raw@,
                        dest0,
                        tf,
                    ));
                }
            },
            Result::Err(_) => {
                failed.push(ticker.clone());
                proof {
                    assert(ticker_fails(raw@, dest0, tf, dd[i as int]));
                    assert(spec_failed(dd.take(i as int + 1), raw@, dest0, tf) == spec_failed(
                        dd.take(i as int),
                        raw@,
                        dest0,
                        tf,
                    ).push(tk));
                    assert(failed@.map_values(|s: String| s@) =~= spec_failed(
                        dd.take(i as int + 1),
                        raw@,
                        dest0,
                        tf,
                    ));
                    // a failing ticker writes nothing: every key keeps its row
                    assert forall|tk2: Seq<char>, ts: u64|
                        (!((exists|p: int| 0 <= p < i + 1 && dd[p] == tk2) && job_updates(
                            raw@,
                            dest0,
                            tf,
                            tk2,
                            ts,
                        ))) implies tbl_find(dest@, tk2, ts) == tbl_find(dest0, tk2, ts) by {
                        if exists|p: int| 0 <= p < i && dd[p] == tk2 {
                            if job_updates(raw@, dest0, tf, tk2, ts) {
                                assert(exists|p: int| 0 <= p < i + 1 && dd[p] == tk2);
                                assert(false);
                            }
                        }
                    }
                    assert forall|tk2: Seq<char>, ts: u64|
                        ((exists|p: int| 0 <= p < i + 1 && dd[p] == tk2) && job_updates(
                            raw@,
                            dest0,
                            tf,
                            tk2,
                            ts,
                        )) implies tbl_find(dest@, tk2, ts) is Some && bar_for(
                        tbl_find(dest@, tk2, ts).unwrap(),
                        window_of(raw@, tk2, spec_watermark(dest0, tk2)),
                        tf,
                        tk2,
                        ts,
                    ) by {
                        let p = choose|p: int| 0 <= p < i + 1 && dd[p] == tk2;
                        if p == i {
                            // this ticker failed, so job_updates cannot hold for it
                            assert(tk2 == tk);
                            assert(!job_updates(raw@, dest0, tf, tk2, ts));
                            assert(false);
                        } else {
                            assert(exists|p2: int| 0 <= p2 < i && dd[p2] == tk2);
                        }
                    }
                }
            },
        }
        i += 1;
    }
    proof {
        assert(dd.take(dd.len() as int) =~= dd);
        assert forall|tk2: Seq<char>, ts: u64|
            #![trigger tbl_find(dest@, tk2, ts)]
            true implies (if job_updates(raw@, dest0, tf, tk2, ts) {
            tbl_find(dest@, tk2, ts) is Some && bar_for(
                tbl_find(dest@, tk2, ts).unwrap(),
                window_of(raw@, tk2, spec_watermark(dest0, tk2)),
                tf,
                tk2,
                ts,
            )
        } else {
            tbl_find(dest@, tk2, ts) == tbl_find(dest0, tk2, ts)
        }) by {
            if job_updates(raw@, dest0, tf, tk2, ts) {
                assert(dd.contains(tk2));
                let p = choose|p: int| 0 <= p < dd.len() && dd[p] == tk2;
                assert(exists|p2: int| 0 <= p2 < i && dd[p2] == tk2);
            } else {
                if exists|p: int| 0 <= p < i && dd[p] == tk2 {
                }
            }
        }
    }
    failed
}

/// All the jobs there are; call `run` on a variant to execute it against a
/// store.
pub enum Job {
    /// Aggregate the raw tick table into the chosen timeframe's bar table.
    TickAggrigate { timeframe: OhlcTimeframe },
}

/// The relational store as the job sees it: the raw tick table and one bar
/// table per timeframe, each with its (ticker, timestamp) uniqueness
/// constraint.
pub struct OhlcStore {
    pub raw: Vec<RawTick>,
    pub minute: Vec<OhlcBar>,
    pub hour: Vec<OhlcBar>,
    pub daily: Vec<OhlcBar>,
}

impl OhlcStore {
    /// The store's invariant: every bar table keeps its uniqueness constraint.
    pub open spec fn wf(self) -> bool {
        &&& tbl_unique(self.minute@)
        &&& tbl_unique(self.hour@)
        &&& tbl_unique(self.daily@)
    }

    /// The bar table that timeframe `tf` writes to.
    pub open spec fn spec_table_of(self, tf: OhlcTimeframe) -> Seq<OhlcBar> {
        match tf {
            OhlcTimeframe::Minute => self.minute@,
            OhlcTimeframe::Hour => self.hour@,
            OhlcTimeframe::Daily => self.daily@,
        }
    }
}

impl Job {
    /// Run this job to completion against the store. Returns the tickers
    /// whose aggregation failed; every other part of the store is exactly
    /// the job's effect, and tables of other timeframes are untouched.
    pub fn run(&self, store: &mut OhlcStore) -> (failed: Vec<String>)
        requires
            old(store).wf(),
        ensures
            final(store).wf(),
            final(store).raw@ == old(store).raw@,
            match *self {
                Job::TickAggrigate { timeframe } => {
                    &&& job_post(
                        old(store).raw@,
                        old(store).spec_table_of(timeframe),
                        final(store).spec_table_of(timeframe),
                        timeframe,
                    )
                    &&& failed@.map_values(|s: String| s@) == spec_failed(
                        distinct_tickers(old(store).raw@),
                        old(store).raw@,
                        old(store).spec_table_of(timeframe),
                        timeframe,
                    )
                    &&& forall|tf2: OhlcTimeframe|
                        tf2 != timeframe ==> final(store).spec_table_of(tf2) == old(
                            store,
                        ).spec_table_of(tf2)
                },
            },
    {
        match self {
            Job::TickAggrigate { timeframe } => {
                let tf = *timeframe;
                match tf {
                    OhlcTimeframe::Minute => run_tick_aggregation(&store.raw, &mut store.minute, tf),
                    OhlcTimeframe::Hour => run_tick_aggregation(&store.raw, &mut store.hour, tf),
                    OhlcTimeframe::Daily => run_tick_aggregation(&store.raw, &mut store.daily, tf),
                }
            },
        }
    }
}

} // verus!
