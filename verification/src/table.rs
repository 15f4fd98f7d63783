//! A destination table of OHLCV bars, keyed by (ticker, bucket start).
//!
//! The store's uniqueness constraint on that pair is the table invariant;
//! writes go through an upsert: insert when the key is absent, overwrite the
//! whole row when it is present. The watermark of a ticker is the latest bar
//! timestamp the table holds for it.

use vstd::prelude::*;

use crate::model::OhlcBar;

verus! {

/// No two rows share a (ticker, timestamp) key.
pub open spec fn tbl_unique(t: Seq<OhlcBar>) -> bool {
    forall|i: int, j: int|
        0 <= i < j < t.len() ==> !((#[trigger] t[i]).ticker@ == (#[trigger] t[j]).ticker@
            && t[i].timestamp == t[j].timestamp)
}

/// Does the table hold a row with key `(tk, ts)`?
pub open spec fn tbl_contains(t: Seq<OhlcBar>, tk: Seq<char>, ts: u64) -> bool {
    exists|i: int| 0 <= i < t.len() && (#[trigger] t[i]).ticker@ == tk && t[i].timestamp == ts
}

/// Index of the row with key `(tk, ts)`, where one exists.
pub open spec fn tbl_index_of(t: Seq<OhlcBar>, tk: Seq<char>, ts: u64) -> int {
    choose|i: int| 0 <= i < t.len() && (#[trigger] t[i]).ticker@ == tk && t[i].timestamp == ts
}

/// The row with key `(tk, ts)`, if any; on duplicate keys the latest row wins,
/// so on a unique table it is the one row with that key.
pub open spec fn tbl_find(t: Seq<OhlcBar>, tk: Seq<char>, ts: u64) -> Option<OhlcBar>
    decreases t.len(),
{
    if t.len() == 0 {
        Option::None
    } else if t.last().ticker@ == tk && t.last().timestamp == ts {
        Option::Some(t.last())
    } else {
        tbl_find(t.drop_last(), tk, ts)
    }
}

/// The latest bar timestamp the table holds for ticker `tk`, if any.
pub open spec fn spec_watermark(t: Seq<OhlcBar>, tk: Seq<char>) -> Option<u64>
    decreases t.len(),
{
    if t.len() == 0 {
        Option::None
    } else {
        let rest = spec_watermark(t.drop_last(), tk);
        if t.last().ticker@ == tk {
            match rest {
                Option::None => Option::Some(t.last().timestamp),
                Option::Some(m) => Option::Some(
                    if t.last().timestamp > m {
                        t.last().timestamp
                    } else {
                        m
                    },
                ),
            }
        } else {
            rest
        }
    }
}

/// `tbl_find` returns a row exactly when the key is present, and that row
/// carries the key it was looked up by.
pub proof fn lemma_find_contains(t: Seq<OhlcBar>, tk: Seq<char>, ts: u64)
    ensures
        tbl_find(t, tk, ts) is Some <==> tbl_contains(t, tk, ts),
        tbl_find(t, tk, ts) matches Option::Some(b) ==> b.ticker@ == tk && b.timestamp == ts
            && tbl_contains(t, tk, ts),
    decreases t.len(),
{
    if t.len() > 0 {
        lemma_find_contains(t.drop_last(), tk, ts);
        if t.last().ticker@ == tk && t.last().timestamp == ts {
            assert(t[t.len() - 1].ticker@ == tk && t[t.len() - 1].timestamp == ts);
        } else {
            if tbl_contains(t, tk, ts) {
                let i = choose|i: int|
                    0 <= i < t.len() && (#[trigger] t[i]).ticker@ == tk && t[i].timestamp == ts;
                assert(t.drop_last()[i] == t[i]);
            }
            if tbl_contains(t.drop_last(), tk, ts) {
                let i = choose|i: int|
                    0 <= i < t.drop_last().len() && (#[trigger] t.drop_last()[i]).ticker@ == tk
                        && t.drop_last()[i].timestamp == ts;
                assert(t[i] == t.drop_last()[i]);
            }
        }
    }
}

/// Appending a row moves `tbl_find` to it for its own key and changes no
/// other key.
pub proof fn lemma_find_push(t: Seq<OhlcBar>, b: OhlcBar, tk: Seq<char>, ts: u64)
    ensures
        tbl_find(t.push(b), tk, ts) == (if tk == b.ticker@ && ts == b.timestamp {
            Option::Some(b)
        } else {
            tbl_find(t, tk, ts)
        }),
{
    assert(t.push(b).drop_last() =~= t);
    assert(t.push(b).last() == b);
}

/// Overwriting the row that holds a key moves `tbl_find` to the new row for
/// that key and changes no other key.
pub proof fn lemma_find_update(t: Seq<OhlcBar>, i: int, b: OhlcBar, tk: Seq<char>, ts: u64)
    requires
        tbl_unique(t),
        0 <= i < t.len(),
        t[i].ticker@ == b.ticker@,
        t[i].timestamp == b.timestamp,
    ensures
        tbl_find(t.update(i, b), tk, ts) == (if tk == b.ticker@ && ts == b.timestamp {
            Option::Some(b)
        } else {
            tbl_find(t, tk, ts)
        }),
    decreases t.len(),
{
    let u = t.update(i, b);
    assert(u.len() == t.len());
    if i == t.len() - 1 {
        assert(u.last() == b);
        assert(u.drop_last() =~= t.drop_last());
        if !(tk == b.ticker@ && ts == b.timestamp) {
            assert(tbl_find(t, tk, ts) == tbl_find(t.drop_last(), tk, ts));
        }
    } else {
        assert(u.last() == t.last());
        assert(u.drop_last() =~= t.drop_last().update(i, b));
        assert(tbl_unique(t.drop_last())) by {
            assert(forall|p: int, q: int|
                0 <= p < q < t.drop_last().len() ==> t.drop_last()[p] == t[p] && t.drop_last()[q]
                    == t[q]);
        }
        assert(t.drop_last()[i] == t[i]);
        lemma_find_update(t.drop_last(), i, b, tk, ts);
        // the last row's key differs from b's key, by uniqueness
        assert(!(t.last().ticker@ == b.ticker@ && t.last().timestamp == b.timestamp)) by {
            assert(t[i].ticker@ == b.ticker@ && t[i].timestamp == b.timestamp);
            assert(t.last() == t[t.len() - 1]);
        }
    }
}

/// What the watermark says about key presence: it is the largest timestamp
/// among the ticker's rows, and absent exactly when the ticker has no row.
pub proof fn lemma_watermark_char(t: Seq<OhlcBar>, tk: Seq<char>)
    ensures
        match spec_watermark(t, tk) {
            Option::Some(m) => tbl_contains(t, tk, m) && forall|ts: u64|
                ts > m ==> !tbl_contains(t, tk, ts),
            Option::None => forall|ts: u64| !tbl_contains(t, tk, ts),
        },
    decreases t.len(),
{
    if t.len() > 0 {
        lemma_watermark_char(t.drop_last(), tk);
        assert forall|ts: u64| tbl_contains(t, tk, ts) implies (t.last().ticker@ == tk
            && t.last().timestamp == ts) || tbl_contains(t.drop_last(), tk, ts) by {
            let i = choose|i: int|
                0 <= i < t.len() && (#[trigger] t[i]).ticker@ == tk && t[i].timestamp == ts;
            if i < t.len() - 1 {
                assert(t.drop_last()[i] == t[i]);
            }
        }
        assert forall|ts: u64| tbl_contains(t.drop_last(), tk, ts) implies tbl_contains(
            t,
            tk,
            ts,
        ) by {
            let i = choose|i: int|
                0 <= i < t.drop_last().len() && (#[trigger] t.drop_last()[i]).ticker@ == tk
                    && t.drop_last()[i].timestamp == ts;
            assert(t[i] == t.drop_last()[i]);
        }
        if t.last().ticker@ == tk {
            assert(t[t.len() - 1].ticker@ == tk);
        }
    }
}

/// Two tables that hold the same keys for a ticker have the same watermark.
pub proof fn lemma_watermark_by_contains(t1: Seq<OhlcBar>, t2: Seq<OhlcBar>, tk: Seq<char>)
    requires
        forall|ts: u64| tbl_contains(t1, tk, ts) <==> tbl_contains(t2, tk, ts),
    ensures
        spec_watermark(t1, tk) == spec_watermark(t2, tk),
{
    lemma_watermark_char(t1, tk);
    lemma_watermark_char(t2, tk);
    match (spec_watermark(t1, tk), spec_watermark(t2, tk)) {
        (Option::Some(m1), Option::Some(m2)) => {
            assert(tbl_contains(t2, tk, m1));
            assert(tbl_contains(t1, tk, m2));
            assert(m1 <= m2 && m2 <= m1);
        },
        (Option::Some(m1), Option::None) => {
            assert(tbl_contains(t2, tk, m1));
        },
        (Option::None, Option::Some(m2)) => {
            assert(tbl_contains(t1, tk, m2));
        },
        (Option::None, Option::None) => {},
    }
}

/// Linear scan for the row holding key `(ticker, ts)`.
fn tbl_index(table: &Vec<OhlcBar>, ticker: &String, ts: u64) -> (r: Option<usize>)
    ensures
        match r {
            Option::Some(i) => i < table@.len() && table@[i as int].ticker@ == ticker@
                && table@[i as int].timestamp == ts,
            Option::None => !tbl_contains(table@, ticker@, ts),
        },
{
    let mut i: usize = 0;
    while i < table.len()
        invariant
            i <= table@.len(),
            forall|p: int|
                0 <= p < i ==> !((#[trigger] table@[p]).ticker@ == ticker@ && table@[p].timestamp
                    == ts),
        decreases table@.len() - i,
    {
        if table[i].timestamp == ts && table[i].ticker == *ticker {
            return Option::Some(i);
        }
        i += 1;
    }
    Option::None
}

/// Upsert one bar: overwrite the row with its (ticker, timestamp) key, or
/// append it when the key is absent. No other row changes.
pub fn upsert_bar(table: &mut Vec<OhlcBar>, bar: OhlcBar)
    requires
        tbl_unique(old(table)@),
    ensures
        tbl_unique(final(table)@),
        forall|tk: Seq<char>, ts: u64| #![trigger tbl_find(final(table)@, tk, ts)]
            tbl_find(final(table)@, tk, ts) == (if tk == bar.ticker@ && ts == bar.timestamp {
                Option::Some(bar)
            } else {
                tbl_find(old(table)@, tk, ts)
            }),
        forall|tk: Seq<char>, ts: u64| #![trigger tbl_contains(final(table)@, tk, ts)]
            tbl_contains(final(table)@, tk, ts) <==> (tbl_contains(old(table)@, tk, ts) || (tk
                == bar.ticker@ && ts == bar.timestamp)),
{
    let ghost t0 = table@;
    match tbl_index(table, &bar.ticker, bar.timestamp) {
        Option::Some(i) => {
            proof {
                assert forall|tk: Seq<char>, ts: u64|
                    tbl_find(t0.update(i as int, bar), tk, ts) == (if tk == bar.ticker@ && ts
                        == bar.timestamp {
                        Option::Some(bar)
                    } else {
                        tbl_find(t0, tk, ts)
                    }) by {
                    lemma_find_update(t0, i as int, bar, tk, ts);
                }
            }
            table.set(i, bar);
            proof {
                assert(tbl_unique(table@)) by {
                    assert(forall|p: int|
                        0 <= p < table@.len() ==> (#[trigger] table@[p]).ticker@ == t0[p].ticker@
                            && table@[p].timestamp == t0[p].timestamp);
                }
                assert forall|tk: Seq<char>, ts: u64|
                    tbl_contains(table@, tk, ts) <==> (tbl_contains(t0, tk, ts) || (tk
                        == bar.ticker@ && ts == bar.timestamp)) by {
                    lemma_find_contains(table@, tk, ts);
                    lemma_find_contains(t0, tk, ts);
                }
            }
        },
        Option::None => {
            proof {
                assert forall|tk: Seq<char>, ts: u64|
                    tbl_find(t0.push(bar), tk, ts) == (if tk == bar.ticker@ && ts == bar.timestamp {
                        Option::Some(bar)
                    } else {
                        tbl_find(t0, tk, ts)
                    }) by {
                    lemma_find_push(t0, bar, tk, ts);
                }
            }
            table.push(bar);
            proof {
                assert(tbl_unique(table@)) by {
                    assert(forall|p: int| 0 <= p < t0.len() ==> table@[p] == t0[p]);
                }
                assert forall|tk: Seq<char>, ts: u64|
                    tbl_contains(table@, tk, ts) <==> (tbl_contains(t0, tk, ts) || (tk
                        == bar.ticker@ && ts == bar.timestamp)) by {
                    lemma_find_contains(table@, tk, ts);
                    lemma_find_contains(t0, tk, ts);
                }
            }
        },
    }
}

/// Upsert a batch of bars with pairwise distinct keys. After the call the
/// table holds exactly the batch rows at the batch keys and is unchanged at
/// every other key.
pub fn upsert_bars(table: &mut Vec<OhlcBar>, bars: &Vec<OhlcBar>)
    requires
        tbl_unique(old(table)@),
        tbl_unique(bars@),
    ensures
        tbl_unique(final(table)@),
        forall|tk: Seq<char>, ts: u64| #![trigger tbl_find(final(table)@, tk, ts)]
            tbl_find(final(table)@, tk, ts) == (if tbl_contains(bars@, tk, ts) {
                Option::Some(bars@[tbl_index_of(bars@, tk, ts)])
            } else {
                tbl_find(old(table)@, tk, ts)
            }),
        forall|tk: Seq<char>, ts: u64| #![trigger tbl_contains(final(table)@, tk, ts)]
            tbl_contains(final(table)@, tk, ts) <==> (tbl_contains(old(table)@, tk, ts)
                || tbl_contains(bars@, tk, ts)),
{
    let ghost t0 = table@;
    let mut m: usize = 0;
    while m < bars.len()
        invariant
            m <= bars@.len(),
            tbl_unique(bars@),
            tbl_unique(table@),
            forall|tk: Seq<char>, ts: u64| #![trigger tbl_find(table@, tk, ts)]
                tbl_find(table@, tk, ts) == (if tbl_contains(bars@.take(m as int), tk, ts) {
                    Option::Some(bars@[tbl_index_of(bars@, tk, ts)])
                } else {
                    tbl_find(t0, tk, ts)
                }),
            forall|tk: Seq<char>, ts: u64| #![trigger tbl_contains(table@, tk, ts)]
                tbl_contains(table@, tk, ts) <==> (tbl_contains(t0, tk, ts) || tbl_contains(
                    bars@.take(m as int),
                    tk,
                    ts,
                )),
        decreases bars@.len() - m,
    {
        let b = bars[m].clone();
        let ghost t1 = table@;
        let ghost bkey = (b.ticker@, b.timestamp);
        upsert_bar(table, b);
        proof {
            let mm = m as int;
            assert forall|tk: Seq<char>, ts: u64|
                tbl_contains(bars@.take(mm + 1), tk, ts) <==> (tbl_contains(bars@.take(mm), tk, ts)
                    || (tk == bars@[mm].ticker@ && ts == bars@[mm].timestamp)) by {
                if tbl_contains(bars@.take(mm + 1), tk, ts) {
                    let i = choose|i: int|
                        0 <= i < bars@.take(mm + 1).len() && (#[trigger] bars@.take(
                            mm + 1,
                        )[i]).ticker@ == tk && bars@.take(mm + 1)[i].timestamp == ts;
                    if i < mm {
                        assert(bars@.take(mm)[i] == bars@.take(mm + 1)[i]);
                    }
                }
                if tbl_contains(bars@.take(mm), tk, ts) {
                    let i = choose|i: int|
                        0 <= i < bars@.take(mm).len() && (#[trigger] bars@.take(mm)[i]).ticker@
                            == tk && bars@.take(mm)[i].timestamp == ts;
                    assert(bars@.take(mm + 1)[i] == bars@.take(mm)[i]);
                }
                if tk == bars@[mm].ticker@ && ts == bars@[mm].timestamp {
                    assert(bars@.take(mm + 1)[mm].ticker@ == tk && bars@.take(mm + 1)[mm].timestamp
                        == ts);
                }
            }
            assert forall|tk: Seq<char>, ts: u64|
                tbl_contains(bars@, tk, ts) && tk == bars@[mm].ticker@ && ts
                    == bars@[mm].timestamp implies bars@[tbl_index_of(bars@, tk, ts)]
                == bars@[mm] by {
                let i = tbl_index_of(bars@, tk, ts);
                assert(0 <= i < bars@.len() && bars@[i].ticker@ == tk && bars@[i].timestamp == ts);
            }
            assert(tbl_contains(bars@, bars@[mm].ticker@, bars@[mm].timestamp)) by {
                assert(bars@[mm].ticker@ == bars@[mm].ticker@ && bars@[mm].timestamp
                    == bars@[mm].timestamp);
            }
            assert forall|tk: Seq<char>, ts: u64|
                tbl_contains(table@, tk, ts) <==> (tbl_contains(t0, tk, ts) || tbl_contains(
                    bars@.take(mm + 1),
                    tk,
                    ts,
                )) by {
                assert(tbl_contains(table@, tk, ts) <==> (tbl_contains(t1, tk, ts) || (tk == bkey.0
                    && ts == bkey.1)));
                assert(tbl_contains(t1, tk, ts) <==> (tbl_contains(t0, tk, ts) || tbl_contains(
                    bars@.take(mm),
                    tk,
                    ts,
                )));
            }
        }
        m += 1;
    }
    proof {
        assert(bars@.take(bars@.len() as int) =~= bars@);
    }
}

/// The watermark of `ticker`: the latest bar timestamp already stored for it.
pub fn find_watermark(table: &Vec<OhlcBar>, ticker: &String) -> (r: Option<u64>)
    ensures
        r == spec_watermark(table@, ticker@),
{
    let mut r: Option<u64> = Option::None;
    let mut i: usize = 0;
    while i < table.len()
        invariant
            i <= table@.len(),
            r == spec_watermark(table@.take(i as int), ticker@),
        decreases table@.len() - i,
    {
        proof {
            assert(table@.take(i as int + 1).drop_last() =~= table@.take(i as int));
            assert(table@.take(i as int + 1).last() == table@[i as int]);
        }
        if table[i].ticker == *ticker {
            r = match r {
                Option::None => Option::Some(table[i].timestamp),
                Option::Some(m) => Option::Some(
                    if table[i].timestamp > m {
                        table[i].timestamp
                    } else {
                        m
                    },
                ),
            };
        }
        i += 1;
    }
    proof {
        assert(table@.take(table@.len() as int) =~= table@);
    }
    r
}

} // verus!
