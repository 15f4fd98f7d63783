//! The watermark resolver.
//!
//! One pass over the raw data yields every distinct ticker exactly once, in
//! order of first appearance, each paired with its watermark in the
//! destination table: the latest bar timestamp stored for it, or absent when
//! the ticker has no bars yet (a new ticker, due a first full pass).

use vstd::prelude::*;

use crate::model::{OhlcBar, RawTick};
use crate::table::{find_watermark, spec_watermark};

verus! {

/// The tickers of `raw`, each once, in order of first appearance.
pub open spec fn distinct_tickers(raw: Seq<RawTick>) -> Seq<Seq<char>>
    decreases raw.len(),
{
    if raw.len() == 0 {
        Seq::empty()
    } else {
        let rest = distinct_tickers(raw.drop_last());
        if rest.contains(raw.last().ticker@) {
            rest
        } else {
            rest.push(raw.last().ticker@)
        }
    }
}

/// The distinct ticker list never repeats an entry.
pub proof fn lemma_distinct_no_dup(raw: Seq<RawTick>)
    ensures
        forall|p: int, q: int|
            0 <= p < q < distinct_tickers(raw).len() ==> distinct_tickers(raw)[p]
                != distinct_tickers(raw)[q],
    decreases raw.len(),
{
    if raw.len() > 0 {
        lemma_distinct_no_dup(raw.drop_last());
        let rest = distinct_tickers(raw.drop_last());
        if !rest.contains(raw.last().ticker@) {
            assert forall|p: int, q: int|
                0 <= p < q < rest.push(raw.last().ticker@).len() implies rest.push(
                raw.last().ticker@,
            )[p] != rest.push(raw.last().ticker@)[q] by {
                if q == rest.len() {
                    assert(rest[p] == rest.push(raw.last().ticker@)[p]);
                }
            }
        }
    }
}

/// A ticker is listed exactly when some raw tick carries it.
pub proof fn lemma_distinct_contains(raw: Seq<RawTick>, tk: Seq<char>)
    ensures
        distinct_tickers(raw).contains(tk) <==> exists|i: int|
            0 <= i < raw.len() && (#[trigger] raw[i]).ticker@ == tk,
    decreases raw.len(),
{
    if raw.len() > 0 {
        lemma_distinct_contains(raw.drop_last(), tk);
        let rest = distinct_tickers(raw.drop_last());
        if exists|i: int| 0 <= i < raw.len() && (#[trigger] raw[i]).ticker@ == tk {
            let i = choose|i: int| 0 <= i < raw.len() && (#[trigger] raw[i]).ticker@ == tk;
            if i < raw.len() - 1 {
                assert(raw.drop_last()[i] == raw[i]);
                assert(distinct_tickers(raw).contains(tk)) by {
                    if !rest.contains(raw.last().ticker@) {
                        let j = choose|j: int| 0 <= j < rest.len() && rest[j] == tk;
                        assert(rest.push(raw.last().ticker@)[j] == tk);
                    }
                }
            } else {
                assert(raw.last().ticker@ == tk);
                if rest.contains(tk) {
                } else {
                    assert(rest.push(tk)[rest.len() as int] == tk);
                }
            }
        }
        if distinct_tickers(raw).contains(tk) {
            if rest.contains(raw.last().ticker@) {
                let i = choose|i: int|
                    0 <= i < raw.drop_last().len() && (#[trigger] raw.drop_last()[i]).ticker@ == tk;
                assert(raw[i] == raw.drop_last()[i]);
            } else {
                let j = choose|j: int|
                    0 <= j < rest.push(raw.last().ticker@).len() && rest.push(
                        raw.last().ticker@,
                    )[j] == tk;
                if j < rest.len() {
                    assert(rest[j] == tk);
                    let i = choose|i: int|
                        0 <= i < raw.drop_last().len() && (#[trigger] raw.drop_last()[i]).ticker@
                            == tk;
                    assert(raw[i] == raw.drop_last()[i]);
                } else {
                    assert(raw[raw.len() - 1].ticker@ == tk);
                }
            }
        }
    }
}

/// Has `res` already collected `ticker`?
fn seen(res: &Vec<(String, Option<u64>)>, ticker: &String) -> (r: bool)
    ensures
        r <==> exists|j: int| 0 <= j < res@.len() && (#[trigger] res@[j]).0@ == ticker@,
{
    let mut j: usize = 0;
    while j < res.len()
        invariant
            j <= res@.len(),
            forall|p: int| 0 <= p < j ==> (#[trigger] res@[p]).0@ != ticker@,
        decreases res@.len() - j,
    {
        if res[j].0 == *ticker {
            return true;
        }
        j += 1;
    }
    false
}

/// Resolve the watermark of every distinct ticker of the raw data against
/// the destination table: each ticker exactly once, in order of first
/// appearance, with its latest stored bar timestamp, or none for a ticker
/// that has no bars yet.
pub fn resolve_watermarks(raw: &Vec<RawTick>, table: &Vec<OhlcBar>) -> (r: Vec<
    (String, Option<u64>),
>)
    ensures
        r@.len() == distinct_tickers(raw@).len(),
        forall|p: int|
            0 <= p < r@.len() ==> (#[trigger] r@[p]).0@ == distinct_tickers(raw@)[p] && r@[p].1
                == spec_watermark(table@, distinct_tickers(raw@)[p]),
{
    let mut res: Vec<(String, Option<u64>)> = Vec::new();
    let mut i: usize = 0;
    while i < raw.len()
        invariant
            i <= raw@.len(),
            res@.len() == distinct_tickers(raw@.take(i as int)).len(),
            forall|p: int|
                0 <= p < res@.len() ==> (#[trigger] res@[p]).0@ == distinct_tickers(
                    raw@.take(i as int),
                )[p] && res@[p].1 == spec_watermark(table@, distinct_tickers(raw@.take(i as int))[p]),
        decreases raw@.len() - i,
    {
        let ghost d = distinct_tickers(raw@.take(i as int));
        proof {
            assert(raw@.take(i as int + 1).drop_last() =~= raw@.take(i as int));
            assert(raw@.take(i as int + 1).last() == raw@[i as int]);
        }
        let ticker = &raw[i].ticker;
        let already = seen(&res, ticker);
        proof {
            if already {
                let j = choose|j: int| 0 <= j < res@.len() && (#[trigger] res@[j]).0@ == ticker@;
                assert(d[j] == ticker@);
                assert(d.contains(ticker@));
            } else {
                if d.contains(ticker@) {
                    let p = choose|p: int| 0 <= p < d.len() && d[p] == ticker@;
                    assert(res@[p].0@ == ticker@);
                }
                assert(!d.contains(ticker@));
            }
        }
        if !already {
            let wm = find_watermark(table, ticker);
            res.push((ticker.clone(), wm));
        }
        i += 1;
    }
    proof {
        assert(raw@.take(raw@.len() as int) =~= raw@);
    }
    res
}

} // verus!
