//! Consolidation: merges the positions of one ticker into a single holding
//! whose buy price is the share-weighted average.
use vstd::prelude::*;

use crate::bytes::{bytes_equal, copy_bytes};

verus! {

/// One recorded purchase. Prices and share counts are in units of 1/10000.
#[derive(Debug, Clone)]
pub struct Position {
    pub ticker: Vec<u8>,
    pub buy_price: u64,
    pub shares: u64,
}

/// All positions of one ticker, merged. `cost` is the total paid, in units of
/// 1/100000000 (price units times share units); `buy_price` is `cost / shares`
/// rounded down.
#[derive(Debug, Clone)]
pub struct Holding {
    pub ticker: Vec<u8>,
    pub buy_price: u64,
    pub shares: u64,
    pub cost: u128,
}

/// Why the positions of one ticker could not be merged.
#[derive(Debug, Clone, PartialEq, Eq)]
pub enum ConsolidationError {
    /// The ticker's shares sum to zero: its average price is undefined.
    ZeroShares(Vec<u8>),
    /// The ticker's shares sum past `u64::MAX`.
    Overflow(Vec<u8>),
}

/// The distinct tickers of `ps`, in order of first appearance.
pub open spec fn distinct_tickers(ps: Seq<Position>) -> Seq<Seq<u8>>
    decreases ps.len(),
{
    if ps.len() == 0 {
        Seq::empty()
    } else {
        let d = distinct_tickers(ps.drop_last());
        if d.contains(ps.last().ticker@) {
            d
        } else {
            d.push(ps.last().ticker@)
        }
    }
}

/// The shares of ticker `t` in `ps`, summed.
pub open spec fn shares_sum(ps: Seq<Position>, t: Seq<u8>) -> int
    decreases ps.len(),
{
    if ps.len() == 0 {
        0
    } else {
        shares_sum(ps.drop_last(), t) + if ps.last().ticker@ == t { ps.last().shares as int } else { 0 }
    }
}

/// What was paid for ticker `t` in `ps`: the sum of price times shares.
pub open spec fn cost_sum(ps: Seq<Position>, t: Seq<u8>) -> int
    decreases ps.len(),
{
    if ps.len() == 0 {
        0
    } else {
        cost_sum(ps.drop_last(), t) + if ps.last().ticker@ == t {
            ps.last().buy_price as int * ps.last().shares as int
        } else {
            0
        }
    }
}

/// Whether `r` is what consolidating ticker `t` of `ps` gives.
pub open spec fn consolidated_as(r: Result<Holding, ConsolidationError>, ps: Seq<Position>, t: Seq<u8>) -> bool {
    let shares = shares_sum(ps, t);
    let cost = cost_sum(ps, t);
    if shares > u64::MAX {
        r matches Err(ConsolidationError::Overflow(x)) && x@ == t
    } else if shares == 0 {
        r matches Err(ConsolidationError::ZeroShares(x)) && x@ == t
    } else {
        r matches Ok(h) && h.ticker@ == t && h.shares == shares && h.cost == cost
            && h.buy_price == cost / shares
    }
}

/// What was paid never exceeds the shares times the largest price.
pub proof fn lemma_cost_bound(ps: Seq<Position>, t: Seq<u8>)
    ensures
        0 <= cost_sum(ps, t) <= shares_sum(ps, t) * u64::MAX,
        0 <= shares_sum(ps, t),
    decreases ps.len(),
{
    if ps.len() > 0 {
        lemma_cost_bound(ps.drop_last(), t);
        let p = ps.last();
        assert(0 <= p.buy_price as int * p.shares as int <= p.shares as int * u64::MAX) by (nonlinear_arith)
            requires
                p.buy_price <= u64::MAX,
        ;
    }
}

proof fn lemma_sums_other(ps: Seq<Position>, t: Seq<u8>)
    requires
        !distinct_tickers(ps).contains(t),
    ensures
        shares_sum(ps, t) == 0,
        cost_sum(ps, t) == 0,
    decreases ps.len(),
{
    if ps.len() > 0 {
        let d = distinct_tickers(ps.drop_last());
        if d.contains(ps.last().ticker@) {
            assert(ps.last().ticker@ != t);
        } else {
            assert(distinct_tickers(ps) == d.push(ps.last().ticker@));
            assert(distinct_tickers(ps)[d.len() as int] == ps.last().ticker@);
        }
        assert forall|i: int| 0 <= i < d.len() implies d[i] != t by {
            if d.contains(ps.last().ticker@) {
            } else {
                assert(distinct_tickers(ps)[i] == d[i]);
            }
        }
        lemma_sums_other(ps.drop_last(), t);
    }
}

proof fn lemma_distinct_no_duplicates(ps: Seq<Position>)
    ensures
        distinct_tickers(ps).no_duplicates(),
    decreases ps.len(),
{
    if ps.len() > 0 {
        lemma_distinct_no_duplicates(ps.drop_last());
    }
}

/// Merged figures of one ticker while positions are read.
struct Tally {
    ticker: Vec<u8>,
    cost: u128,
    shares: u64,
    overflow: bool,
}

spec fn tally_tracks(g: Tally, ps: Seq<Position>, t: Seq<u8>) -> bool {
    &&& g.ticker@ == t
    &&& !g.overflow ==> g.shares == shares_sum(ps, t) && g.cost == cost_sum(ps, t)
    &&& g.overflow ==> shares_sum(ps, t) > u64::MAX
}

/// The index of the tally of ticker `t`, if there is one.
fn find_tally(gs: &Vec<Tally>, t: &[u8]) -> (r: Option<usize>)
    ensures
        match r {
            Some(g) => g < gs@.len() && gs@[g as int].ticker@ == t@,
            None => forall|g: int| 0 <= g < gs@.len() ==> gs@[g].ticker@ != t@,
        },
{
    let mut g: usize = 0;
    while g < gs.len()
        invariant
            g <= gs@.len(),
            forall|h: int| 0 <= h < g ==> gs@[h].ticker@ != t@,
        decreases gs@.len() - g,
    {
        if bytes_equal(gs[g].ticker.as_slice(), t) {
            return Some(g);
        }
        g += 1;
    }
    None
}

/// Merges the positions of each ticker: one result per distinct ticker, in
/// order of first appearance. Tickers are compared exactly, byte for byte. A
/// ticker whose shares sum to zero gives `ZeroShares`, one whose shares sum
/// past `u64::MAX` gives `Overflow`; otherwise the holding carries the summed
/// shares, the summed cost and the average price.
pub fn consolidate_positions(positions: &Vec<Position>) -> (r: Vec<Result<Holding, ConsolidationError>>)
    ensures
        r@.len() == distinct_tickers(positions@).len(),
        forall|g: int|
            0 <= g < r@.len() ==> consolidated_as(
                #[trigger] r@[g],
                positions@,
                distinct_tickers(positions@)[g],
            ),
{
    let mut gs: Vec<Tally> = Vec::new();
    let mut i: usize = 0;
    while i < positions.len()
        invariant
            i <= positions@.len(),
            gs@.len() == distinct_tickers(positions@.take(i as int)).len(),
            forall|g: int|
                0 <= g < gs@.len() ==> tally_tracks(
                    #[trigger] gs@[g],
                    positions@.take(i as int),
                    distinct_tickers(positions@.take(i as int))[g],
                ),
        decreases positions@.len() - i,
    {
        let ghost before = positions@.take(i as int);
        let ghost after = positions@.take(i as int + 1);
        assert(after.drop_last() =~= before);
        let p = &positions[i];
        let ghost t = p.ticker@;
        proof {
            assert(after.last() == *p);
            lemma_cost_bound(after, t);
        }
        match find_tally(&gs, p.ticker.as_slice()) {
            Some(k) => {
                assert(distinct_tickers(before)[k as int] == t);
                assert(distinct_tickers(before).contains(t));
                assert(distinct_tickers(after) == distinct_tickers(before));
                let old_g = gs[k].overflow;
                let cost = gs[k].cost;
                let shares = gs[k].shares;
                let ticker = copy_bytes(gs[k].ticker.as_slice());
                let new_g = if old_g || shares > u64::MAX - p.shares {
                    Tally { ticker, cost, shares, overflow: true }
                } else {
                    proof {
                        lemma_cost_bound(after, t);
                        assert((shares + p.shares) as int * u64::MAX <= u128::MAX) by (nonlinear_arith)
                            requires
                                shares + p.shares <= u64::MAX,
                        ;
                        assert(p.buy_price as int * p.shares as int <= u128::MAX) by (nonlinear_arith)
                            requires
                                p.buy_price <= u64::MAX,
                                p.shares <= u64::MAX,
                        ;
                    }
                    let add = (p.buy_price as u128) * (p.shares as u128);
                    Tally { ticker, cost: cost + add, shares: shares + p.shares, overflow: false }
                };
                gs.set(k, new_g);
                assert forall|g: int| 0 <= g < gs@.len() implies tally_tracks(
                    #[trigger] gs@[g],
                    after,
                    distinct_tickers(after)[g],
                ) by {
                    let u = distinct_tickers(after)[g];
                    if g != k {
                        lemma_distinct_no_duplicates(before);
                        assert(u != t);
                    } else {
                        lemma_cost_bound(before, t);
                    }
                }
            },
            None => {
                assert forall|g: int| 0 <= g < distinct_tickers(before).len() implies distinct_tickers(
                    before,
                )[g] != t by {
                    assert(tally_tracks(gs@[g], before, distinct_tickers(before)[g]));
                }
                assert(!distinct_tickers(before).contains(t));
                assert(distinct_tickers(after) == distinct_tickers(before).push(t));
                proof {
                    lemma_sums_other(before, t);
                    assert(p.buy_price as int * p.shares as int <= u128::MAX) by (nonlinear_arith)
                        requires
                            p.buy_price <= u64::MAX,
                            p.shares <= u64::MAX,
                    ;
                }
                let ticker = copy_bytes(p.ticker.as_slice());
                let add = (p.buy_price as u128) * (p.shares as u128);
                gs.push(Tally { ticker, cost: add, shares: p.shares, overflow: false });
                assert forall|g: int| 0 <= g < gs@.len() implies tally_tracks(
                    #[trigger] gs@[g],
                    after,
                    distinct_tickers(after)[g],
                ) by {
                    if g < gs@.len() - 1 {
                        assert(distinct_tickers(after)[g] == distinct_tickers(before)[g]);
                        assert(distinct_tickers(before)[g] != t);
                    }
                }
            },
        }
        i += 1;
    }
    assert(positions@.take(positions@.len() as int) =~= positions@);
    let mut r: Vec<Result<Holding, ConsolidationError>> = Vec::new();
    let mut g: usize = 0;
    while g < gs.len()
        invariant
            g <= gs@.len(),
            gs@.len() == distinct_tickers(positions@).len(),
            forall|h: int|
                0 <= h < gs@.len() ==> tally_tracks(
                    #[trigger] gs@[h],
                    positions@,
                    distinct_tickers(positions@)[h],
                ),
            r@.len() == g,
            forall|h: int|
                0 <= h < g ==> consolidated_as(
                    #[trigger] r@[h],
                    positions@,
                    distinct_tickers(positions@)[h],
                ),
        decreases gs@.len() - g,
    {
        let tally = &gs[g];
        assert(tally_tracks(gs@[g as int], positions@, distinct_tickers(positions@)[g as int]));
        let ticker = copy_bytes(tally.ticker.as_slice());
        let out = if tally.overflow {
            Err(ConsolidationError::Overflow(ticker))
        } else if tally.shares == 0 {
            Err(ConsolidationError::ZeroShares(ticker))
        } else {
            proof {
                lemma_cost_bound(positions@, distinct_tickers(positions@)[g as int]);
                let c = tally.cost as int;
                let s = tally.shares as int;
                assert(c / s <= u64::MAX) by (nonlinear_arith)
                    requires
                        c <= s * u64::MAX,
                        s > 0,
                ;
            }
            let buy_price = (tally.cost / (tally.shares as u128)) as u64;
            Ok(Holding { ticker, buy_price, shares: tally.shares, cost: tally.cost })
        };
        r.push(out);
        g += 1;
    }
    r
}

/// A merged holding carries exactly the summed shares and the summed cost of
/// its ticker's positions, and its average price times its shares falls short
/// of that cost by less than one price unit per share.
pub proof fn lemma_consolidation_keeps_cost(ps: Seq<Position>, t: Seq<u8>, h: Holding)
    requires
        consolidated_as(Ok(h), ps, t),
    ensures
        h.shares == shares_sum(ps, t),
        h.cost == cost_sum(ps, t),
        h.buy_price as int * h.shares as int <= h.cost,
        h.cost < (h.buy_price as int + 1) * h.shares as int,
{
    let c = h.cost as int;
    let s = h.shares as int;
    assert(h.buy_price as int * s <= c < (h.buy_price as int + 1) * s) by (nonlinear_arith)
        requires
            s > 0,
            c >= 0,
            h.buy_price == c / s,
    ;
}

} // verus!
