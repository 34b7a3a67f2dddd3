//! Aggregation and ranking: profit and loss of each holding, portfolio
//! totals, and the order in which holdings are listed.
use vstd::prelude::*;

use crate::consolidate::Holding;
use crate::error::FetchError;

verus! {

broadcast use vstd::seq_lib::group_to_multiset_ensures;

/// A signed amount: its magnitude, and whether it is below zero.
#[derive(Debug, Clone, Copy, PartialEq, Eq)]
pub struct Amount {
    pub negative: bool,
    pub magnitude: u128,
}

/// The listed figures of one holding. Prices are in units of 1/10000, money in
/// units of 1/100000000, and the change in units of 1/10000 of a percent.
/// A holding whose price lookup failed has current price 0, no change (it
/// ranks below every other), a profit of 0 and its error.
#[derive(Debug)]
pub struct RankedRecord {
    pub ticker: Vec<u8>,
    pub buy_price: u64,
    pub shares: u64,
    pub current_price: u64,
    pub change: Option<i128>,
    pub profit_loss: Amount,
    pub error: Option<FetchError>,
}

/// The portfolio: what was invested, what it is worth now, and the listed
/// holdings, best change first.
#[derive(Debug)]
pub struct Report {
    pub total_investment: u128,
    pub total_current_value: u128,
    pub records: Vec<RankedRecord>,
}

/// The change of the portfolio as a whole.
#[derive(Debug, Clone, Copy, PartialEq, Eq)]
pub enum PortfolioChange {
    /// Nothing was invested: the change is undefined.
    NoData,
    /// The change, in units of 1/10000 of a percent.
    Percent(Amount),
}

/// The largest total that a report carries: totals are kept small enough that
/// a change in 1/10000 of a percent can be computed from them.
pub const TOTAL_LIMIT: u128 = 340282366920938463463374607431768;

/// The change from `buy` to `current`, in 1/10000 of a percent, rounded
/// toward zero.
pub open spec fn change_of(buy: int, current: int) -> int {
    if current >= buy {
        ((current - buy) * 1000000) / buy
    } else {
        -(((buy - current) * 1000000) / buy)
    }
}

/// The amount `x`.
pub open spec fn amount_of(x: int) -> Amount {
    if x < 0 {
        Amount { negative: true, magnitude: (-x) as u128 }
    } else {
        Amount { negative: false, magnitude: x as u128 }
    }
}

/// The record that holding `h` with lookup outcome `o` is listed as.
pub open spec fn record_of(h: Holding, o: Result<u64, FetchError>) -> RankedRecord {
    match o {
        Ok(c) => RankedRecord {
            ticker: h.ticker,
            buy_price: h.buy_price,
            shares: h.shares,
            current_price: c,
            change: Some(change_of(h.buy_price as int, c as int) as i128),
            profit_loss: amount_of(c as int * h.shares as int - h.buy_price as int * h.shares as int),
            error: None,
        },
        Err(e) => RankedRecord {
            ticker: h.ticker,
            buy_price: h.buy_price,
            shares: h.shares,
            current_price: 0,
            change: None,
            profit_loss: Amount { negative: false, magnitude: 0 },
            error: Some(e),
        },
    }
}

pub open spec fn records_of(resolved: Seq<(Holding, Result<u64, FetchError>)>) -> Seq<RankedRecord> {
    Seq::new(resolved.len(), |i: int| record_of(resolved[i].0, resolved[i].1))
}

/// Whether `a` is listed strictly before `b`: it has a change, and `b` has
/// none or a lower one.
pub open spec fn ranks_above(a: RankedRecord, b: RankedRecord) -> bool {
    match (a.change, b.change) {
        (Some(x), Some(y)) => x > y,
        (Some(_), None) => true,
        _ => false,
    }
}

pub open spec fn ranked(s: Seq<RankedRecord>) -> bool {
    forall|i: int, j: int| 0 <= i < j < s.len() ==> !ranks_above(#[trigger] s[j], #[trigger] s[i])
}

/// What the holdings cost: the sum of buy price times shares.
pub open spec fn investment_sum(resolved: Seq<(Holding, Result<u64, FetchError>)>) -> int
    decreases resolved.len(),
{
    if resolved.len() == 0 {
        0
    } else {
        let h = resolved.last().0;
        investment_sum(resolved.drop_last()) + h.buy_price as int * h.shares as int
    }
}

/// What the holdings whose price is known are worth now.
pub open spec fn current_sum(resolved: Seq<(Holding, Result<u64, FetchError>)>) -> int
    decreases resolved.len(),
{
    if resolved.len() == 0 {
        0
    } else {
        let h = resolved.last().0;
        current_sum(resolved.drop_last()) + match resolved.last().1 {
            Ok(c) => c as int * h.shares as int,
            Err(_) => 0,
        }
    }
}

proof fn lemma_sums_nonneg(resolved: Seq<(Holding, Result<u64, FetchError>)>)
    ensures
        investment_sum(resolved) >= 0,
        current_sum(resolved) >= 0,
    decreases resolved.len(),
{
    if resolved.len() > 0 {
        lemma_sums_nonneg(resolved.drop_last());
        let h = resolved.last().0;
        assert(h.buy_price as int * h.shares as int >= 0) by (nonlinear_arith);
        if let Ok(c) = resolved.last().1 {
            assert(c as int * h.shares as int >= 0) by (nonlinear_arith);
        }
    }
}

fn product(a: u64, b: u64) -> (r: u128)
    ensures
        r == a as int * b as int,
{
    proof {
        assert(a as int * b as int <= u128::MAX) by (nonlinear_arith)
            requires
                a <= u64::MAX,
                b <= u64::MAX,
        ;
    }
    (a as u128) * (b as u128)
}

/// The change from `buy` to `current`, in 1/10000 of a percent.
pub fn change_percent(buy: u64, current: u64) -> (r: i128)
    requires
        buy > 0,
    ensures
        r == change_of(buy as int, current as int),
{
    let d: u64 = if current >= buy { current - buy } else { buy - current };
    proof {
        assert(d as int * 1000000 <= 1000000 * u64::MAX) by (nonlinear_arith)
            requires
                d <= u64::MAX,
        ;
        assert((d as int * 1000000) / buy as int <= d as int * 1000000) by (nonlinear_arith)
            requires
                buy >= 1,
                d >= 0,
        ;
    }
    let q = ((d as u128) * 1000000) / (buy as u128);
    if current >= buy {
        q as i128
    } else {
        -(q as i128)
    }
}

/// The record of holding `h` whose lookup gave `outcome`.
pub fn make_record(h: Holding, outcome: Result<u64, FetchError>) -> (r: RankedRecord)
    requires
        h.buy_price > 0,
    ensures
        r == record_of(h, outcome),
{
    match outcome {
        Ok(c) => {
            let change = change_percent(h.buy_price, c);
            let profit_loss = if c >= h.buy_price {
                let m = product(c - h.buy_price, h.shares);
                proof {
                    assert(m == c as int * h.shares as int - h.buy_price as int * h.shares as int)
                        by (nonlinear_arith)
                        requires
                            m == (c - h.buy_price) * h.shares,
                    ;
                }
                Amount { negative: false, magnitude: m }
            } else {
                let m = product(h.buy_price - c, h.shares);
                proof {
                    assert(m == h.buy_price as int * h.shares as int - c as int * h.shares as int)
                        by (nonlinear_arith)
                        requires
                            m == (h.buy_price - c) * h.shares,
                    ;
                }
                if m == 0 {
                    Amount { negative: false, magnitude: 0 }
                } else {
                    Amount { negative: true, magnitude: m }
                }
            };
            RankedRecord {
                ticker: h.ticker,
                buy_price: h.buy_price,
                shares: h.shares,
                current_price: c,
                change: Some(change),
                profit_loss,
                error: None,
            }
        },
        Err(e) => RankedRecord {
            ticker: h.ticker,
            buy_price: h.buy_price,
            shares: h.shares,
            current_price: 0,
            change: None,
            profit_loss: Amount { negative: false, magnitude: 0 },
            error: Some(e),
        },
    }
}

/// Whether `a` is listed strictly before `b`.
pub fn outranks(a: &RankedRecord, b: &RankedRecord) -> (r: bool)
    ensures
        r == ranks_above(*a, *b),
{
    match (a.change, b.change) {
        (Some(x), Some(y)) => x > y,
        (Some(_), None) => true,
        _ => false,
    }
}

/// Inserts `x` into the ranked list `out`, keeping it ranked.
fn insert_ranked(out: &mut Vec<RankedRecord>, x: RankedRecord)
    requires
        ranked(old(out)@),
    ensures
        ranked(final(out)@),
        final(out)@.to_multiset() == old(out)@.to_multiset().insert(x),
        final(out)@.len() == old(out)@.len() + 1,
{
    let mut j: usize = 0;
    while j < out.len() && outranks(&out[j], &x)
        invariant
            j <= out@.len(),
            forall|k: int| 0 <= k < j ==> ranks_above(#[trigger] out@[k], x),
        decreases out@.len() - j,
    {
        j += 1;
    }
    let ghost before = out@;
    out.insert(j, x);
    proof {
        before.insert_ensures(j as int, x);
        assert(out@ == before.insert(j as int, x));
        assert forall|i: int| j <= i < before.len() implies out@[i + 1] == before[i] by {
            assert(before.insert(j as int, x)[i + 1] == before[i]);
        }
    }
    assert forall|a: int, b: int| 0 <= a < b < out@.len() implies !ranks_above(
        #[trigger] out@[b],
        #[trigger] out@[a],
    ) by {
        if a < j && b == j {
        } else if a == j {
            assert(out@[(b - 1) + 1] == before[b - 1]);
            assert(!ranks_above(before[b - 1], before[j as int]));
        } else if a < j && b < j {
            assert(out@[b] == before[b] && out@[a] == before[a]);
        } else if a < j {
            assert(out@[(b - 1) + 1] == before[b - 1]);
            assert(!ranks_above(before[b - 1], before[a]));
        } else {
            assert(out@[(b - 1) + 1] == before[b - 1] && out@[(a - 1) + 1] == before[a - 1]);
        }
    }
}

/// Lists the holdings with their lookup outcomes. Gives `None` where a total
/// exceeds `TOTAL_LIMIT`; otherwise the totals of investment (over every
/// holding) and of current value (over the holdings whose price is known),
/// and the records of all holdings, ranked: those with a change by change,
/// highest first, then those whose lookup failed.
pub fn aggregate(resolved: Vec<(Holding, Result<u64, FetchError>)>) -> (r: Option<Report>)
    requires
        forall|i: int| 0 <= i < resolved@.len() ==> (#[trigger] resolved@[i]).0.buy_price > 0,
    ensures
        match r {
            Some(rep) => {
                &&& investment_sum(resolved@) <= TOTAL_LIMIT
                &&& current_sum(resolved@) <= TOTAL_LIMIT
                &&& rep.total_investment == investment_sum(resolved@)
                &&& rep.total_current_value == current_sum(resolved@)
                &&& ranked(rep.records@)
                &&& rep.records@.to_multiset() == records_of(resolved@).to_multiset()
            },
            None => investment_sum(resolved@) > TOTAL_LIMIT || current_sum(resolved@)
                > TOTAL_LIMIT,
        },
{
    let ghost all = resolved@;
    let mut rest = resolved;
    let mut out: Vec<RankedRecord> = Vec::new();
    let mut invested: u128 = 0;
    let mut current: u128 = 0;
    proof {
        assert(all.take(0) =~= Seq::<(Holding, Result<u64, FetchError>)>::empty());
        assert(records_of(all.subrange(0, 0)) =~= Seq::<RankedRecord>::empty());
        assert(all.subrange(0, all.len() as int) =~= all);
    }
    while rest.len() > 0
        invariant
            all == resolved@,
            rest@ == all.subrange(0, rest@.len() as int),
            rest@.len() <= all.len(),
            forall|i: int| 0 <= i < all.len() ==> (#[trigger] all[i]).0.buy_price > 0,
            invested + investment_sum(rest@) == investment_sum(all),
            current + current_sum(rest@) == current_sum(all),
            invested <= TOTAL_LIMIT,
            current <= TOTAL_LIMIT,
            ranked(out@),
            out@.to_multiset().add(records_of(rest@).to_multiset()) == records_of(
                all,
            ).to_multiset(),
        decreases rest@.len(),
    {
        let ghost before = rest@;
        let (h, o) = match rest.pop() {
            Some(pair) => pair,
            None => {
                return None;
            },
        };
        assert(before.drop_last() =~= rest@);
        assert(before.last() == (h, o));
        assert(all[before.len() - 1] == before.last());
        proof {
            lemma_sums_nonneg(rest@);
            assert(records_of(before) =~= records_of(rest@).push(record_of(h, o)));
        }
        let inv = product(h.buy_price, h.shares);
        assert(investment_sum(before) == investment_sum(rest@) + inv);
        if inv > TOTAL_LIMIT - invested {
            assert(investment_sum(all) > TOTAL_LIMIT);
            return None;
        }
        invested = invested + inv;
        let cur: u128 = match &o {
            Ok(c) => product(*c, h.shares),
            Err(_) => 0,
        };
        assert(current_sum(before) == current_sum(rest@) + cur);
        if cur > TOTAL_LIMIT - current {
            assert(current_sum(all) > TOTAL_LIMIT);
            return None;
        }
        current = current + cur;
        let rec = make_record(h, o);
        insert_ranked(&mut out, rec);
    }
    proof {
        assert(rest@ =~= Seq::<(Holding, Result<u64, FetchError>)>::empty());
        assert(records_of(rest@) =~= Seq::<RankedRecord>::empty());
    }
    Some(Report { total_investment: invested, total_current_value: current, records: out })
}

/// The change of the portfolio, in 1/10000 of a percent, from its total
/// investment and current value; `NoData` where nothing was invested.
pub fn portfolio_change(total_investment: u128, total_current_value: u128) -> (r: PortfolioChange)
    requires
        total_investment <= TOTAL_LIMIT,
        total_current_value <= TOTAL_LIMIT,
    ensures
        total_investment == 0 ==> r == PortfolioChange::NoData,
        total_investment > 0 ==> r == PortfolioChange::Percent(
            amount_of(change_of(total_investment as int, total_current_value as int)),
        ),
{
    if total_investment == 0 {
        return PortfolioChange::NoData;
    }
    let up = total_current_value >= total_investment;
    let d: u128 = if up {
        total_current_value - total_investment
    } else {
        total_investment - total_current_value
    };
    proof {
        assert(d as int * 1000000 <= u128::MAX) by (nonlinear_arith)
            requires
                d <= TOTAL_LIMIT,
        ;
        assert((d as int * 1000000) / total_investment as int <= d as int * 1000000) by (nonlinear_arith)
            requires
                total_investment >= 1,
                d >= 0,
        ;
    }
    let q = (d * 1000000) / total_investment;
    if up || q == 0 {
        PortfolioChange::Percent(Amount { negative: false, magnitude: q })
    } else {
        PortfolioChange::Percent(Amount { negative: true, magnitude: q })
    }
}

/// In a ranked list, a record whose lookup failed is followed only by such
/// records, and records with a change come in order of change, highest first.
pub proof fn lemma_ranked_order(s: Seq<RankedRecord>, i: int, j: int)
    requires
        ranked(s),
        0 <= i < j < s.len(),
    ensures
        s[i].change is None ==> s[j].change is None,
        (s[i].change is Some && s[j].change is Some) ==> s[i].change.unwrap() >= s[j].change.unwrap(),
{
    assert(!ranks_above(s[j], s[i]));
}

} // verus!
