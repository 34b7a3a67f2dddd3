use stock_checker::batch::Batch;
use stock_checker::consolidate::{consolidate_positions, ConsolidationError, Holding, Position};
use stock_checker::error::FetchError;
use stock_checker::extract::{build_marker, extract};
use stock_checker::fetch::{classify_response, price_url, resolve_response};
use stock_checker::report::{aggregate, change_percent, portfolio_change, Amount, PortfolioChange};

fn pos(t: &str, price: u64, shares: u64) -> Position {
    Position { ticker: t.as_bytes().to_vec(), buy_price: price * 10000, shares: shares * 10000 }
}

fn holding(t: &str, buy_price: u64, shares: u64) -> Holding {
    Holding {
        ticker: t.as_bytes().to_vec(),
        buy_price,
        shares,
        cost: (buy_price as u128) * (shares as u128),
    }
}

#[test]
fn extract_finds_tagged_price() {
    let body = b"<td><span id=aq_aapl_c4 class=\"q\">277.77</span></td>";
    assert_eq!(extract(b"AAPL", body), Ok(2777700));
    assert_eq!(extract(b"aapl", body), Ok(2777700));
    assert_eq!(extract(b"aApL", body), Ok(2777700));
}

#[test]
fn extract_integer_literal() {
    let body = b"x id=aq_msft_c4 y>150</span>";
    assert_eq!(extract(b"MSFT", body), Ok(1500000));
}

#[test]
fn extract_keeps_four_fraction_digits() {
    let body = b"id=aq_ibm_c4 a>1.234567</span>";
    assert_eq!(extract(b"IBM", body), Ok(12345));
    let body = b"id=aq_ibm_c4 a>7.</span>";
    assert_eq!(extract(b"IBM", body), Ok(70000));
}

#[test]
fn extract_ignores_other_tickers() {
    let body = b"id=aq_msft_c4 a>410.5</span> id=aq_goog_c4 b>170</span>";
    assert_eq!(extract(b"AAPL", body), Err(FetchError::NotFound));
    assert_eq!(extract(b"GOOG", body), Ok(1700000));
}

#[test]
fn extract_takes_first_match() {
    let body = b"id=aq_aapl_c4 a>1.5</span> id=aq_aapl_c4 b>2.5</span>";
    assert_eq!(extract(b"AAPL", body), Ok(15000));
}

#[test]
fn extract_skips_malformed_then_finds_next() {
    let body = b"id=aq_aapl_c4 a>1.2.3</span> id=aq_aapl_c4 b>9</span>";
    assert_eq!(extract(b"AAPL", body), Ok(90000));
}

#[test]
fn extract_rejects_untagged_shapes() {
    assert_eq!(extract(b"AAPL", b"id=aq_aapl_c4>12</span>"), Err(FetchError::NotFound));
    assert_eq!(extract(b"AAPL", b"id=aq_aapl_c4 a>12</div>"), Err(FetchError::NotFound));
    assert_eq!(extract(b"AAPL", b"id=aq_aapl_c4 a>.5</span>"), Err(FetchError::NotFound));
    assert_eq!(extract(b"AAPL", b""), Err(FetchError::NotFound));
}

#[test]
fn extract_rejects_values_past_range() {
    let body = b"id=aq_aapl_c4 a>99999999999999999999</span>";
    assert_eq!(extract(b"AAPL", body), Err(FetchError::NotFound));
}

#[test]
fn marker_is_lower_case() {
    assert_eq!(build_marker(b"BRK.B"), b"id=aq_brk.b_c4".to_vec());
}

#[test]
fn url_uses_lower_case_ticker() {
    assert_eq!(price_url(b"MSFT"), b"https://stooq.pl/q/?s=msft".to_vec());
}

#[test]
fn bad_status_is_reported() {
    let body = b"id=aq_aapl_c4 a>1</span>";
    assert_eq!(classify_response(b"AAPL", 404, true, body), Err(FetchError::BadStatus(404)));
    assert_eq!(resolve_response(b"AAPL", 503, body), Err(FetchError::BadStatus(503)));
}

#[test]
fn invalid_utf8_is_a_decode_error() {
    let body = [0xffu8, 0xfe, b'i', b'd'];
    assert_eq!(resolve_response(b"AAPL", 200, &body), Err(FetchError::Decode));
    assert_eq!(classify_response(b"AAPL", 200, false, b"id=aq_aapl_c4 a>1</span>"), Err(FetchError::Decode));
}

#[test]
fn good_answer_gives_price() {
    let body = "<span id=aq_aapl_c4 c=\"é\">121</span>".as_bytes();
    assert_eq!(resolve_response(b"AAPL", 200, body), Ok(1210000));
    assert_eq!(resolve_response(b"AAPL", 200, b"nothing"), Err(FetchError::NotFound));
}

#[test]
fn consolidate_weighted_average() {
    let r = consolidate_positions(&vec![pos("AAPL", 100, 10), pos("AAPL", 120, 10)]);
    assert_eq!(r.len(), 1);
    let h = r[0].as_ref().unwrap();
    assert_eq!(h.ticker, b"AAPL".to_vec());
    assert_eq!(h.buy_price, 1_100_000);
    assert_eq!(h.shares, 200_000);
    assert_eq!(h.cost, 220_000_000_000);
}

#[test]
fn consolidate_keeps_first_appearance_order() {
    let r = consolidate_positions(&vec![
        pos("MSFT", 50, 5),
        pos("AAPL", 100, 1),
        pos("MSFT", 70, 15),
        pos("aapl", 1, 1),
    ]);
    assert_eq!(r.len(), 3);
    let m = r[0].as_ref().unwrap();
    assert_eq!(m.ticker, b"MSFT".to_vec());
    assert_eq!(m.shares, 200_000);
    assert_eq!(m.buy_price, 650_000);
    assert_eq!(r[1].as_ref().unwrap().ticker, b"AAPL".to_vec());
    assert_eq!(r[2].as_ref().unwrap().ticker, b"aapl".to_vec());
}

#[test]
fn consolidate_rounds_average_down() {
    let r = consolidate_positions(&vec![
        Position { ticker: b"X".to_vec(), buy_price: 1, shares: 2 },
        Position { ticker: b"X".to_vec(), buy_price: 2, shares: 1 },
    ]);
    let h = r[0].as_ref().unwrap();
    assert_eq!(h.cost, 4);
    assert_eq!(h.shares, 3);
    assert_eq!(h.buy_price, 1);
}

#[test]
fn consolidate_zero_shares_is_an_error() {
    let r = consolidate_positions(&vec![pos("ZERO", 10, 0), pos("OK", 10, 1), pos("ZERO", 12, 0)]);
    assert_eq!(r.len(), 2);
    assert_eq!(r[0].as_ref().unwrap_err(), &ConsolidationError::ZeroShares(b"ZERO".to_vec()));
    assert!(r[1].is_ok());
}

#[test]
fn consolidate_overflowing_shares_is_an_error() {
    let r = consolidate_positions(&vec![
        Position { ticker: b"BIG".to_vec(), buy_price: 1, shares: u64::MAX },
        Position { ticker: b"BIG".to_vec(), buy_price: 1, shares: 1 },
    ]);
    assert_eq!(r[0].as_ref().unwrap_err(), &ConsolidationError::Overflow(b"BIG".to_vec()));
}

#[test]
fn consolidate_empty() {
    assert!(consolidate_positions(&Vec::new()).is_empty());
}

#[test]
fn end_to_end_gain() {
    let r = consolidate_positions(&vec![pos("AAPL", 100, 10), pos("AAPL", 120, 10)]);
    let h = r.into_iter().next().unwrap().unwrap();
    let rep = aggregate(vec![(h, Ok(1_210_000))]).unwrap();
    assert_eq!(rep.total_investment, 220_000_000_000);
    assert_eq!(rep.total_current_value, 242_000_000_000);
    let rec = &rep.records[0];
    assert_eq!(rec.current_price, 1_210_000);
    assert_eq!(rec.change, Some(100_000));
    assert_eq!(rec.profit_loss, Amount { negative: false, magnitude: 22_000_000_000 });
    assert_eq!(rec.error, None);
    assert_eq!(
        portfolio_change(rep.total_investment, rep.total_current_value),
        PortfolioChange::Percent(Amount { negative: false, magnitude: 100_000 })
    );
}

#[test]
fn end_to_end_failed_lookup() {
    let h = holding("MSFT", 500_000, 50_000);
    let rep = aggregate(vec![(h, Err(FetchError::Network("timeout".to_string())))]).unwrap();
    assert_eq!(rep.total_investment, 25_000_000_000);
    assert_eq!(rep.total_current_value, 0);
    let rec = &rep.records[0];
    assert_eq!(rec.error, Some(FetchError::Network("timeout".to_string())));
    assert_eq!(rec.change, None);
    assert_eq!(rec.current_price, 0);
    assert_eq!(rec.profit_loss, Amount { negative: false, magnitude: 0 });
}

#[test]
fn ranking_orders_by_change_and_puts_failures_last() {
    let rep = aggregate(vec![
        (holding("FAIL", 10_000, 10_000), Err(FetchError::NotFound)),
        (holding("DOWN", 1_000_000, 10_000), Ok(970_000)),
        (holding("UP10", 1_000_000, 10_000), Ok(1_100_000)),
        (holding("BAD", 10_000, 10_000), Err(FetchError::BadStatus(500))),
        (holding("UP5", 1_000_000, 10_000), Ok(1_050_000)),
    ])
    .unwrap();
    let names: Vec<Vec<u8>> = rep.records.iter().map(|r| r.ticker.clone()).collect();
    assert_eq!(&names[0], b"UP10");
    assert_eq!(&names[1], b"UP5");
    assert_eq!(&names[2], b"DOWN");
    assert!(rep.records[3].error.is_some() && rep.records[4].error.is_some());
    assert_eq!(rep.records[0].change, Some(100_000));
    assert_eq!(rep.records[1].change, Some(50_000));
    assert_eq!(rep.records[2].change, Some(-30_000));
    assert_eq!(rep.records[2].profit_loss, Amount { negative: true, magnitude: 30_000 * 10_000 });
}

#[test]
fn change_percent_rounds_toward_zero() {
    assert_eq!(change_percent(30_000, 40_000), 333_333);
    assert_eq!(change_percent(30_000, 20_000), -333_333);
    assert_eq!(change_percent(10_000, 10_000), 0);
}

#[test]
fn zero_investment_has_no_change() {
    let rep = aggregate(Vec::new()).unwrap();
    assert_eq!(rep.total_investment, 0);
    assert!(rep.records.is_empty());
    assert_eq!(portfolio_change(rep.total_investment, rep.total_current_value), PortfolioChange::NoData);
    assert_eq!(portfolio_change(0, 5), PortfolioChange::NoData);
}

#[test]
fn portfolio_loss() {
    assert_eq!(
        portfolio_change(200, 150),
        PortfolioChange::Percent(Amount { negative: true, magnitude: 250_000 })
    );
}

fn run_batch(n: usize, pool: usize, order: &[usize]) -> Vec<(Holding, Result<u64, FetchError>)> {
    let mut b = Batch::new(n, pool);
    let mut pending: Vec<usize> = Vec::new();
    let mut next_done = 0;
    while !b.is_done() {
        while let Some(i) = b.next_task() {
            pending.push(i);
        }
        assert!(pending.len() <= pool);
        let pick = order[next_done % order.len()] % pending.len();
        let i = pending.remove(pick);
        next_done += 1;
        let outcome = if i % 2 == 0 { Ok(i as u64 * 10_000) } else { Err(FetchError::NotFound) };
        assert!(b.complete(i, outcome));
    }
    let holdings: Vec<Holding> = (0..n).map(|i| holding(&format!("T{}", i), 10_000, 10_000)).collect();
    b.finish(holdings).unwrap()
}

#[test]
fn batch_keeps_association_for_any_pool_size() {
    for pool in [1usize, 2, 5, 7] {
        let r = run_batch(5, pool, &[2, 0, 1, 3]);
        assert_eq!(r.len(), 5);
        for (i, (h, o)) in r.iter().enumerate() {
            assert_eq!(h.ticker, format!("T{}", i).into_bytes());
            if i % 2 == 0 {
                assert_eq!(o, &Ok(i as u64 * 10_000));
            } else {
                assert_eq!(o, &Err(FetchError::NotFound));
            }
        }
    }
}

#[test]
fn batch_refuses_unknown_or_repeated_outcomes() {
    let mut b = Batch::new(2, 1);
    assert!(!b.complete(0, Ok(1)));
    assert_eq!(b.next_task(), Some(0));
    assert_eq!(b.next_task(), None);
    assert!(b.complete(0, Ok(1)));
    assert!(!b.complete(0, Ok(2)));
    assert_eq!(b.next_task(), Some(1));
    assert!(!b.is_done());
    assert!(b.complete(1, Err(FetchError::Decode)));
    assert!(b.is_done());
    assert!(b.finish(vec![holding("A", 1, 1)]).is_none());
}

#[test]
fn batch_unfinished_gives_none() {
    let mut b = Batch::new(1, 3);
    assert_eq!(b.next_task(), Some(0));
    assert!(b.finish(vec![holding("A", 1, 1)]).is_none());
}

#[test]
fn aggregate_totals_past_limit_give_none() {
    let h = holding("HUGE", u64::MAX, u64::MAX);
    assert!(aggregate(vec![(h, Err(FetchError::NotFound))]).is_none());
    let h = holding("RICH", 1, 1);
    assert!(aggregate(vec![(h, Ok(u64::MAX))]).is_some());
}
