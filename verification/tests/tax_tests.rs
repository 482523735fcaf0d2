use stocks::record::{Side, SymbolTrades, Trade};
use stocks::tax::{parse, Information};

fn trade(date: i64, side: Side, quantity: i64, average_price: i64, fees: i64) -> Trade {
    Trade { date, side, fees, quantity, average_price }
}

fn group(symbol: &str, trades: Vec<Trade>) -> SymbolTrades {
    SymbolTrades { symbol: symbol.to_string(), trades }
}

#[test]
fn lifo_scenario_two_buys_one_sell() {
    // buys (10 @ 5, t1), (5 @ 7, t2); sell (12 @ 10, t3): the t2 lot is
    // consumed first, then the t1 lot down to a remainder of 3.
    let groups = vec![group(
        "GME",
        vec![
            trade(1_000, Side::Buy, 10, 5, 0),
            trade(2_000, Side::Buy, 5, 7, 0),
            trade(3_000, Side::Sell, 12, 10, 0),
        ],
    )];
    let out = parse(&groups, String::new(), None);
    assert_eq!(out.len(), 1);
    assert_eq!(out[0].symbol, "GME");
    assert_eq!(
        out[0].events,
        vec![
            Information::Buy { quantity: 10, price: 5, date: 1_000 },
            Information::Buy { quantity: 5, price: 7, date: 2_000 },
            Information::Sell { quantity: 12, price: 10, date: 3_000 },
            Information::HoldingPeriod { duration: 1_000 },
            Information::RealizedGain { amount: (10 - 7) * 5, date: 3_000 },
            Information::Fee { amount: 0 },
            Information::HoldingPeriod { duration: 2_000 },
            Information::RealizedGain { amount: (10 - 5) * 10, date: 3_000 },
            Information::Fee { amount: 0 },
            Information::RemainingPosition { quantity: 3 },
        ]
    );
}

#[test]
fn buy_then_equal_sell_nets_zero() {
    let groups = vec![group(
        "AAPL",
        vec![trade(100, Side::Buy, 7, 13, 2), trade(200, Side::Sell, 7, 13, 2)],
    )];
    let out = parse(&groups, String::new(), None);
    assert_eq!(out.len(), 1);
    assert_eq!(
        out[0].events,
        vec![
            Information::Buy { quantity: 7, price: 13, date: 100 },
            Information::Sell { quantity: 7, price: 13, date: 200 },
            Information::HoldingPeriod { duration: 100 },
            Information::RealizedGain { amount: 0, date: 200 },
            Information::Fee { amount: 14 },
            Information::RemainingPosition { quantity: 0 },
        ]
    );
}

#[test]
fn unmatched_sell_on_empty_stack() {
    // A sell with nothing bought: exactly one UnmatchedSell, and no
    // gain, fee or holding-period line.
    let groups = vec![group("TSLA", vec![trade(1_000, Side::Sell, 5, 20, 1)])];
    let out = parse(&groups, String::new(), None);
    assert_eq!(out.len(), 1);
    assert_eq!(
        out[0].events,
        vec![
            Information::Sell { quantity: 5, price: 20, date: 1_000 },
            Information::UnmatchedSell,
            Information::RemainingPosition { quantity: 0 },
        ]
    );
}

#[test]
fn unmatched_sell_excess_is_dropped() {
    // The sell outruns the stack mid-match: the pops it managed are
    // reported, then one UnmatchedSell, and no negative position.
    let groups = vec![group(
        "GME",
        vec![trade(100, Side::Buy, 4, 5, 0), trade(200, Side::Sell, 10, 6, 0)],
    )];
    let out = parse(&groups, String::new(), None);
    assert_eq!(
        out[0].events,
        vec![
            Information::Buy { quantity: 4, price: 5, date: 100 },
            Information::Sell { quantity: 10, price: 6, date: 200 },
            Information::HoldingPeriod { duration: 100 },
            Information::RealizedGain { amount: (6 - 5) * 4, date: 200 },
            Information::Fee { amount: 0 },
            Information::UnmatchedSell,
            Information::RemainingPosition { quantity: 0 },
        ]
    );
}

#[test]
fn conservation_when_all_sells_matched() {
    // sum(remaining) + sum(sold) == sum(bought) when nothing was unmatched.
    let groups = vec![group(
        "BTC",
        vec![
            trade(10, Side::Buy, 10, 100, 0),
            trade(20, Side::Buy, 5, 110, 0),
            trade(30, Side::Sell, 8, 120, 0),
            trade(40, Side::Sell, 3, 90, 0),
        ],
    )];
    let out = parse(&groups, String::new(), None);
    let events = &out[0].events;
    assert!(events.iter().all(|e| *e != Information::UnmatchedSell));
    let remaining = match events.last().unwrap() {
        Information::RemainingPosition { quantity } => *quantity,
        other => panic!("last event must be the remaining position, got {:?}", other),
    };
    assert_eq!(remaining + (8 + 3), 10 + 5);
}

#[test]
fn records_are_sorted_by_date_before_matching() {
    // Records arrive out of order; matching follows timestamps.
    let groups = vec![group(
        "GME",
        vec![trade(3_000, Side::Sell, 1, 9, 0), trade(1_000, Side::Buy, 1, 4, 0)],
    )];
    let out = parse(&groups, String::new(), None);
    assert_eq!(
        out[0].events,
        vec![
            Information::Buy { quantity: 1, price: 4, date: 1_000 },
            Information::Sell { quantity: 1, price: 9, date: 3_000 },
            Information::HoldingPeriod { duration: 2_000 },
            Information::RealizedGain { amount: 5, date: 3_000 },
            Information::Fee { amount: 0 },
            Information::RemainingPosition { quantity: 0 },
        ]
    );
}

#[test]
fn equal_timestamps_keep_arrival_order() {
    // Two buys at the same instant: the sort is stable, so the later
    // arrival stays on top of the stack and is consumed first.
    let groups = vec![group(
        "GME",
        vec![
            trade(100, Side::Buy, 1, 3, 0),
            trade(100, Side::Buy, 1, 8, 0),
            trade(200, Side::Sell, 1, 10, 0),
        ],
    )];
    let out = parse(&groups, String::new(), None);
    assert_eq!(
        out[0].events[4],
        Information::RealizedGain { amount: 10 - 8, date: 200 }
    );
    assert_eq!(
        out[0].events.last().unwrap(),
        &Information::RemainingPosition { quantity: 1 }
    );
}

#[test]
fn zero_quantity_records_are_accepted() {
    let groups = vec![group(
        "GME",
        vec![trade(100, Side::Buy, 0, 5, 0), trade(200, Side::Sell, 0, 6, 0)],
    )];
    let out = parse(&groups, String::new(), None);
    // The zero sell still pops the zero lot and reports the pop.
    assert_eq!(
        out[0].events,
        vec![
            Information::Buy { quantity: 0, price: 5, date: 100 },
            Information::Sell { quantity: 0, price: 6, date: 200 },
            Information::HoldingPeriod { duration: 100 },
            Information::RealizedGain { amount: 0, date: 200 },
            Information::Fee { amount: 0 },
            Information::RemainingPosition { quantity: 0 },
        ]
    );
}

const DAY: i64 = 86_400;

#[test]
fn window_gates_reporting_only() {
    // The buy falls before the window, the sell inside it: the buy line is
    // not reported, but the sell still matches against its lot.
    let groups = vec![group(
        "GME",
        vec![trade(-100, Side::Buy, 5, 10, 0), trade(50, Side::Sell, 5, 30, 0)],
    )];
    let out = parse(&groups, String::new(), Some(0));
    assert_eq!(
        out[0].events,
        vec![
            Information::Sell { quantity: 5, price: 30, date: 50 },
            Information::HoldingPeriod { duration: 150 },
            Information::RealizedGain { amount: (30 - 10) * 5, date: 50 },
            Information::Fee { amount: 0 },
            Information::RemainingPosition { quantity: 0 },
        ]
    );
}

#[test]
fn window_is_one_year_half_open() {
    // Exactly 365 days after the start is already outside the window.
    let groups = vec![group(
        "GME",
        vec![
            trade(0, Side::Buy, 1, 5, 0),
            trade(365 * DAY - 1, Side::Buy, 1, 5, 0),
            trade(365 * DAY, Side::Buy, 1, 5, 0),
        ],
    )];
    let out = parse(&groups, String::new(), Some(0));
    assert_eq!(
        out[0].events,
        vec![
            Information::Buy { quantity: 1, price: 5, date: 0 },
            Information::Buy { quantity: 1, price: 5, date: 365 * DAY - 1 },
            Information::RemainingPosition { quantity: 3 },
        ]
    );
}

#[test]
fn remaining_position_is_window_invariant() {
    let history = vec![
        trade(10, Side::Buy, 10, 5, 0),
        trade(400 * DAY, Side::Buy, 4, 6, 0),
        trade(401 * DAY, Side::Sell, 6, 9, 0),
    ];
    let no_window = parse(&vec![group("GME", history.clone())], String::new(), None);
    let early = parse(&vec![group("GME", history.clone())], String::new(), Some(0));
    let late = parse(&vec![group("GME", history)], String::new(), Some(399 * DAY));
    let last_of = |out: &stocks::tax::AllInfo| *out[0].events.last().unwrap();
    assert_eq!(last_of(&no_window), Information::RemainingPosition { quantity: 8 });
    assert_eq!(last_of(&no_window), last_of(&early));
    assert_eq!(last_of(&no_window), last_of(&late));
}

#[test]
fn symbol_with_no_surviving_events_is_omitted() {
    // Only the remaining-position line would survive the window, so the
    // symbol produces no entry at all.
    let groups = vec![group("GME", vec![trade(-100, Side::Buy, 5, 10, 0)])];
    let out = parse(&groups, String::new(), Some(0));
    assert!(out.is_empty());
}

#[test]
fn empty_input_gives_empty_report() {
    let out = parse(&Vec::new(), String::new(), None);
    assert!(out.is_empty());
}

#[test]
fn extreme_values_stay_exact() {
    // A fill at the machine limits: the gain is the exact product, far
    // outside f64's 53-bit integer range but well inside i64.
    let limit_quantity = stocks::record::QUANTITY_LIMIT;
    let limit_price = stocks::record::PRICE_LIMIT;
    let groups = vec![group(
        "GME",
        vec![
            trade(100, Side::Buy, limit_quantity, limit_price, 0),
            trade(200, Side::Sell, limit_quantity, -limit_price, 0),
        ],
    )];
    let out = parse(&groups, String::new(), None);
    assert_eq!(
        out[0].events[3],
        Information::RealizedGain { amount: -2 * limit_price * limit_quantity, date: 200 }
    );
    assert_eq!(
        out[0].events.last().unwrap(),
        &Information::RemainingPosition { quantity: 0 }
    );
}

#[test]
fn matcher_is_deterministic() {
    let groups = vec![
        group(
            "GME",
            vec![
                trade(1_000, Side::Buy, 10, 5, 1),
                trade(2_000, Side::Buy, 5, 7, 1),
                trade(3_000, Side::Sell, 12, 10, 1),
            ],
        ),
        group("AAPL", vec![trade(50, Side::Sell, 2, 30, 0)]),
    ];
    let first = parse(&groups, String::new(), None);
    let second = parse(&groups, String::new(), None);
    assert_eq!(first, second);
}

#[test]
fn one_symbol_cannot_corrupt_another() {
    // The unmatched sell in one symbol leaves the other symbol's ledger
    // exactly as it is when processed alone.
    let clean = group(
        "AAPL",
        vec![trade(100, Side::Buy, 3, 10, 0), trade(200, Side::Sell, 3, 12, 0)],
    );
    let noisy = group("GME", vec![trade(50, Side::Sell, 9, 1, 0)]);
    let alone = parse(&vec![clean.clone()], String::new(), None);
    let together = parse(&vec![noisy, clean], String::new(), None);
    let aapl = together.iter().find(|s| s.symbol == "AAPL").unwrap();
    assert_eq!(aapl.events, alone[0].events);
}
