use stocks::option_tax::{parse, Information};
use stocks::record::{OptionTrade, Side, SymbolOptionTrades};

fn fill(
    order_created_at: i64,
    side: Side,
    price: i64,
    opening: bool,
    closing: bool,
) -> OptionTrade {
    OptionTrade { order_created_at, side, price, opening, closing }
}

fn chain(symbol: &str, trades: Vec<OptionTrade>) -> SymbolOptionTrades {
    SymbolOptionTrades { symbol: symbol.to_string(), trades }
}

#[test]
fn open_and_close_cash_flows() {
    let groups = vec![chain(
        "GME",
        vec![fill(100, Side::Buy, 3, true, false), fill(200, Side::Sell, 5, false, true)],
    )];
    let out = parse(&groups, String::new(), None);
    assert_eq!(out.len(), 1);
    assert_eq!(out[0].symbol, "GME");
    assert_eq!(
        out[0].events,
        vec![
            Information::BuyToOpen { cash_flow: -300 },
            Information::SellToClose { cash_flow: 500 },
            Information::NetRealized { total: 200 },
        ]
    );
}

#[test]
fn sell_to_open_and_buy_to_close() {
    let groups = vec![chain(
        "SPY",
        vec![fill(10, Side::Sell, 7, true, false), fill(20, Side::Buy, 2, false, true)],
    )];
    let out = parse(&groups, String::new(), None);
    assert_eq!(
        out[0].events,
        vec![
            Information::SellToOpen { cash_flow: 700 },
            Information::BuyToClose { cash_flow: -200 },
            Information::NetRealized { total: 500 },
        ]
    );
}

#[test]
fn roll_with_both_tags_reports_both_lines() {
    // One fill carrying both tags behaves as its two split halves.
    let rolled = vec![chain("GME", vec![fill(100, Side::Buy, 3, true, true)])];
    let split = vec![chain(
        "GME",
        vec![fill(100, Side::Buy, 3, true, false), fill(100, Side::Buy, 3, false, true)],
    )];
    let out_rolled = parse(&rolled, String::new(), None);
    let out_split = parse(&split, String::new(), None);
    assert_eq!(
        out_rolled[0].events,
        vec![
            Information::BuyToOpen { cash_flow: -300 },
            Information::BuyToClose { cash_flow: -300 },
            Information::NetRealized { total: -600 },
        ]
    );
    assert_eq!(out_rolled[0].events, out_split[0].events);
}

#[test]
fn close_beyond_open_count_is_no_error() {
    let groups = vec![chain("GME", vec![fill(100, Side::Sell, 4, false, true)])];
    let out = parse(&groups, String::new(), None);
    assert_eq!(
        out[0].events,
        vec![
            Information::SellToClose { cash_flow: 400 },
            Information::NetRealized { total: 400 },
        ]
    );
}

const DAY: i64 = 86_400;

#[test]
fn net_realized_sums_only_reported_lines() {
    // The close falls outside the window: its cash flow is neither
    // reported nor counted in the net total.
    let groups = vec![chain(
        "GME",
        vec![
            fill(100, Side::Buy, 2, true, false),
            fill(400 * DAY, Side::Sell, 9, false, true),
        ],
    )];
    let out = parse(&groups, String::new(), Some(0));
    assert_eq!(
        out[0].events,
        vec![
            Information::BuyToOpen { cash_flow: -200 },
            Information::NetRealized { total: -200 },
        ]
    );
}

#[test]
fn chain_with_no_surviving_lines_is_omitted() {
    // Only the net total line would remain after filtering, so the chain
    // symbol produces no entry at all.
    let groups = vec![chain("GME", vec![fill(400 * DAY, Side::Buy, 2, true, false)])];
    let out = parse(&groups, String::new(), Some(0));
    assert!(out.is_empty());
}

#[test]
fn untagged_fills_report_nothing() {
    let groups = vec![chain("GME", vec![fill(100, Side::Buy, 2, false, false)])];
    let out = parse(&groups, String::new(), None);
    assert!(out.is_empty());
}

#[test]
fn fills_are_sorted_by_order_creation_time() {
    let groups = vec![chain(
        "GME",
        vec![fill(200, Side::Sell, 5, false, true), fill(100, Side::Buy, 3, true, false)],
    )];
    let out = parse(&groups, String::new(), None);
    assert_eq!(
        out[0].events,
        vec![
            Information::BuyToOpen { cash_flow: -300 },
            Information::SellToClose { cash_flow: 500 },
            Information::NetRealized { total: 200 },
        ]
    );
}

#[test]
fn option_matcher_is_deterministic() {
    let groups = vec![
        chain(
            "GME",
            vec![fill(100, Side::Buy, 3, true, false), fill(200, Side::Sell, 5, false, true)],
        ),
        chain("SPY", vec![fill(10, Side::Sell, 7, true, true)]),
    ];
    let first = parse(&groups, String::new(), None);
    let second = parse(&groups, String::new(), None);
    assert_eq!(first, second);
}
