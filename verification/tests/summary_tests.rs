use stocks::record::{Side, SymbolTrades, Trade};
use stocks::summary::{symbol_gain, total_earnings};
use stocks::tax::{parse, Information, SymbolInfo};

fn info(symbol: &str, events: Vec<Information>) -> SymbolInfo {
    SymbolInfo { symbol: symbol.to_string(), events }
}

#[test]
fn earnings_are_gains_minus_fees() {
    let report = vec![
        info(
            "GME",
            vec![
                Information::RealizedGain { amount: 100, date: 1 },
                Information::Fee { amount: 30 },
                Information::Buy { quantity: 5, price: 7, date: 0 },
            ],
        ),
        info("AAPL", vec![Information::RealizedGain { amount: -25, date: 2 }]),
    ];
    assert_eq!(total_earnings(&report), Some(100 - 30 - 25));
}

#[test]
fn earnings_of_empty_report_are_zero() {
    assert_eq!(total_earnings(&Vec::new()), Some(0));
}

#[test]
fn earnings_overflow_is_reported_not_mangled() {
    let report = vec![info(
        "GME",
        vec![
            Information::RealizedGain { amount: i64::MAX, date: 1 },
            Information::RealizedGain { amount: i64::MAX, date: 2 },
        ],
    )];
    assert_eq!(total_earnings(&report), None);
}

#[test]
fn symbol_gain_ignores_fees() {
    let events = vec![
        Information::RealizedGain { amount: 40, date: 1 },
        Information::Fee { amount: 15 },
        Information::RealizedGain { amount: -10, date: 2 },
    ];
    assert_eq!(symbol_gain(&events), Some(30));
}

#[test]
fn symbol_gain_overflow_is_reported() {
    let events = vec![
        Information::RealizedGain { amount: i64::MIN, date: 1 },
        Information::RealizedGain { amount: -1, date: 2 },
    ];
    assert_eq!(symbol_gain(&events), None);
}

#[test]
fn earnings_of_a_matched_report() {
    let groups = vec![SymbolTrades {
        symbol: "GME".to_string(),
        trades: vec![
            Trade { date: 1_000, side: Side::Buy, fees: 0, quantity: 10, average_price: 5 },
            Trade { date: 2_000, side: Side::Buy, fees: 0, quantity: 5, average_price: 7 },
            Trade { date: 3_000, side: Side::Sell, fees: 1, quantity: 12, average_price: 10 },
        ],
    }];
    let out = parse(&groups, String::new(), None);
    // Two pops: gains 15 and 50, each pop repeating the sell's fee of 12.
    assert_eq!(total_earnings(&out), Some(15 + 50 - 12 - 12));
    assert_eq!(symbol_gain(&out[0].events), Some(65));
}
