use stocks::filter::contains_substr;
use stocks::record::{Side, SymbolTrades, Trade};
use stocks::tax::parse;

fn one_trade_group(symbol: &str) -> SymbolTrades {
    SymbolTrades {
        symbol: symbol.to_string(),
        trades: vec![
            Trade { date: 100, side: Side::Buy, fees: 0, quantity: 1, average_price: 5 },
            Trade { date: 200, side: Side::Sell, fees: 0, quantity: 1, average_price: 6 },
        ],
    }
}

#[test]
fn substring_match_is_positional_not_anchored() {
    assert!(contains_substr("AAPL", "APL"));
    assert!(contains_substr("AAPL", "AAPL"));
    assert!(contains_substr("AAPL", "A"));
    assert!(!contains_substr("AAPL", "APLL"));
    assert!(!contains_substr("AAPL", "MSFT"));
}

#[test]
fn empty_needle_matches_everything() {
    assert!(contains_substr("AAPL", ""));
    assert!(contains_substr("", ""));
    assert!(!contains_substr("", "A"));
}

#[test]
fn needle_longer_than_haystack_never_matches() {
    assert!(!contains_substr("GM", "GME"));
}

#[test]
fn filter_selects_by_substring() {
    let groups = vec![one_trade_group("AAPL"), one_trade_group("MSFT")];
    let out = parse(&groups, "APL".to_string(), None);
    assert_eq!(out.len(), 1);
    assert_eq!(out[0].symbol, "AAPL");
}

#[test]
fn filter_is_case_sensitive() {
    let groups = vec![one_trade_group("AAPL")];
    assert!(parse(&groups, "apl".to_string(), None).is_empty());
    assert_eq!(parse(&groups, "APL".to_string(), None).len(), 1);
}

#[test]
fn empty_filter_selects_every_symbol() {
    let groups = vec![one_trade_group("AAPL"), one_trade_group("MSFT")];
    let out = parse(&groups, String::new(), None);
    assert_eq!(out.len(), 2);
    assert_eq!(out[0].symbol, "AAPL");
    assert_eq!(out[1].symbol, "MSFT");
}

#[test]
fn filter_excluding_everything_gives_empty_report() {
    let groups = vec![one_trade_group("AAPL"), one_trade_group("MSFT")];
    assert!(parse(&groups, "ZZZ".to_string(), None).is_empty());
}
