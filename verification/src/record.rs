//! The typed record model: the fills the two matchers consume, the machine
//! limits under which their arithmetic stays exact, and the one-year
//! reporting-window gate.

use vstd::prelude::*;

verus! {

/// Largest quantity a single fill may carry (fixed-point units).
pub const QUANTITY_LIMIT: i64 = 1_000_000_000;

/// Largest price magnitude a single fill may carry (fixed-point units).
pub const PRICE_LIMIT: i64 = 1_000_000_000;

/// Largest per-unit fee a single fill may carry (fixed-point units).
pub const FEE_LIMIT: i64 = 1_000_000_000;

/// Largest timestamp magnitude, in seconds (covers years 1 to 9999).
pub const TIME_LIMIT: i64 = 253_402_300_800;

/// Length of the reporting window: 365 days of seconds.
pub const WINDOW_SECONDS: i64 = 365 * 86_400;

/// Most records one symbol's history may hold.
pub const GROUP_LEN_LIMIT: usize = 1_000_000;

/// Which way a fill moves the position.
#[derive(Clone, Copy, Debug, PartialEq, Eq, Structural)]
pub enum Side {
    Buy,
    Sell,
}

/// One equity or crypto fill, as ingestion hands it to the matcher.
///
/// `quantity`, `average_price` and `fees` are fixed-point values; `date` is
/// in seconds. The symbol is carried by the group, not by the record.
#[derive(Clone, Copy, Debug, PartialEq, Eq, Structural)]
pub struct Trade {
    pub date: i64,
    pub side: Side,
    pub fees: i64,
    pub quantity: i64,
    pub average_price: i64,
}

/// One option-leg fill. A fill may carry both an opening and a closing
/// strategy tag (a multi-leg roll) and then takes part in both phases.
#[derive(Clone, Copy, Debug, PartialEq, Eq, Structural)]
pub struct OptionTrade {
    pub order_created_at: i64,
    pub side: Side,
    pub price: i64,
    pub opening: bool,
    pub closing: bool,
}

/// One symbol's unordered fill history.
#[derive(Clone, Debug, PartialEq, Eq)]
pub struct SymbolTrades {
    pub symbol: String,
    pub trades: Vec<Trade>,
}

/// One chain symbol's unordered option-fill history.
#[derive(Clone, Debug, PartialEq, Eq)]
pub struct SymbolOptionTrades {
    pub symbol: String,
    pub trades: Vec<OptionTrade>,
}

/// The machine limits a single fill must respect so that every product and
/// difference the matcher forms stays inside `i64`.
pub open spec fn trade_ok(t: Trade) -> bool {
    &&& 0 <= t.quantity <= QUANTITY_LIMIT
    &&& -PRICE_LIMIT <= t.average_price <= PRICE_LIMIT
    &&& 0 <= t.fees <= FEE_LIMIT
    &&& -TIME_LIMIT <= t.date <= TIME_LIMIT
}

/// Every record of a history within the single-fill limits.
pub open spec fn trades_elems_ok(ts: Seq<Trade>) -> bool {
    forall|i: int| 0 <= i < ts.len() ==> trade_ok(#[trigger] ts[i])
}

/// Limits for one symbol's whole history.
pub open spec fn trades_ok(ts: Seq<Trade>) -> bool {
    &&& ts.len() <= GROUP_LEN_LIMIT
    &&& trades_elems_ok(ts)
}

/// The machine limits for a single option fill.
pub open spec fn option_trade_ok(t: OptionTrade) -> bool {
    &&& -PRICE_LIMIT <= t.price <= PRICE_LIMIT
    &&& -TIME_LIMIT <= t.order_created_at <= TIME_LIMIT
}

/// Limits for one chain symbol's whole option history.
pub open spec fn option_trades_ok(ts: Seq<OptionTrade>) -> bool {
    &&& ts.len() <= GROUP_LEN_LIMIT
    &&& forall|i: int| 0 <= i < ts.len() ==> option_trade_ok(#[trigger] ts[i])
}

/// A reporting-window start must itself be a representable timestamp.
pub open spec fn window_ok(year: Option<i64>) -> bool {
    match year {
        None => true,
        Some(w) => -TIME_LIMIT <= w <= TIME_LIMIT,
    }
}

/// The date-window gate: with no window everything is reported; with a window
/// start `w`, exactly the instants of the year `[w, w + 365 days)`.
pub open spec fn in_window(year: Option<i64>, t: i64) -> bool {
    match year {
        None => true,
        Some(w) => w <= t < w + WINDOW_SECONDS,
    }
}

/// Decides the date-window gate for one timestamp.
pub fn date_in_window(year: Option<i64>, t: i64) -> (r: bool)
    requires
        window_ok(year),
        -TIME_LIMIT <= t <= TIME_LIMIT,
    ensures
        r == in_window(year, t),
{
    match year {
        None => true,
        Some(w) => w <= t && t < w + WINDOW_SECONDS,
    }
}

} // verus!
