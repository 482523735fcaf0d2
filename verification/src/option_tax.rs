//! The option leg matcher: turns one chain symbol's time-ordered option-leg
//! fills into open/close cash-flow events plus a net realized total.
//!
//! Unlike the position lot matcher it nets cash flow rather than pairing
//! specific lots: the leg stack only counts how many legs are open, and the
//! net total sums exactly the cash flows that survived the date filter.

use vstd::prelude::*;

use crate::filter::{contains_substr, contains_substring};
use crate::record::{
    in_window, option_trade_ok, option_trades_ok, window_ok, OptionTrade, Side,
    SymbolOptionTrades, GROUP_LEN_LIMIT, PRICE_LIMIT,
};

verus! {

/// Largest cash-flow magnitude one leg event may carry: a price within the
/// machine limits, times the 100 underlying units one contract controls.
pub const CASH_LIMIT: i64 = 100 * PRICE_LIMIT;

/// One cash-flow line. Amounts are signed: money paid out is negative,
/// money taken in is positive.
#[derive(Clone, Copy, Debug, PartialEq, Eq, Structural)]
pub enum Information {
    /// Opened a leg by buying: cash out.
    BuyToOpen { cash_flow: i64 },
    /// Opened a leg by selling: cash in.
    SellToOpen { cash_flow: i64 },
    /// Closed a leg by buying: cash out.
    BuyToClose { cash_flow: i64 },
    /// Closed a leg by selling: cash in.
    SellToClose { cash_flow: i64 },
    /// Sum of every cash flow reported above it; always last.
    NetRealized { total: i64 },
}

/// Fills ordered by order-creation time, ascending.
pub open spec fn sorted_by_time(s: Seq<OptionTrade>) -> bool {
    forall|i: int, j: int|
        0 <= i < j < s.len() ==> s[i].order_created_at <= s[j].order_created_at
}

/// Inserts `t` after every fill created at or before it, so that fills with
/// equal creation times keep their arrival order.
pub open spec fn insert_by_time(s: Seq<OptionTrade>, t: OptionTrade) -> Seq<OptionTrade>
    decreases s.len(),
{
    if s.len() == 0 {
        seq![t]
    } else if s.last().order_created_at <= t.order_created_at {
        s.push(t)
    } else {
        insert_by_time(s.drop_last(), t).push(s.last())
    }
}

/// Stable insertion sort by order-creation time.
pub open spec fn sort_by_time(s: Seq<OptionTrade>) -> Seq<OptionTrade>
    decreases s.len(),
{
    if s.len() == 0 {
        s
    } else {
        insert_by_time(sort_by_time(s.drop_last()), s.last())
    }
}

proof fn lemma_insert_by_time_len(s: Seq<OptionTrade>, t: OptionTrade)
    ensures
        insert_by_time(s, t).len() == s.len() + 1,
    decreases s.len(),
{
    if s.len() > 0 && !(s.last().order_created_at <= t.order_created_at) {
        lemma_insert_by_time_len(s.drop_last(), t);
    }
}

pub proof fn lemma_sort_by_time_len(s: Seq<OptionTrade>)
    ensures
        sort_by_time(s).len() == s.len(),
    decreases s.len(),
{
    if s.len() > 0 {
        lemma_sort_by_time_len(s.drop_last());
        lemma_insert_by_time_len(sort_by_time(s.drop_last()), s.last());
    }
}

/// Where the insertion lands, as for the position matcher's sort.
proof fn lemma_insert_by_time_at(s: Seq<OptionTrade>, t: OptionTrade, p: int)
    requires
        sorted_by_time(s),
        0 <= p <= s.len(),
        forall|j: int| p <= j < s.len() ==> s[j].order_created_at > t.order_created_at,
        p == 0 || s[p - 1].order_created_at <= t.order_created_at,
    ensures
        insert_by_time(s, t) == s.insert(p, t),
    decreases s.len(),
{
    if s.len() == 0 {
        assert(insert_by_time(s, t) =~= s.insert(0, t));
    } else if p == s.len() {
        assert(s.last().order_created_at <= t.order_created_at);
        assert(insert_by_time(s, t) =~= s.insert(p, t));
    } else {
        assert(s[s.len() - 1].order_created_at > t.order_created_at);
        lemma_insert_by_time_at(s.drop_last(), t, p);
        assert(insert_by_time(s.drop_last(), t).push(s.last()) =~= s.insert(p, t));
    }
}

/// Every element of the inserted sequence is either `t` or an original one.
proof fn lemma_insert_by_time_elements(s: Seq<OptionTrade>, t: OptionTrade, i: int)
    requires
        0 <= i < s.len() + 1,
    ensures
        insert_by_time(s, t)[i] == t || exists|k: int|
            0 <= k < s.len() && insert_by_time(s, t)[i] == s[k],
    decreases s.len(),
{
    lemma_insert_by_time_len(s, t);
    if s.len() == 0 {
    } else if s.last().order_created_at <= t.order_created_at {
        if i < s.len() {
            assert(insert_by_time(s, t)[i] == s[i]);
        }
    } else {
        if i < s.len() {
            lemma_insert_by_time_len(s.drop_last(), t);
            lemma_insert_by_time_elements(s.drop_last(), t, i);
            assert(insert_by_time(s, t)[i] == insert_by_time(s.drop_last(), t)[i]);
            if insert_by_time(s.drop_last(), t)[i] != t {
                let k = choose|k: int|
                    0 <= k < s.drop_last().len() && insert_by_time(s.drop_last(), t)[i]
                        == s.drop_last()[k];
                assert(s.drop_last()[k] == s[k]);
            }
        } else {
            assert(insert_by_time(s, t)[i] == s[s.len() - 1]);
        }
    }
}

/// Sorting keeps every fill, so it keeps the machine limits.
pub proof fn lemma_sort_by_time_ok(s: Seq<OptionTrade>)
    requires
        option_trades_ok(s),
    ensures
        option_trades_ok(sort_by_time(s)),
    decreases s.len(),
{
    lemma_sort_by_time_len(s);
    if s.len() > 0 {
        assert(forall|i: int| 0 <= i < s.drop_last().len() ==> s.drop_last()[i] == s[i]);
        lemma_sort_by_time_ok(s.drop_last());
        let sorted = sort_by_time(s.drop_last());
        lemma_sort_by_time_len(s.drop_last());
        assert forall|i: int|
            0 <= i < insert_by_time(sorted, s.last()).len() implies option_trade_ok(
            #[trigger] insert_by_time(sorted, s.last())[i],
        ) by {
            lemma_insert_by_time_elements(sorted, s.last(), i);
        }
    }
}

/// Sorts one chain symbol's fills by order-creation time, ascending, keeping
/// the arrival order of fills with equal times.
pub fn sort_options_by_time(v: &Vec<OptionTrade>) -> (r: Vec<OptionTrade>)
    ensures
        r@ == sort_by_time(v@),
{
    let mut r: Vec<OptionTrade> = Vec::new();
    let mut i: usize = 0;
    while i < v.len()
        invariant
            i <= v@.len(),
            r@ == sort_by_time(v@.take(i as int)),
        decreases v@.len() - i,
    {
        let t = v[i];
        proof {
            lemma_sort_by_time_sorted(v@.take(i as int));
            lemma_sort_by_time_len(v@.take(i as int));
        }
        let mut p: usize = r.len();
        while p > 0 && r[p - 1].order_created_at > t.order_created_at
            invariant
                p <= r@.len(),
                forall|j: int| p <= j < r@.len() ==> r@[j].order_created_at > t.order_created_at,
            decreases p,
        {
            p = p - 1;
        }
        proof {
            lemma_insert_by_time_at(r@, t, p as int);
            assert(v@.take(i + 1).drop_last() =~= v@.take(i as int));
            assert(v@.take(i + 1).last() == t);
        }
        r.insert(p, t);
        i = i + 1;
    }
    proof {
        assert(v@.take(v@.len() as int) =~= v@);
    }
    r
}

proof fn lemma_insert_by_time_sorted(s: Seq<OptionTrade>, t: OptionTrade)
    requires
        sorted_by_time(s),
    ensures
        sorted_by_time(insert_by_time(s, t)),
    decreases s.len(),
{
    if s.len() == 0 {
    } else if s.last().order_created_at <= t.order_created_at {
    } else {
        lemma_insert_by_time_sorted(s.drop_last(), t);
        lemma_insert_by_time_len(s.drop_last(), t);
        let r = insert_by_time(s.drop_last(), t).push(s.last());
        assert forall|i: int, j: int|
            0 <= i < j < r.len() implies r[i].order_created_at <= r[j].order_created_at by {
            if j < r.len() - 1 {
                assert(insert_by_time(s.drop_last(), t)[i].order_created_at <= insert_by_time(
                    s.drop_last(),
                    t,
                )[j].order_created_at);
            } else {
                lemma_insert_by_time_elements(s.drop_last(), t, i);
            }
        }
    }
}

pub proof fn lemma_sort_by_time_sorted(s: Seq<OptionTrade>)
    ensures
        sorted_by_time(sort_by_time(s)),
    decreases s.len(),
{
    if s.len() > 0 {
        lemma_sort_by_time_sorted(s.drop_last());
        lemma_insert_by_time_sorted(sort_by_time(s.drop_last()), s.last());
    }
}

proof fn lemma_insert_by_time_multiset(s: Seq<OptionTrade>, t: OptionTrade)
    ensures
        insert_by_time(s, t).to_multiset() == s.to_multiset().insert(t),
    decreases s.len(),
{
    broadcast use vstd::seq_lib::group_to_multiset_ensures;

    if s.len() == 0 {
        assert(s =~= Seq::<OptionTrade>::empty());
        assert(seq![t] =~= Seq::<OptionTrade>::empty().push(t));
    } else if s.last().order_created_at <= t.order_created_at {
    } else {
        lemma_insert_by_time_multiset(s.drop_last(), t);
        assert(s =~= s.drop_last().push(s.last()));
        assert(s.drop_last().to_multiset().insert(t).insert(s.last())
            =~= s.drop_last().to_multiset().insert(s.last()).insert(t));
    }
}

/// Sorting permutes: the sorted history holds exactly the original fills.
pub proof fn lemma_sort_by_time_permutes(s: Seq<OptionTrade>)
    ensures
        sort_by_time(s).to_multiset() == s.to_multiset(),
    decreases s.len(),
{
    broadcast use vstd::seq_lib::group_to_multiset_ensures;

    if s.len() > 0 {
        lemma_sort_by_time_permutes(s.drop_last());
        lemma_insert_by_time_multiset(sort_by_time(s.drop_last()), s.last());
        assert(s =~= s.drop_last().push(s.last()));
    }
}

/// The line an open-tagged fill reports: one contract's 100 units of cash,
/// out for a buy, in for a sell.
pub open spec fn open_event(t: OptionTrade) -> Information {
    if t.side == Side::Buy {
        Information::BuyToOpen { cash_flow: (-t.price * 100) as i64 }
    } else {
        Information::SellToOpen { cash_flow: (t.price * 100) as i64 }
    }
}

/// The line a close-tagged fill reports.
pub open spec fn close_event(t: OptionTrade) -> Information {
    if t.side == Side::Buy {
        Information::BuyToClose { cash_flow: (-t.price * 100) as i64 }
    } else {
        Information::SellToClose { cash_flow: (t.price * 100) as i64 }
    }
}

/// One fill's step over the open-leg count and the reported lines. An
/// open-tagged fill adds a leg and reports its cash flow; a close-tagged
/// fill removes one and reports its cash flow, with underflow ignored: a
/// close beyond the open count is no error. A fill carrying both tags (a
/// multi-leg roll) does both, open first. The window gates only what is
/// reported, on the fill's own timestamp.
pub open spec fn process_option_trade(depth: nat, t: OptionTrade, year: Option<i64>) -> (nat, Seq<
    Information,
>) {
    let gate = in_window(year, t.order_created_at);
    let after_open = if t.opening {
        depth + 1
    } else {
        depth
    };
    let open_lines = if t.opening && gate {
        seq![open_event(t)]
    } else {
        Seq::<Information>::empty()
    };
    let after_close = if t.closing {
        if after_open > 0 {
            (after_open - 1) as nat
        } else {
            0
        }
    } else {
        after_open
    };
    let close_lines = if t.closing && gate {
        seq![close_event(t)]
    } else {
        Seq::<Information>::empty()
    };
    (after_close, open_lines + close_lines)
}

/// The whole pass over a time-ordered fill sequence.
pub open spec fn process_option_trades(depth: nat, ts: Seq<OptionTrade>, year: Option<i64>) -> (
    nat,
    Seq<Information>,
)
    decreases ts.len(),
{
    if ts.len() == 0 {
        (depth, Seq::<Information>::empty())
    } else {
        let r = process_option_trades(depth, ts.drop_last(), year);
        let r2 = process_option_trade(r.0, ts.last(), year);
        (r2.0, r.1 + r2.1)
    }
}

/// The signed cash a line carries; the net total line carries none.
pub open spec fn cash_value(e: Information) -> int {
    match e {
        Information::BuyToOpen { cash_flow } => cash_flow as int,
        Information::SellToOpen { cash_flow } => cash_flow as int,
        Information::BuyToClose { cash_flow } => cash_flow as int,
        Information::SellToClose { cash_flow } => cash_flow as int,
        Information::NetRealized { .. } => 0,
    }
}

/// Sum of the signed cash of a line sequence.
pub open spec fn cash_total(evs: Seq<Information>) -> int
    decreases evs.len(),
{
    if evs.len() == 0 {
        0
    } else {
        cash_total(evs.drop_last()) + cash_value(evs.last())
    }
}

/// Everything one chain symbol reports: the gated cash-flow lines of the
/// time-sorted fills, closed by the net of exactly those lines.
pub open spec fn symbol_option_events(ts: Seq<OptionTrade>, year: Option<i64>) -> Seq<
    Information,
> {
    let r = process_option_trades(0, sort_by_time(ts), year);
    r.1.push(Information::NetRealized { total: cash_total(r.1) as i64 })
}

/// Every line's cash is within the machine limit.
pub open spec fn events_cash_ok(evs: Seq<Information>) -> bool {
    forall|i: int|
        0 <= i < evs.len() ==> -CASH_LIMIT <= cash_value(#[trigger] evs[i]) <= CASH_LIMIT
}

pub proof fn lemma_cash_total_bound(evs: Seq<Information>)
    requires
        events_cash_ok(evs),
    ensures
        -(evs.len() * CASH_LIMIT) <= cash_total(evs) <= evs.len() * CASH_LIMIT,
    decreases evs.len(),
{
    if evs.len() > 0 {
        assert(forall|i: int| 0 <= i < evs.drop_last().len() ==> evs.drop_last()[i] == evs[i]);
        lemma_cash_total_bound(evs.drop_last());
    }
}

/// Runs the leg matcher over one chain symbol's history and reports its
/// cash-flow lines, closed by the net realized total.
pub fn process_option_symbol(trades: &Vec<OptionTrade>, year: Option<i64>) -> (events: Vec<
    Information,
>)
    requires
        option_trades_ok(trades@),
        window_ok(year),
    ensures
        events@ == symbol_option_events(trades@, year),
{
    let sorted = sort_options_by_time(trades);
    proof {
        lemma_sort_by_time_ok(trades@);
        lemma_sort_by_time_len(trades@);
    }
    let mut events: Vec<Information> = Vec::new();
    let mut i: usize = 0;
    while i < sorted.len()
        invariant
            i <= sorted@.len(),
            sorted@ == sort_by_time(trades@),
            option_trades_ok(sorted@),
            window_ok(year),
            events@ == process_option_trades(0, sorted@.take(i as int), year).1,
            events_cash_ok(events@),
            events@.len() <= 2 * i,
        decreases sorted@.len() - i,
    {
        let ghost before = process_option_trades(0, sorted@.take(i as int), year);
        let t = sorted[i];
        proof {
            assert(option_trade_ok(t));
            assert(sorted@.take(i + 1).drop_last() =~= sorted@.take(i as int));
            assert(sorted@.take(i + 1).last() == t);
        }
        let gate = crate::record::date_in_window(year, t.order_created_at);
        if t.opening && gate {
            match t.side {
                Side::Buy => {
                    events.push(Information::BuyToOpen { cash_flow: -t.price * 100 });
                },
                Side::Sell => {
                    events.push(Information::SellToOpen { cash_flow: t.price * 100 });
                },
            }
        }
        if t.closing && gate {
            match t.side {
                Side::Buy => {
                    events.push(Information::BuyToClose { cash_flow: -t.price * 100 });
                },
                Side::Sell => {
                    events.push(Information::SellToClose { cash_flow: t.price * 100 });
                },
            }
        }
        proof {
            let step = process_option_trade(before.0, t, year);
            assert(events@ =~= before.1 + step.1);
        }
        i = i + 1;
    }
    proof {
        assert(sorted@.take(sorted@.len() as int) =~= sorted@);
    }
    let mut total: i64 = 0;
    let mut j: usize = 0;
    while j < events.len()
        invariant
            j <= events@.len(),
            events_cash_ok(events@),
            events@.len() <= 2 * GROUP_LEN_LIMIT,
            total == cash_total(events@.take(j as int)),
            -(j * CASH_LIMIT) <= total <= j * CASH_LIMIT,
        decreases events@.len() - j,
    {
        let e = events[j];
        let v: i64 = match e {
            Information::BuyToOpen { cash_flow } => cash_flow,
            Information::SellToOpen { cash_flow } => cash_flow,
            Information::BuyToClose { cash_flow } => cash_flow,
            Information::SellToClose { cash_flow } => cash_flow,
            Information::NetRealized { .. } => 0,
        };
        proof {
            assert(v == cash_value(events@[j as int]));
            assert(-CASH_LIMIT <= v <= CASH_LIMIT);
            assert(events@.take(j + 1).drop_last() =~= events@.take(j as int));
            assert(events@.take(j + 1).last() == events@[j as int]);
            assert(-((j + 1) * CASH_LIMIT) <= total + v <= (j + 1) * CASH_LIMIT)
                by (nonlinear_arith)
                requires
                    -(j * CASH_LIMIT) <= total <= j * CASH_LIMIT,
                    -CASH_LIMIT <= v <= CASH_LIMIT,
            ;
        }
        total = total + v;
        j = j + 1;
    }
    proof {
        assert(events@.take(events@.len() as int) =~= events@);
        lemma_cash_total_bound(events@);
    }
    events.push(Information::NetRealized { total });
    events
}

/// One chain symbol's ledger in the report.
#[derive(Clone, Debug, PartialEq, Eq)]
pub struct SymbolOptionInfo {
    pub symbol: String,
    pub events: Vec<Information>,
}

/// The whole option report, one entry per chain symbol that had a leg line
/// to report, in the order the symbols were handed in.
pub type AllOptionInfo = Vec<SymbolOptionInfo>;

/// A chain symbol makes it into the report when the filter selects it and
/// at least one leg line survived the date filter: a would-be report of
/// only the net total line is omitted entirely.
pub open spec fn option_group_included(
    g: SymbolOptionTrades,
    filter: Seq<char>,
    year: Option<i64>,
) -> bool {
    contains_substring(g.symbol@, filter) && symbol_option_events(g.trades@, year).len() > 1
}

/// The option report's value: for each included chain symbol, in input
/// order, its name and its cash-flow ledger.
pub open spec fn option_parse_model(
    groups: Seq<SymbolOptionTrades>,
    filter: Seq<char>,
    year: Option<i64>,
) -> Seq<(Seq<char>, Seq<Information>)>
    decreases groups.len(),
{
    if groups.len() == 0 {
        Seq::<(Seq<char>, Seq<Information>)>::empty()
    } else {
        let rest = option_parse_model(groups.drop_last(), filter, year);
        let g = groups.last();
        if option_group_included(g, filter, year) {
            rest.push((g.symbol@, symbol_option_events(g.trades@, year)))
        } else {
            rest
        }
    }
}

/// The report `out` carries exactly the symbols and ledgers of `model`.
pub open spec fn option_out_matches(
    out: Seq<SymbolOptionInfo>,
    model: Seq<(Seq<char>, Seq<Information>)>,
) -> bool {
    &&& out.len() == model.len()
    &&& forall|i: int|
        0 <= i < out.len() ==> (#[trigger] out[i]).symbol@ == model[i].0 && out[i].events@
            == model[i].1
}

/// The option leg matcher. Processes every chain symbol whose name contains
/// `symbol_filter`; `year`, when given, restricts what is reported — and,
/// through the net total, what is summed — to the year starting there.
pub fn parse(
    trades: &Vec<SymbolOptionTrades>,
    symbol_filter: String,
    year: Option<i64>,
) -> (result: AllOptionInfo)
    requires
        window_ok(year),
        forall|i: int|
            0 <= i < trades@.len() ==> option_trades_ok((#[trigger] trades@[i]).trades@),
    ensures
        option_out_matches(result@, option_parse_model(trades@, symbol_filter@, year)),
{
    let mut result: Vec<SymbolOptionInfo> = Vec::new();
    let mut i: usize = 0;
    while i < trades.len()
        invariant
            i <= trades@.len(),
            window_ok(year),
            forall|k: int|
                0 <= k < trades@.len() ==> option_trades_ok((#[trigger] trades@[k]).trades@),
            option_out_matches(
                result@,
                option_parse_model(trades@.take(i as int), symbol_filter@, year),
            ),
        decreases trades@.len() - i,
    {
        proof {
            assert(trades@.take(i + 1).drop_last() =~= trades@.take(i as int));
            assert(trades@.take(i + 1).last() == trades@[i as int]);
        }
        let g = &trades[i];
        if contains_substr(g.symbol.as_str(), symbol_filter.as_str()) {
            let events = process_option_symbol(&g.trades, year);
            if events.len() > 1 {
                let symbol = g.symbol.clone();
                result.push(SymbolOptionInfo { symbol, events });
            }
        }
        i = i + 1;
    }
    proof {
        assert(trades@.take(trades@.len() as int) =~= trades@);
    }
    result
}

/// A fill carrying both an opening and a closing tag (a multi-leg roll)
/// reports both its open line and its close line, and moves the open-leg
/// count exactly as its two split halves would, submitted one after the
/// other: the roll is the two legs in one record.
pub proof fn lemma_roll_equals_split(depth: nat, t: OptionTrade, year: Option<i64>)
    requires
        t.opening,
        t.closing,
    ensures
        ({
            let open_half = OptionTrade { closing: false, ..t };
            let close_half = OptionTrade { opening: false, ..t };
            let whole = process_option_trade(depth, t, year);
            let first = process_option_trade(depth, open_half, year);
            let second = process_option_trade(first.0, close_half, year);
            whole.0 == second.0 && whole.1 == first.1 + second.1
        }),
{
    let open_half = OptionTrade { closing: false, ..t };
    let close_half = OptionTrade { opening: false, ..t };
    let whole = process_option_trade(depth, t, year);
    let first = process_option_trade(depth, open_half, year);
    let second = process_option_trade(first.0, close_half, year);
    assert(whole.1 =~= first.1 + second.1);
}

/// Determinism: the leg matcher's contract pins every symbol and every line
/// of the report, so two runs over the same records, filter and window
/// agree byte for byte.
pub proof fn lemma_option_parse_deterministic(
    out1: Seq<SymbolOptionInfo>,
    out2: Seq<SymbolOptionInfo>,
    groups: Seq<SymbolOptionTrades>,
    filter: Seq<char>,
    year: Option<i64>,
)
    requires
        option_out_matches(out1, option_parse_model(groups, filter, year)),
        option_out_matches(out2, option_parse_model(groups, filter, year)),
    ensures
        out1.len() == out2.len(),
        forall|i: int|
            0 <= i < out1.len() ==> (#[trigger] out1[i]).symbol@ == out2[i].symbol@
                && out1[i].events@ == out2[i].events@,
{
}

} // verus!
