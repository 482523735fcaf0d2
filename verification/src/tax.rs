//! The position lot matcher: turns one symbol's time-ordered buy/sell fills
//! into an ordered ledger of events, matching sells against a LIFO stack of
//! open buy lots.
//!
//! LIFO lot selection (the most recently pushed buy is consumed first) is a
//! deliberate policy of this engine, not standard FIFO tax-lot accounting.

use vstd::prelude::*;

use crate::filter::{contains_substr, contains_substring};
use crate::record::{
    in_window, trade_ok, trades_elems_ok, trades_ok, window_ok, Side, SymbolTrades, Trade,
    FEE_LIMIT, GROUP_LEN_LIMIT, PRICE_LIMIT, QUANTITY_LIMIT, TIME_LIMIT,
};

verus! {

/// One ledger event. The payloads are fixed-point `i64` values on the same
/// scale as the records that produced them; durations are in seconds.
#[derive(Clone, Copy, Debug, PartialEq, Eq, Structural)]
pub enum Information {
    /// A buy fill: quantity, price, time.
    Buy { quantity: i64, price: i64, date: i64 },
    /// A sell fill: quantity, price, time.
    Sell { quantity: i64, price: i64, date: i64 },
    /// Signed profit between a sell and the lot it consumed, at the sell time.
    RealizedGain { amount: i64, date: i64 },
    /// Seconds between a consumed lot's acquisition and the sell.
    HoldingPeriod { duration: i64 },
    /// Fee charged for a sell, as a positive magnitude.
    Fee { amount: i64 },
    /// Total quantity still open after the whole history; always last.
    RemainingPosition { quantity: i64 },
    /// A sell that no open lot (fully) covered.
    UnmatchedSell,
}

/// An open buy lot on the matcher's stack: the quantity still unmatched, at
/// the acquiring fill's price and time.
#[derive(Clone, Copy, Debug, PartialEq, Eq, Structural)]
pub struct Lot {
    pub quantity: i64,
    pub price: i64,
    pub date: i64,
}

/// Records ordered by timestamp, ascending.
pub open spec fn sorted_by_date(s: Seq<Trade>) -> bool {
    forall|i: int, j: int| 0 <= i < j < s.len() ==> s[i].date <= s[j].date
}

/// Inserts `t` after every record whose timestamp is at most `t.date`, so
/// that records with equal timestamps keep their arrival order.
pub open spec fn insert_by_date(s: Seq<Trade>, t: Trade) -> Seq<Trade>
    decreases s.len(),
{
    if s.len() == 0 {
        seq![t]
    } else if s.last().date <= t.date {
        s.push(t)
    } else {
        insert_by_date(s.drop_last(), t).push(s.last())
    }
}

/// Stable insertion sort by timestamp: the order the matcher consumes each
/// symbol's records in.
pub open spec fn sort_by_date(s: Seq<Trade>) -> Seq<Trade>
    decreases s.len(),
{
    if s.len() == 0 {
        s
    } else {
        insert_by_date(sort_by_date(s.drop_last()), s.last())
    }
}

proof fn lemma_insert_by_date_len(s: Seq<Trade>, t: Trade)
    ensures
        insert_by_date(s, t).len() == s.len() + 1,
    decreases s.len(),
{
    if s.len() > 0 && !(s.last().date <= t.date) {
        lemma_insert_by_date_len(s.drop_last(), t);
    }
}

pub proof fn lemma_sort_by_date_len(s: Seq<Trade>)
    ensures
        sort_by_date(s).len() == s.len(),
    decreases s.len(),
{
    if s.len() > 0 {
        lemma_sort_by_date_len(s.drop_last());
        lemma_insert_by_date_len(sort_by_date(s.drop_last()), s.last());
    }
}

/// Where the insertion lands: if everything from `p` on is strictly later
/// than `t` and everything before `p` is not, `t` goes in at index `p`.
proof fn lemma_insert_by_date_at(s: Seq<Trade>, t: Trade, p: int)
    requires
        sorted_by_date(s),
        0 <= p <= s.len(),
        forall|j: int| p <= j < s.len() ==> s[j].date > t.date,
        p == 0 || s[p - 1].date <= t.date,
    ensures
        insert_by_date(s, t) == s.insert(p, t),
    decreases s.len(),
{
    if s.len() == 0 {
        assert(insert_by_date(s, t) =~= s.insert(0, t));
    } else if p == s.len() {
        assert(s.last().date <= t.date);
        assert(insert_by_date(s, t) =~= s.insert(p, t));
    } else {
        assert(s[s.len() - 1].date > t.date);
        lemma_insert_by_date_at(s.drop_last(), t, p);
        assert(insert_by_date(s.drop_last(), t).push(s.last()) =~= s.insert(p, t));
    }
}

proof fn lemma_insert_by_date_sorted(s: Seq<Trade>, t: Trade)
    requires
        sorted_by_date(s),
    ensures
        sorted_by_date(insert_by_date(s, t)),
    decreases s.len(),
{
    if s.len() == 0 {
    } else if s.last().date <= t.date {
    } else {
        lemma_insert_by_date_sorted(s.drop_last(), t);
        lemma_insert_by_date_len(s.drop_last(), t);
        let r = insert_by_date(s.drop_last(), t).push(s.last());
        assert forall|i: int, j: int| 0 <= i < j < r.len() implies r[i].date <= r[j].date by {
            if j < r.len() - 1 {
                assert(insert_by_date(s.drop_last(), t)[i].date
                    <= insert_by_date(s.drop_last(), t)[j].date);
            } else {
                // everything inserted before the last element is either t,
                // which is strictly earlier than s.last(), or an element of
                // s.drop_last(), which is at most s.last() since s is sorted.
                lemma_insert_by_date_elements(s.drop_last(), t, i);
            }
        }
    }
}

/// Every element of the inserted sequence is either `t` or an original one.
proof fn lemma_insert_by_date_elements(s: Seq<Trade>, t: Trade, i: int)
    requires
        0 <= i < s.len() + 1,
    ensures
        insert_by_date(s, t)[i] == t || exists|k: int|
            0 <= k < s.len() && insert_by_date(s, t)[i] == s[k],
    decreases s.len(),
{
    lemma_insert_by_date_len(s, t);
    if s.len() == 0 {
    } else if s.last().date <= t.date {
        if i < s.len() {
            assert(insert_by_date(s, t)[i] == s[i]);
        }
    } else {
        if i < s.len() {
            lemma_insert_by_date_len(s.drop_last(), t);
            lemma_insert_by_date_elements(s.drop_last(), t, i);
            assert(insert_by_date(s, t)[i] == insert_by_date(s.drop_last(), t)[i]);
            if insert_by_date(s.drop_last(), t)[i] != t {
                let k = choose|k: int|
                    0 <= k < s.drop_last().len() && insert_by_date(s.drop_last(), t)[i]
                        == s.drop_last()[k];
                assert(s.drop_last()[k] == s[k]);
            }
        } else {
            assert(insert_by_date(s, t)[i] == s[s.len() - 1]);
        }
    }
}

pub proof fn lemma_sort_by_date_sorted(s: Seq<Trade>)
    ensures
        sorted_by_date(sort_by_date(s)),
    decreases s.len(),
{
    if s.len() > 0 {
        lemma_sort_by_date_sorted(s.drop_last());
        lemma_insert_by_date_sorted(sort_by_date(s.drop_last()), s.last());
    }
}

proof fn lemma_insert_by_date_multiset(s: Seq<Trade>, t: Trade)
    ensures
        insert_by_date(s, t).to_multiset() == s.to_multiset().insert(t),
    decreases s.len(),
{
    broadcast use vstd::seq_lib::group_to_multiset_ensures;

    if s.len() == 0 {
        assert(s =~= Seq::<Trade>::empty());
        assert(seq![t] =~= Seq::<Trade>::empty().push(t));
    } else if s.last().date <= t.date {
    } else {
        lemma_insert_by_date_multiset(s.drop_last(), t);
        assert(s =~= s.drop_last().push(s.last()));
        assert(s.drop_last().to_multiset().insert(t).insert(s.last())
            =~= s.drop_last().to_multiset().insert(s.last()).insert(t));
    }
}

/// Sorting permutes: the sorted history holds exactly the original records.
pub proof fn lemma_sort_by_date_permutes(s: Seq<Trade>)
    ensures
        sort_by_date(s).to_multiset() == s.to_multiset(),
    decreases s.len(),
{
    broadcast use vstd::seq_lib::group_to_multiset_ensures;

    if s.len() > 0 {
        lemma_sort_by_date_permutes(s.drop_last());
        lemma_insert_by_date_multiset(sort_by_date(s.drop_last()), s.last());
        assert(s =~= s.drop_last().push(s.last()));
    }
}

/// The lot a buy fill opens.
pub open spec fn lot_of(t: Trade) -> Lot {
    Lot { quantity: t.quantity, price: t.average_price, date: t.date }
}

/// The ledger line for a buy fill.
pub open spec fn buy_event(t: Trade) -> Information {
    Information::Buy { quantity: t.quantity, price: t.average_price, date: t.date }
}

/// The ledger line for a sell fill.
pub open spec fn sell_event(t: Trade) -> Information {
    Information::Sell { quantity: t.quantity, price: t.average_price, date: t.date }
}

/// The signed profit recognized when `sell` pops `lot`: the price difference
/// times the lot's whole remaining quantity before the pop.
pub open spec fn gain_amount(sell: Trade, lot: Lot) -> int {
    (sell.average_price - lot.price) * lot.quantity
}

/// The three lines one pop reports: the holding period from the lot's
/// acquisition to the sell, the realized gain, and the sell's fee.
pub open spec fn pop_events(sell: Trade, lot: Lot) -> Seq<Information> {
    seq![
        (Information::HoldingPeriod { duration: (sell.date - lot.date) as i64 }),
        (Information::RealizedGain { amount: gain_amount(sell, lot) as i64, date: sell.date }),
        (Information::Fee { amount: (sell.quantity * sell.fees) as i64 }),
    ]
}

/// One sell working down the lot stack. Pops the most recent lot and reports
/// the pop; if the lot covered the sell, its leftover (if any) goes back on
/// the stack, otherwise the still-outstanding quantity pops the next lot.
/// A sell the stack cannot cover reports one `UnmatchedSell` and its excess
/// is dropped. `gate` is the window's verdict on the sell's own timestamp;
/// it decides only what is reported, never how the stack evolves.
pub open spec fn match_sell(stack: Seq<Lot>, sell: Trade, outstanding: int, gate: bool) -> (Seq<
    Lot,
>, Seq<Information>)
    decreases stack.len(),
{
    if stack.len() == 0 {
        (stack, if gate {
            seq![Information::UnmatchedSell]
        } else {
            Seq::<Information>::empty()
        })
    } else {
        let lot = stack.last();
        let rest = stack.drop_last();
        let evs = if gate {
            pop_events(sell, lot)
        } else {
            Seq::<Information>::empty()
        };
        let remaining = lot.quantity - outstanding;
        if remaining >= 0 {
            let new_stack = if remaining > 0 {
                rest.push(Lot { quantity: remaining as i64, price: lot.price, date: lot.date })
            } else {
                rest
            };
            (new_stack, evs)
        } else {
            let r = match_sell(rest, sell, -remaining, gate);
            (r.0, evs + r.1)
        }
    }
}

/// One record's step: a buy is reported (when the window admits its date)
/// and pushed as a fresh lot; a sell is reported and then matched.
pub open spec fn process_trade(stack: Seq<Lot>, t: Trade, year: Option<i64>) -> (Seq<Lot>, Seq<
    Information,
>) {
    let gate = in_window(year, t.date);
    if t.side == Side::Buy {
        (stack.push(lot_of(t)), if gate {
            seq![buy_event(t)]
        } else {
            Seq::<Information>::empty()
        })
    } else {
        let head = if gate {
            seq![sell_event(t)]
        } else {
            Seq::<Information>::empty()
        };
        let r = match_sell(stack, t, t.quantity as int, gate);
        (r.0, head + r.1)
    }
}

/// The whole pass over a time-ordered record sequence, folded left to right.
pub open spec fn process_trades(stack: Seq<Lot>, ts: Seq<Trade>, year: Option<i64>) -> (Seq<
    Lot,
>, Seq<Information>)
    decreases ts.len(),
{
    if ts.len() == 0 {
        (stack, Seq::<Information>::empty())
    } else {
        let r = process_trades(stack, ts.drop_last(), year);
        let r2 = process_trade(r.0, ts.last(), year);
        (r2.0, r.1 + r2.1)
    }
}

/// Total quantity still open on a lot stack.
pub open spec fn stack_total(stack: Seq<Lot>) -> int
    decreases stack.len(),
{
    if stack.len() == 0 {
        0
    } else {
        stack_total(stack.drop_last()) + stack.last().quantity
    }
}

/// Everything one symbol's history reports: the ledger of the time-sorted
/// records, then the remaining open quantity — always last, and never gated,
/// since it reflects current holdings regardless of reporting period.
pub open spec fn symbol_events(ts: Seq<Trade>, year: Option<i64>) -> Seq<Information> {
    let r = process_trades(Seq::<Lot>::empty(), sort_by_date(ts), year);
    r.1.push(Information::RemainingPosition { quantity: stack_total(r.0) as i64 })
}

/// A lot within the machine limits of the records that opened it.
pub open spec fn lot_ok(l: Lot) -> bool {
    &&& 0 <= l.quantity <= QUANTITY_LIMIT
    &&& -PRICE_LIMIT <= l.price <= PRICE_LIMIT
    &&& -TIME_LIMIT <= l.date <= TIME_LIMIT
}

pub open spec fn lots_ok(s: Seq<Lot>) -> bool {
    forall|i: int| 0 <= i < s.len() ==> lot_ok(#[trigger] s[i])
}

/// Sorts one symbol's records by timestamp, ascending, keeping the arrival
/// order of records with equal timestamps.
pub fn sort_trades_by_date(v: &Vec<Trade>) -> (r: Vec<Trade>)
    ensures
        r@ == sort_by_date(v@),
{
    let mut r: Vec<Trade> = Vec::new();
    let mut i: usize = 0;
    while i < v.len()
        invariant
            i <= v@.len(),
            r@ == sort_by_date(v@.take(i as int)),
        decreases v@.len() - i,
    {
        let t = v[i];
        proof {
            lemma_sort_by_date_sorted(v@.take(i as int));
            lemma_sort_by_date_len(v@.take(i as int));
        }
        let mut p: usize = r.len();
        while p > 0 && r[p - 1].date > t.date
            invariant
                p <= r@.len(),
                forall|j: int| p <= j < r@.len() ==> r@[j].date > t.date,
            decreases p,
        {
            p = p - 1;
        }
        proof {
            lemma_insert_by_date_at(r@, t, p as int);
            assert(v@.take(i + 1).drop_last() =~= v@.take(i as int));
            assert(v@.take(i + 1).last() == t);
        }
        r.insert(p, t);
        i = i + 1;
    }
    proof {
        assert(v@.take(v@.len() as int) =~= v@);
    }
    r
}

/// Bounds on a product from bounds on its factors.
proof fn lemma_mul_bounds(x: int, y: int, xb: int, yb: int)
    requires
        -xb <= x <= xb,
        0 <= y <= yb,
    ensures
        -(xb * yb) <= x * y <= xb * yb,
{
    assert(-(xb * yb) <= x * y <= xb * yb) by (nonlinear_arith)
        requires
            -xb <= x <= xb,
            0 <= y <= yb,
    ;
}

/// Sorting keeps every record, so it keeps the machine limits.
pub proof fn lemma_sort_by_date_ok(s: Seq<Trade>)
    requires
        trades_elems_ok(s),
    ensures
        trades_elems_ok(sort_by_date(s)),
    decreases s.len(),
{
    lemma_sort_by_date_len(s);
    if s.len() > 0 {
        assert(forall|i: int| 0 <= i < s.drop_last().len() ==> s.drop_last()[i] == s[i]);
        lemma_sort_by_date_ok(s.drop_last());
        let sorted = sort_by_date(s.drop_last());
        lemma_sort_by_date_len(s.drop_last());
        assert forall|i: int|
            0 <= i < insert_by_date(sorted, s.last()).len() implies trade_ok(
            #[trigger] insert_by_date(sorted, s.last())[i],
        ) by {
            lemma_insert_by_date_elements(sorted, s.last(), i);
        }
    }
}

/// Runs the lot matcher over one symbol's history and reports its ledger:
/// the window-gated events of the time-sorted records, closed by the
/// remaining open quantity.
pub fn process_symbol(trades: &Vec<Trade>, year: Option<i64>) -> (events: Vec<Information>)
    requires
        trades_ok(trades@),
        window_ok(year),
    ensures
        events@ == symbol_events(trades@, year),
{
    let sorted = sort_trades_by_date(trades);
    proof {
        lemma_sort_by_date_ok(trades@);
        lemma_sort_by_date_len(trades@);
    }
    let mut stack: Vec<Lot> = Vec::new();
    let mut events: Vec<Information> = Vec::new();
    let mut i: usize = 0;
    while i < sorted.len()
        invariant
            i <= sorted@.len(),
            sorted@ == sort_by_date(trades@),
            trades_ok(sorted@),
            window_ok(year),
            lots_ok(stack@),
            stack@.len() <= i,
            stack@ == process_trades(Seq::<Lot>::empty(), sorted@.take(i as int), year).0,
            events@ == process_trades(Seq::<Lot>::empty(), sorted@.take(i as int), year).1,
        decreases sorted@.len() - i,
    {
        let ghost prefix = sorted@.take(i as int);
        let ghost before = process_trades(Seq::<Lot>::empty(), prefix, year);
        let t = sorted[i];
        proof {
            assert(trade_ok(t));
            assert(sorted@.take(i + 1).drop_last() =~= prefix);
            assert(sorted@.take(i + 1).last() == t);
        }
        let gate = crate::record::date_in_window(year, t.date);
        match t.side {
            Side::Buy => {
                if gate {
                    events.push(
                        Information::Buy {
                            quantity: t.quantity,
                            price: t.average_price,
                            date: t.date,
                        },
                    );
                }
                stack.push(Lot { quantity: t.quantity, price: t.average_price, date: t.date });
                proof {
                    let after = process_trade(before.0, t, year);
                    assert(stack@ =~= after.0);
                    assert(events@ =~= before.1 + after.1);
                }
            },
            Side::Sell => {
                if gate {
                    events.push(
                        Information::Sell {
                            quantity: t.quantity,
                            price: t.average_price,
                            date: t.date,
                        },
                    );
                }
                let ghost head_events = events@;
                let ghost stack0 = stack@;
                let ghost target = match_sell(stack0, t, t.quantity as int, gate);
                let mut outstanding: i64 = t.quantity;
                loop
                    invariant_except_break
                        target.0 == match_sell(stack@, t, outstanding as int, gate).0,
                        head_events + target.1 == events@ + match_sell(
                            stack@,
                            t,
                            outstanding as int,
                            gate,
                        ).1,
                    invariant
                        trade_ok(t),
                        lots_ok(stack@),
                        0 <= outstanding <= QUANTITY_LIMIT,
                        stack@.len() <= stack0.len(),
                        gate == in_window(year, t.date),
                    ensures
                        lots_ok(stack@),
                        stack@.len() <= stack0.len(),
                        stack@ == target.0,
                        events@ == head_events + target.1,
                    decreases stack@.len(),
                {
                    let ghost loop_stack = stack@;
                    let ghost loop_events = events@;
                    match stack.pop() {
                        None => {
                            if gate {
                                events.push(Information::UnmatchedSell);
                            }
                            proof {
                                assert(events@ =~= head_events + target.1);
                            }
                            break ;
                        },
                        Some(lot) => {
                            proof {
                                assert(lot == loop_stack[loop_stack.len() - 1]);
                                assert(lot_ok(lot));
                                lemma_mul_bounds(
                                    t.average_price - lot.price,
                                    lot.quantity as int,
                                    2 * PRICE_LIMIT as int,
                                    QUANTITY_LIMIT as int,
                                );
                                lemma_mul_bounds(
                                    t.quantity as int,
                                    t.fees as int,
                                    QUANTITY_LIMIT as int,
                                    FEE_LIMIT as int,
                                );
                            }
                            let remaining = lot.quantity - outstanding;
                            if gate {
                                events.push(
                                    Information::HoldingPeriod { duration: t.date - lot.date },
                                );
                                events.push(
                                    Information::RealizedGain {
                                        amount: (t.average_price - lot.price) * lot.quantity,
                                        date: t.date,
                                    },
                                );
                                events.push(Information::Fee { amount: t.quantity * t.fees });
                            }
                            proof {
                                assert(loop_stack.last() == lot);
                                assert(stack@ =~= loop_stack.drop_last());
                                let step = match_sell(loop_stack, t, outstanding as int, gate);
                                if gate {
                                    assert(loop_events + pop_events(t, lot) =~= events@);
                                } else {
                                    assert(loop_events =~= events@);
                                }
                                if remaining >= 0 {
                                } else {
                                    let tail = match_sell(
                                        stack@,
                                        t,
                                        -(remaining as int),
                                        gate,
                                    );
                                    if gate {
                                        assert(step.1 =~= pop_events(t, lot) + tail.1);
                                        assert(head_events + target.1 =~= events@ + tail.1) by {
                                            assert(head_events + target.1 == loop_events
                                                + step.1);
                                            assert(loop_events + (pop_events(t, lot) + tail.1)
                                                =~= (loop_events + pop_events(t, lot)) + tail.1);
                                        }
                                    } else {
                                        assert(step.1 =~= tail.1);
                                    }
                                }
                            }
                            if remaining >= 0 {
                                if remaining > 0 {
                                    stack.push(
                                        Lot {
                                            quantity: remaining,
                                            price: lot.price,
                                            date: lot.date,
                                        },
                                    );
                                }
                                proof {
                                    let step = match_sell(loop_stack, t, outstanding as int, gate);
                                    assert(stack@ =~= step.0);
                                    assert(events@ =~= head_events + target.1);
                                }
                                break ;
                            }
                            outstanding = -remaining;
                        },
                    }
                }
                proof {
                    let after = process_trade(before.0, t, year);
                    assert(stack@ =~= after.0);
                    assert(events@ =~= before.1 + after.1) by {
                        if gate {
                            assert(head_events =~= before.1 + seq![sell_event(t)]);
                            assert(before.1 + (seq![sell_event(t)] + target.1) =~= (before.1
                                + seq![sell_event(t)]) + target.1);
                        } else {
                            assert(head_events =~= before.1 + Seq::<Information>::empty());
                            assert(before.1 + (Seq::<Information>::empty() + target.1) =~= (
                            before.1 + Seq::<Information>::empty()) + target.1);
                        }
                    }
                }
            },
        }
        i = i + 1;
    }
    proof {
        assert(sorted@.take(sorted@.len() as int) =~= sorted@);
    }
    let ghost final_stack = stack@;
    let mut remaining_total: i64 = 0;
    loop
        invariant
            lots_ok(stack@),
            stack@.len() <= final_stack.len(),
            final_stack.len() <= GROUP_LEN_LIMIT,
            0 <= remaining_total,
            stack_total(final_stack) == stack_total(stack@) + remaining_total,
            remaining_total <= (final_stack.len() - stack@.len()) * (QUANTITY_LIMIT as int),
        ensures
            remaining_total == stack_total(final_stack),
        decreases stack@.len(),
    {
        match stack.pop() {
            None => {
                break ;
            },
            Some(l) => {
                remaining_total = remaining_total + l.quantity;
            },
        }
    }
    events.push(Information::RemainingPosition { quantity: remaining_total });
    events
}

/// One symbol's ledger in the report.
#[derive(Clone, Debug, PartialEq, Eq)]
pub struct SymbolInfo {
    pub symbol: String,
    pub events: Vec<Information>,
}

/// The whole report: one entry per symbol that had something to report,
/// in the order the symbols were handed in.
pub type AllInfo = Vec<SymbolInfo>;

/// A symbol makes it into the report when the filter selects it and its
/// ledger holds more than the always-present remaining-position line.
pub open spec fn group_included(g: SymbolTrades, filter: Seq<char>, year: Option<i64>) -> bool {
    contains_substring(g.symbol@, filter) && symbol_events(g.trades@, year).len() > 1
}

/// The report's value: for each included symbol, in input order, its name
/// and its ledger.
pub open spec fn parse_model(
    groups: Seq<SymbolTrades>,
    filter: Seq<char>,
    year: Option<i64>,
) -> Seq<(Seq<char>, Seq<Information>)>
    decreases groups.len(),
{
    if groups.len() == 0 {
        Seq::<(Seq<char>, Seq<Information>)>::empty()
    } else {
        let rest = parse_model(groups.drop_last(), filter, year);
        let g = groups.last();
        if group_included(g, filter, year) {
            rest.push((g.symbol@, symbol_events(g.trades@, year)))
        } else {
            rest
        }
    }
}

/// The report `out` carries exactly the symbols and ledgers of `model`.
pub open spec fn out_matches(
    out: Seq<SymbolInfo>,
    model: Seq<(Seq<char>, Seq<Information>)>,
) -> bool {
    &&& out.len() == model.len()
    &&& forall|i: int|
        0 <= i < out.len() ==> (#[trigger] out[i]).symbol@ == model[i].0 && out[i].events@
            == model[i].1
}

/// The position lot matcher. Processes every symbol whose name contains
/// `symbol_filter`, matching each one's complete history; `year`, when
/// given, restricts only what is reported to the year starting there.
pub fn parse(trades: &Vec<SymbolTrades>, symbol_filter: String, year: Option<i64>) -> (result:
    AllInfo)
    requires
        window_ok(year),
        forall|i: int| 0 <= i < trades@.len() ==> trades_ok((#[trigger] trades@[i]).trades@),
    ensures
        out_matches(result@, parse_model(trades@, symbol_filter@, year)),
{
    let mut result: Vec<SymbolInfo> = Vec::new();
    let mut i: usize = 0;
    while i < trades.len()
        invariant
            i <= trades@.len(),
            window_ok(year),
            forall|k: int| 0 <= k < trades@.len() ==> trades_ok((#[trigger] trades@[k]).trades@),
            out_matches(result@, parse_model(trades@.take(i as int), symbol_filter@, year)),
        decreases trades@.len() - i,
    {
        proof {
            assert(trades@.take(i + 1).drop_last() =~= trades@.take(i as int));
            assert(trades@.take(i + 1).last() == trades@[i as int]);
        }
        let g = &trades[i];
        if contains_substr(g.symbol.as_str(), symbol_filter.as_str()) {
            let events = process_symbol(&g.trades, year);
            if events.len() > 1 {
                let symbol = g.symbol.clone();
                result.push(SymbolInfo { symbol, events });
            }
        }
        i = i + 1;
    }
    proof {
        assert(trades@.take(trades@.len() as int) =~= trades@);
    }
    result
}

/// What a record adds to the bought quantity.
pub open spec fn buy_quantity(t: Trade) -> int {
    if t.side == Side::Buy {
        t.quantity as int
    } else {
        0
    }
}

/// What a record adds to the sold quantity.
pub open spec fn sell_quantity(t: Trade) -> int {
    if t.side == Side::Sell {
        t.quantity as int
    } else {
        0
    }
}

/// Total quantity bought over a history.
pub open spec fn sum_buys(ts: Seq<Trade>) -> int
    decreases ts.len(),
{
    if ts.len() == 0 {
        0
    } else {
        sum_buys(ts.drop_last()) + buy_quantity(ts.last())
    }
}

/// Total quantity sold over a history.
pub open spec fn sum_sells(ts: Seq<Trade>) -> int
    decreases ts.len(),
{
    if ts.len() == 0 {
        0
    } else {
        sum_sells(ts.drop_last()) + sell_quantity(ts.last())
    }
}

proof fn lemma_insert_by_date_sums(s: Seq<Trade>, t: Trade)
    ensures
        sum_buys(insert_by_date(s, t)) == sum_buys(s) + buy_quantity(t),
        sum_sells(insert_by_date(s, t)) == sum_sells(s) + sell_quantity(t),
    decreases s.len(),
{
    if s.len() == 0 {
        reveal_with_fuel(sum_buys, 2);
        reveal_with_fuel(sum_sells, 2);
        assert(seq![t].drop_last() =~= Seq::<Trade>::empty());
        assert(sum_buys(seq![t]) == buy_quantity(t));
        assert(sum_sells(seq![t]) == sell_quantity(t));
    } else if s.last().date <= t.date {
        assert(s.push(t).drop_last() =~= s);
        assert(s.push(t).last() == t);
        assert(sum_buys(s.push(t)) == sum_buys(s) + buy_quantity(t));
        assert(sum_sells(s.push(t)) == sum_sells(s) + sell_quantity(t));
    } else {
        lemma_insert_by_date_sums(s.drop_last(), t);
        let x = insert_by_date(s.drop_last(), t);
        let r = x.push(s.last());
        assert(insert_by_date(s, t) == r);
        assert(r.drop_last() =~= x);
        assert(r.last() == s.last());
        assert(sum_buys(r) == sum_buys(x) + buy_quantity(s.last()));
        assert(sum_sells(r) == sum_sells(x) + sell_quantity(s.last()));
        assert(sum_buys(s) == sum_buys(s.drop_last()) + buy_quantity(s.last()));
        assert(sum_sells(s) == sum_sells(s.drop_last()) + sell_quantity(s.last()));
    }
}

/// Sorting reorders, so it keeps both totals.
pub proof fn lemma_sort_by_date_sums(s: Seq<Trade>)
    ensures
        sum_buys(sort_by_date(s)) == sum_buys(s),
        sum_sells(sort_by_date(s)) == sum_sells(s),
    decreases s.len(),
{
    if s.len() > 0 {
        lemma_sort_by_date_sums(s.drop_last());
        lemma_insert_by_date_sums(sort_by_date(s.drop_last()), s.last());
    }
}

/// A fully matched sell consumes exactly its own quantity from the stack,
/// and matching keeps every lot within the machine limits.
proof fn lemma_match_sell_conservation(stack: Seq<Lot>, sell: Trade, outstanding: int)
    requires
        lots_ok(stack),
        0 <= outstanding <= QUANTITY_LIMIT,
    ensures
        lots_ok(match_sell(stack, sell, outstanding, true).0),
        !match_sell(stack, sell, outstanding, true).1.contains(Information::UnmatchedSell)
            ==> stack_total(match_sell(stack, sell, outstanding, true).0) == stack_total(stack)
            - outstanding,
    decreases stack.len(),
{
    let r = match_sell(stack, sell, outstanding, true);
    if stack.len() == 0 {
        assert(r.1.contains(Information::UnmatchedSell)) by {
            assert(r.1[0] == Information::UnmatchedSell);
        }
    } else {
        let lot = stack.last();
        let rest = stack.drop_last();
        assert(lot == stack[stack.len() - 1]);
        assert(lot_ok(lot));
        assert(lots_ok(rest)) by {
            assert(forall|i: int| 0 <= i < rest.len() ==> rest[i] == stack[i]);
        }
        let evs = pop_events(sell, lot);
        let remaining = lot.quantity - outstanding;
        if remaining >= 0 {
            if remaining > 0 {
                let leftover = Lot { quantity: remaining as i64, price: lot.price, date: lot.date };
                assert(lot_ok(leftover));
                assert(lots_ok(rest.push(leftover))) by {
                    assert(forall|i: int|
                        0 <= i < rest.len() ==> rest.push(leftover)[i] == rest[i]);
                }
                assert(stack_total(rest.push(leftover)) == stack_total(rest) + remaining) by {
                    assert(rest.push(leftover).drop_last() =~= rest);
                }
            }
        } else {
            lemma_match_sell_conservation(rest, sell, -remaining);
            let rr = match_sell(rest, sell, -remaining, true);
            if !r.1.contains(Information::UnmatchedSell) {
                assert(!rr.1.contains(Information::UnmatchedSell)) by {
                    if rr.1.contains(Information::UnmatchedSell) {
                        let k = choose|k: int|
                            0 <= k < rr.1.len() && rr.1[k] == Information::UnmatchedSell;
                        assert(r.1[evs.len() + k] == Information::UnmatchedSell);
                    }
                }
            }
        }
    }
}

/// After a whole pass in which every sell found cover, the stack holds
/// exactly what was bought and not sold.
proof fn lemma_process_trades_conservation(stack: Seq<Lot>, ts: Seq<Trade>)
    requires
        lots_ok(stack),
        trades_elems_ok(ts),
    ensures
        lots_ok(process_trades(stack, ts, None).0),
        !process_trades(stack, ts, None).1.contains(Information::UnmatchedSell)
            ==> stack_total(process_trades(stack, ts, None).0) == stack_total(stack) + sum_buys(
            ts,
        ) - sum_sells(ts),
    decreases ts.len(),
{
    if ts.len() > 0 {
        assert(trades_elems_ok(ts.drop_last())) by {
            assert(forall|i: int| 0 <= i < ts.drop_last().len() ==> ts.drop_last()[i] == ts[i]);
        }
        lemma_process_trades_conservation(stack, ts.drop_last());
        let r = process_trades(stack, ts.drop_last(), None);
        let t = ts.last();
        assert(t == ts[ts.len() - 1]);
        assert(trade_ok(t));
        let r2 = process_trade(r.0, t, None);
        let full = process_trades(stack, ts, None);
        if t.side == Side::Buy {
            assert(lots_ok(r.0.push(lot_of(t)))) by {
                assert(forall|i: int| 0 <= i < r.0.len() ==> r.0.push(lot_of(t))[i] == r.0[i]);
            }
            assert(stack_total(r.0.push(lot_of(t))) == stack_total(r.0) + t.quantity) by {
                assert(r.0.push(lot_of(t)).drop_last() =~= r.0);
            }
            if !full.1.contains(Information::UnmatchedSell) {
                assert(!r.1.contains(Information::UnmatchedSell)) by {
                    if r.1.contains(Information::UnmatchedSell) {
                        let k = choose|k: int|
                            0 <= k < r.1.len() && r.1[k] == Information::UnmatchedSell;
                        assert(full.1[k] == Information::UnmatchedSell);
                    }
                }
            }
        } else {
            lemma_match_sell_conservation(r.0, t, t.quantity as int);
            let ms = match_sell(r.0, t, t.quantity as int, true);
            let head = seq![sell_event(t)];
            assert(r2.1 == head + ms.1);
            if !full.1.contains(Information::UnmatchedSell) {
                assert(!r.1.contains(Information::UnmatchedSell)) by {
                    if r.1.contains(Information::UnmatchedSell) {
                        let k = choose|k: int|
                            0 <= k < r.1.len() && r.1[k] == Information::UnmatchedSell;
                        assert(full.1[k] == Information::UnmatchedSell);
                    }
                }
                assert(!ms.1.contains(Information::UnmatchedSell)) by {
                    if ms.1.contains(Information::UnmatchedSell) {
                        let k = choose|k: int|
                            0 <= k < ms.1.len() && ms.1[k] == Information::UnmatchedSell;
                        assert(r2.1[head.len() + k] == Information::UnmatchedSell);
                        assert(full.1[r.1.len() + head.len() + k]
                            == Information::UnmatchedSell);
                    }
                }
            }
        }
    }
}

/// Quantity conservation: when every sell in a history found cover, the
/// remaining open quantity plus everything the sells consumed is exactly
/// everything the buys acquired. The absence of an `UnmatchedSell` line in
/// the unwindowed ledger says that every sell found cover.
pub proof fn lemma_quantity_conservation(ts: Seq<Trade>)
    requires
        trades_elems_ok(ts),
    ensures
        !symbol_events(ts, None).contains(Information::UnmatchedSell) ==> stack_total(
            process_trades(Seq::<Lot>::empty(), sort_by_date(ts), None).0,
        ) + sum_sells(ts) == sum_buys(ts),
{
    lemma_sort_by_date_ok(ts);
    lemma_sort_by_date_sums(ts);
    lemma_process_trades_conservation(Seq::<Lot>::empty(), sort_by_date(ts));
    let r = process_trades(Seq::<Lot>::empty(), sort_by_date(ts), None);
    if !symbol_events(ts, None).contains(Information::UnmatchedSell) {
        assert(!r.1.contains(Information::UnmatchedSell)) by {
            if r.1.contains(Information::UnmatchedSell) {
                let k = choose|k: int|
                    0 <= k < r.1.len() && r.1[k] == Information::UnmatchedSell;
                assert(symbol_events(ts, None)[k] == Information::UnmatchedSell);
            }
        }
    }
}

proof fn lemma_sums_bounds(ts: Seq<Trade>)
    requires
        trades_elems_ok(ts),
    ensures
        0 <= sum_buys(ts) <= ts.len() * QUANTITY_LIMIT,
        0 <= sum_sells(ts) <= ts.len() * QUANTITY_LIMIT,
    decreases ts.len(),
{
    if ts.len() > 0 {
        assert(forall|i: int| 0 <= i < ts.drop_last().len() ==> ts.drop_last()[i] == ts[i]);
        lemma_sums_bounds(ts.drop_last());
        assert(ts.last() == ts[ts.len() - 1]);
    }
}

/// Quantity conservation, read off the ledger itself: when no sell went
/// unmatched, the reported remaining-position line is exactly the bought
/// quantity minus the sold quantity.
pub proof fn lemma_remaining_position_is_conserved(ts: Seq<Trade>)
    requires
        trades_ok(ts),
    ensures
        !symbol_events(ts, None).contains(Information::UnmatchedSell) ==> symbol_events(ts, None)
            .last() == (Information::RemainingPosition {
            quantity: (sum_buys(ts) - sum_sells(ts)) as i64,
        }),
{
    lemma_quantity_conservation(ts);
    lemma_sums_bounds(ts);
}

/// The window's verdict never changes how a sell moves the stack.
proof fn lemma_match_sell_stack_gate(
    stack: Seq<Lot>,
    sell: Trade,
    outstanding: int,
    g1: bool,
    g2: bool,
)
    ensures
        match_sell(stack, sell, outstanding, g1).0 == match_sell(stack, sell, outstanding, g2).0,
    decreases stack.len(),
{
    if stack.len() > 0 {
        let remaining = stack.last().quantity - outstanding;
        if remaining < 0 {
            lemma_match_sell_stack_gate(stack.drop_last(), sell, -remaining, g1, g2);
        }
    }
}

proof fn lemma_process_trades_stack_year(
    stack: Seq<Lot>,
    ts: Seq<Trade>,
    y1: Option<i64>,
    y2: Option<i64>,
)
    ensures
        process_trades(stack, ts, y1).0 == process_trades(stack, ts, y2).0,
    decreases ts.len(),
{
    if ts.len() > 0 {
        lemma_process_trades_stack_year(stack, ts.drop_last(), y1, y2);
        let t = ts.last();
        if t.side != Side::Buy {
            lemma_match_sell_stack_gate(
                process_trades(stack, ts.drop_last(), y1).0,
                t,
                t.quantity as int,
                in_window(y1, t.date),
                in_window(y2, t.date),
            );
        }
    }
}

/// The date window is a reporting filter, never a matching filter: however
/// the window is set, a symbol's final remaining-position line is the same,
/// because matching always runs over the complete history.
pub proof fn lemma_remaining_window_independent(ts: Seq<Trade>, y1: Option<i64>, y2: Option<i64>)
    ensures
        symbol_events(ts, y1).last() == symbol_events(ts, y2).last(),
        symbol_events(ts, y1).last() is RemainingPosition,
{
    lemma_process_trades_stack_year(Seq::<Lot>::empty(), sort_by_date(ts), y1, y2);
}

/// A sell right after a buy of the same quantity and price realizes a gain
/// of exactly zero and leaves nothing open: the whole ledger, line by line.
pub proof fn lemma_buy_then_sell_nets_zero(buy: Trade, sell: Trade)
    requires
        trade_ok(buy),
        trade_ok(sell),
        buy.side == Side::Buy,
        sell.side == Side::Sell,
        sell.quantity == buy.quantity,
        sell.average_price == buy.average_price,
        buy.date <= sell.date,
    ensures
        symbol_events(seq![buy, sell], None) == seq![
            buy_event(buy),
            sell_event(sell),
            (Information::HoldingPeriod { duration: (sell.date - buy.date) as i64 }),
            (Information::RealizedGain { amount: 0, date: sell.date }),
            (Information::Fee { amount: (sell.quantity * sell.fees) as i64 }),
            (Information::RemainingPosition { quantity: 0 }),
        ],
{
    reveal_with_fuel(sort_by_date, 3);
    reveal_with_fuel(insert_by_date, 3);
    reveal_with_fuel(process_trades, 3);
    reveal_with_fuel(match_sell, 2);
    reveal_with_fuel(stack_total, 2);
    let ts = seq![buy, sell];
    assert(ts.drop_last() =~= seq![buy]);
    assert(seq![buy].drop_last() =~= Seq::<Trade>::empty());
    assert(sort_by_date(seq![buy]) == seq![buy]);
    assert(sort_by_date(ts) == insert_by_date(seq![buy], sell));
    assert(insert_by_date(seq![buy], sell) =~= ts);
    let r1 = process_trades(Seq::<Lot>::empty(), seq![buy], None);
    assert(r1.0 =~= seq![lot_of(buy)]);
    assert(r1.1 =~= seq![buy_event(buy)]);
    let lot = lot_of(buy);
    let ms = match_sell(seq![lot], sell, sell.quantity as int, true);
    assert(seq![lot].drop_last() =~= Seq::<Lot>::empty());
    assert(lot.quantity - sell.quantity == 0);
    assert((sell.average_price - lot.price) * lot.quantity == 0) by (nonlinear_arith)
        requires
            sell.average_price == lot.price,
    ;
    assert(gain_amount(sell, lot) == 0);
    assert(ms.0 =~= Seq::<Lot>::empty());
    assert(ms.1 == pop_events(sell, lot));
    let r = process_trades(Seq::<Lot>::empty(), ts, None);
    assert(r.0 =~= Seq::<Lot>::empty());
    assert(symbol_events(ts, None) =~= seq![
        buy_event(buy),
        sell_event(sell),
        (Information::HoldingPeriod { duration: (sell.date - buy.date) as i64 }),
        (Information::RealizedGain { amount: 0, date: sell.date }),
        (Information::Fee { amount: (sell.quantity * sell.fees) as i64 }),
        (Information::RemainingPosition { quantity: 0 }),
    ]);
}

/// Determinism: the matcher's contract pins every symbol and every line of
/// the report, so two runs over the same records, filter and window agree
/// byte for byte.
pub proof fn lemma_parse_deterministic(
    out1: Seq<SymbolInfo>,
    out2: Seq<SymbolInfo>,
    groups: Seq<SymbolTrades>,
    filter: Seq<char>,
    year: Option<i64>,
)
    requires
        out_matches(out1, parse_model(groups, filter, year)),
        out_matches(out2, parse_model(groups, filter, year)),
    ensures
        out1.len() == out2.len(),
        forall|i: int|
            0 <= i < out1.len() ==> (#[trigger] out1[i]).symbol@ == out2[i].symbol@
                && out1[i].events@ == out2[i].events@,
{
}

} // verus!
