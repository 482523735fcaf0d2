//! Report aggregation: the numeric summaries the presentation layer shows —
//! the report-wide capital-earnings total and a symbol's raw realized gain.
//!
//! The sums run over `i128` internally and report `None` instead of a
//! mangled number when the summed magnitudes overrun `i64`.

use vstd::prelude::*;

use crate::tax::{Information, SymbolInfo};

verus! {

/// Magnitude of an integer.
pub open spec fn abs_value(x: int) -> int {
    if x < 0 {
        -x
    } else {
        x
    }
}

/// What a line contributes to capital earnings: realized gains count in
/// full, fees are subtracted, every other line is ignored.
pub open spec fn earning_value(e: Information) -> int {
    match e {
        Information::RealizedGain { amount, .. } => amount as int,
        Information::Fee { amount } => -(amount as int),
        _ => 0,
    }
}

/// What a line contributes to a symbol's raw realized gain: fees ignored.
pub open spec fn gain_value(e: Information) -> int {
    match e {
        Information::RealizedGain { amount, .. } => amount as int,
        _ => 0,
    }
}

/// Net capital earnings of one ledger.
pub open spec fn events_earnings(evs: Seq<Information>) -> int
    decreases evs.len(),
{
    if evs.len() == 0 {
        0
    } else {
        events_earnings(evs.drop_last()) + earning_value(evs.last())
    }
}

/// Summed magnitudes of one ledger's earning contributions.
pub open spec fn events_abs_earnings(evs: Seq<Information>) -> int
    decreases evs.len(),
{
    if evs.len() == 0 {
        0
    } else {
        events_abs_earnings(evs.drop_last()) + abs_value(earning_value(evs.last()))
    }
}

/// Net realized gain of one ledger.
pub open spec fn events_gain(evs: Seq<Information>) -> int
    decreases evs.len(),
{
    if evs.len() == 0 {
        0
    } else {
        events_gain(evs.drop_last()) + gain_value(evs.last())
    }
}

/// Summed magnitudes of one ledger's gain contributions.
pub open spec fn events_abs_gain(evs: Seq<Information>) -> int
    decreases evs.len(),
{
    if evs.len() == 0 {
        0
    } else {
        events_abs_gain(evs.drop_last()) + abs_value(gain_value(evs.last()))
    }
}

/// Net capital earnings of the whole report.
pub open spec fn all_earnings(info: Seq<SymbolInfo>) -> int
    decreases info.len(),
{
    if info.len() == 0 {
        0
    } else {
        all_earnings(info.drop_last()) + events_earnings(info.last().events@)
    }
}

/// Summed magnitudes over the whole report.
pub open spec fn all_abs_earnings(info: Seq<SymbolInfo>) -> int
    decreases info.len(),
{
    if info.len() == 0 {
        0
    } else {
        all_abs_earnings(info.drop_last()) + events_abs_earnings(info.last().events@)
    }
}

pub proof fn lemma_events_abs_earnings_nonneg(evs: Seq<Information>)
    ensures
        0 <= events_abs_earnings(evs),
    decreases evs.len(),
{
    if evs.len() > 0 {
        lemma_events_abs_earnings_nonneg(evs.drop_last());
    }
}

/// A prefix's summed magnitudes never exceed the whole ledger's.
pub proof fn lemma_events_abs_earnings_monotone(evs: Seq<Information>, j: int)
    requires
        0 <= j <= evs.len(),
    ensures
        events_abs_earnings(evs.take(j)) <= events_abs_earnings(evs),
    decreases evs.len() - j,
{
    if j == evs.len() {
        assert(evs.take(j) =~= evs);
    } else {
        lemma_events_abs_earnings_monotone(evs, j + 1);
        assert(evs.take(j + 1).drop_last() =~= evs.take(j));
    }
}

pub proof fn lemma_all_abs_earnings_monotone(info: Seq<SymbolInfo>, i: int)
    requires
        0 <= i <= info.len(),
    ensures
        all_abs_earnings(info.take(i)) <= all_abs_earnings(info),
    decreases info.len() - i,
{
    if i == info.len() {
        assert(info.take(i) =~= info);
    } else {
        lemma_all_abs_earnings_monotone(info, i + 1);
        assert(info.take(i + 1).drop_last() =~= info.take(i));
        lemma_events_abs_earnings_nonneg(info[i].events@);
    }
}

pub proof fn lemma_events_abs_gain_nonneg(evs: Seq<Information>)
    ensures
        0 <= events_abs_gain(evs),
    decreases evs.len(),
{
    if evs.len() > 0 {
        lemma_events_abs_gain_nonneg(evs.drop_last());
    }
}

pub proof fn lemma_events_abs_gain_monotone(evs: Seq<Information>, j: int)
    requires
        0 <= j <= evs.len(),
    ensures
        events_abs_gain(evs.take(j)) <= events_abs_gain(evs),
    decreases evs.len() - j,
{
    if j == evs.len() {
        assert(evs.take(j) =~= evs);
    } else {
        lemma_events_abs_gain_monotone(evs, j + 1);
        assert(evs.take(j + 1).drop_last() =~= evs.take(j));
    }
}

/// Sums the capital earnings of a whole report: every realized gain, minus
/// every fee, over every symbol. `None` means the summed magnitudes overran
/// `i64`; the report itself is untouched either way.
pub fn total_earnings(info: &Vec<SymbolInfo>) -> (r: Option<i64>)
    ensures
        all_abs_earnings(info@) <= i64::MAX ==> r == Some(all_earnings(info@) as i64),
        all_abs_earnings(info@) > i64::MAX ==> r is None,
{
    let mut acc: i128 = 0;
    let mut abs_acc: i128 = 0;
    let mut i: usize = 0;
    while i < info.len()
        invariant
            i <= info@.len(),
            acc == all_earnings(info@.take(i as int)),
            abs_acc == all_abs_earnings(info@.take(i as int)),
            abs_acc <= i64::MAX,
            -abs_acc <= acc <= abs_acc,
        decreases info@.len() - i,
    {
        let ghost sym_prefix = info@.take(i as int);
        let evs = &info[i].events;
        let mut j: usize = 0;
        while j < evs.len()
            invariant
                j <= evs@.len(),
                i < info@.len(),
                evs@ == info@[i as int].events@,
                sym_prefix == info@.take(i as int),
                acc == all_earnings(sym_prefix) + events_earnings(evs@.take(j as int)),
                abs_acc == all_abs_earnings(sym_prefix) + events_abs_earnings(
                    evs@.take(j as int),
                ),
                abs_acc <= i64::MAX,
                -abs_acc <= acc <= abs_acc,
            decreases evs@.len() - j,
        {
            let e = evs[j];
            let v: i128 = match e {
                Information::RealizedGain { amount, .. } => amount as i128,
                Information::Fee { amount } => -(amount as i128),
                _ => 0,
            };
            let av: i128 = if v < 0 {
                -v
            } else {
                v
            };
            proof {
                assert(v == earning_value(evs@[j as int]));
                assert(evs@.take(j + 1).drop_last() =~= evs@.take(j as int));
                assert(evs@.take(j + 1).last() == evs@[j as int]);
            }
            acc = acc + v;
            abs_acc = abs_acc + av;
            j = j + 1;
            if abs_acc > i64::MAX as i128 {
                proof {
                    lemma_events_abs_earnings_monotone(evs@, j as int);
                    assert(info@.take(i + 1).drop_last() =~= info@.take(i as int));
                    assert(info@.take(i + 1).last() == info@[i as int]);
                    lemma_all_abs_earnings_monotone(info@, i + 1);
                }
                return None;
            }
        }
        proof {
            assert(evs@.take(evs@.len() as int) =~= evs@);
            assert(info@.take(i + 1).drop_last() =~= info@.take(i as int));
            assert(info@.take(i + 1).last() == info@[i as int]);
        }
        i = i + 1;
    }
    proof {
        assert(info@.take(info@.len() as int) =~= info@);
    }
    Some(acc as i64)
}

/// Sums one symbol's raw realized gain: every realized-gain line, fees and
/// all other lines ignored. `None` means the summed magnitudes overran
/// `i64`.
pub fn symbol_gain(events: &Vec<Information>) -> (r: Option<i64>)
    ensures
        events_abs_gain(events@) <= i64::MAX ==> r == Some(events_gain(events@) as i64),
        events_abs_gain(events@) > i64::MAX ==> r is None,
{
    let mut acc: i128 = 0;
    let mut abs_acc: i128 = 0;
    let mut j: usize = 0;
    while j < events.len()
        invariant
            j <= events@.len(),
            acc == events_gain(events@.take(j as int)),
            abs_acc == events_abs_gain(events@.take(j as int)),
            abs_acc <= i64::MAX,
            -abs_acc <= acc <= abs_acc,
        decreases events@.len() - j,
    {
        let e = events[j];
        let v: i128 = match e {
            Information::RealizedGain { amount, .. } => amount as i128,
            _ => 0,
        };
        let av: i128 = if v < 0 {
            -v
        } else {
            v
        };
        proof {
            assert(v == gain_value(events@[j as int]));
            assert(events@.take(j + 1).drop_last() =~= events@.take(j as int));
            assert(events@.take(j + 1).last() == events@[j as int]);
        }
        acc = acc + v;
        abs_acc = abs_acc + av;
        j = j + 1;
        if abs_acc > i64::MAX as i128 {
            proof {
                lemma_events_abs_gain_monotone(events@, j as int);
            }
            return None;
        }
    }
    proof {
        assert(events@.take(events@.len() as int) =~= events@);
    }
    Some(acc as i64)
}

} // verus!
