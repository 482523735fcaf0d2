//! Lot-matching and gain-reconstruction engine for a trader's transaction
//! history.
//!
//! The engine consumes typed buy/sell fills (equities, crypto) and option-leg
//! fills, already grouped by instrument symbol, and reconstructs per symbol an
//! ordered ledger of realized gains, holding periods, fees and the remaining
//! open position. Amounts, prices and quantities are fixed-point values held
//! in `i64` (the scale is the caller's choice; the engine is linear in it),
//! and timestamps are seconds on a single epoch-based clock.
//!
//! Ingestion (CSV reading) and presentation are external collaborators; they
//! hand the engine plain values and consume its event lists.

pub mod filter;
pub mod option_tax;
pub mod record;
pub mod summary;
pub mod tax;
