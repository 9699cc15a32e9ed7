//! An in-memory limit-order matching engine.
//!
//! The engine keeps one two-sided order book per trading symbol, matches
//! incoming buy and sell orders under price-time priority, records the
//! resulting trades, and settles the balance changes in a per-user,
//! per-asset ledger.
//!
//! Quantities, prices and balances are integers in the smallest unit of
//! the asset concerned, so every invariant of the engine is exact:
//! filled plus remaining quantity always equals the original quantity,
//! no ledger balance is ever negative, and no crossed book persists
//! once a matching pass has run.
#![verifier::loop_isolation(false)]

pub mod book;
pub mod clock;
pub mod engine;
pub mod interop;
pub mod ledger;
pub mod order;
pub mod symbol;
pub mod text;
