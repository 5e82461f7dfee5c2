//! A transaction-replay engine: ingests batches of financial transaction
//! records and derives, per client, final account balances (available, held,
//! total) and a lock status reflecting dispute outcomes.
//!
//! Monetary amounts are fixed-point integers counted in hundred-millionths
//! (1/100_000_000) of a currency unit; reported balances are rounded to four
//! decimal places.

pub mod bank;
pub mod transactions;
