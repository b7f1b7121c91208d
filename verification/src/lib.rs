//! Double-entry plaintext-ledger engine: an exact decimal type, a
//! multi-currency accumulator, per-transaction booking with elided-amount
//! inference, a clearing-account closing matcher, and a stock-split
//! restatement transform.

pub mod bag;
pub mod booking;
pub mod closing;
pub mod number;
pub mod split;
pub mod types;
