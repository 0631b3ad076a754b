//! A shared canvas of 362 by 362 cells, four bits each, painted one cell or one batch at
//! a time. Cells are packed two to a byte; every placement is recorded in an append-only
//! ledger, and each principal's painted-cell count is kept in a registry ordered by first
//! paint.
//!
//! Authentication of callers and their payment balance come from outside: each mutating
//! operation takes whether the caller proved its identity and its spendable balance.

pub mod codec;
pub mod contract;
pub mod laws;
pub mod state;
pub mod types;

pub use contract::Contract;
pub use types::{Error, LeaderboardEntry, PixelInfo, Principal};
