//! Transactional, linear (non-branching) version history for keyed values.
//!
//! A session owns one shared [`States`] stack of transaction layers; each key
//! owns an independent [`History`]: an ordered sequence of `(value, layer)`
//! entries.  Reads resolve the newest entry whose layer is still live, writes
//! compact the sequence so that at most one entry per open transaction scope
//! survives, and the stack supports nested begin/commit/rollback transactions
//! plus a separate committed/prospective durability boundary.

pub mod history;
pub mod laws;
pub mod states;

pub use history::{History, HistoriedValue};
pub use states::{find_previous_tx_start, States, TransactionState};
