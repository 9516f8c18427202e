//! Account synchronization core of a ledger wallet: one sync cycle reconciles
//! the locally cached account with what the nodes report.
//!
//! The cycle is a sequence of decisions (`cycle`): it is told what happened
//! outside and answers with what to do next, so that clock, node, storage
//! and locks stay with the caller. Its parts are the throttle (`throttle`),
//! the address selector (`addresses`), the output fetcher (`outputs`), the
//! transaction reconciler (`transactions`), the account merger (`merge`)
//! and the balance (`balance`). What a merge and a whole sync keep true of
//! an account is proved in `invariants` and `full_sync`.

pub mod ids;
pub mod store;
pub mod types;
pub mod account;
pub mod merge;
pub mod throttle;
pub mod balance;
pub mod addresses;
pub mod outputs;
pub mod transactions;
pub mod cycle;
pub mod seqs;
pub mod invariants;
pub mod full_sync;
