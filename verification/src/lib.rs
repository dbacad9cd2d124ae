//! Blotto: armies compete over battlefields, and players back an army on a
//! battlefield by staking coins.
//!
//! The game's book-keeping lives in contract storage. Every operation is stated
//! as a function of what the storage holds before the call.
#![allow(unused_imports)]

pub mod accounts;
pub mod contract;
pub mod error;
pub mod laws;
pub mod ledger;
pub mod msg;
pub mod payment;
pub mod payout_laws;
pub mod payout_terms;
pub mod play_laws;
pub mod rules;
pub mod share;
pub mod state;
pub mod storage;
pub mod sums;
pub mod tally_laws;
pub mod tally_terms;
pub mod terms;
pub mod text;
pub mod walk;
