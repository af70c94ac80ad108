//! Validator performance scoring over a replayed ledger.
//!
//! The crate ranks validators in three categories -- confirmation latency,
//! weighted availability, and rewards earned -- and simulates stake
//! warm-up/cool-down convergence for orchestration timing.  All scoring is
//! pure computation over plain values; ledger replay, RPC transport and
//! display formatting live outside the library.

pub mod account;
pub mod availability;
pub mod confirmation_latency;
pub mod keymap;
pub mod rewards_earned;
pub mod rounds;
pub mod score;
pub mod slack;
pub mod slots;
pub mod stake;
pub mod utils;
pub mod winner;
