//! Staking contract: the on-chain state object that governs validator stake
//! for an epoch-based proof-of-stake chain.
//!
//! The contract keeps three coordinated tables (balance-sorted active stakes,
//! active stake by address, inactive stake by address) plus two rolling
//! parking sets for slashed stakers.  Every commit of a transaction side or
//! inherent produces a compact receipt from which the exact prior state can be
//! restored, and the whole state has a canonical byte encoding.

pub mod types;
pub mod seqs;
pub mod contract;
pub mod codec;
pub mod engine;
pub mod select;
pub mod laws;
