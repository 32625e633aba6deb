//! Accounting core of an alliance liquid-staking hub.
//!
//! The hub issues a fungible stake denomination backed by native tokens
//! delegated across a set of validators.  This crate holds the verified
//! core: share-price accounting, the per-validator delegation ledger, the
//! batched unbonding pipeline with reconciliation under slashing, the
//! delegation strategies, and configuration and ownership handling.  The
//! host plumbing (message dispatch, persistence, balance queries) lives
//! outside and hands the transitions plain values.

pub mod arith;
pub mod batches;
pub mod coins;
pub mod hub;
pub mod laws;
pub mod ledger;
pub mod math;
pub mod state;
pub mod types;
