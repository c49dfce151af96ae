//! Prepaid subscription vault: the bookkeeping of a recurring-billing
//! contract, modelled over plain values.
//!
//! The contract's persistent state is the [`vault::SubscriptionVault`] value;
//! each entry point takes it, decides, updates it and hands back the events
//! that the host is to publish. Authentication, ledger time and event
//! publication are the host's business and stay outside this crate.
pub mod address;
pub mod billing_statements;
pub mod metadata;
pub mod seq_facts;
pub mod statements;
pub mod types;
pub mod vault;
