//! Shared types: errors, subscriptions and their exported summaries.
use vstd::prelude::*;

use crate::address::Address;

verus! {

/// The errors that the vault's entry points report.
#[derive(Clone, Copy, Debug, PartialEq, Eq, Structural)]
pub enum Error {
    Unauthorized,
    Forbidden,
    NotFound,
    NotInitialized,
    NotActive,
    InvalidInput,
    InvalidExportLimit,
    EmergencyStopActive,
    MetadataKeyTooLong,
    MetadataValueTooLong,
    MetadataKeyLimitReached,
}

/// Lifecycle state of a subscription.
#[derive(Clone, Copy, Debug, PartialEq, Eq, Structural)]
pub enum SubscriptionStatus {
    Active,
    Paused,
    Cancelled,
    InsufficientBalance,
}

/// A subscription as the vault stores it.
#[derive(Clone, Copy, Debug, PartialEq, Eq, Structural)]
pub struct Subscription {
    pub subscriber: Address,
    pub merchant: Address,
    pub amount: i128,
    pub interval_seconds: u64,
    pub last_payment_timestamp: u64,
    pub status: SubscriptionStatus,
    pub prepaid_balance: i128,
    pub usage_enabled: bool,
    pub lifetime_cap: Option<i128>,
    pub lifetime_charged: i128,
}


/// A subscription as migration tooling exports it.
#[derive(Clone, Copy, Debug, PartialEq, Eq, Structural)]
pub struct SubscriptionSummary {
    pub subscription_id: u32,
    pub subscriber: Address,
    pub merchant: Address,
    pub amount: i128,
    pub interval_seconds: u64,
    pub last_payment_timestamp: u64,
    pub status: SubscriptionStatus,
    pub prepaid_balance: i128,
    pub usage_enabled: bool,
    pub lifetime_cap: Option<i128>,
    pub lifetime_charged: i128,
}

/// Contract-level configuration as migration tooling exports it.
#[derive(Clone, Copy, Debug, PartialEq, Eq, Structural)]
pub struct ContractSnapshot {
    pub admin: Address,
    pub token: Address,
    pub min_topup: i128,
    pub next_id: u32,
    pub storage_version: u32,
    pub timestamp: u64,
}

/// Published when contract-level configuration is exported.
#[derive(Clone, Copy, Debug, PartialEq, Eq, Structural)]
pub struct ContractSnapshotEvent {
    pub admin: Address,
    pub timestamp: u64,
}

/// Published when the emergency stop is switched on.
#[derive(Clone, Copy, Debug, PartialEq, Eq, Structural)]
pub struct EmergencyStopEnabledEvent {
    pub admin: Address,
    pub timestamp: u64,
}

/// Published when the emergency stop is switched off.
#[derive(Clone, Copy, Debug, PartialEq, Eq, Structural)]
pub struct EmergencyStopDisabledEvent {
    pub admin: Address,
    pub timestamp: u64,
}

/// Published when a merchant pauses all its subscriptions.
#[derive(Clone, Copy, Debug, PartialEq, Eq, Structural)]
pub struct MerchantPausedEvent {
    pub merchant: Address,
    pub timestamp: u64,
}

/// Published when a merchant lifts its merchant-wide pause.
#[derive(Clone, Copy, Debug, PartialEq, Eq, Structural)]
pub struct MerchantUnpausedEvent {
    pub merchant: Address,
    pub timestamp: u64,
}

/// Published when subscriptions are exported for migration.
#[derive(Clone, Copy, Debug, PartialEq, Eq, Structural)]
pub struct MigrationExportEvent {
    pub admin: Address,
    pub start_id: u32,
    pub limit: u32,
    pub exported: u32,
    pub timestamp: u64,
}

/// The exported summary of subscription `id`.
pub open spec fn summary_of(id: u32, s: Subscription) -> SubscriptionSummary {
    SubscriptionSummary {
        subscription_id: id,
        subscriber: s.subscriber,
        merchant: s.merchant,
        amount: s.amount,
        interval_seconds: s.interval_seconds,
        last_payment_timestamp: s.last_payment_timestamp,
        status: s.status,
        prepaid_balance: s.prepaid_balance,
        usage_enabled: s.usage_enabled,
        lifetime_cap: s.lifetime_cap,
        lifetime_charged: s.lifetime_charged,
    }
}

/// An exported summary carries the subscription's id and every field of the
/// stored subscription unchanged, and tells distinct subscriptions apart.
pub proof fn lemma_summary_carries_subscription(id: u32, s: Subscription, id2: u32, s2: Subscription)
    ensures
        summary_of(id, s).subscription_id == id,
        summary_of(id, s).subscriber == s.subscriber,
        summary_of(id, s).merchant == s.merchant,
        summary_of(id, s).amount == s.amount,
        summary_of(id, s).interval_seconds == s.interval_seconds,
        summary_of(id, s).last_payment_timestamp == s.last_payment_timestamp,
        summary_of(id, s).status == s.status,
        summary_of(id, s).prepaid_balance == s.prepaid_balance,
        summary_of(id, s).usage_enabled == s.usage_enabled,
        summary_of(id, s).lifetime_cap == s.lifetime_cap,
        summary_of(id, s).lifetime_charged == s.lifetime_charged,
        summary_of(id, s) == summary_of(id2, s2) <==> id == id2 && s == s2,
{
}

/// Builds the exported summary of subscription `id`.
pub fn summarize(id: u32, s: &Subscription) -> (r: SubscriptionSummary)
    ensures
        r == summary_of(id, *s),
        r.subscription_id == id,
        r.subscriber == s.subscriber,
        r.merchant == s.merchant,
        r.amount == s.amount,
        r.interval_seconds == s.interval_seconds,
        r.last_payment_timestamp == s.last_payment_timestamp,
        r.status == s.status,
        r.prepaid_balance == s.prepaid_balance,
        r.usage_enabled == s.usage_enabled,
        r.lifetime_cap == s.lifetime_cap,
        r.lifetime_charged == s.lifetime_charged,
{
    SubscriptionSummary {
        subscription_id: id,
        subscriber: s.subscriber,
        merchant: s.merchant,
        amount: s.amount,
        interval_seconds: s.interval_seconds,
        last_payment_timestamp: s.last_payment_timestamp,
        status: s.status,
        prepaid_balance: s.prepaid_balance,
        usage_enabled: s.usage_enabled,
        lifetime_cap: s.lifetime_cap,
        lifetime_charged: s.lifetime_charged,
    }
}

} // verus!
