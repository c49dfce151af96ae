use subscription_vault::address::{Address, AddressKind};
use subscription_vault::billing_statements::BillingStatementBook;
use subscription_vault::metadata::MetadataStore;
use subscription_vault::statements::StatementLedger;
use subscription_vault::types::{Error, Subscription, SubscriptionStatus};
use subscription_vault::vault::{
    require_admin_auth, require_not_emergency_stop, SubscriptionRecord, SubscriptionVault,
    VaultConfig, MAX_EXPORT_LIMIT, STORAGE_VERSION,
};

fn admin() -> Address {
    Address::new(AddressKind::Account, 0, 100)
}

fn intruder() -> Address {
    Address::new(AddressKind::Account, 0, 101)
}

fn token() -> Address {
    Address::new(AddressKind::Contract, 5, 5)
}

fn merchant(n: u128) -> Address {
    Address::new(AddressKind::Account, 1, n)
}

fn sub(amount: i128) -> Subscription {
    Subscription {
        subscriber: Address::new(AddressKind::Account, 2, amount as u128),
        merchant: merchant(1),
        amount,
        interval_seconds: 60,
        last_payment_timestamp: 10,
        status: SubscriptionStatus::Active,
        prepaid_balance: 3 * amount,
        usage_enabled: true,
        lifetime_cap: Some(10 * amount),
        lifetime_charged: amount,
    }
}

fn vault(admin: Option<Address>) -> SubscriptionVault {
    SubscriptionVault {
        config: VaultConfig {
            admin,
            token: Some(token()),
            min_topup: Some(1_000_000),
            next_id: 5,
            emergency_stop: false,
            paused_merchants: Vec::new(),
        },
        // ids 0, 2, 3 exist; 1 and 4 do not
        subscriptions: vec![
            SubscriptionRecord { id: 0, subscription: sub(10) },
            SubscriptionRecord { id: 3, subscription: sub(30) },
            SubscriptionRecord { id: 2, subscription: sub(20) },
        ],
        billing: BillingStatementBook {
            statements: Vec::new(),
            by_subscription: Vec::new(),
            by_merchant: Vec::new(),
        },
        ledger: StatementLedger { rows: Vec::new() },
        metadata: MetadataStore { entries: Vec::new() },
    }
}

#[test]
fn admin_checks() {
    assert_eq!(require_admin_auth(&vault(None), &admin()), Err(Error::NotInitialized));
    assert_eq!(require_admin_auth(&vault(Some(admin())), &intruder()), Err(Error::Unauthorized));
    assert_eq!(require_admin_auth(&vault(Some(admin())), &admin()), Ok(()));
}

#[test]
fn emergency_stop_toggles_once() {
    let mut v = vault(Some(admin()));
    assert!(!v.get_emergency_stop_status());
    assert_eq!(require_not_emergency_stop(&v), Ok(()));
    let ev = v.enable_emergency_stop(admin(), 77).unwrap().unwrap();
    assert_eq!(ev.admin, admin());
    assert_eq!(ev.timestamp, 77);
    assert!(v.get_emergency_stop_status());
    assert_eq!(require_not_emergency_stop(&v), Err(Error::EmergencyStopActive));
    assert_eq!(v.enable_emergency_stop(admin(), 78), Ok(None));
    let ev = v.disable_emergency_stop(admin(), 79).unwrap().unwrap();
    assert_eq!(ev.timestamp, 79);
    assert!(!v.get_emergency_stop_status());
    assert_eq!(v.disable_emergency_stop(admin(), 80), Ok(None));
}

#[test]
fn emergency_stop_is_admin_only() {
    let mut v = vault(Some(admin()));
    assert_eq!(v.enable_emergency_stop(intruder(), 1), Err(Error::Unauthorized));
    assert!(!v.get_emergency_stop_status());
    v.enable_emergency_stop(admin(), 1).unwrap();
    assert_eq!(v.disable_emergency_stop(intruder(), 2), Err(Error::Unauthorized));
    assert!(v.get_emergency_stop_status());
}

#[test]
fn merchant_pause_is_per_merchant() {
    let mut v = vault(Some(admin()));
    let ev = v.pause_merchant(merchant(1), 5).unwrap().unwrap();
    assert_eq!(ev.merchant, merchant(1));
    assert_eq!(ev.timestamp, 5);
    assert!(v.get_merchant_paused(merchant(1)));
    assert!(!v.get_merchant_paused(merchant(2)));
    assert_eq!(v.pause_merchant(merchant(1), 6), Ok(None));
    v.pause_merchant(merchant(2), 7).unwrap();
    let ev = v.unpause_merchant(merchant(1), 8).unwrap().unwrap();
    assert_eq!(ev.merchant, merchant(1));
    assert_eq!(ev.timestamp, 8);
    assert!(!v.get_merchant_paused(merchant(1)));
    assert!(v.get_merchant_paused(merchant(2)));
    assert_eq!(v.unpause_merchant(merchant(1), 9), Ok(None));
}

#[test]
fn contract_snapshot() {
    let v = vault(Some(admin()));
    let (snap, event) = v.export_contract_snapshot(admin(), 1234).unwrap();
    assert_eq!(event.admin, admin());
    assert_eq!(event.timestamp, 1234);
    assert_eq!(snap.admin, admin());
    assert_eq!(snap.token, token());
    assert_eq!(snap.min_topup, 1_000_000);
    assert_eq!(snap.next_id, 5);
    assert_eq!(snap.storage_version, STORAGE_VERSION);
    assert_eq!(snap.storage_version, 2);
    assert_eq!(snap.timestamp, 1234);
    assert_eq!(v.export_contract_snapshot(intruder(), 1).err(), Some(Error::Unauthorized));
    let mut no_token = vault(Some(admin()));
    no_token.config.token = None;
    assert_eq!(no_token.export_contract_snapshot(admin(), 1).err(), Some(Error::NotFound));
    let mut no_topup = vault(Some(admin()));
    no_topup.config.min_topup = None;
    assert_eq!(no_topup.export_contract_snapshot(admin(), 1).err(), Some(Error::NotInitialized));
}

#[test]
fn single_summary_export() {
    let v = vault(Some(admin()));
    let (summary, event) = v.export_subscription_summary(admin(), 3, 50).unwrap();
    assert_eq!(summary.subscription_id, 3);
    assert_eq!(summary.amount, 30);
    assert_eq!(summary.prepaid_balance, 90);
    assert_eq!(summary.lifetime_cap, Some(300));
    assert_eq!(summary.merchant, merchant(1));
    assert_eq!((event.start_id, event.limit, event.exported, event.timestamp), (3, 1, 1, 50));
    assert_eq!(v.export_subscription_summary(admin(), 1, 50).err(), Some(Error::NotFound));
    assert_eq!(v.export_subscription_summary(intruder(), 3, 50).err(), Some(Error::Unauthorized));
}

#[test]
fn summaries_export_skips_gaps() {
    let v = vault(Some(admin()));
    let (summaries, event) = v.export_subscription_summaries(admin(), 0, 10, 9).unwrap();
    let ids: Vec<u32> = summaries.iter().map(|s| s.subscription_id).collect();
    assert_eq!(ids, vec![0, 2, 3]);
    let event = event.unwrap();
    assert_eq!((event.start_id, event.limit, event.exported, event.timestamp), (0, 10, 3, 9));
    let (summaries, event) = v.export_subscription_summaries(admin(), 1, 2, 9).unwrap();
    let ids: Vec<u32> = summaries.iter().map(|s| s.subscription_id).collect();
    assert_eq!(ids, vec![2]);
    assert_eq!(event.unwrap().exported, 1);
}

#[test]
fn summaries_export_limits() {
    let v = vault(Some(admin()));
    assert_eq!(
        v.export_subscription_summaries(admin(), 0, MAX_EXPORT_LIMIT + 1, 1).err(),
        Some(Error::InvalidExportLimit)
    );
    let (s, e) = v.export_subscription_summaries(admin(), 0, 0, 1).unwrap();
    assert!(s.is_empty() && e.is_none());
    let (s, e) = v.export_subscription_summaries(admin(), 5, 10, 1).unwrap();
    assert!(s.is_empty() && e.is_none());
    assert_eq!(v.export_subscription_summaries(intruder(), 0, 1, 1).err(), Some(Error::Unauthorized));
}

#[test]
fn summaries_export_saturates_near_the_top_id() {
    let mut v = vault(Some(admin()));
    v.config.next_id = u32::MAX;
    v.subscriptions.push(SubscriptionRecord { id: u32::MAX - 1, subscription: sub(40) });
    let (summaries, event) = v.export_subscription_summaries(admin(), u32::MAX - 2, 100, 1).unwrap();
    let ids: Vec<u32> = summaries.iter().map(|s| s.subscription_id).collect();
    assert_eq!(ids, vec![u32::MAX - 1]);
    assert_eq!(event.unwrap().exported, 1);
}

#[test]
fn empty_vault_has_nothing_configured() {
    let v = SubscriptionVault::empty();
    assert_eq!(v.get_subscription_count(), 0);
    assert!(!v.get_emergency_stop_status());
    assert_eq!(require_admin_auth(&v, &admin()), Err(Error::NotInitialized));
    assert_eq!(v.get_subscription(0), Err(Error::NotFound));
}

#[test]
fn lookups_and_counts() {
    let v = vault(Some(admin()));
    assert_eq!(v.get_subscription_count(), 5);
    assert_eq!(v.get_subscription(2).unwrap().amount, 20);
    assert_eq!(v.get_subscription(4), Err(Error::NotFound));
}
