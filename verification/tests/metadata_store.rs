use subscription_vault::address::{Address, AddressKind};
use subscription_vault::billing_statements::BillingStatementBook;
use subscription_vault::metadata::{
    do_delete_metadata, do_get_metadata, do_list_metadata_keys, do_set_metadata, MetadataStore,
    MAX_METADATA_KEYS,
};
use subscription_vault::statements::StatementLedger;
use subscription_vault::types::{Error, Subscription, SubscriptionStatus};
use subscription_vault::vault::{SubscriptionRecord, SubscriptionVault, VaultConfig};

fn subscriber() -> Address {
    Address::new(AddressKind::Account, 0, 1)
}

fn merchant() -> Address {
    Address::new(AddressKind::Account, 0, 2)
}

fn stranger() -> Address {
    Address::new(AddressKind::Account, 0, 3)
}

fn sub(status: SubscriptionStatus) -> Subscription {
    Subscription {
        subscriber: subscriber(),
        merchant: merchant(),
        amount: 500,
        interval_seconds: 2_592_000,
        last_payment_timestamp: 0,
        status,
        prepaid_balance: 1500,
        usage_enabled: false,
        lifetime_cap: None,
        lifetime_charged: 0,
    }
}

/// Subscription 0 is active, 1 is cancelled.
fn vault() -> SubscriptionVault {
    SubscriptionVault {
        config: VaultConfig {
            admin: None,
            token: None,
            min_topup: None,
            next_id: 2,
            emergency_stop: false,
            paused_merchants: Vec::new(),
        },
        subscriptions: vec![
            SubscriptionRecord { id: 0, subscription: sub(SubscriptionStatus::Active) },
            SubscriptionRecord { id: 1, subscription: sub(SubscriptionStatus::Cancelled) },
        ],
        billing: BillingStatementBook {
            statements: Vec::new(),
            by_subscription: Vec::new(),
            by_merchant: Vec::new(),
        },
        ledger: StatementLedger { rows: Vec::new() },
        metadata: MetadataStore { entries: Vec::new() },
    }
}

fn b(s: &str) -> Vec<u8> {
    s.as_bytes().to_vec()
}

#[test]
fn set_then_get_and_list() {
    let mut v = vault();
    let ev = do_set_metadata(&mut v, 0, &subscriber(), b("invoice"), b("INV-1")).unwrap();
    assert_eq!(ev.subscription_id, 0);
    assert_eq!(ev.key, b("invoice"));
    assert_eq!(ev.authorizer, subscriber());
    do_set_metadata(&mut v, 0, &merchant(), b("tag"), b("gold")).unwrap();
    assert_eq!(do_get_metadata(&v, 0, b("invoice")), Ok(b("INV-1")));
    assert_eq!(do_get_metadata(&v, 0, b("tag")), Ok(b("gold")));
    assert_eq!(do_list_metadata_keys(&v, 0), Ok(vec![b("invoice"), b("tag")]));
}

#[test]
fn update_keeps_key_order() {
    let mut v = vault();
    do_set_metadata(&mut v, 0, &subscriber(), b("a"), b("1")).unwrap();
    do_set_metadata(&mut v, 0, &subscriber(), b("b"), b("2")).unwrap();
    do_set_metadata(&mut v, 0, &subscriber(), b("a"), b("3")).unwrap();
    assert_eq!(do_list_metadata_keys(&v, 0), Ok(vec![b("a"), b("b")]));
    assert_eq!(do_get_metadata(&v, 0, b("a")), Ok(b("3")));
}

#[test]
fn delete_removes_key_and_value() {
    let mut v = vault();
    do_set_metadata(&mut v, 0, &subscriber(), b("a"), b("1")).unwrap();
    do_set_metadata(&mut v, 0, &subscriber(), b("b"), b("2")).unwrap();
    let ev = do_delete_metadata(&mut v, 0, &merchant(), b("a")).unwrap();
    assert_eq!(ev.key, b("a"));
    assert_eq!(ev.authorizer, merchant());
    assert_eq!(do_get_metadata(&v, 0, b("a")), Err(Error::NotFound));
    assert_eq!(do_list_metadata_keys(&v, 0), Ok(vec![b("b")]));
    assert_eq!(do_delete_metadata(&mut v, 0, &merchant(), b("a")).err(), Some(Error::NotFound));
}

#[test]
fn strangers_are_forbidden() {
    let mut v = vault();
    assert_eq!(do_set_metadata(&mut v, 0, &stranger(), b("a"), b("1")).err(), Some(Error::Forbidden));
    do_set_metadata(&mut v, 0, &subscriber(), b("a"), b("1")).unwrap();
    assert_eq!(do_delete_metadata(&mut v, 0, &stranger(), b("a")).err(), Some(Error::Forbidden));
    assert_eq!(do_get_metadata(&v, 0, b("a")), Ok(b("1")));
}

#[test]
fn missing_subscription_is_not_found() {
    let mut v = vault();
    assert_eq!(do_set_metadata(&mut v, 7, &subscriber(), b("a"), b("1")).err(), Some(Error::NotFound));
    assert_eq!(do_delete_metadata(&mut v, 7, &subscriber(), b("a")).err(), Some(Error::NotFound));
    assert_eq!(do_get_metadata(&v, 7, b("a")), Err(Error::NotFound));
    assert_eq!(do_list_metadata_keys(&v, 7), Err(Error::NotFound));
    assert_eq!(do_list_metadata_keys(&v, 0), Ok(Vec::new()));
}

#[test]
fn cancelled_subscriptions_take_no_new_metadata() {
    let mut v = vault();
    assert_eq!(do_set_metadata(&mut v, 1, &subscriber(), b("a"), b("1")).err(), Some(Error::NotActive));
}

#[test]
fn key_and_value_sizes_are_bounded() {
    let mut v = vault();
    assert_eq!(do_set_metadata(&mut v, 0, &subscriber(), Vec::new(), b("1")).err(), Some(Error::MetadataKeyTooLong));
    assert_eq!(do_set_metadata(&mut v, 0, &subscriber(), vec![b'k'; 33], b("1")).err(), Some(Error::MetadataKeyTooLong));
    assert!(do_set_metadata(&mut v, 0, &subscriber(), vec![b'k'; 32], b("1")).is_ok());
    assert_eq!(do_set_metadata(&mut v, 0, &subscriber(), b("v"), vec![0u8; 257]).err(), Some(Error::MetadataValueTooLong));
    assert!(do_set_metadata(&mut v, 0, &subscriber(), b("v"), vec![0u8; 256]).is_ok());
}

#[test]
fn key_count_is_bounded() {
    let mut v = vault();
    for i in 0..MAX_METADATA_KEYS {
        do_set_metadata(&mut v, 0, &subscriber(), format!("k{}", i).into_bytes(), b("x")).unwrap();
    }
    assert_eq!(
        do_set_metadata(&mut v, 0, &subscriber(), b("one-more"), b("x")).err(),
        Some(Error::MetadataKeyLimitReached)
    );
    // updating an existing key is still allowed at the limit
    assert!(do_set_metadata(&mut v, 0, &subscriber(), b("k3"), b("y")).is_ok());
    assert_eq!(do_list_metadata_keys(&v, 0).unwrap().len(), 10);
}

#[test]
fn metadata_leaves_financial_state_alone() {
    let mut v = vault();
    let before = v.subscriptions.clone();
    do_set_metadata(&mut v, 0, &subscriber(), b("a"), b("1")).unwrap();
    do_delete_metadata(&mut v, 0, &subscriber(), b("a")).unwrap();
    assert_eq!(v.subscriptions, before);
}

#[test]
fn subscriptions_keep_separate_metadata() {
    let mut v = vault();
    v.subscriptions[1].subscription.status = SubscriptionStatus::Paused;
    do_set_metadata(&mut v, 0, &subscriber(), b("a"), b("zero")).unwrap();
    do_set_metadata(&mut v, 1, &subscriber(), b("a"), b("one")).unwrap();
    assert_eq!(do_get_metadata(&v, 0, b("a")), Ok(b("zero")));
    assert_eq!(do_get_metadata(&v, 1, b("a")), Ok(b("one")));
    do_delete_metadata(&mut v, 1, &subscriber(), b("a")).unwrap();
    assert_eq!(do_get_metadata(&v, 0, b("a")), Ok(b("zero")));
}
