use subscription_vault::address::{Address, AddressKind};
use subscription_vault::billing_statements::{
    build_statement, contains_ref, get_statement, list_statements_by_merchant_time_range,
    list_statements_by_subscription, to_ref, upsert_statement, BillingStatement,
    BillingStatementBook, BillingStatementFinalization, BillingStatementInput, BillingStatementRef,
};
use subscription_vault::metadata::MetadataStore;
use subscription_vault::statements::StatementLedger;
use subscription_vault::types::{Error, SubscriptionStatus};
use subscription_vault::vault::{SubscriptionVault, VaultConfig};

fn acct(n: u128) -> Address {
    Address::new(AddressKind::Account, 0, n)
}

fn token() -> Address {
    Address::new(AddressKind::Contract, 1, 2)
}

fn vault_with_token(token: Option<Address>) -> SubscriptionVault {
    SubscriptionVault {
        config: VaultConfig {
            admin: None,
            token,
            min_topup: None,
            next_id: 0,
            emergency_stop: false,
            paused_merchants: Vec::new(),
        },
        subscriptions: Vec::new(),
        billing: BillingStatementBook {
            statements: Vec::new(),
            by_subscription: Vec::new(),
            by_merchant: Vec::new(),
        },
        ledger: StatementLedger { rows: Vec::new() },
        metadata: MetadataStore { entries: Vec::new() },
    }
}

fn input(subscription_id: u32, period_index: u32, merchant: Address, period_end: u64, charged: i128) -> BillingStatementInput {
    BillingStatementInput {
        subscription_id,
        period_index,
        merchant,
        subscriber: acct(99),
        period_start_timestamp: period_end - 100,
        period_end_timestamp: period_end,
        total_amount_charged: charged,
        total_usage_units: 3,
        protocol_fee_amount: 1,
        net_amount_to_merchant: charged - 1,
        refund_amount: 0,
        status_flags: 0,
        subscription_status: SubscriptionStatus::Active,
        finalized_by: BillingStatementFinalization::PeriodClosed,
        finalized_at: period_end + 1,
    }
}

fn stmt(v: &SubscriptionVault, subscription_id: u32, period_index: u32, merchant: Address, period_end: u64, charged: i128) -> BillingStatement {
    build_statement(v, input(subscription_id, period_index, merchant, period_end, charged)).unwrap()
}

fn keys(list: &[BillingStatement]) -> Vec<(u32, u32)> {
    list.iter().map(|s| (s.subscription_id, s.period_index)).collect()
}

#[test]
fn build_statement_needs_a_token() {
    let v = vault_with_token(None);
    assert_eq!(build_statement(&v, input(1, 0, acct(1), 500, 10)), Err(Error::NotInitialized));
}

#[test]
fn build_statement_copies_input_and_stamps_token() {
    let v = vault_with_token(Some(token()));
    let s = build_statement(&v, input(4, 6, acct(1), 500, 10)).unwrap();
    assert_eq!(s.token, token());
    assert_eq!(s.subscription_id, 4);
    assert_eq!(s.period_index, 6);
    assert_eq!(s.snapshot_period_index, 6);
    assert_eq!(s.period_start_timestamp, 400);
    assert_eq!(s.net_amount_to_merchant, 9);
    assert_eq!(s.finalized_at, 501);
}

#[test]
fn upsert_then_get_reads_back() {
    let mut v = vault_with_token(Some(token()));
    let s = stmt(&v, 1, 0, acct(1), 500, 10);
    assert_eq!(get_statement(&v, 1, 0), Err(Error::NotFound));
    let event = upsert_statement(&mut v, s);
    assert_eq!(event.subscription_id, 1);
    assert_eq!(event.period_index, 0);
    assert_eq!(event.merchant, acct(1));
    assert_eq!(event.finalized_by, BillingStatementFinalization::PeriodClosed);
    assert_eq!(get_statement(&v, 1, 0), Ok(s));
    assert_eq!(get_statement(&v, 1, 1), Err(Error::NotFound));
}

#[test]
fn upsert_replaces_and_does_not_list_twice() {
    let mut v = vault_with_token(Some(token()));
    let first = stmt(&v, 1, 0, acct(1), 500, 10);
    let second = stmt(&v, 1, 0, acct(1), 500, 25);
    upsert_statement(&mut v, first);
    upsert_statement(&mut v, second);
    assert_eq!(get_statement(&v, 1, 0).unwrap().total_amount_charged, 25);
    assert_eq!(v.billing.by_subscription.len(), 1);
    assert_eq!(v.billing.by_merchant.len(), 1);
    let listed = list_statements_by_subscription(&v, 1, 0, 10);
    assert_eq!(listed, vec![second]);
}

#[test]
fn list_by_subscription_pages_in_write_order() {
    let mut v = vault_with_token(Some(token()));
    for p in [2u32, 0, 1] {
        let s = stmt(&v, 1, p, acct(1), 100 * (p as u64 + 1), 10);
        upsert_statement(&mut v, s);
    }
    let s = stmt(&v, 2, 0, acct(1), 100, 10);
    upsert_statement(&mut v, s);
    assert_eq!(keys(&list_statements_by_subscription(&v, 1, 0, 10)), vec![(1, 2), (1, 0), (1, 1)]);
    assert_eq!(keys(&list_statements_by_subscription(&v, 1, 1, 1)), vec![(1, 0)]);
    assert_eq!(keys(&list_statements_by_subscription(&v, 1, 2, 5)), vec![(1, 1)]);
    assert!(list_statements_by_subscription(&v, 1, 3, 5).is_empty());
    assert!(list_statements_by_subscription(&v, 1, 0, 0).is_empty());
    assert_eq!(keys(&list_statements_by_subscription(&v, 2, 0, 5)), vec![(2, 0)]);
    assert!(list_statements_by_subscription(&v, 3, 0, 5).is_empty());
}

#[test]
fn list_by_merchant_filters_by_period_end() {
    let mut v = vault_with_token(Some(token()));
    let a = acct(1);
    let b = acct(2);
    for (sub, p, m, end) in [(1u32, 0u32, a, 100u64), (1, 1, a, 200), (2, 0, b, 150), (3, 0, a, 300), (3, 1, a, 400)] {
        let s = stmt(&v, sub, p, m, end, 10);
        upsert_statement(&mut v, s);
    }
    assert_eq!(keys(&list_statements_by_merchant_time_range(&v, a, 150, 350, 0, 10)), vec![(1, 1), (3, 0)]);
    assert_eq!(keys(&list_statements_by_merchant_time_range(&v, a, 0, 1000, 1, 2)), vec![(1, 1), (3, 0)]);
    assert_eq!(keys(&list_statements_by_merchant_time_range(&v, a, 100, 100, 0, 10)), vec![(1, 0)]);
    assert!(list_statements_by_merchant_time_range(&v, a, 0, 1000, 4, 10).is_empty());
    assert!(list_statements_by_merchant_time_range(&v, a, 0, 1000, 0, 0).is_empty());
    assert_eq!(keys(&list_statements_by_merchant_time_range(&v, b, 0, 1000, 0, 10)), vec![(2, 0)]);
}

#[test]
fn merchant_index_keeps_first_period_end() {
    let mut v = vault_with_token(Some(token()));
    let first = stmt(&v, 1, 0, acct(1), 100, 10);
    let moved = stmt(&v, 1, 0, acct(1), 900, 10);
    upsert_statement(&mut v, first);
    upsert_statement(&mut v, moved);
    // the index still holds the period end of the first write
    assert_eq!(keys(&list_statements_by_merchant_time_range(&v, acct(1), 50, 150, 0, 10)), vec![(1, 0)]);
    assert!(list_statements_by_merchant_time_range(&v, acct(1), 850, 950, 0, 10).is_empty());
}

#[test]
fn refs_and_contains_ref() {
    let v = vault_with_token(Some(token()));
    let s = stmt(&v, 5, 3, acct(1), 700, 10);
    let r = to_ref(&s);
    assert_eq!(r, BillingStatementRef { subscription_id: 5, period_index: 3, period_end_timestamp: 700 });
    let other_time = BillingStatementRef { subscription_id: 5, period_index: 3, period_end_timestamp: 1 };
    let other_period = BillingStatementRef { subscription_id: 5, period_index: 4, period_end_timestamp: 700 };
    assert!(contains_ref(&vec![other_period, other_time], &r));
    assert!(!contains_ref(&vec![other_period], &r));
    assert!(!contains_ref(&Vec::new(), &r));
}

#[test]
fn widening_the_window_keeps_every_statement() {
    let mut v = vault_with_token(Some(token()));
    let m = acct(1);
    for (p, end) in [(0u32, 100u64), (1, 200), (2, 300), (3, 400), (4, 500)] {
        let s = stmt(&v, 1, p, m, end, 10);
        upsert_statement(&mut v, s);
    }
    let narrow = keys(&list_statements_by_merchant_time_range(&v, m, 200, 300, 0, u32::MAX));
    let wide = keys(&list_statements_by_merchant_time_range(&v, m, 100, 450, 0, u32::MAX));
    assert_eq!(narrow, vec![(1, 1), (1, 2)]);
    assert_eq!(wide, vec![(1, 0), (1, 1), (1, 2), (1, 3)]);
    assert!(list_statements_by_merchant_time_range(&v, m, 301, 299, 0, u32::MAX).is_empty());
}

#[test]
fn every_written_period_listed_once_with_latest_version() {
    let mut v = vault_with_token(Some(token()));
    let m = acct(1);
    for (p, charged) in [(0u32, 1i128), (1, 2), (0, 3), (2, 4), (1, 5), (0, 6)] {
        let s = stmt(&v, 1, p, m, 100 + p as u64, charged);
        upsert_statement(&mut v, s);
    }
    let listed = list_statements_by_subscription(&v, 1, 0, u32::MAX);
    assert_eq!(keys(&listed), vec![(1, 0), (1, 1), (1, 2)]);
    let charged: Vec<i128> = listed.iter().map(|s| s.total_amount_charged).collect();
    assert_eq!(charged, vec![6, 5, 4]);
    let by_merchant = keys(&list_statements_by_merchant_time_range(&v, m, 0, u64::MAX, 0, u32::MAX));
    assert_eq!(by_merchant, vec![(1, 0), (1, 1), (1, 2)]);
}

#[test]
fn repeating_an_upsert_changes_neither_list() {
    let mut v = vault_with_token(Some(token()));
    let m = acct(1);
    let a = stmt(&v, 1, 0, m, 100, 10);
    let b = stmt(&v, 2, 0, m, 200, 20);
    upsert_statement(&mut v, a);
    upsert_statement(&mut v, b);
    let by_sub = list_statements_by_subscription(&v, 1, 0, 10);
    let by_merchant = list_statements_by_merchant_time_range(&v, m, 0, 1000, 0, 10);
    upsert_statement(&mut v, a);
    assert_eq!(list_statements_by_subscription(&v, 1, 0, 10), by_sub);
    assert_eq!(list_statements_by_merchant_time_range(&v, m, 0, 1000, 0, 10), by_merchant);
    assert_eq!(get_statement(&v, 1, 0), Ok(a));
    assert_eq!(v.billing.statements.len(), 2);
}
