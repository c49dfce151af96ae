use subscription_vault::address::{Address, AddressKind};
use subscription_vault::billing_statements::BillingStatementBook;
use subscription_vault::metadata::MetadataStore;
use subscription_vault::statements::{
    append_statement, get_statements_by_subscription_cursor, get_statements_by_subscription_offset,
    get_total_statements, BillingChargeKind, StatementLedger,
};
use subscription_vault::types::Error;
use subscription_vault::vault::{SubscriptionVault, VaultConfig};

fn merchant() -> Address {
    Address::new(AddressKind::Account, 7, 7)
}

fn empty_vault() -> SubscriptionVault {
    SubscriptionVault {
        config: VaultConfig {
            admin: None,
            token: None,
            min_topup: None,
            next_id: 0,
            emergency_stop: false,
            paused_merchants: Vec::new(),
        },
        subscriptions: Vec::new(),
        billing: BillingStatementBook {
            statements: Vec::new(),
            by_subscription: Vec::new(),
            by_merchant: Vec::new(),
        },
        ledger: StatementLedger { rows: Vec::new() },
        metadata: MetadataStore { entries: Vec::new() },
    }
}

/// Five charges on subscription 1 (amounts 100..=104, charged at 1000..=1004),
/// interleaved with two on subscription 2.
fn vault_with_history() -> SubscriptionVault {
    let mut v = empty_vault();
    for k in 0..5u64 {
        append_statement(&mut v, 1, 100 + k as i128, merchant(), BillingChargeKind::Interval, k * 10, k * 10 + 10, 1000 + k);
        if k < 2 {
            append_statement(&mut v, 2, 7, merchant(), BillingChargeKind::Usage, 0, 0, 2000 + k);
        }
    }
    v
}

fn sequences(page: &[subscription_vault::statements::BillingStatement]) -> Vec<u32> {
    page.iter().map(|s| s.sequence).collect()
}

#[test]
fn append_numbers_each_subscription_from_zero() {
    let v = vault_with_history();
    assert_eq!(get_total_statements(&v, 1), 5);
    assert_eq!(get_total_statements(&v, 2), 2);
    assert_eq!(get_total_statements(&v, 3), 0);
    let page = get_statements_by_subscription_offset(&v, 1, 0, 10, false).unwrap();
    assert_eq!(sequences(&page.statements), vec![0, 1, 2, 3, 4]);
    assert_eq!(page.statements[3].amount, 103);
    assert_eq!(page.statements[3].charged_at, 1003);
    assert_eq!(page.statements[3].kind, BillingChargeKind::Interval);
    let other = get_statements_by_subscription_offset(&v, 2, 0, 10, false).unwrap();
    assert_eq!(sequences(&other.statements), vec![0, 1]);
    assert_eq!(other.statements[1].charged_at, 2001);
}

#[test]
fn offset_pages_oldest_first() {
    let v = vault_with_history();
    let p = get_statements_by_subscription_offset(&v, 1, 0, 2, false).unwrap();
    assert_eq!(sequences(&p.statements), vec![0, 1]);
    assert_eq!(p.next_cursor, Some(2));
    assert_eq!(p.total, 5);
    let p = get_statements_by_subscription_offset(&v, 1, 4, 2, false).unwrap();
    assert_eq!(sequences(&p.statements), vec![4]);
    assert_eq!(p.next_cursor, None);
}

#[test]
fn offset_pages_newest_first() {
    let v = vault_with_history();
    let p = get_statements_by_subscription_offset(&v, 1, 0, 2, true).unwrap();
    assert_eq!(sequences(&p.statements), vec![4, 3]);
    assert_eq!(p.next_cursor, Some(2));
    let p = get_statements_by_subscription_offset(&v, 1, 3, 5, true).unwrap();
    assert_eq!(sequences(&p.statements), vec![1, 0]);
    assert_eq!(p.next_cursor, None);
}

#[test]
fn offset_past_the_end_or_empty_history() {
    let v = vault_with_history();
    let p = get_statements_by_subscription_offset(&v, 1, 5, 2, false).unwrap();
    assert!(p.statements.is_empty());
    assert_eq!(p.next_cursor, None);
    assert_eq!(p.total, 5);
    let p = get_statements_by_subscription_offset(&v, 9, 0, 2, true).unwrap();
    assert!(p.statements.is_empty());
    assert_eq!(p.total, 0);
}

#[test]
fn zero_limit_is_invalid_input() {
    let v = vault_with_history();
    assert_eq!(get_statements_by_subscription_offset(&v, 1, 0, 0, false).err(), Some(Error::InvalidInput));
    assert_eq!(get_statements_by_subscription_cursor(&v, 1, None, 0, true).err(), Some(Error::InvalidInput));
}

#[test]
fn cursor_pages_newest_first_follow_the_cursor() {
    let v = vault_with_history();
    let first = get_statements_by_subscription_cursor(&v, 1, None, 2, true).unwrap();
    assert_eq!(sequences(&first.statements), vec![4, 3]);
    assert_eq!(first.next_cursor, Some(2));
    let second = get_statements_by_subscription_cursor(&v, 1, first.next_cursor, 2, true).unwrap();
    assert_eq!(sequences(&second.statements), vec![2, 1]);
    assert_eq!(second.next_cursor, Some(0));
    let third = get_statements_by_subscription_cursor(&v, 1, second.next_cursor, 2, true).unwrap();
    assert_eq!(sequences(&third.statements), vec![0]);
    assert_eq!(third.next_cursor, None);
}

#[test]
fn cursor_pages_oldest_first_follow_the_cursor() {
    let v = vault_with_history();
    let first = get_statements_by_subscription_cursor(&v, 1, None, 3, false).unwrap();
    assert_eq!(sequences(&first.statements), vec![0, 1, 2]);
    assert_eq!(first.next_cursor, Some(3));
    let second = get_statements_by_subscription_cursor(&v, 1, first.next_cursor, 3, false).unwrap();
    assert_eq!(sequences(&second.statements), vec![3, 4]);
    assert_eq!(second.next_cursor, None);
}

#[test]
fn cursor_past_the_end_is_empty() {
    let v = vault_with_history();
    let p = get_statements_by_subscription_cursor(&v, 1, Some(5), 3, true).unwrap();
    assert!(p.statements.is_empty());
    assert_eq!(p.next_cursor, None);
    assert_eq!(p.total, 5);
}

#[test]
fn offset_and_cursor_pages_agree() {
    let v = vault_with_history();
    for newest_first in [false, true] {
        for offset in 0..5u32 {
            for limit in 1..6u32 {
                let a = get_statements_by_subscription_offset(&v, 1, offset, limit, newest_first).unwrap();
                let cursor = if newest_first { 4 - offset } else { offset };
                let b = get_statements_by_subscription_cursor(&v, 1, Some(cursor), limit, newest_first).unwrap();
                assert_eq!(a.statements, b.statements);
                assert_eq!(a.next_cursor, b.next_cursor);
            }
        }
    }
}

#[test]
fn newest_first_pages_are_stable_under_appends() {
    let mut v = vault_with_history();
    let before = get_statements_by_subscription_cursor(&v, 1, Some(3), 2, true).unwrap();
    append_statement(&mut v, 1, 999, merchant(), BillingChargeKind::OneOff, 0, 0, 5000);
    let after = get_statements_by_subscription_cursor(&v, 1, Some(3), 2, true).unwrap();
    assert_eq!(before.statements, after.statements);
    assert_eq!(before.next_cursor, after.next_cursor);
    assert_eq!(after.total, 6);
    let newest = get_statements_by_subscription_cursor(&v, 1, None, 1, true).unwrap();
    assert_eq!(newest.statements[0].sequence, 5);
    assert_eq!(newest.statements[0].amount, 999);
    assert_eq!(newest.statements[0].kind, BillingChargeKind::OneOff);
}

#[test]
fn following_cursors_visits_every_row_once() {
    let v = vault_with_history();
    for newest_first in [false, true] {
        for limit in 1..7u32 {
            let mut seen = Vec::new();
            let mut pages = 0u32;
            let mut cursor = None;
            loop {
                let page = get_statements_by_subscription_cursor(&v, 1, cursor, limit, newest_first).unwrap();
                pages += 1;
                seen.extend(sequences(&page.statements));
                match page.next_cursor {
                    Some(c) => cursor = Some(c),
                    None => break,
                }
            }
            let mut expected: Vec<u32> = (0..5).collect();
            if newest_first {
                expected.reverse();
            }
            assert_eq!(seen, expected);
            assert_eq!(pages, (5 + limit - 1) / limit);
        }
    }
}

#[test]
fn pages_are_stable_over_several_appends() {
    let mut v = vault_with_history();
    let newest = get_statements_by_subscription_cursor(&v, 1, Some(3), 2, true).unwrap();
    let oldest = get_statements_by_subscription_cursor(&v, 1, Some(3), 4, false).unwrap();
    for k in 0..3u64 {
        append_statement(&mut v, 1, 500, merchant(), BillingChargeKind::Usage, 0, 0, 6000 + k);
    }
    let newest_after = get_statements_by_subscription_cursor(&v, 1, Some(3), 2, true).unwrap();
    let oldest_after = get_statements_by_subscription_cursor(&v, 1, Some(3), 4, false).unwrap();
    assert_eq!(newest_after.total, newest.total + 3);
    assert_eq!(newest_after.statements, newest.statements);
    assert_eq!(newest_after.next_cursor, newest.next_cursor);
    assert_eq!(oldest.statements.len(), 2);
    assert_eq!(&oldest_after.statements[..2], &oldest.statements[..]);
    assert_eq!(sequences(&oldest_after.statements), vec![3, 4, 5, 6]);
}

#[test]
fn offset_cursor_continues_as_next_offset_page() {
    let v = vault_with_history();
    for newest_first in [false, true] {
        let first = get_statements_by_subscription_offset(&v, 1, 0, 2, newest_first).unwrap();
        let c = first.next_cursor.unwrap();
        let by_cursor = get_statements_by_subscription_cursor(&v, 1, Some(c), 2, newest_first).unwrap();
        let by_offset = get_statements_by_subscription_offset(&v, 1, 2, 2, newest_first).unwrap();
        assert_eq!(by_cursor.statements, by_offset.statements);
        assert_eq!(by_cursor.next_cursor, by_offset.next_cursor);
        assert_eq!(by_cursor.total, by_offset.total);
    }
}

#[test]
fn appending_leaves_other_stores_alone() {
    let mut v = vault_with_history();
    let statements_before = v.billing.statements.len();
    let metadata_before = v.metadata.entries.len();
    append_statement(&mut v, 1, 1, merchant(), BillingChargeKind::Interval, 0, 0, 1);
    assert_eq!(v.billing.statements.len(), statements_before);
    assert_eq!(v.metadata.entries.len(), metadata_before);
}
