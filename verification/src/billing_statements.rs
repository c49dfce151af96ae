//! Per-period billing statements, keyed by subscription and period, with two
//! indexes: by subscription and by merchant.
//!
//! Each index lists statement references in the order in which their
//! statements were first written; a reference is never listed twice for the
//! same subscription and period.
use vstd::prelude::*;

use crate::address::Address;
use crate::seq_facts::lemma_filter_take_succ;
use crate::types::{Error, SubscriptionStatus};
use crate::vault::{lemma_wf_after_billing_change, SubscriptionVault};

verus! {

broadcast use vstd::seq_lib::group_seq_properties;

/// What closed a billing period.
#[derive(Clone, Copy, Debug, PartialEq, Eq, Structural)]
pub enum BillingStatementFinalization {
    PeriodClosed,
    Cancellation,
}

/// The statement of one billing period of one subscription.
#[derive(Clone, Copy, Debug, PartialEq, Eq, Structural)]
pub struct BillingStatement {
    pub subscription_id: u32,
    pub period_index: u32,
    pub snapshot_period_index: u32,
    pub merchant: Address,
    pub subscriber: Address,
    pub token: Address,
    pub period_start_timestamp: u64,
    pub period_end_timestamp: u64,
    pub total_amount_charged: i128,
    pub total_usage_units: i128,
    pub protocol_fee_amount: i128,
    pub net_amount_to_merchant: i128,
    pub refund_amount: i128,
    pub status_flags: u32,
    pub subscription_status: SubscriptionStatus,
    pub finalized_by: BillingStatementFinalization,
    pub finalized_at: u64,
}

/// An index entry: which statement, and when its period ended.
#[derive(Clone, Copy, Debug, PartialEq, Eq, Structural)]
pub struct BillingStatementRef {
    pub subscription_id: u32,
    pub period_index: u32,
    pub period_end_timestamp: u64,
}

/// An entry of the merchant index: the merchant it is listed under and the
/// reference.
#[derive(Clone, Copy, Debug, PartialEq, Eq, Structural)]
pub struct MerchantStatementRef {
    pub merchant: Address,
    pub statement: BillingStatementRef,
}

/// The stored statements and both indexes.
pub struct BillingStatementBook {
    pub statements: Vec<BillingStatement>,
    pub by_subscription: Vec<BillingStatementRef>,
    pub by_merchant: Vec<MerchantStatementRef>,
}

/// What a caller supplies to build a statement; the vault adds its token.
#[derive(Clone, Copy, Debug, PartialEq, Eq, Structural)]
pub struct BillingStatementInput {
    pub subscription_id: u32,
    pub period_index: u32,
    pub merchant: Address,
    pub subscriber: Address,
    pub period_start_timestamp: u64,
    pub period_end_timestamp: u64,
    pub total_amount_charged: i128,
    pub total_usage_units: i128,
    pub protocol_fee_amount: i128,
    pub net_amount_to_merchant: i128,
    pub refund_amount: i128,
    pub status_flags: u32,
    pub subscription_status: SubscriptionStatus,
    pub finalized_by: BillingStatementFinalization,
    pub finalized_at: u64,
}

/// Published whenever a statement is written.
#[derive(Clone, Copy, Debug, PartialEq, Eq, Structural)]
pub struct BillingStatementPersistedEvent {
    pub subscription_id: u32,
    pub period_index: u32,
    pub merchant: Address,
    pub finalized_by: BillingStatementFinalization,
}

// ---------------------------------------------------------------------------
// The model: statements by key, and the two indexes
// ---------------------------------------------------------------------------

/// Whether `s` is the statement of `subscription_id`'s period `period_index`.
pub open spec fn keyed(s: BillingStatement, subscription_id: u32, period_index: u32) -> bool {
    s.subscription_id == subscription_id && s.period_index == period_index
}

/// The statement stored under a key: the first one with that key.
pub open spec fn find_statement(s: Seq<BillingStatement>, subscription_id: u32, period_index: u32) -> Option<
    BillingStatement,
>
    decreases s.len(),
{
    if s.len() == 0 {
        None
    } else if keyed(s[0], subscription_id, period_index) {
        Some(s[0])
    } else {
        find_statement(s.drop_first(), subscription_id, period_index)
    }
}

/// The statement of `subscription_id`'s period `period_index` in `vault`.
pub open spec fn stored_statement(vault: SubscriptionVault, subscription_id: u32, period_index: u32) -> Option<
    BillingStatement,
> {
    find_statement(vault.billing.statements@, subscription_id, period_index)
}

/// Two references name the same statement.
pub open spec fn same_period(a: BillingStatementRef, b: BillingStatementRef) -> bool {
    a.subscription_id == b.subscription_id && a.period_index == b.period_index
}

/// A list of references names the statement that `target` names.
pub open spec fn has_ref(items: Seq<BillingStatementRef>, target: BillingStatementRef) -> bool {
    exists|j: int| 0 <= j < items.len() && same_period(#[trigger] items[j], target)
}

/// An index after a statement with reference `r` is written: `r` is appended
/// unless the statement is listed already.
pub open spec fn index_after_upsert(items: Seq<BillingStatementRef>, r: BillingStatementRef) -> Seq<
    BillingStatementRef,
> {
    if has_ref(items, r) {
        items
    } else {
        items.push(r)
    }
}

/// Whether a reference belongs to the subscription index of `id`.
pub open spec fn ref_of_subscription(id: u32) -> spec_fn(BillingStatementRef) -> bool {
    |r: BillingStatementRef| r.subscription_id == id
}

/// The subscription index of `id`.
pub open spec fn subscription_refs(vault: SubscriptionVault, id: u32) -> Seq<BillingStatementRef> {
    vault.billing.by_subscription@.filter(ref_of_subscription(id))
}

/// Whether an entry belongs to the merchant index of `m`.
pub open spec fn entry_of_merchant(m: Address) -> spec_fn(MerchantStatementRef) -> bool {
    |e: MerchantStatementRef| e.merchant == m
}

/// The reference held by a merchant-index entry.
pub open spec fn entry_ref(e: MerchantStatementRef) -> BillingStatementRef {
    e.statement
}

/// The merchant index of `m`.
pub open spec fn merchant_refs(vault: SubscriptionVault, m: Address) -> Seq<BillingStatementRef> {
    vault.billing.by_merchant@.filter(entry_of_merchant(m)).map_values(|e: MerchantStatementRef| entry_ref(e))
}

/// Whether a merchant-index entry is `m`'s and its period ended within
/// `[start_timestamp, end_timestamp]`.
pub open spec fn entry_in_window(m: Address, start_timestamp: u64, end_timestamp: u64) -> spec_fn(
    MerchantStatementRef,
) -> bool {
    |e: MerchantStatementRef|
        e.merchant == m && start_timestamp <= e.statement.period_end_timestamp <= end_timestamp
}

/// The references of `m`'s index whose period ended within the window, in
/// index order.
pub open spec fn merchant_refs_in_window(
    vault: SubscriptionVault,
    m: Address,
    start_timestamp: u64,
    end_timestamp: u64,
) -> Seq<BillingStatementRef> {
    vault.billing.by_merchant@.filter(entry_in_window(m, start_timestamp, end_timestamp)).map_values(
        |e: MerchantStatementRef| entry_ref(e),
    )
}

/// The statements that a list of references names, skipping references whose
/// statement is missing.
pub open spec fn resolve(statements: Seq<BillingStatement>, refs: Seq<BillingStatementRef>) -> Seq<
    BillingStatement,
>
    decreases refs.len(),
{
    if refs.len() == 0 {
        Seq::empty()
    } else {
        let prev = resolve(statements, refs.drop_last());
        match find_statement(statements, refs.last().subscription_id, refs.last().period_index) {
            Some(st) => prev.push(st),
            None => prev,
        }
    }
}

/// The page `start`, `limit` of an index.
pub open spec fn index_page(refs: Seq<BillingStatementRef>, start: u32, limit: u32) -> Seq<
    BillingStatementRef,
> {
    if limit == 0 || start >= refs.len() {
        Seq::empty()
    } else if start + limit > refs.len() {
        refs.subrange(start as int, refs.len() as int)
    } else {
        refs.subrange(start as int, start + limit)
    }
}

/// Every reference of both indexes names a stored statement.
pub open spec fn refs_resolve(vault: SubscriptionVault) -> bool {
    &&& forall|j: int|
        0 <= j < vault.billing.by_subscription@.len() ==> #[trigger] find_statement(
            vault.billing.statements@,
            vault.billing.by_subscription@[j].subscription_id,
            vault.billing.by_subscription@[j].period_index,
        ) is Some
    &&& forall|j: int|
        0 <= j < vault.billing.by_merchant@.len() ==> #[trigger] find_statement(
            vault.billing.statements@,
            vault.billing.by_merchant@[j].statement.subscription_id,
            vault.billing.by_merchant@[j].statement.period_index,
        ) is Some
}

// ---------------------------------------------------------------------------
// Facts about the model
// ---------------------------------------------------------------------------

proof fn lemma_find_skip(s: Seq<BillingStatement>, i: int, sub: u32, period: u32)
    requires
        0 <= i < s.len(),
    ensures
        find_statement(s.skip(i), sub, period) == if keyed(s[i], sub, period) {
            Some(s[i])
        } else {
            find_statement(s.skip(i + 1), sub, period)
        },
{
    assert(s.skip(i).drop_first() =~= s.skip(i + 1));
}

proof fn lemma_find_push(s: Seq<BillingStatement>, x: BillingStatement, sub: u32, period: u32)
    ensures
        find_statement(s.push(x), sub, period) == match find_statement(s, sub, period) {
            Some(st) => Some(st),
            None => if keyed(x, sub, period) {
                Some(x)
            } else {
                None
            },
        },
    decreases s.len(),
{
    if s.len() == 0 {
        assert(s.push(x).drop_first() =~= Seq::<BillingStatement>::empty());
        reveal_with_fuel(find_statement, 2);
    } else {
        assert(s.push(x).drop_first() =~= s.drop_first().push(x));
        lemma_find_push(s.drop_first(), x, sub, period);
    }
}

/// Updating the first statement with key `(sub, period)` in place, keeping its
/// key, makes the update what that key finds and changes no other key.
proof fn lemma_find_update_first(
    s: Seq<BillingStatement>,
    i: int,
    x: BillingStatement,
    sub: u32,
    period: u32,
    other_sub: u32,
    other_period: u32,
)
    requires
        0 <= i < s.len(),
        keyed(s[i], sub, period),
        keyed(x, sub, period),
        forall|j: int| 0 <= j < i ==> !keyed(#[trigger] s[j], sub, period),
    ensures
        find_statement(s.update(i, x), sub, period) == Some(x),
        !(other_sub == sub && other_period == period) ==> find_statement(
            s.update(i, x),
            other_sub,
            other_period,
        ) == find_statement(s, other_sub, other_period),
    decreases s.len(),
{
    if i > 0 {
        assert(s.update(i, x).drop_first() =~= s.drop_first().update(i - 1, x));
        lemma_find_update_first(s.drop_first(), i - 1, x, sub, period, other_sub, other_period);
    }
}

proof fn lemma_resolve_take_succ(statements: Seq<BillingStatement>, refs: Seq<BillingStatementRef>, i: int)
    requires
        0 <= i < refs.len(),
    ensures
        resolve(statements, refs.take(i + 1)) == match find_statement(
            statements,
            refs[i].subscription_id,
            refs[i].period_index,
        ) {
            Some(st) => resolve(statements, refs.take(i)).push(st),
            None => resolve(statements, refs.take(i)),
        },
{
    assert(refs.take(i + 1).drop_last() =~= refs.take(i));
}

/// When every reference resolves, resolving is mapping each reference to its
/// statement.
pub proof fn lemma_resolve_all(statements: Seq<BillingStatement>, refs: Seq<BillingStatementRef>)
    requires
        forall|j: int|
            0 <= j < refs.len() ==> #[trigger] find_statement(
                statements,
                refs[j].subscription_id,
                refs[j].period_index,
            ) is Some,
    ensures
        resolve(statements, refs) == refs.map_values(
            |r: BillingStatementRef| find_statement(statements, r.subscription_id, r.period_index)->0,
        ),
    decreases refs.len(),
{
    if refs.len() > 0 {
        let last = refs.len() - 1;
        assert(find_statement(statements, refs[last].subscription_id, refs[last].period_index) is Some);
        lemma_resolve_all(statements, refs.drop_last());
        assert(resolve(statements, refs) =~= refs.map_values(
            |r: BillingStatementRef| find_statement(statements, r.subscription_id, r.period_index)->0,
        ));
    }
}

/// Writing a statement twice leaves an index as writing it once did.
pub proof fn lemma_index_after_upsert_idempotent(items: Seq<BillingStatementRef>, r: BillingStatementRef)
    ensures
        index_after_upsert(index_after_upsert(items, r), r) == index_after_upsert(items, r),
        has_ref(index_after_upsert(items, r), r),
{
    if !has_ref(items, r) {
        let pushed = items.push(r);
        assert(same_period(pushed[items.len() as int], r));
    }
}

/// No statement is listed twice in an index.
pub open spec fn refs_unique(items: Seq<BillingStatementRef>) -> bool {
    forall|a: int, b: int|
        0 <= a < b < items.len() ==> !same_period(#[trigger] items[a], #[trigger] items[b])
}

/// Neither index lists a statement twice, for any subscription or merchant.
pub open spec fn indexes_unique(vault: SubscriptionVault) -> bool {
    &&& forall|id: u32| refs_unique(#[trigger] subscription_refs(vault, id))
    &&& forall|m: Address| refs_unique(#[trigger] merchant_refs(vault, m))
}

/// `statement` is stored under its key and listed in both of its indexes.
pub open spec fn already_written(vault: SubscriptionVault, statement: BillingStatement) -> bool {
    &&& stored_statement(vault, statement.subscription_id, statement.period_index) == Some(statement)
    &&& has_ref(subscription_refs(vault, statement.subscription_id), to_ref_spec(statement))
    &&& has_ref(merchant_refs(vault, statement.merchant), to_ref_spec(statement))
}

/// Writing a statement keeps an index free of duplicates, keeps everything it
/// listed, and lists the statement afterwards.
pub proof fn lemma_index_after_upsert_unique(items: Seq<BillingStatementRef>, r: BillingStatementRef)
    ensures
        refs_unique(items) ==> refs_unique(index_after_upsert(items, r)),
        items.is_prefix_of(index_after_upsert(items, r)),
        has_ref(index_after_upsert(items, r), r),
{
    lemma_index_after_upsert_idempotent(items, r);
    if !has_ref(items, r) && refs_unique(items) {
        let after = items.push(r);
        assert forall|a: int, b: int| 0 <= a < b < after.len() implies !same_period(
            #[trigger] after[a],
            #[trigger] after[b],
        ) by {
            if b == items.len() {
                if same_period(after[a], after[b]) {
                    assert(same_period(items[a], r));
                }
            } else {
                assert(after[a] == items[a] && after[b] == items[b]);
            }
        }
    }
}

/// `a` is a subsequence of `b`: `b` with some elements left out.
pub open spec fn is_subsequence<A>(a: Seq<A>, b: Seq<A>) -> bool
    decreases b.len(),
{
    if a.len() == 0 {
        true
    } else if b.len() == 0 {
        false
    } else if a.last() == b.last() {
        is_subsequence(a.drop_last(), b.drop_last())
    } else {
        is_subsequence(a, b.drop_last())
    }
}

proof fn lemma_subsequence_drop_last<A>(a: Seq<A>, b: Seq<A>)
    requires
        a.len() > 0,
        is_subsequence(a, b),
    ensures
        is_subsequence(a.drop_last(), b),
    decreases 2 * b.len(),
{
    if a.last() == b.last() {
        lemma_subsequence_push(a.drop_last(), b.drop_last(), b.last());
        assert(b.drop_last().push(b.last()) =~= b);
    } else {
        lemma_subsequence_drop_last(a, b.drop_last());
        lemma_subsequence_push(a.drop_last(), b.drop_last(), b.last());
        assert(b.drop_last().push(b.last()) =~= b);
    }
}

proof fn lemma_subsequence_push<A>(a: Seq<A>, b: Seq<A>, x: A)
    requires
        is_subsequence(a, b),
    ensures
        is_subsequence(a, b.push(x)),
    decreases 2 * b.len() + 1,
{
    assert(b.push(x).drop_last() =~= b);
    if a.len() > 0 && a.last() == x {
        lemma_subsequence_drop_last(a, b);
    }
}

/// Resolving a filtered list of references gives a subsequence of resolving
/// the whole list.
proof fn lemma_resolve_filter_subsequence(
    statements: Seq<BillingStatement>,
    refs: Seq<BillingStatementRef>,
    keep: spec_fn(BillingStatementRef) -> bool,
)
    ensures
        is_subsequence(resolve(statements, refs.filter(keep)), resolve(statements, refs)),
    decreases refs.len(),
{
    if refs.len() > 0 {
        let init = refs.drop_last();
        let x = refs.last();
        lemma_resolve_filter_subsequence(statements, init, keep);
        assert(init.push(x) =~= refs);
        init.lemma_filter_push(x, keep);
        let found = find_statement(statements, x.subscription_id, x.period_index);
        if keep(x) {
            assert(refs.filter(keep).drop_last() =~= init.filter(keep));
            if found is Some {
                assert(resolve(statements, refs.filter(keep)).drop_last() =~= resolve(
                    statements,
                    init.filter(keep),
                ));
                assert(resolve(statements, refs).drop_last() =~= resolve(statements, init));
            }
        } else if found is Some {
            lemma_subsequence_push(
                resolve(statements, init.filter(keep)),
                resolve(statements, init),
                found->0,
            );
        }
    }
}

/// Whether a reference's period ended within `[a, b]`.
pub open spec fn ref_in_window(a: u64, b: u64) -> spec_fn(BillingStatementRef) -> bool {
    |r: BillingStatementRef| a <= r.period_end_timestamp <= b
}

proof fn lemma_window_refs_filter(v: SubscriptionVault, m: Address, a1: u64, b1: u64, a2: u64, b2: u64)
    requires
        a2 <= a1,
        b1 <= b2,
    ensures
        merchant_refs_in_window(v, m, a1, b1) == merchant_refs_in_window(v, m, a2, b2).filter(
            ref_in_window(a1, b1),
        ),
    decreases v.billing.by_merchant@.len(),
{
    let s = v.billing.by_merchant@;
    let f = |e: MerchantStatementRef| entry_ref(e);
    assert forall|k: int| 0 <= k <= s.len() implies #[trigger] s.take(k).filter(
        entry_in_window(m, a1, b1),
    ).map_values(f) == s.take(k).filter(entry_in_window(m, a2, b2)).map_values(f).filter(
        ref_in_window(a1, b1),
    ) by {
        lemma_window_prefix(s, m, a1, b1, a2, b2, k);
    }
    assert(s.take(s.len() as int) =~= s);
}

proof fn lemma_window_prefix(
    s: Seq<MerchantStatementRef>,
    m: Address,
    a1: u64,
    b1: u64,
    a2: u64,
    b2: u64,
    k: int,
)
    requires
        a2 <= a1,
        b1 <= b2,
        0 <= k <= s.len(),
    ensures
        s.take(k).filter(entry_in_window(m, a1, b1)).map_values(|e: MerchantStatementRef| entry_ref(e))
            == s.take(k).filter(entry_in_window(m, a2, b2)).map_values(
            |e: MerchantStatementRef| entry_ref(e),
        ).filter(ref_in_window(a1, b1)),
    decreases k,
{
    let f = |e: MerchantStatementRef| entry_ref(e);
    let p1 = entry_in_window(m, a1, b1);
    let p2 = entry_in_window(m, a2, b2);
    let w = ref_in_window(a1, b1);
    if k == 0 {
        assert(s.take(0) =~= Seq::<MerchantStatementRef>::empty());
        assert(Seq::<MerchantStatementRef>::empty().filter(p1) =~= Seq::<MerchantStatementRef>::empty()) by {
            reveal(Seq::filter);
        }
        assert(Seq::<MerchantStatementRef>::empty().filter(p2) =~= Seq::<MerchantStatementRef>::empty()) by {
            reveal(Seq::filter);
        }
        assert(Seq::<BillingStatementRef>::empty().filter(w) =~= Seq::<BillingStatementRef>::empty()) by {
            reveal(Seq::filter);
        }
        assert(Seq::<MerchantStatementRef>::empty().map_values(f) =~= Seq::<BillingStatementRef>::empty());
    } else {
        lemma_window_prefix(s, m, a1, b1, a2, b2, k - 1);
        lemma_filter_take_succ(s, p1, k - 1);
        lemma_filter_take_succ(s, p2, k - 1);
        let e = s[k - 1];
        let n1 = s.take(k - 1).filter(p1);
        let n2 = s.take(k - 1).filter(p2);
        assert(n1.push(e).map_values(f) =~= n1.map_values(f).push(e.statement));
        assert(n2.push(e).map_values(f) =~= n2.map_values(f).push(e.statement));
        n2.map_values(f).lemma_filter_push(e.statement, w);
    }
}

/// Widening the time window never drops or reorders a statement: the list of
/// a window is a subsequence of the list of any window that contains it, and
/// an empty window lists nothing.
pub proof fn lemma_window_widening(v: SubscriptionVault, m: Address, a1: u64, b1: u64, a2: u64, b2: u64)
    requires
        a2 <= a1,
        b1 <= b2,
        merchant_refs_in_window(v, m, a2, b2).len() <= u32::MAX,
    ensures
        is_subsequence(
            resolve(v.billing.statements@, index_page(merchant_refs_in_window(v, m, a1, b1), 0, u32::MAX)),
            resolve(v.billing.statements@, index_page(merchant_refs_in_window(v, m, a2, b2), 0, u32::MAX)),
        ),
        a1 > b1 ==> merchant_refs_in_window(v, m, a1, b1).len() == 0,
{
    let wide = merchant_refs_in_window(v, m, a2, b2);
    let narrow = merchant_refs_in_window(v, m, a1, b1);
    lemma_window_refs_filter(v, m, a1, b1, a2, b2);
    wide.lemma_filter_len(ref_in_window(a1, b1));
    assert(index_page(wide, 0, u32::MAX) =~= wide);
    assert(index_page(narrow, 0, u32::MAX) =~= narrow);
    lemma_resolve_filter_subsequence(v.billing.statements@, wide, ref_in_window(a1, b1));
    if a1 > b1 && narrow.len() > 0 {
        wide.lemma_filter_pred(ref_in_window(a1, b1), 0);
    }
}

/// In a well-formed vault, listing a subscription's whole index returns, once
/// per period written for it and in first-write order, the latest statement
/// written for that period.
pub proof fn lemma_list_is_latest_once(vault: SubscriptionVault, id: u32)
    requires
        vault.wf(),
        subscription_refs(vault, id).len() <= u32::MAX,
    ensures
        ({
            let refs = subscription_refs(vault, id);
            &&& refs_unique(refs)
            &&& resolve(vault.billing.statements@, index_page(refs, 0, u32::MAX)) == refs.map_values(
                |r: BillingStatementRef| find_statement(vault.billing.statements@, r.subscription_id, r.period_index)->0,
            )
            &&& forall|j: int|
                0 <= j < refs.len() ==> #[trigger] find_statement(
                    vault.billing.statements@,
                    refs[j].subscription_id,
                    refs[j].period_index,
                ) is Some
        }),
{
    let all = vault.billing.by_subscription@;
    let refs = subscription_refs(vault, id);
    assert(refs_unique(refs));
    assert forall|j: int| 0 <= j < refs.len() implies #[trigger] find_statement(
        vault.billing.statements@,
        refs[j].subscription_id,
        refs[j].period_index,
    ) is Some by {
        assert(refs.contains(refs[j]));
        all.lemma_filter_contains_rev(ref_of_subscription(id), refs[j]);
        let k = choose|k: int| 0 <= k < all.len() && all[k] == refs[j];
        assert(find_statement(vault.billing.statements@, all[k].subscription_id, all[k].period_index) is Some);
    }
    assert(index_page(refs, 0, u32::MAX) =~= refs);
    lemma_resolve_all(vault.billing.statements@, refs);
}

/// In a well-formed vault, listing a merchant's whole index (every period
/// end) returns, once per statement written under that merchant and in
/// first-write order, the latest statement written for that period.
pub proof fn lemma_merchant_list_is_latest_once(vault: SubscriptionVault, m: Address)
    requires
        vault.wf(),
        merchant_refs_in_window(vault, m, 0, u64::MAX).len() <= u32::MAX,
    ensures
        ({
            let refs = merchant_refs_in_window(vault, m, 0, u64::MAX);
            &&& refs == merchant_refs(vault, m)
            &&& refs_unique(refs)
            &&& resolve(vault.billing.statements@, index_page(refs, 0, u32::MAX)) == refs.map_values(
                |r: BillingStatementRef| find_statement(vault.billing.statements@, r.subscription_id, r.period_index)->0,
            )
        }),
{
    let all = vault.billing.by_merchant@;
    assert(entry_in_window(m, 0, u64::MAX) =~= entry_of_merchant(m));
    let refs = merchant_refs(vault, m);
    assert(refs_unique(refs));
    let mine = all.filter(entry_of_merchant(m));
    assert forall|j: int| 0 <= j < refs.len() implies #[trigger] find_statement(
        vault.billing.statements@,
        refs[j].subscription_id,
        refs[j].period_index,
    ) is Some by {
        assert(mine.contains(mine[j]));
        all.lemma_filter_contains_rev(entry_of_merchant(m), mine[j]);
        let k = choose|k: int| 0 <= k < all.len() && all[k] == mine[j];
        assert(find_statement(
            vault.billing.statements@,
            all[k].statement.subscription_id,
            all[k].statement.period_index,
        ) is Some);
    }
    assert(index_page(refs, 0, u32::MAX) =~= refs);
    lemma_resolve_all(vault.billing.statements@, refs);
}

/// Writing a statement that is written already changes neither list view:
/// the views depend only on the stored statements and the two indexes, which
/// such a write leaves as they were.
pub proof fn lemma_repeated_upsert_keeps_lists(
    before: SubscriptionVault,
    after: SubscriptionVault,
    id: u32,
    m: Address,
    start_timestamp: u64,
    end_timestamp: u64,
    start: u32,
    limit: u32,
)
    requires
        after.billing.statements@ == before.billing.statements@,
        after.billing.by_subscription@ == before.billing.by_subscription@,
        after.billing.by_merchant@ == before.billing.by_merchant@,
    ensures
        resolve(after.billing.statements@, index_page(subscription_refs(after, id), start, limit)) == resolve(
            before.billing.statements@,
            index_page(subscription_refs(before, id), start, limit),
        ),
        resolve(
            after.billing.statements@,
            index_page(merchant_refs_in_window(after, m, start_timestamp, end_timestamp), start, limit),
        ) == resolve(
            before.billing.statements@,
            index_page(merchant_refs_in_window(before, m, start_timestamp, end_timestamp), start, limit),
        ),
        forall|sub: u32, period: u32| #[trigger] stored_statement(after, sub, period) == stored_statement(before, sub, period),
{
}

/// A page of an index holds at most `limit` references: from position
/// `start` on, as many as `limit` allows and the index still has, in index
/// order; nothing when `start` is past the end.
pub proof fn lemma_index_page_shape(refs: Seq<BillingStatementRef>, start: u32, limit: u32)
    ensures
        index_page(refs, start, limit).len() <= limit,
        start >= refs.len() ==> index_page(refs, start, limit).len() == 0,
        start < refs.len() ==> index_page(refs, start, limit).len() == if limit < refs.len() - start {
            limit as int
        } else {
            refs.len() - start
        },
        forall|i: int|
            0 <= i < index_page(refs, start, limit).len() ==> #[trigger] index_page(refs, start, limit)[i]
                == refs[start + i],
{
}

/// Resolving never yields more statements than references, and yields one per
/// reference when every reference names a stored statement.
pub proof fn lemma_resolve_len(statements: Seq<BillingStatement>, refs: Seq<BillingStatementRef>)
    ensures
        resolve(statements, refs).len() <= refs.len(),
    decreases refs.len(),
{
    if refs.len() > 0 {
        lemma_resolve_len(statements, refs.drop_last());
    }
}

/// What a key finds carries that key.
pub proof fn lemma_find_is_keyed(s: Seq<BillingStatement>, subscription_id: u32, period_index: u32)
    ensures
        find_statement(s, subscription_id, period_index) matches Some(st) ==> st.subscription_id
            == subscription_id && st.period_index == period_index,
        find_statement(s, subscription_id, period_index) is None <==> forall|j: int|
            0 <= j < s.len() ==> !(#[trigger] s[j].subscription_id == subscription_id && s[j].period_index
                == period_index),
    decreases s.len(),
{
    if s.len() > 0 {
        lemma_find_is_keyed(s.drop_first(), subscription_id, period_index);
        if !keyed(s[0], subscription_id, period_index) {
            assert forall|j: int| 1 <= j < s.len() implies #[trigger] s[j] == s.drop_first()[j - 1] by {}
        }
    }
}

/// Each statement that resolving a list of references yields is the stored
/// statement of the subscription and period of one of those references.
pub proof fn lemma_resolve_elements(statements: Seq<BillingStatement>, refs: Seq<BillingStatementRef>)
    ensures
        forall|i: int|
            0 <= i < resolve(statements, refs).len() ==> exists|j: int|
                0 <= j < refs.len() && (#[trigger] resolve(statements, refs)[i]).subscription_id
                    == refs[j].subscription_id && resolve(statements, refs)[i].period_index
                    == refs[j].period_index,
    decreases refs.len(),
{
    if refs.len() > 0 {
        let init = refs.drop_last();
        lemma_resolve_elements(statements, init);
        lemma_find_is_keyed(statements, refs.last().subscription_id, refs.last().period_index);
        let prev = resolve(statements, init);
        let cur = resolve(statements, refs);
        assert forall|i: int| 0 <= i < cur.len() implies exists|j: int|
            0 <= j < refs.len() && (#[trigger] cur[i]).subscription_id == refs[j].subscription_id
                && cur[i].period_index == refs[j].period_index by {
            if i < prev.len() {
                assert(cur[i] == prev[i]);
                let j = choose|j: int|
                    0 <= j < init.len() && (#[trigger] prev[i]).subscription_id == init[j].subscription_id
                        && prev[i].period_index == init[j].period_index;
                assert(refs[j] == init[j]);
            } else {
                assert(refs[refs.len() - 1] == refs.last());
            }
        }
    }
}

/// A subscription's index holds exactly the references of the whole
/// subscription index that belong to that subscription, in the same order.
pub proof fn lemma_subscription_refs_are_own(vault: SubscriptionVault, id: u32)
    ensures
        forall|j: int|
            0 <= j < subscription_refs(vault, id).len() ==> (#[trigger] subscription_refs(vault, id)[j]).subscription_id
                == id && vault.billing.by_subscription@.contains(subscription_refs(vault, id)[j]),
        forall|j: int|
            0 <= j < vault.billing.by_subscription@.len() && (#[trigger] vault.billing.by_subscription@[j]).subscription_id
                == id ==> subscription_refs(vault, id).contains(vault.billing.by_subscription@[j]),
{
    let all = vault.billing.by_subscription@;
    let mine = subscription_refs(vault, id);
    assert forall|j: int| 0 <= j < mine.len() implies (#[trigger] mine[j]).subscription_id == id
        && all.contains(mine[j]) by {
        all.lemma_filter_pred(ref_of_subscription(id), j);
        assert(mine.contains(mine[j]));
        all.lemma_filter_contains_rev(ref_of_subscription(id), mine[j]);
    }
    assert forall|j: int| 0 <= j < all.len() && (#[trigger] all[j]).subscription_id == id implies mine.contains(
        all[j],
    ) by {
        all.lemma_filter_contains(ref_of_subscription(id), j);
    }
}

/// The window list of a merchant is that merchant's index with the
/// references whose period ended outside `[start_timestamp, end_timestamp]`
/// left out: every listed reference ended within the window and is in the
/// merchant's index, and every reference of the merchant's index that ended
/// within the window is listed.
pub proof fn lemma_window_of_merchant_index(
    vault: SubscriptionVault,
    m: Address,
    start_timestamp: u64,
    end_timestamp: u64,
)
    ensures
        merchant_refs_in_window(vault, m, start_timestamp, end_timestamp) == merchant_refs(vault, m).filter(
            ref_in_window(start_timestamp, end_timestamp),
        ),
        forall|j: int|
            0 <= j < merchant_refs_in_window(vault, m, start_timestamp, end_timestamp).len() ==> {
                let r = #[trigger] merchant_refs_in_window(vault, m, start_timestamp, end_timestamp)[j];
                &&& start_timestamp <= r.period_end_timestamp <= end_timestamp
                &&& merchant_refs(vault, m).contains(r)
            },
        forall|j: int|
            0 <= j < merchant_refs(vault, m).len() && start_timestamp <= (#[trigger] merchant_refs(
                vault,
                m,
            )[j]).period_end_timestamp <= end_timestamp ==> merchant_refs_in_window(
                vault,
                m,
                start_timestamp,
                end_timestamp,
            ).contains(merchant_refs(vault, m)[j]),
{
    let mine = merchant_refs(vault, m);
    let w = ref_in_window(start_timestamp, end_timestamp);
    lemma_window_refs_filter(vault, m, start_timestamp, end_timestamp, 0, u64::MAX);
    assert(entry_in_window(m, 0, u64::MAX) =~= entry_of_merchant(m));
    let win = merchant_refs_in_window(vault, m, start_timestamp, end_timestamp);
    assert(win == mine.filter(w));
    assert forall|j: int| 0 <= j < win.len() implies {
        let r = #[trigger] win[j];
        &&& start_timestamp <= r.period_end_timestamp <= end_timestamp
        &&& mine.contains(r)
    } by {
        mine.lemma_filter_pred(w, j);
        assert(win.contains(win[j]));
        mine.lemma_filter_contains_rev(w, win[j]);
    }
    assert forall|j: int|
        0 <= j < mine.len() && start_timestamp <= (#[trigger] mine[j]).period_end_timestamp
            <= end_timestamp implies win.contains(mine[j]) by {
        mine.lemma_filter_contains(w, j);
    }
}

// ---------------------------------------------------------------------------
// Executable functions
// ---------------------------------------------------------------------------

/// The index reference of a statement.
pub fn to_ref(statement: &BillingStatement) -> (r: BillingStatementRef)
    ensures
        r.subscription_id == statement.subscription_id,
        r.period_index == statement.period_index,
        r.period_end_timestamp == statement.period_end_timestamp,
{
    BillingStatementRef {
        subscription_id: statement.subscription_id,
        period_index: statement.period_index,
        period_end_timestamp: statement.period_end_timestamp,
    }
}

/// Whether `items` names the statement that `target` names (same subscription
/// and period).
pub fn contains_ref(items: &Vec<BillingStatementRef>, target: &BillingStatementRef) -> (r: bool)
    ensures
        r == has_ref(items@, *target),
{
    let mut i: usize = 0;
    while i < items.len()
        invariant
            i <= items.len(),
            forall|j: int| 0 <= j < i ==> !same_period(#[trigger] items@[j], *target),
        decreases items.len() - i,
    {
        let item = items[i];
        if item.subscription_id == target.subscription_id && item.period_index == target.period_index {
            return true;
        }
        i += 1;
    }
    false
}

/// Whether the merchant index lists, under `merchant`, the statement that
/// `target` names.
fn merchant_contains_ref(
    items: &Vec<MerchantStatementRef>,
    merchant: &Address,
    target: &BillingStatementRef,
) -> (r: bool)
    ensures
        r == exists|j: int|
            0 <= j < items@.len() && (#[trigger] items@[j]).merchant == *merchant && same_period(
                items@[j].statement,
                *target,
            ),
{
    let mut i: usize = 0;
    while i < items.len()
        invariant
            i <= items.len(),
            forall|j: int|
                0 <= j < i ==> !((#[trigger] items@[j]).merchant == *merchant && same_period(
                    items@[j].statement,
                    *target,
                )),
        decreases items.len() - i,
    {
        let item = items[i];
        if item.merchant == *merchant && item.statement.subscription_id == target.subscription_id
            && item.statement.period_index == target.period_index {
            return true;
        }
        i += 1;
    }
    false
}

/// Position of the first stored statement with the given key.
#[verifier::rlimit(30)]
fn find_statement_index(statements: &Vec<BillingStatement>, subscription_id: u32, period_index: u32) -> (r:
    Option<usize>)
    ensures
        match r {
            Some(i) => {
                &&& i < statements@.len()
                &&& keyed(statements@[i as int], subscription_id, period_index)
                &&& forall|j: int| 0 <= j < i ==> !keyed(#[trigger] statements@[j], subscription_id, period_index)
                &&& find_statement(statements@, subscription_id, period_index) == Some(statements@[i as int])
            },
            None => find_statement(statements@, subscription_id, period_index) is None,
        },
{
    let mut i: usize = 0;
    while i < statements.len()
        invariant
            i <= statements.len(),
            forall|j: int| 0 <= j < i ==> !keyed(#[trigger] statements@[j], subscription_id, period_index),
            find_statement(statements@, subscription_id, period_index) == find_statement(
                statements@.skip(i as int),
                subscription_id,
                period_index,
            ),
        decreases statements.len() - i,
    {
        proof {
            lemma_find_skip(statements@, i as int, subscription_id, period_index);
        }
        if statements[i].subscription_id == subscription_id && statements[i].period_index == period_index {
            return Some(i);
        }
        i += 1;
    }
    proof {
        assert(statements@.skip(i as int) =~= Seq::<BillingStatement>::empty());
    }
    None
}

/// Writes `statement` under its subscription and period, replacing any earlier
/// statement there, and lists it in the subscription's and the merchant's
/// index unless it is listed there already. Returns the event to publish.
#[verifier::rlimit(50)]
pub fn upsert_statement(vault: &mut SubscriptionVault, statement: BillingStatement) -> (event:
    BillingStatementPersistedEvent)
    ensures
        stored_statement(*final(vault), statement.subscription_id, statement.period_index) == Some(
            statement,
        ),
        forall|sub: u32, period: u32|
            !(sub == statement.subscription_id && period == statement.period_index) ==> #[trigger] stored_statement(
                *final(vault),
                sub,
                period,
            ) == stored_statement(*old(vault), sub, period),
        subscription_refs(*final(vault), statement.subscription_id) == index_after_upsert(
            subscription_refs(*old(vault), statement.subscription_id),
            to_ref_spec(statement),
        ),
        forall|id: u32|
            id != statement.subscription_id ==> #[trigger] subscription_refs(*final(vault), id)
                == subscription_refs(*old(vault), id),
        merchant_refs(*final(vault), statement.merchant) == index_after_upsert(
            merchant_refs(*old(vault), statement.merchant),
            to_ref_spec(statement),
        ),
        forall|m: Address|
            m != statement.merchant ==> #[trigger] merchant_refs(*final(vault), m) == merchant_refs(
                *old(vault),
                m,
            ),
        refs_resolve(*old(vault)) ==> refs_resolve(*final(vault)),
        indexes_unique(*old(vault)) ==> indexes_unique(*final(vault)),
        old(vault).wf() ==> final(vault).wf(),
        forall|id: u32|
            #[trigger] subscription_refs(*old(vault), id).is_prefix_of(subscription_refs(*final(vault), id)),
        forall|m: Address| #[trigger] merchant_refs(*old(vault), m).is_prefix_of(merchant_refs(*final(vault), m)),
        already_written(*final(vault), statement),
        already_written(*old(vault), statement) ==> {
            &&& final(vault).billing.statements@ == old(vault).billing.statements@
            &&& final(vault).billing.by_subscription@ == old(vault).billing.by_subscription@
            &&& final(vault).billing.by_merchant@ == old(vault).billing.by_merchant@
        },
        event == (BillingStatementPersistedEvent {
            subscription_id: statement.subscription_id,
            period_index: statement.period_index,
            merchant: statement.merchant,
            finalized_by: statement.finalized_by,
        }),
        final(vault).config == old(vault).config,
        final(vault).subscriptions == old(vault).subscriptions,
        final(vault).ledger == old(vault).ledger,
        final(vault).metadata == old(vault).metadata,
{
    let sub = statement.subscription_id;
    let period = statement.period_index;
    let ghost old_statements = vault.billing.statements@;
    match find_statement_index(&vault.billing.statements, sub, period) {
        Some(i) => {
            vault.billing.statements.set(i, statement);
            proof {
                if old_statements[i as int] == statement {
                    assert(vault.billing.statements@ =~= old_statements);
                }
                assert forall|s: u32, p: u32|
                    !(s == sub && p == period) implies #[trigger] find_statement(
                        vault.billing.statements@,
                        s,
                        p,
                    ) == find_statement(old_statements, s, p) by {
                    lemma_find_update_first(old_statements, i as int, statement, sub, period, s, p);
                }
                lemma_find_update_first(old_statements, i as int, statement, sub, period, sub, period);
            }
        },
        None => {
            vault.billing.statements.push(statement);
            proof {
                assert forall|s: u32, p: u32| true implies #[trigger] find_statement(
                    vault.billing.statements@,
                    s,
                    p,
                ) == match find_statement(old_statements, s, p) {
                    Some(st) => Some(st),
                    None => if keyed(statement, s, p) {
                        Some(statement)
                    } else {
                        None
                    },
                } by {
                    lemma_find_push(old_statements, statement, s, p);
                }
            }
        },
    }
    let statement_ref = to_ref(&statement);
    let ghost old_subs = vault.billing.by_subscription@;
    proof {
        // the subscription index of `sub` names the statement exactly when
        // the whole list does
        if has_ref(old_subs, statement_ref) {
            let j = choose|j: int| 0 <= j < old_subs.len() && same_period(#[trigger] old_subs[j], statement_ref);
            old_subs.lemma_filter_contains(ref_of_subscription(sub), j);
            let mine = old_subs.filter(ref_of_subscription(sub));
            let k = choose|k: int| 0 <= k < mine.len() && mine[k] == old_subs[j];
            assert(same_period(mine[k], statement_ref));
        }
        if has_ref(old_subs.filter(ref_of_subscription(sub)), statement_ref) {
            let mine = old_subs.filter(ref_of_subscription(sub));
            let k = choose|k: int| 0 <= k < mine.len() && same_period(#[trigger] mine[k], statement_ref);
            assert(mine.contains(mine[k]));
            old_subs.lemma_filter_contains_rev(ref_of_subscription(sub), mine[k]);
            let j = choose|j: int| 0 <= j < old_subs.len() && old_subs[j] == mine[k];
            assert(same_period(old_subs[j], statement_ref));
        }
    }
    if !contains_ref(&vault.billing.by_subscription, &statement_ref) {
        vault.billing.by_subscription.push(statement_ref);
        proof {
            old_subs.lemma_filter_push(statement_ref, ref_of_subscription(sub));
            assert forall|id: u32| id != sub implies #[trigger] vault.billing.by_subscription@.filter(
                ref_of_subscription(id),
            ) == old_subs.filter(ref_of_subscription(id)) by {
                old_subs.lemma_filter_push(statement_ref, ref_of_subscription(id));
            }
        }
    }
    let merchant = statement.merchant;
    let entry = MerchantStatementRef { merchant, statement: statement_ref };
    let ghost old_ms = vault.billing.by_merchant@;
    let ghost old_mine = old_ms.filter(entry_of_merchant(merchant));
    proof {
        let mapped = old_mine.map_values(|e: MerchantStatementRef| entry_ref(e));
        if exists|j: int|
            0 <= j < old_ms.len() && (#[trigger] old_ms[j]).merchant == merchant && same_period(
                old_ms[j].statement,
                statement_ref,
            ) {
            let j = choose|j: int|
                0 <= j < old_ms.len() && (#[trigger] old_ms[j]).merchant == merchant && same_period(
                    old_ms[j].statement,
                    statement_ref,
                );
            old_ms.lemma_filter_contains(entry_of_merchant(merchant), j);
            let k = choose|k: int| 0 <= k < old_mine.len() && old_mine[k] == old_ms[j];
            assert(same_period(mapped[k], statement_ref));
        }
        if has_ref(mapped, statement_ref) {
            let k = choose|k: int| 0 <= k < mapped.len() && same_period(#[trigger] mapped[k], statement_ref);
            assert(old_mine.contains(old_mine[k]));
            old_ms.lemma_filter_contains_rev(entry_of_merchant(merchant), old_mine[k]);
            let j = choose|j: int| 0 <= j < old_ms.len() && old_ms[j] == old_mine[k];
            old_ms.lemma_filter_pred(entry_of_merchant(merchant), k);
            assert(old_ms[j].merchant == merchant && same_period(old_ms[j].statement, statement_ref));
        }
    }
    if !merchant_contains_ref(&vault.billing.by_merchant, &merchant, &statement_ref) {
        vault.billing.by_merchant.push(entry);
        proof {
            old_ms.lemma_filter_push(entry, entry_of_merchant(merchant));
            assert(old_mine.push(entry).map_values(|e: MerchantStatementRef| entry_ref(e))
                =~= old_mine.map_values(|e: MerchantStatementRef| entry_ref(e)).push(statement_ref));
            assert forall|m: Address| m != merchant implies #[trigger] merchant_refs(*vault, m)
                == merchant_refs(*old(vault), m) by {
                old_ms.lemma_filter_push(entry, entry_of_merchant(m));
            }
        }
    }
    proof {
        lemma_index_after_upsert_unique(subscription_refs(*old(vault), sub), statement_ref);
        lemma_index_after_upsert_unique(merchant_refs(*old(vault), merchant), statement_ref);
        assert forall|id: u32| #[trigger] subscription_refs(*old(vault), id).is_prefix_of(
            subscription_refs(*vault, id),
        ) by {
            if id != sub {
                assert(subscription_refs(*old(vault), id) =~= subscription_refs(*vault, id));
            }
        }
        assert forall|m: Address| #[trigger] merchant_refs(*old(vault), m).is_prefix_of(merchant_refs(*vault, m)) by {
            if m != merchant {
                assert(merchant_refs(*old(vault), m) =~= merchant_refs(*vault, m));
            }
        }
        if indexes_unique(*old(vault)) {
            assert forall|id: u32| refs_unique(#[trigger] subscription_refs(*vault, id)) by {
                if id != sub {
                    assert(refs_unique(subscription_refs(*old(vault), id)));
                }
            }
            assert forall|m: Address| refs_unique(#[trigger] merchant_refs(*vault, m)) by {
                if m != merchant {
                    assert(refs_unique(merchant_refs(*old(vault), m)));
                }
            }
        }
        if refs_resolve(*old(vault)) {
            let fin = *vault;
            assert forall|j: int| 0 <= j < fin.billing.by_subscription@.len() implies #[trigger] find_statement(
                fin.billing.statements@,
                fin.billing.by_subscription@[j].subscription_id,
                fin.billing.by_subscription@[j].period_index,
            ) is Some by {
                if j < old_subs.len() {
                    assert(find_statement(
                        old_statements,
                        old_subs[j].subscription_id,
                        old_subs[j].period_index,
                    ) is Some);
                }
            }
            assert forall|j: int| 0 <= j < fin.billing.by_merchant@.len() implies #[trigger] find_statement(
                fin.billing.statements@,
                fin.billing.by_merchant@[j].statement.subscription_id,
                fin.billing.by_merchant@[j].statement.period_index,
            ) is Some by {
                if j < old_ms.len() {
                    assert(find_statement(
                        old_statements,
                        old_ms[j].statement.subscription_id,
                        old_ms[j].statement.period_index,
                    ) is Some);
                }
            }
        }
    }
    proof {
        if old(vault).wf() {
            lemma_wf_after_billing_change(*old(vault), *vault);
        }
    }
    BillingStatementPersistedEvent {
        subscription_id: statement.subscription_id,
        period_index: statement.period_index,
        merchant: statement.merchant,
        finalized_by: statement.finalized_by,
    }
}

/// The index reference of a statement, as a spec function.
pub open spec fn to_ref_spec(statement: BillingStatement) -> BillingStatementRef {
    BillingStatementRef {
        subscription_id: statement.subscription_id,
        period_index: statement.period_index,
        period_end_timestamp: statement.period_end_timestamp,
    }
}

/// The statement of `subscription_id`'s period `period_index`, or `NotFound`.
pub fn get_statement(vault: &SubscriptionVault, subscription_id: u32, period_index: u32) -> (r: Result<
    BillingStatement,
    Error,
>)
    ensures
        r == match stored_statement(*vault, subscription_id, period_index) {
            Some(st) => Ok(st),
            None => Err(Error::NotFound),
        },
{
    match find_statement_index(&vault.billing.statements, subscription_id, period_index) {
        Some(i) => Ok(vault.billing.statements[i]),
        None => Err(Error::NotFound),
    }
}

/// Looks up, in order, the statements that `refs` names, skipping any that is
/// missing.
fn resolve_refs(statements: &Vec<BillingStatement>, refs: &Vec<BillingStatementRef>) -> (out: Vec<
    BillingStatement,
>)
    ensures
        out@ == resolve(statements@, refs@),
{
    let mut out: Vec<BillingStatement> = Vec::new();
    let mut i: usize = 0;
    while i < refs.len()
        invariant
            i <= refs.len(),
            out@ == resolve(statements@, refs@.take(i as int)),
        decreases refs.len() - i,
    {
        proof {
            lemma_resolve_take_succ(statements@, refs@, i as int);
        }
        let r = refs[i];
        match find_statement_index(statements, r.subscription_id, r.period_index) {
            Some(k) => {
                out.push(statements[k]);
            },
            None => {},
        }
        i += 1;
    }
    proof {
        assert(refs@.take(refs@.len() as int) =~= refs@);
    }
    out
}

/// The page `start`, `limit` of an index held in a vector.
fn page_of(refs: &Vec<BillingStatementRef>, start: u32, limit: u32) -> (page: Vec<BillingStatementRef>)
    requires
        refs@.len() <= u32::MAX,
        limit > 0 && start < refs@.len() ==> start + limit <= u32::MAX,
    ensures
        page@ == index_page(refs@, start, limit),
        page@.len() <= limit,
        forall|i: int| 0 <= i < page@.len() ==> #[trigger] page@[i] == refs@[start + i],
{
    proof {
        lemma_index_page_shape(refs@, start, limit);
    }
    let len = refs.len() as u32;
    let mut page: Vec<BillingStatementRef> = Vec::new();
    if limit == 0 || start >= len {
        proof {
            assert(index_page(refs@, start, limit) =~= Seq::<BillingStatementRef>::empty());
        }
        return page;
    }
    let end = if start + limit > len {
        len
    } else {
        start + limit
    };
    let mut i = start;
    while i < end
        invariant
            start <= i <= end,
            end <= refs@.len(),
            page@ =~= refs@.subrange(start as int, i as int),
        decreases end - i,
    {
        page.push(refs[i as usize]);
        i += 1;
    }
    page
}

/// The statements of `subscription_id`'s index, page `start`, `limit`, in the
/// order in which they were first written.
pub fn list_statements_by_subscription(
    vault: &SubscriptionVault,
    subscription_id: u32,
    start: u32,
    limit: u32,
) -> (out: Vec<BillingStatement>)
    requires
        subscription_refs(*vault, subscription_id).len() <= u32::MAX,
        limit > 0 && start < subscription_refs(*vault, subscription_id).len() ==> start + limit
            <= u32::MAX,
    ensures
        out@ == resolve(
            vault.billing.statements@,
            index_page(subscription_refs(*vault, subscription_id), start, limit),
        ),
        out@.len() <= limit,
        forall|i: int| 0 <= i < out@.len() ==> (#[trigger] out@[i]).subscription_id == subscription_id,
{
    proof {
        let refs = subscription_refs(*vault, subscription_id);
        let page = index_page(refs, start, limit);
        lemma_index_page_shape(refs, start, limit);
        lemma_resolve_len(vault.billing.statements@, page);
        lemma_resolve_elements(vault.billing.statements@, page);
        lemma_subscription_refs_are_own(*vault, subscription_id);
        let res = resolve(vault.billing.statements@, page);
        assert forall|i: int| 0 <= i < res.len() implies (#[trigger] res[i]).subscription_id == subscription_id by {
            let j = choose|j: int|
                0 <= j < page.len() && (#[trigger] res[i]).subscription_id == page[j].subscription_id
                    && res[i].period_index == page[j].period_index;
            assert(page[j] == refs[start + j]);
        }
    }
    let mut refs: Vec<BillingStatementRef> = Vec::new();
    let mut i: usize = 0;
    let ghost all = vault.billing.by_subscription@;
    while i < vault.billing.by_subscription.len()
        invariant
            all == vault.billing.by_subscription@,
            i <= all.len(),
            refs@ == all.take(i as int).filter(ref_of_subscription(subscription_id)),
        decreases all.len() - i,
    {
        proof {
            lemma_filter_take_succ(all, ref_of_subscription(subscription_id), i as int);
        }
        let r = vault.billing.by_subscription[i];
        if r.subscription_id == subscription_id {
            refs.push(r);
        }
        i += 1;
    }
    proof {
        assert(all.take(all.len() as int) =~= all);
    }
    let page = page_of(&refs, start, limit);
    resolve_refs(&vault.billing.statements, &page)
}

/// The statements of `merchant`'s index whose period ended within
/// `[start_timestamp, end_timestamp]`, page `start`, `limit`, in index order.
pub fn list_statements_by_merchant_time_range(
    vault: &SubscriptionVault,
    merchant: Address,
    start_timestamp: u64,
    end_timestamp: u64,
    start: u32,
    limit: u32,
) -> (out: Vec<BillingStatement>)
    requires
        merchant_refs_in_window(*vault, merchant, start_timestamp, end_timestamp).len() <= u32::MAX,
        limit > 0 && start < merchant_refs_in_window(
            *vault,
            merchant,
            start_timestamp,
            end_timestamp,
        ).len() ==> start + limit <= u32::MAX,
    ensures
        out@ == resolve(
            vault.billing.statements@,
            index_page(merchant_refs_in_window(*vault, merchant, start_timestamp, end_timestamp), start, limit),
        ),
        out@.len() <= limit,
        forall|i: int|
            #![trigger out@[i]]
            0 <= i < out@.len() ==> exists|j: int|
                #![trigger merchant_refs(*vault, merchant)[j]]
                0 <= j < merchant_refs(*vault, merchant).len() && start_timestamp <= merchant_refs(
                    *vault,
                    merchant,
                )[j].period_end_timestamp <= end_timestamp && out@[i].subscription_id == merchant_refs(
                    *vault,
                    merchant,
                )[j].subscription_id && out@[i].period_index == merchant_refs(*vault, merchant)[j].period_index,
{
    proof {
        let refs = merchant_refs_in_window(*vault, merchant, start_timestamp, end_timestamp);
        let page = index_page(refs, start, limit);
        lemma_index_page_shape(refs, start, limit);
        lemma_resolve_len(vault.billing.statements@, page);
        lemma_resolve_elements(vault.billing.statements@, page);
        lemma_window_of_merchant_index(*vault, merchant, start_timestamp, end_timestamp);
        let mine = merchant_refs(*vault, merchant);
        let res = resolve(vault.billing.statements@, page);
        assert forall|i: int| 0 <= i < res.len() implies exists|j: int|
            #![trigger mine[j]]
            0 <= j < mine.len() && start_timestamp <= mine[j].period_end_timestamp <= end_timestamp
                && (#[trigger] res[i]).subscription_id == mine[j].subscription_id && res[i].period_index
                == mine[j].period_index by {
            let j = choose|j: int|
                0 <= j < page.len() && (#[trigger] res[i]).subscription_id == page[j].subscription_id
                    && res[i].period_index == page[j].period_index;
            assert(page[j] == refs[start + j]);
            let r = refs[start + j];
            assert(mine.contains(r));
            let k = choose|k: int| 0 <= k < mine.len() && mine[k] == r;
            assert(mine[k] == r);
        }
    }
    if limit == 0 {
        proof {
            assert(index_page(
                merchant_refs_in_window(*vault, merchant, start_timestamp, end_timestamp),
                start,
                limit,
            ) =~= Seq::<BillingStatementRef>::empty());
        }
        return Vec::new();
    }
    let ghost all = vault.billing.by_merchant@;
    let ghost pred = entry_in_window(merchant, start_timestamp, end_timestamp);
    let mut filtered: Vec<BillingStatementRef> = Vec::new();
    let mut i: usize = 0;
    while i < vault.billing.by_merchant.len()
        invariant
            all == vault.billing.by_merchant@,
            pred == entry_in_window(merchant, start_timestamp, end_timestamp),
            i <= all.len(),
            filtered@ == all.take(i as int).filter(pred).map_values(|e: MerchantStatementRef| entry_ref(e)),
        decreases all.len() - i,
    {
        proof {
            lemma_filter_take_succ(all, pred, i as int);
            assert(all.take(i as int).filter(pred).push(all[i as int]).map_values(
                |e: MerchantStatementRef| entry_ref(e),
            ) =~= all.take(i as int).filter(pred).map_values(|e: MerchantStatementRef| entry_ref(e)).push(
                all[i as int].statement,
            ));
        }
        let e = vault.billing.by_merchant[i];
        if e.merchant == merchant && e.statement.period_end_timestamp >= start_timestamp
            && e.statement.period_end_timestamp <= end_timestamp {
            filtered.push(e.statement);
        }
        i += 1;
    }
    proof {
        assert(all.take(all.len() as int) =~= all);
    }
    let page = page_of(&filtered, start, limit);
    resolve_refs(&vault.billing.statements, &page)
}

/// Builds the statement for `input`, stamped with the vault's token; fails with
/// `NotInitialized` when no token is configured.
pub fn build_statement(vault: &SubscriptionVault, input: BillingStatementInput) -> (r: Result<
    BillingStatement,
    Error,
>)
    ensures
        match vault.config.token {
            None => r == Err::<BillingStatement, Error>(Error::NotInitialized),
            Some(token) => r == Ok::<BillingStatement, Error>(
                BillingStatement {
                    subscription_id: input.subscription_id,
                    period_index: input.period_index,
                    snapshot_period_index: input.period_index,
                    merchant: input.merchant,
                    subscriber: input.subscriber,
                    token,
                    period_start_timestamp: input.period_start_timestamp,
                    period_end_timestamp: input.period_end_timestamp,
                    total_amount_charged: input.total_amount_charged,
                    total_usage_units: input.total_usage_units,
                    protocol_fee_amount: input.protocol_fee_amount,
                    net_amount_to_merchant: input.net_amount_to_merchant,
                    refund_amount: input.refund_amount,
                    status_flags: input.status_flags,
                    subscription_status: input.subscription_status,
                    finalized_by: input.finalized_by,
                    finalized_at: input.finalized_at,
                },
            ),
        },
{
    let token = match vault.config.token {
        Some(t) => t,
        None => return Err(Error::NotInitialized),
    };
    Ok(
        BillingStatement {
            subscription_id: input.subscription_id,
            period_index: input.period_index,
            snapshot_period_index: input.period_index,
            merchant: input.merchant,
            subscriber: input.subscriber,
            token,
            period_start_timestamp: input.period_start_timestamp,
            period_end_timestamp: input.period_end_timestamp,
            total_amount_charged: input.total_amount_charged,
            total_usage_units: input.total_usage_units,
            protocol_fee_amount: input.protocol_fee_amount,
            net_amount_to_merchant: input.net_amount_to_merchant,
            refund_amount: input.refund_amount,
            status_flags: input.status_flags,
            subscription_status: input.subscription_status,
            finalized_by: input.finalized_by,
            finalized_at: input.finalized_at,
        },
    )
}

} // verus!
