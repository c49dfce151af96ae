//! The vault's state and its contract-level entry points.
use vstd::prelude::*;

use crate::address::Address;
use crate::billing_statements::{
    BillingStatementBook,
    entry_of_merchant, indexes_unique, merchant_refs, ref_of_subscription, refs_resolve, refs_unique,
    subscription_refs,
};
use crate::metadata::{entry_of, metadata_of, metadata_well_formed, MetadataStore};
use crate::statements::{history, is_row_of, sequences_dense};
use crate::statements::StatementLedger;
use crate::seq_facts::lemma_filter_take_succ;
use crate::types::{
    summarize, summary_of, ContractSnapshot, ContractSnapshotEvent, EmergencyStopDisabledEvent, EmergencyStopEnabledEvent,
    Error, MerchantPausedEvent, MerchantUnpausedEvent, MigrationExportEvent, Subscription,
    SubscriptionSummary,
};

verus! {

/// Contract-wide configuration.
pub struct VaultConfig {
    pub admin: Option<Address>,
    pub token: Option<Address>,
    pub min_topup: Option<i128>,
    /// The id that the next subscription will get; ids below it may be in use.
    pub next_id: u32,
    pub emergency_stop: bool,
    /// Merchants whose merchant-wide pause is on.
    pub paused_merchants: Vec<Address>,
}

/// A stored subscription under its id.
#[derive(Clone, Copy, Debug, PartialEq, Eq, Structural)]
pub struct SubscriptionRecord {
    pub id: u32,
    pub subscription: Subscription,
}

/// The whole persistent state of the vault.
pub struct SubscriptionVault {
    pub config: VaultConfig,
    pub subscriptions: Vec<SubscriptionRecord>,
    pub billing: BillingStatementBook,
    pub ledger: StatementLedger,
    pub metadata: MetadataStore,
}


/// The subscription stored under `id`: the first record with that id.
pub open spec fn find_subscription(records: Seq<SubscriptionRecord>, id: u32) -> Option<Subscription>
    decreases records.len(),
{
    if records.len() == 0 {
        None
    } else if records[0].id == id {
        Some(records[0].subscription)
    } else {
        find_subscription(records.drop_first(), id)
    }
}

/// The subscription with id `id` in `vault`, if any.
pub open spec fn subscription(vault: SubscriptionVault, id: u32) -> Option<Subscription> {
    find_subscription(vault.subscriptions@, id)
}

proof fn lemma_find_subscription_skip(records: Seq<SubscriptionRecord>, i: int, id: u32)
    requires
        0 <= i < records.len(),
    ensures
        find_subscription(records.skip(i), id) == if records[i].id == id {
            Some(records[i].subscription)
        } else {
            find_subscription(records.skip(i + 1), id)
        },
{
    assert(records.skip(i).drop_first() =~= records.skip(i + 1));
}

impl SubscriptionVault {
    /// The subscription with id `subscription_id`, or `NotFound`.
    pub fn get_subscription(&self, subscription_id: u32) -> (r: Result<Subscription, Error>)
        ensures
            r == match subscription(*self, subscription_id) {
                Some(s) => Ok(s),
                None => Err(Error::NotFound),
            },
    {
        let mut i: usize = 0;
        proof {
            assert(self.subscriptions@.skip(0) =~= self.subscriptions@);
        }
        while i < self.subscriptions.len()
            invariant
                i <= self.subscriptions@.len(),
                find_subscription(self.subscriptions@, subscription_id) == find_subscription(
                    self.subscriptions@.skip(i as int),
                    subscription_id,
                ),
            decreases self.subscriptions@.len() - i,
        {
            proof {
                lemma_find_subscription_skip(self.subscriptions@, i as int, subscription_id);
            }
            if self.subscriptions[i].id == subscription_id {
                return Ok(self.subscriptions[i].subscription);
            }
            i += 1;
        }
        proof {
            assert(self.subscriptions@.skip(i as int) =~= Seq::<SubscriptionRecord>::empty());
        }
        Err(Error::NotFound)
    }
}


/// The largest subscription id.
pub const MAX_SUBSCRIPTION_ID: u32 = u32::MAX;

/// Version of the vault's storage layout, reported in exports.
pub const STORAGE_VERSION: u32 = 2;

/// Most subscriptions that one export call returns.
pub const MAX_EXPORT_LIMIT: u32 = 100;

/// The error, if any, with which `caller` is refused as the admin: no admin is
/// configured yet, or `caller` is someone else.
pub open spec fn admin_refusal(vault: SubscriptionVault, caller: Address) -> Option<Error> {
    match vault.config.admin {
        None => Some(Error::NotInitialized),
        Some(admin) => if admin != caller {
            Some(Error::Unauthorized)
        } else {
            None
        },
    }
}

/// Whether `merchant`'s merchant-wide pause is on.
pub open spec fn merchant_paused(vault: SubscriptionVault, merchant: Address) -> bool {
    vault.config.paused_merchants@.contains(merchant)
}

/// Two configurations agree on the admin, token, minimum top-up and id
/// counter (the emergency stop and the paused merchants may differ).
pub open spec fn same_settings(a: VaultConfig, b: VaultConfig) -> bool {
    &&& a.admin == b.admin
    &&& a.token == b.token
    &&& a.min_topup == b.min_topup
    &&& a.next_id == b.next_id
}

/// Two vaults hold the same stores.
pub open spec fn same_stores(a: SubscriptionVault, b: SubscriptionVault) -> bool {
    &&& a.subscriptions == b.subscriptions
    &&& a.billing == b.billing
    &&& a.ledger == b.ledger
    &&& a.metadata == b.metadata
}

impl SubscriptionVault {
    /// A vault before anything is configured or stored.
    pub fn empty() -> (v: Self)
        ensures
            v.wf(),
            v.config.admin is None,
            v.config.token is None,
            v.config.min_topup is None,
            v.config.next_id == 0,
            !v.config.emergency_stop,
            v.config.paused_merchants@.len() == 0,
            v.subscriptions@.len() == 0,
            v.billing.statements@.len() == 0,
            v.billing.by_subscription@.len() == 0,
            v.billing.by_merchant@.len() == 0,
            v.ledger.rows@.len() == 0,
            v.metadata.entries@.len() == 0,
    {
        let v = SubscriptionVault {
            config: VaultConfig {
                admin: None,
                token: None,
                min_topup: None,
                next_id: 0,
                emergency_stop: false,
                paused_merchants: Vec::new(),
            },
            subscriptions: Vec::new(),
            billing: BillingStatementBook {
                statements: Vec::new(),
                by_subscription: Vec::new(),
                by_merchant: Vec::new(),
            },
            ledger: StatementLedger { rows: Vec::new() },
            metadata: MetadataStore { entries: Vec::new() },
        };
        proof {
            lemma_empty_stores_wf(v);
        }
        v
    }

    /// What every entry point keeps: each subscription's history is numbered
    /// 0, 1, 2, ... and fits the 32-bit counter; every index entry names a
    /// stored statement and no index lists a statement twice; each
    /// subscription's metadata keeps its limits (unique keys, at most
    /// `MAX_METADATA_KEYS` of them, every key and value within its size
    /// limit).
    pub open spec fn wf(self) -> bool {
        &&& forall|id: u32|
            #![trigger history(self, id)]
            sequences_dense(history(self, id)) && history(self, id).len() <= u32::MAX
        &&& refs_resolve(self)
        &&& indexes_unique(self)
        &&& forall|id: u32|
            #[trigger] metadata_well_formed(metadata_of(self, id))
    }
}

/// Well-formedness is a property of the stores alone: a vault whose ledger,
/// billing book and metadata equal another's is well formed exactly when the
/// other is.
pub proof fn lemma_wf_of_stores(a: SubscriptionVault, b: SubscriptionVault)
    requires
        a.ledger == b.ledger,
        a.billing == b.billing,
        a.metadata == b.metadata,
    ensures
        a.wf() == b.wf(),
{
    if a.wf() {
        lemma_wf_transfer(a, b);
    }
    if b.wf() {
        lemma_wf_transfer(b, a);
    }
}

proof fn lemma_wf_transfer(a: SubscriptionVault, b: SubscriptionVault)
    requires
        a.wf(),
        a.ledger == b.ledger,
        a.billing == b.billing,
        a.metadata == b.metadata,
    ensures
        b.wf(),
{
    assert forall|id: u32|
        #![trigger history(b, id)]
        sequences_dense(history(b, id)) && history(b, id).len() <= u32::MAX by {
        assert(history(b, id) == history(a, id));
    }
    lemma_wf_after_ledger_change(a, b);
}

/// A change to the ledger alone that keeps every history densely numbered
/// and within the counter keeps the vault well formed.
pub proof fn lemma_wf_after_ledger_change(before: SubscriptionVault, after: SubscriptionVault)
    requires
        before.wf(),
        after.billing == before.billing,
        after.metadata == before.metadata,
        forall|id: u32|
            #![trigger history(after, id)]
            sequences_dense(history(after, id)) && history(after, id).len() <= u32::MAX,
    ensures
        after.wf(),
{
    assert forall|id: u32| refs_unique(#[trigger] subscription_refs(after, id)) by {
        assert(subscription_refs(after, id) == subscription_refs(before, id));
    }
    assert forall|m: Address| refs_unique(#[trigger] merchant_refs(after, m)) by {
        assert(merchant_refs(after, m) == merchant_refs(before, m));
    }
    assert forall|id: u32|
        #[trigger] metadata_well_formed(metadata_of(after, id)) by {
        assert(metadata_of(after, id) == metadata_of(before, id));
    }
}

/// A change to the billing book alone that keeps every index entry resolving
/// and no index listing twice keeps the vault well formed.
pub proof fn lemma_wf_after_billing_change(before: SubscriptionVault, after: SubscriptionVault)
    requires
        before.wf(),
        after.ledger == before.ledger,
        after.metadata == before.metadata,
        refs_resolve(after),
        indexes_unique(after),
    ensures
        after.wf(),
{
    assert forall|id: u32|
        #![trigger history(after, id)]
        sequences_dense(history(after, id)) && history(after, id).len() <= u32::MAX by {
        assert(history(after, id) == history(before, id));
    }
    assert forall|id: u32|
        #[trigger] metadata_well_formed(metadata_of(after, id)) by {
        assert(metadata_of(after, id) == metadata_of(before, id));
    }
}

/// A change to the metadata alone that keeps every subscription's metadata
/// within its limits keeps the vault well formed.
pub proof fn lemma_wf_after_metadata_change(before: SubscriptionVault, after: SubscriptionVault)
    requires
        before.wf(),
        after.ledger == before.ledger,
        after.billing == before.billing,
        forall|id: u32|
            #[trigger] metadata_well_formed(metadata_of(after, id)),
    ensures
        after.wf(),
{
    assert forall|id: u32|
        #![trigger history(after, id)]
        sequences_dense(history(after, id)) && history(after, id).len() <= u32::MAX by {
        assert(history(after, id) == history(before, id));
    }
    assert forall|id: u32| refs_unique(#[trigger] subscription_refs(after, id)) by {
        assert(subscription_refs(after, id) == subscription_refs(before, id));
    }
    assert forall|m: Address| refs_unique(#[trigger] merchant_refs(after, m)) by {
        assert(merchant_refs(after, m) == merchant_refs(before, m));
    }
}

/// A vault with no rows, statements, index entries or metadata is well
/// formed, whatever its configuration and subscriptions.
pub proof fn lemma_empty_stores_wf(vault: SubscriptionVault)
    requires
        vault.ledger.rows@.len() == 0,
        vault.billing.statements@.len() == 0,
        vault.billing.by_subscription@.len() == 0,
        vault.billing.by_merchant@.len() == 0,
        vault.metadata.entries@.len() == 0,
    ensures
        vault.wf(),
{
    assert forall|id: u32| #![trigger history(vault, id)] sequences_dense(history(vault, id)) && history(
        vault,
        id,
    ).len() <= u32::MAX by {
        vault.ledger.rows@.lemma_filter_len(is_row_of(id));
    }
    assert forall|id: u32| refs_unique(#[trigger] subscription_refs(vault, id)) by {
        vault.billing.by_subscription@.lemma_filter_len(ref_of_subscription(id));
    }
    assert forall|m: Address| refs_unique(#[trigger] merchant_refs(vault, m)) by {
        vault.billing.by_merchant@.lemma_filter_len(entry_of_merchant(m));
    }
    assert forall|id: u32| #[trigger] metadata_well_formed(metadata_of(vault, id)) by {
        vault.metadata.entries@.lemma_filter_len(entry_of(id));
    }
}

/// The summaries of the subscriptions with ids in `[lo, hi)`, in id order,
/// skipping ids under which nothing is stored.
pub open spec fn summaries_between(vault: SubscriptionVault, lo: int, hi: int) -> Seq<SubscriptionSummary>
    decreases hi - lo,
{
    if hi <= lo {
        Seq::empty()
    } else {
        let prev = summaries_between(vault, lo, hi - 1);
        match subscription(vault, (hi - 1) as u32) {
            Some(s) => prev.push(summary_of((hi - 1) as u32, s)),
            None => prev,
        }
    }
}

/// Where an export that starts at `start_id` with `limit` stops (exclusive).
pub open spec fn export_end(vault: SubscriptionVault, start_id: u32, limit: u32) -> int {
    let wanted = if start_id + limit > u32::MAX {
        u32::MAX as int
    } else {
        start_id + limit
    };
    if wanted < vault.config.next_id {
        wanted
    } else {
        vault.config.next_id as int
    }
}

/// An export never returns more summaries than ids it looks at.
pub proof fn lemma_summaries_between_len(vault: SubscriptionVault, lo: int, hi: int)
    requires
        0 <= lo,
        hi <= u32::MAX + 1,
    ensures
        summaries_between(vault, lo, hi).len() <= if hi <= lo {
            0
        } else {
            hi - lo
        },
        forall|j: int|
            0 <= j < summaries_between(vault, lo, hi).len() ==> lo <= #[trigger] summaries_between(
                vault,
                lo,
                hi,
            )[j].subscription_id < hi,
    decreases hi - lo,
{
    if hi > lo {
        lemma_summaries_between_len(vault, lo, hi - 1);
        let prev = summaries_between(vault, lo, hi - 1);
        assert forall|j: int| 0 <= j < summaries_between(vault, lo, hi).len() implies lo
            <= #[trigger] summaries_between(vault, lo, hi)[j].subscription_id < hi by {
            if j < prev.len() {
                assert(summaries_between(vault, lo, hi)[j] == prev[j]);
            }
        }
    }
}

/// Where an export stops: past `start_id`, at most `limit` ids on, and never
/// at or past the id counter.
pub proof fn lemma_export_end_bounds(vault: SubscriptionVault, start_id: u32, limit: u32)
    requires
        start_id < vault.config.next_id,
        limit > 0,
    ensures
        start_id < export_end(vault, start_id, limit) <= start_id + limit,
        export_end(vault, start_id, limit) <= vault.config.next_id,
        export_end(vault, start_id, limit) == if start_id + limit < vault.config.next_id {
            start_id + limit
        } else {
            vault.config.next_id as int
        },
{
}

/// Each summary between `lo` and `hi` is the summary of the subscription
/// stored under its id, and that id lies in `[lo, hi)`.
pub proof fn lemma_summaries_between_sound(vault: SubscriptionVault, lo: int, hi: int)
    requires
        0 <= lo,
        hi <= u32::MAX + 1,
    ensures
        forall|j: int|
            0 <= j < summaries_between(vault, lo, hi).len() ==> {
                let x = #[trigger] summaries_between(vault, lo, hi)[j];
                &&& lo <= x.subscription_id < hi
                &&& subscription(vault, x.subscription_id) is Some
                &&& x == summary_of(x.subscription_id, subscription(vault, x.subscription_id)->0)
            },
    decreases hi - lo,
{
    if hi > lo {
        lemma_summaries_between_sound(vault, lo, hi - 1);
        let prev = summaries_between(vault, lo, hi - 1);
        let cur = summaries_between(vault, lo, hi);
        assert forall|j: int| 0 <= j < cur.len() implies {
            let x = #[trigger] cur[j];
            &&& lo <= x.subscription_id < hi
            &&& subscription(vault, x.subscription_id) is Some
            &&& x == summary_of(x.subscription_id, subscription(vault, x.subscription_id)->0)
        } by {
            if j < prev.len() {
                assert(cur[j] == prev[j]);
            }
        }
    }
}

/// The summaries between `lo` and `hi` come in strictly ascending id order.
pub proof fn lemma_summaries_between_ascending(vault: SubscriptionVault, lo: int, hi: int)
    requires
        0 <= lo,
        hi <= u32::MAX + 1,
    ensures
        forall|a: int, b: int|
            0 <= a < b < summaries_between(vault, lo, hi).len() ==> (#[trigger] summaries_between(
                vault,
                lo,
                hi,
            )[a]).subscription_id < (#[trigger] summaries_between(vault, lo, hi)[b]).subscription_id,
    decreases hi - lo,
{
    if hi > lo {
        lemma_summaries_between_ascending(vault, lo, hi - 1);
        lemma_summaries_between_len(vault, lo, hi - 1);
        let prev = summaries_between(vault, lo, hi - 1);
        let cur = summaries_between(vault, lo, hi);
        assert forall|a: int, b: int| 0 <= a < b < cur.len() implies (#[trigger] cur[a]).subscription_id
            < (#[trigger] cur[b]).subscription_id by {
            assert(cur[a] == prev[a]);
            assert(prev[a].subscription_id < hi - 1);
            if b < prev.len() {
                assert(cur[b] == prev[b]);
            }
        }
    }
}

/// Every subscription stored under an id in `[lo, hi)` has its summary among
/// the summaries between `lo` and `hi`.
pub proof fn lemma_summaries_between_complete(vault: SubscriptionVault, lo: int, hi: int)
    requires
        0 <= lo,
        hi <= u32::MAX + 1,
    ensures
        forall|id: u32|
            lo <= id < hi && (#[trigger] subscription(vault, id)) is Some ==> exists|j: int|
                0 <= j < summaries_between(vault, lo, hi).len() && summaries_between(vault, lo, hi)[j]
                    == summary_of(id, subscription(vault, id)->0),
    decreases hi - lo,
{
    if hi > lo {
        lemma_summaries_between_complete(vault, lo, hi - 1);
        let prev = summaries_between(vault, lo, hi - 1);
        let cur = summaries_between(vault, lo, hi);
        let last = (hi - 1) as u32;
        assert forall|id: u32| lo <= id < hi && (#[trigger] subscription(vault, id)) is Some implies exists|j: int|
            0 <= j < cur.len() && cur[j] == summary_of(id, subscription(vault, id)->0) by {
            if id < hi - 1 {
                let j = choose|j: int| 0 <= j < prev.len() && prev[j] == summary_of(id, subscription(vault, id)->0);
                assert(cur[j] == prev[j]);
            } else {
                assert(cur[cur.len() - 1] == summary_of(last, subscription(vault, last)->0));
            }
        }
    }
}

/// Only the configured admin passes the admin check: a caller is accepted
/// exactly when it is the configured admin; with no admin configured every
/// caller is refused with `NotInitialized`, and with one configured any other
/// caller is refused with `Unauthorized`.
pub proof fn lemma_admin_refusal(vault: SubscriptionVault, caller: Address)
    ensures
        admin_refusal(vault, caller) is None <==> vault.config.admin == Some(caller),
        vault.config.admin is None ==> admin_refusal(vault, caller) == Some(Error::NotInitialized),
        vault.config.admin is Some && vault.config.admin != Some(caller) ==> admin_refusal(vault, caller)
            == Some(Error::Unauthorized),
{
}

/// Checks that `admin` is the configured admin.
pub fn require_admin_auth(vault: &SubscriptionVault, admin: &Address) -> (r: Result<(), Error>)
    ensures
        r == match admin_refusal(*vault, *admin) {
            Some(e) => Err(e),
            None => Ok(()),
        },
{
    match vault.config.admin {
        None => Err(Error::NotInitialized),
        Some(stored) => if *admin != stored {
            Err(Error::Unauthorized)
        } else {
            Ok(())
        },
    }
}

/// Refuses with `EmergencyStopActive` while the emergency stop is on.
pub fn require_not_emergency_stop(vault: &SubscriptionVault) -> (r: Result<(), Error>)
    ensures
        r == if vault.config.emergency_stop {
            Err::<(), Error>(Error::EmergencyStopActive)
        } else {
            Ok(())
        },
{
    if vault.config.emergency_stop {
        return Err(Error::EmergencyStopActive);
    }
    Ok(())
}

/// Whether `merchant` is in the list of paused merchants.
fn contains_address(list: &Vec<Address>, merchant: &Address) -> (r: bool)
    ensures
        r == list@.contains(*merchant),
{
    let mut i: usize = 0;
    while i < list.len()
        invariant
            i <= list@.len(),
            forall|j: int| 0 <= j < i ==> list@[j] != *merchant,
        decreases list@.len() - i,
    {
        if list[i] == *merchant {
            return true;
        }
        i += 1;
    }
    false
}

/// Whether an address is not `m`.
pub open spec fn other_than(m: Address) -> spec_fn(Address) -> bool {
    |a: Address| a != m
}

impl SubscriptionVault {
    /// Whether the emergency stop is on.
    pub fn get_emergency_stop_status(&self) -> (r: bool)
        ensures
            r == self.config.emergency_stop,
    {
        self.config.emergency_stop
    }

    /// Switches the emergency stop on; admin only. Returns the event to
    /// publish, or none when the stop was on already.
    pub fn enable_emergency_stop(&mut self, admin: Address, now: u64) -> (r: Result<
        Option<EmergencyStopEnabledEvent>,
        Error,
    >)
        ensures
            match admin_refusal(*old(self), admin) {
                Some(e) => r == Err::<Option<EmergencyStopEnabledEvent>, Error>(e)
                    && final(self).config.emergency_stop == old(self).config.emergency_stop,
                None => {
                    &&& final(self).config.emergency_stop
                    &&& r == Ok::<Option<EmergencyStopEnabledEvent>, Error>(
                        if old(self).config.emergency_stop {
                            None
                        } else {
                            Some(EmergencyStopEnabledEvent { admin, timestamp: now })
                        },
                    )
                },
            },
            same_settings(final(self).config, old(self).config),
            final(self).config.paused_merchants == old(self).config.paused_merchants,
            same_stores(*final(self), *old(self)),
            final(self).wf() == old(self).wf(),
    {
        if let Err(e) = require_admin_auth(self, &admin) {
            return Err(e);
        }
        if self.config.emergency_stop {
            return Ok(None);
        }
        self.config.emergency_stop = true;
        proof {
            lemma_wf_of_stores(*self, *old(self));
        }
        Ok(Some(EmergencyStopEnabledEvent { admin, timestamp: now }))
    }

    /// Switches the emergency stop off; admin only. Returns the event to
    /// publish, or none when the stop was off already.
    pub fn disable_emergency_stop(&mut self, admin: Address, now: u64) -> (r: Result<
        Option<EmergencyStopDisabledEvent>,
        Error,
    >)
        ensures
            match admin_refusal(*old(self), admin) {
                Some(e) => r == Err::<Option<EmergencyStopDisabledEvent>, Error>(e)
                    && final(self).config.emergency_stop == old(self).config.emergency_stop,
                None => {
                    &&& !final(self).config.emergency_stop
                    &&& r == Ok::<Option<EmergencyStopDisabledEvent>, Error>(
                        if !old(self).config.emergency_stop {
                            None
                        } else {
                            Some(EmergencyStopDisabledEvent { admin, timestamp: now })
                        },
                    )
                },
            },
            same_settings(final(self).config, old(self).config),
            final(self).config.paused_merchants == old(self).config.paused_merchants,
            same_stores(*final(self), *old(self)),
            final(self).wf() == old(self).wf(),
    {
        if let Err(e) = require_admin_auth(self, &admin) {
            return Err(e);
        }
        if !self.config.emergency_stop {
            return Ok(None);
        }
        self.config.emergency_stop = false;
        proof {
            lemma_wf_of_stores(*self, *old(self));
        }
        Ok(Some(EmergencyStopDisabledEvent { admin, timestamp: now }))
    }

    /// Whether `merchant`'s merchant-wide pause is on.
    pub fn get_merchant_paused(&self, merchant: Address) -> (r: bool)
        ensures
            r == merchant_paused(*self, merchant),
    {
        contains_address(&self.config.paused_merchants, &merchant)
    }

    /// Switches `merchant`'s merchant-wide pause on. Returns the event to
    /// publish, or none when the pause was on already.
    pub fn pause_merchant(&mut self, merchant: Address, now: u64) -> (r: Result<
        Option<MerchantPausedEvent>,
        Error,
    >)
        ensures
            merchant_paused(*final(self), merchant),
            forall|m: Address|
                m != merchant ==> #[trigger] merchant_paused(*final(self), m) == merchant_paused(
                    *old(self),
                    m,
                ),
            r == Ok::<Option<MerchantPausedEvent>, Error>(
                if merchant_paused(*old(self), merchant) {
                    None
                } else {
                    Some(MerchantPausedEvent { merchant, timestamp: now })
                },
            ),
            same_settings(final(self).config, old(self).config),
            final(self).config.emergency_stop == old(self).config.emergency_stop,
            same_stores(*final(self), *old(self)),
            final(self).wf() == old(self).wf(),
    {
        if contains_address(&self.config.paused_merchants, &merchant) {
            return Ok(None);
        }
        self.config.paused_merchants.push(merchant);
        proof {
            assert(self.config.paused_merchants@[self.config.paused_merchants@.len() - 1] == merchant);
            assert forall|m: Address| m != merchant implies #[trigger] merchant_paused(*self, m)
                == merchant_paused(*old(self), m) by {
                if merchant_paused(*self, m) {
                    let j = choose|j: int|
                        0 <= j < self.config.paused_merchants@.len()
                            && self.config.paused_merchants@[j] == m;
                    assert(old(self).config.paused_merchants@[j] == m);
                }
                if merchant_paused(*old(self), m) {
                    let j = choose|j: int|
                        0 <= j < old(self).config.paused_merchants@.len()
                            && old(self).config.paused_merchants@[j] == m;
                    assert(self.config.paused_merchants@[j] == m);
                }
            }
        }
        proof {
            lemma_wf_of_stores(*self, *old(self));
        }
        Ok(Some(MerchantPausedEvent { merchant, timestamp: now }))
    }

    /// Switches `merchant`'s merchant-wide pause off. Returns the event to
    /// publish, or none when the pause was off already.
    pub fn unpause_merchant(&mut self, merchant: Address, now: u64) -> (r: Result<
        Option<MerchantUnpausedEvent>,
        Error,
    >)
        ensures
            !merchant_paused(*final(self), merchant),
            forall|m: Address|
                m != merchant ==> #[trigger] merchant_paused(*final(self), m) == merchant_paused(
                    *old(self),
                    m,
                ),
            r == Ok::<Option<MerchantUnpausedEvent>, Error>(
                if !merchant_paused(*old(self), merchant) {
                    None
                } else {
                    Some(MerchantUnpausedEvent { merchant, timestamp: now })
                },
            ),
            same_settings(final(self).config, old(self).config),
            final(self).config.emergency_stop == old(self).config.emergency_stop,
            same_stores(*final(self), *old(self)),
            final(self).wf() == old(self).wf(),
    {
        if !contains_address(&self.config.paused_merchants, &merchant) {
            return Ok(None);
        }
        let ghost before = self.config.paused_merchants@;
        let ghost keep = other_than(merchant);
        let mut kept: Vec<Address> = Vec::new();
        let mut i: usize = 0;
        while i < self.config.paused_merchants.len()
            invariant
                before == self.config.paused_merchants@,
                keep == other_than(merchant),
                i <= before.len(),
                kept@ == before.take(i as int).filter(keep),
            decreases before.len() - i,
        {
            proof {
                lemma_filter_take_succ(before, keep, i as int);
            }
            let a = self.config.paused_merchants[i];
            if a != merchant {
                kept.push(a);
            }
            i += 1;
        }
        proof {
            assert(before.take(before.len() as int) =~= before);
        }
        self.config.paused_merchants = kept;
        proof {
            let after = self.config.paused_merchants@;
            if after.contains(merchant) {
                let j = choose|j: int| 0 <= j < after.len() && after[j] == merchant;
                before.lemma_filter_pred(keep, j);
            }
            assert forall|m: Address| m != merchant implies #[trigger] merchant_paused(*self, m)
                == merchant_paused(*old(self), m) by {
                if before.contains(m) {
                    let j = choose|j: int| 0 <= j < before.len() && before[j] == m;
                    before.lemma_filter_contains(keep, j);
                }
                if after.contains(m) {
                    before.lemma_filter_contains_rev(keep, m);
                }
            }
        }
        proof {
            lemma_wf_of_stores(*self, *old(self));
        }
        Ok(Some(MerchantUnpausedEvent { merchant, timestamp: now }))
    }

    /// Contract-level configuration for migration tooling, with the event to
    /// publish; admin only. Fails with `NotFound` when no token is configured
    /// and with `NotInitialized` when no minimum top-up is.
    pub fn export_contract_snapshot(&self, admin: Address, now: u64) -> (r: Result<
        (ContractSnapshot, ContractSnapshotEvent),
        Error,
    >)
        ensures
            r == match admin_refusal(*self, admin) {
                Some(e) => Err(e),
                None => match (self.config.token, self.config.min_topup) {
                    (None, _) => Err(Error::NotFound),
                    (Some(_), None) => Err(Error::NotInitialized),
                    (Some(token), Some(min_topup)) => Ok(
                        (
                            ContractSnapshot {
                                admin,
                                token,
                                min_topup,
                                next_id: self.config.next_id,
                                storage_version: STORAGE_VERSION,
                                timestamp: now,
                            },
                            ContractSnapshotEvent { admin, timestamp: now },
                        ),
                    ),
                },
            },
    {
        if let Err(e) = require_admin_auth(self, &admin) {
            return Err(e);
        }
        let token = match self.config.token {
            Some(t) => t,
            None => return Err(Error::NotFound),
        };
        let min_topup = match self.config.min_topup {
            Some(m) => m,
            None => return Err(Error::NotInitialized),
        };
        let snapshot = ContractSnapshot {
            admin,
            token,
            min_topup,
            next_id: self.config.next_id,
            storage_version: STORAGE_VERSION,
            timestamp: now,
        };
        Ok((snapshot, ContractSnapshotEvent { admin, timestamp: now }))
    }

    /// The summary of one subscription for migration tooling, with the event
    /// to publish; admin only.
    pub fn export_subscription_summary(&self, admin: Address, subscription_id: u32, now: u64) -> (r:
        Result<(SubscriptionSummary, MigrationExportEvent), Error>)
        ensures
            r == match admin_refusal(*self, admin) {
                Some(e) => Err(e),
                None => match subscription(*self, subscription_id) {
                    None => Err(Error::NotFound),
                    Some(s) => Ok(
                        (
                            summary_of(subscription_id, s),
                            MigrationExportEvent {
                                admin,
                                start_id: subscription_id,
                                limit: 1,
                                exported: 1,
                                timestamp: now,
                            },
                        ),
                    ),
                },
            },
            r matches Ok((summary, _)) ==> {
                let s = subscription(*self, subscription_id)->0;
                &&& subscription(*self, subscription_id) is Some
                &&& summary.subscription_id == subscription_id
                &&& summary.subscriber == s.subscriber
                &&& summary.merchant == s.merchant
                &&& summary.amount == s.amount
                &&& summary.interval_seconds == s.interval_seconds
                &&& summary.last_payment_timestamp == s.last_payment_timestamp
                &&& summary.status == s.status
                &&& summary.prepaid_balance == s.prepaid_balance
                &&& summary.usage_enabled == s.usage_enabled
                &&& summary.lifetime_cap == s.lifetime_cap
                &&& summary.lifetime_charged == s.lifetime_charged
            },
    {
        if let Err(e) = require_admin_auth(self, &admin) {
            return Err(e);
        }
        let sub = match self.get_subscription(subscription_id) {
            Ok(s) => s,
            Err(e) => return Err(e),
        };
        let event = MigrationExportEvent {
            admin,
            start_id: subscription_id,
            limit: 1,
            exported: 1,
            timestamp: now,
        };
        Ok((summarize(subscription_id, &sub), event))
    }

    /// Summaries of the subscriptions with ids from `start_id` on, looking at
    /// no more than `limit` ids and none at or past the id counter; admin
    /// only. A `limit` above [`MAX_EXPORT_LIMIT`] is refused. The event is
    /// published only when ids were looked at.
    pub fn export_subscription_summaries(&self, admin: Address, start_id: u32, limit: u32, now: u64) -> (r:
        Result<(Vec<SubscriptionSummary>, Option<MigrationExportEvent>), Error>)
        ensures
            match admin_refusal(*self, admin) {
                Some(e) => r matches Err(x) && x == e,
                None => if limit > MAX_EXPORT_LIMIT {
                    r matches Err(x) && x == Error::InvalidExportLimit
                } else if limit == 0 || start_id >= self.config.next_id {
                    r matches Ok((summaries, event)) && summaries@.len() == 0 && event is None
                } else {
                    r matches Ok((summaries, event)) && {
                        let expected = summaries_between(
                            *self,
                            start_id as int,
                            export_end(*self, start_id, limit),
                        );
                        &&& summaries@ == expected
                        &&& event == Some(
                            MigrationExportEvent {
                                admin,
                                start_id,
                                limit,
                                exported: expected.len() as u32,
                                timestamp: now,
                            },
                        )
                    }
                },
            },
            r matches Ok((summaries, _)) ==> {
                &&& summaries@.len() <= limit
                &&& summaries@.len() <= MAX_EXPORT_LIMIT
                &&& forall|j: int|
                    0 <= j < summaries@.len() ==> {
                        let x = #[trigger] summaries@[j];
                        &&& start_id <= x.subscription_id < start_id + limit
                        &&& x.subscription_id < self.config.next_id
                        &&& subscription(*self, x.subscription_id) is Some
                        &&& x == summary_of(x.subscription_id, subscription(*self, x.subscription_id)->0)
                    }
                &&& forall|a: int, b: int|
                    0 <= a < b < summaries@.len() ==> (#[trigger] summaries@[a]).subscription_id < (
                    #[trigger] summaries@[b]).subscription_id
                &&& forall|id: u32|
                    start_id <= id < start_id + limit && id < self.config.next_id && (#[trigger] subscription(
                        *self,
                        id,
                    )) is Some ==> exists|j: int|
                        0 <= j < summaries@.len() && summaries@[j] == summary_of(id, subscription(*self, id)->0)
            },
    {
        proof {
            if limit > 0 && start_id < self.config.next_id {
                lemma_export_end_bounds(*self, start_id, limit);
                let end = export_end(*self, start_id, limit);
                lemma_summaries_between_sound(*self, start_id as int, end);
                lemma_summaries_between_ascending(*self, start_id as int, end);
                lemma_summaries_between_complete(*self, start_id as int, end);
                lemma_summaries_between_len(*self, start_id as int, end);
            }
        }
        if let Err(e) = require_admin_auth(self, &admin) {
            return Err(e);
        }
        if limit > MAX_EXPORT_LIMIT {
            return Err(Error::InvalidExportLimit);
        }
        if limit == 0 {
            return Ok((Vec::new(), None));
        }
        let next_id = self.config.next_id;
        if start_id >= next_id {
            return Ok((Vec::new(), None));
        }
        let wanted = start_id.saturating_add(limit);
        let end_id = if wanted < next_id {
            wanted
        } else {
            next_id
        };
        let mut out: Vec<SubscriptionSummary> = Vec::new();
        let mut exported: u32 = 0;
        let mut id = start_id;
        while id < end_id
            invariant
                start_id <= id <= end_id,
                end_id == export_end(*self, start_id, limit),
                end_id - start_id <= limit,
                limit <= MAX_EXPORT_LIMIT,
                out@ == summaries_between(*self, start_id as int, id as int),
                exported == out@.len(),
            decreases end_id - id,
        {
            proof {
                lemma_summaries_between_len(*self, start_id as int, id as int);
            }
            match self.get_subscription(id) {
                Ok(sub) => {
                    out.push(summarize(id, &sub));
                    exported += 1;
                },
                Err(_) => {},
            }
            id += 1;
        }
        let event = MigrationExportEvent { admin, start_id, limit, exported, timestamp: now };
        Ok((out, Some(event)))
    }

    /// The id counter: how many subscription ids have been handed out.
    pub fn get_subscription_count(&self) -> (r: u32)
        ensures
            r == self.config.next_id,
    {
        self.config.next_id
    }
}

} // verus!
