//! Bounded per-subscription metadata: a small key-value store that links
//! off-chain references (invoice ids, customer ids, tags) to a subscription
//! without touching its financial state.
//!
//! A subscription's metadata is a list of key-value pairs in the order in which
//! the keys were first set. Limits: at most [`MAX_METADATA_KEYS`] keys, keys of
//! 1 to [`MAX_METADATA_KEY_LENGTH`] bytes, values of at most
//! [`MAX_METADATA_VALUE_LENGTH`] bytes.
use vstd::prelude::*;

use crate::address::Address;
use crate::seq_facts::{
    lemma_filter_index, lemma_filter_remove, lemma_filter_take_succ, lemma_filter_update,
};
use crate::types::{Error, Subscription, SubscriptionStatus};
use crate::vault::{lemma_wf_after_metadata_change, subscription, SubscriptionVault};

verus! {

broadcast use vstd::seq_lib::group_seq_properties;

/// Most keys that one subscription may carry.
pub const MAX_METADATA_KEYS: u32 = 10;

/// Longest key, in bytes.
pub const MAX_METADATA_KEY_LENGTH: u32 = 32;

/// Longest value, in bytes.
pub const MAX_METADATA_VALUE_LENGTH: u32 = 256;

/// One key-value pair of a subscription.
pub struct MetadataEntry {
    pub subscription_id: u32,
    pub key: Vec<u8>,
    pub value: Vec<u8>,
}

/// The metadata of all subscriptions.
pub struct MetadataStore {
    pub entries: Vec<MetadataEntry>,
}

/// Published when a key is set.
pub struct MetadataSetEvent {
    pub subscription_id: u32,
    pub key: Vec<u8>,
    pub authorizer: Address,
}

/// Published when a key is deleted.
pub struct MetadataDeletedEvent {
    pub subscription_id: u32,
    pub key: Vec<u8>,
    pub authorizer: Address,
}

// ---------------------------------------------------------------------------
// The model
// ---------------------------------------------------------------------------

/// Whether an entry belongs to subscription `id`.
pub open spec fn entry_of(id: u32) -> spec_fn(MetadataEntry) -> bool {
    |e: MetadataEntry| e.subscription_id == id
}

/// An entry as a key-value pair of byte strings.
pub open spec fn entry_view(e: MetadataEntry) -> (Seq<u8>, Seq<u8>) {
    (e.key@, e.value@)
}

/// The key-value pairs of subscription `id` among `entries`, in order.
pub open spec fn metadata_view(entries: Seq<MetadataEntry>, id: u32) -> Seq<(Seq<u8>, Seq<u8>)> {
    entries.filter(entry_of(id)).map_values(|e: MetadataEntry| entry_view(e))
}

/// The key-value pairs of subscription `id` in `vault`.
pub open spec fn metadata_of(vault: SubscriptionVault, id: u32) -> Seq<(Seq<u8>, Seq<u8>)> {
    metadata_view(vault.metadata.entries@, id)
}

/// No pair of `m` has key `k`.
pub open spec fn key_absent(m: Seq<(Seq<u8>, Seq<u8>)>, k: Seq<u8>) -> bool {
    forall|q: int| 0 <= q < m.len() ==> (#[trigger] m[q]).0 != k
}

/// Position `p` holds the first pair of `m` with key `k`.
pub open spec fn first_key_at(m: Seq<(Seq<u8>, Seq<u8>)>, k: Seq<u8>, p: int) -> bool {
    0 <= p < m.len() && m[p].0 == k && key_absent(m.take(p), k)
}

/// Position of the first pair with key `k`, or -1.
pub open spec fn key_position(m: Seq<(Seq<u8>, Seq<u8>)>, k: Seq<u8>) -> int {
    if exists|p: int| first_key_at(m, k, p) {
        choose|p: int| first_key_at(m, k, p)
    } else {
        -1
    }
}

/// The value stored under `k`, if any.
pub open spec fn lookup_value(m: Seq<(Seq<u8>, Seq<u8>)>, k: Seq<u8>) -> Option<Seq<u8>> {
    if key_position(m, k) >= 0 {
        Some(m[key_position(m, k)].1)
    } else {
        None
    }
}

/// The pairs after setting `k` to `v`: an existing key keeps its place and
/// gets the new value; a new key goes last.
pub open spec fn metadata_after_set(m: Seq<(Seq<u8>, Seq<u8>)>, k: Seq<u8>, v: Seq<u8>) -> Seq<
    (Seq<u8>, Seq<u8>),
> {
    if key_position(m, k) >= 0 {
        m.update(key_position(m, k), (k, v))
    } else {
        m.push((k, v))
    }
}

/// No key occurs twice.
pub open spec fn keys_unique(m: Seq<(Seq<u8>, Seq<u8>)>) -> bool {
    forall|p: int, q: int| 0 <= p < q < m.len() ==> (#[trigger] m[p]).0 != (#[trigger] m[q]).0
}

/// Whether `a` may edit the metadata of `sub`: its subscriber or its merchant.
pub open spec fn may_edit(sub: Subscription, a: Address) -> bool {
    a == sub.subscriber || a == sub.merchant
}

/// The error, if any, with which setting `key` to `value` is refused.
pub open spec fn set_refusal(
    vault: SubscriptionVault,
    id: u32,
    authorizer: Address,
    key: Seq<u8>,
    value: Seq<u8>,
) -> Option<Error> {
    match subscription(vault, id) {
        None => Some(Error::NotFound),
        Some(sub) => if !may_edit(sub, authorizer) {
            Some(Error::Forbidden)
        } else if sub.status == SubscriptionStatus::Cancelled {
            Some(Error::NotActive)
        } else if key.len() == 0 || key.len() > MAX_METADATA_KEY_LENGTH {
            Some(Error::MetadataKeyTooLong)
        } else if value.len() > MAX_METADATA_VALUE_LENGTH {
            Some(Error::MetadataValueTooLong)
        } else if key_position(metadata_of(vault, id), key) < 0 && metadata_of(vault, id).len()
            >= MAX_METADATA_KEYS {
            Some(Error::MetadataKeyLimitReached)
        } else {
            None
        },
    }
}

/// The error, if any, with which deleting `key` is refused.
pub open spec fn delete_refusal(vault: SubscriptionVault, id: u32, authorizer: Address, key: Seq<u8>) -> Option<
    Error,
> {
    match subscription(vault, id) {
        None => Some(Error::NotFound),
        Some(sub) => if !may_edit(sub, authorizer) {
            Some(Error::Forbidden)
        } else if key_position(metadata_of(vault, id), key) < 0 {
            Some(Error::NotFound)
        } else {
            None
        },
    }
}

// ---------------------------------------------------------------------------
// Facts and laws
// ---------------------------------------------------------------------------

proof fn lemma_first_key_unique(m: Seq<(Seq<u8>, Seq<u8>)>, k: Seq<u8>, p1: int, p2: int)
    requires
        first_key_at(m, k, p1),
        first_key_at(m, k, p2),
    ensures
        p1 == p2,
{
    if p1 < p2 {
        assert(m.take(p2)[p1] == m[p1]);
    } else if p2 < p1 {
        assert(m.take(p1)[p2] == m[p2]);
    }
}

/// The first position of a key is what `key_position` names.
proof fn lemma_key_position_is(m: Seq<(Seq<u8>, Seq<u8>)>, k: Seq<u8>, p: int)
    requires
        first_key_at(m, k, p),
    ensures
        key_position(m, k) == p,
{
    let q = choose|q: int| first_key_at(m, k, q);
    lemma_first_key_unique(m, k, p, q);
}

/// A key that no pair carries has no position.
proof fn lemma_key_position_absent(m: Seq<(Seq<u8>, Seq<u8>)>, k: Seq<u8>)
    requires
        key_absent(m, k),
    ensures
        key_position(m, k) == -1,
{
    if exists|p: int| first_key_at(m, k, p) {
        let p = choose|p: int| first_key_at(m, k, p);
        assert(m[p].0 == k);
    }
}

/// A key that is set can be read back with the value it was set to.
pub proof fn lemma_get_after_set(m: Seq<(Seq<u8>, Seq<u8>)>, k: Seq<u8>, v: Seq<u8>)
    ensures
        lookup_value(metadata_after_set(m, k, v), k) == Some(v),
{
    let p = key_position(m, k);
    let after = metadata_after_set(m, k, v);
    if p >= 0 {
        assert(after.take(p) =~= m.take(p));
        lemma_key_position_is(after, k, p);
    } else {
        if !key_absent(m, k) {
            let q = choose|q: int| 0 <= q < m.len() && (#[trigger] m[q]).0 == k;
            lemma_first_exists(m, k, q);
            assert(false);
        }
        assert(after.take(m.len() as int) =~= m);
        lemma_key_position_is(after, k, m.len() as int);
    }
}

/// If some pair has key `k`, there is a first one.
proof fn lemma_first_exists(m: Seq<(Seq<u8>, Seq<u8>)>, k: Seq<u8>, q: int)
    requires
        0 <= q < m.len(),
        m[q].0 == k,
    ensures
        key_position(m, k) >= 0,
    decreases q,
{
    if key_absent(m.take(q), k) {
        assert(first_key_at(m, k, q));
    } else {
        let r = choose|r: int| 0 <= r < m.take(q).len() && (#[trigger] m.take(q)[r]).0 == k;
        assert(m[r].0 == k);
        lemma_first_exists(m, k, r);
    }
}

/// Setting one key leaves what every other key reads.
pub proof fn lemma_get_after_set_other(m: Seq<(Seq<u8>, Seq<u8>)>, k: Seq<u8>, v: Seq<u8>, other: Seq<u8>)
    requires
        other != k,
    ensures
        lookup_value(metadata_after_set(m, k, v), other) == lookup_value(m, other),
{
    let after = metadata_after_set(m, k, v);
    let p = key_position(m, k);
    let q = key_position(m, other);
    if q >= 0 {
        assert forall|r: int| 0 <= r < after.take(q).len() implies (#[trigger] after.take(q)[r]).0 != other by {
            assert(m.take(q)[r] == m[r]);
        }
        lemma_key_position_is(after, other, q);
    } else {
        assert forall|r: int| 0 <= r < after.len() implies (#[trigger] after[r]).0 != other by {
            if r < m.len() && m[r].0 == other {
                lemma_first_exists(m, other, r);
            }
        }
        lemma_key_position_absent(after, other);
    }
}

/// A deleted key reads as absent, when keys are unique.
pub proof fn lemma_get_after_delete(m: Seq<(Seq<u8>, Seq<u8>)>, k: Seq<u8>)
    requires
        keys_unique(m),
        key_position(m, k) >= 0,
    ensures
        lookup_value(m.remove(key_position(m, k)), k) is None,
{
    let p = key_position(m, k);
    let after = m.remove(p);
    assert forall|r: int| 0 <= r < after.len() implies (#[trigger] after[r]).0 != k by {
        if r < p {
            assert(after[r] == m[r]);
        } else {
            assert(after[r] == m[r + 1]);
        }
    }
    lemma_key_position_absent(after, k);
}

/// Setting and deleting keep keys unique.
pub proof fn lemma_keys_stay_unique(m: Seq<(Seq<u8>, Seq<u8>)>, k: Seq<u8>, v: Seq<u8>, p: int)
    requires
        keys_unique(m),
    ensures
        keys_unique(metadata_after_set(m, k, v)),
        0 <= p < m.len() ==> keys_unique(m.remove(p)),
{
    let after = metadata_after_set(m, k, v);
    if key_position(m, k) < 0 {
        assert forall|a: int, b: int| 0 <= a < b < after.len() implies (#[trigger] after[a]).0 != (
        #[trigger] after[b]).0 by {
            if b == m.len() && m[a].0 == k {
                lemma_first_exists(m, k, a);
            }
        }
    }
    if 0 <= p < m.len() {
        let rm = m.remove(p);
        assert forall|a: int, b: int| 0 <= a < b < rm.len() implies (#[trigger] rm[a]).0 != (
        #[trigger] rm[b]).0 by {
            let a0 = if a < p { a } else { a + 1 };
            let b0 = if b < p { b } else { b + 1 };
            assert(rm[a] == m[a0]);
            assert(rm[b] == m[b0]);
        }
    }
}

/// Every pair keeps the size limits: a key of 1 to [`MAX_METADATA_KEY_LENGTH`]
/// bytes, a value of at most [`MAX_METADATA_VALUE_LENGTH`] bytes.
pub open spec fn pairs_within_limits(m: Seq<(Seq<u8>, Seq<u8>)>) -> bool {
    forall|j: int|
        0 <= j < m.len() ==> 1 <= (#[trigger] m[j]).0.len() <= MAX_METADATA_KEY_LENGTH && m[j].1.len()
            <= MAX_METADATA_VALUE_LENGTH
}

/// A subscription's metadata keeps all its limits: unique keys, at most
/// [`MAX_METADATA_KEYS`] of them, and every pair within the size limits.
pub open spec fn metadata_well_formed(m: Seq<(Seq<u8>, Seq<u8>)>) -> bool {
    &&& keys_unique(m)
    &&& m.len() <= MAX_METADATA_KEYS
    &&& pairs_within_limits(m)
}

/// An accepted set keeps a subscription's metadata within its limits.
pub proof fn lemma_set_keeps_well_formed(m: Seq<(Seq<u8>, Seq<u8>)>, k: Seq<u8>, v: Seq<u8>)
    requires
        metadata_well_formed(m),
        1 <= k.len() <= MAX_METADATA_KEY_LENGTH,
        v.len() <= MAX_METADATA_VALUE_LENGTH,
        key_position(m, k) >= 0 || m.len() < MAX_METADATA_KEYS,
    ensures
        metadata_well_formed(metadata_after_set(m, k, v)),
{
    lemma_keys_stay_unique(m, k, v, 0);
    let after = metadata_after_set(m, k, v);
    assert forall|j: int| 0 <= j < after.len() implies 1 <= (#[trigger] after[j]).0.len()
        <= MAX_METADATA_KEY_LENGTH && after[j].1.len() <= MAX_METADATA_VALUE_LENGTH by {
        if j < m.len() && after[j] != (k, v) {
            assert(after[j] == m[j]);
        }
    }
}

/// A delete keeps a subscription's metadata within its limits.
pub proof fn lemma_remove_keeps_well_formed(m: Seq<(Seq<u8>, Seq<u8>)>, p: int)
    requires
        metadata_well_formed(m),
        0 <= p < m.len(),
    ensures
        metadata_well_formed(m.remove(p)),
{
    lemma_keys_stay_unique(m, Seq::empty(), Seq::empty(), p);
    let after = m.remove(p);
    assert forall|j: int| 0 <= j < after.len() implies 1 <= (#[trigger] after[j]).0.len()
        <= MAX_METADATA_KEY_LENGTH && after[j].1.len() <= MAX_METADATA_VALUE_LENGTH by {
        if j < p {
            assert(after[j] == m[j]);
        } else {
            assert(after[j] == m[j + 1]);
        }
    }
}

/// Setting a key is accepted for the subscriber or merchant of a subscription
/// that is not cancelled, with a key of 1 to [`MAX_METADATA_KEY_LENGTH`] bytes
/// and a value of at most [`MAX_METADATA_VALUE_LENGTH`] bytes, whenever the key
/// is set already or that subscription's own metadata holds fewer than
/// [`MAX_METADATA_KEYS`] keys; other subscriptions' metadata plays no part.
pub proof fn lemma_set_accepted(
    vault: SubscriptionVault,
    id: u32,
    authorizer: Address,
    key: Seq<u8>,
    value: Seq<u8>,
)
    requires
        subscription(vault, id) is Some,
        authorizer == subscription(vault, id)->0.subscriber || authorizer == subscription(
            vault,
            id,
        )->0.merchant,
        subscription(vault, id)->0.status != SubscriptionStatus::Cancelled,
        1 <= key.len() <= MAX_METADATA_KEY_LENGTH,
        value.len() <= MAX_METADATA_VALUE_LENGTH,
        metadata_of(vault, id).len() < MAX_METADATA_KEYS || exists|j: int|
            0 <= j < metadata_of(vault, id).len() && (#[trigger] metadata_of(vault, id)[j]).0 == key,
    ensures
        set_refusal(vault, id, authorizer, key, value) is None,
{
    let m = metadata_of(vault, id);
    if m.len() >= MAX_METADATA_KEYS {
        let j = choose|j: int| 0 <= j < m.len() && (#[trigger] m[j]).0 == key;
        lemma_first_exists(m, key, j);
    }
}

/// A set is refused for the key limit only when the subscription's own
/// metadata already holds [`MAX_METADATA_KEYS`] keys, none of them `key`.
pub proof fn lemma_set_limit_counts_own_keys(
    vault: SubscriptionVault,
    id: u32,
    authorizer: Address,
    key: Seq<u8>,
    value: Seq<u8>,
)
    ensures
        set_refusal(vault, id, authorizer, key, value) == Some(Error::MetadataKeyLimitReached) ==> {
            &&& metadata_of(vault, id).len() >= MAX_METADATA_KEYS
            &&& forall|j: int|
                0 <= j < metadata_of(vault, id).len() ==> (#[trigger] metadata_of(vault, id)[j]).0 != key
        },
{
    let m = metadata_of(vault, id);
    if set_refusal(vault, id, authorizer, key, value) == Some(Error::MetadataKeyLimitReached) {
        assert forall|j: int| 0 <= j < m.len() implies (#[trigger] m[j]).0 != key by {
            if m[j].0 == key {
                lemma_first_exists(m, key, j);
            }
        }
    }
}

/// Whether a set or a delete on subscription `id` is accepted depends only
/// on that subscription and its own metadata: two vaults that agree on them
/// answer alike.
pub proof fn lemma_refusals_are_per_subscription(
    v1: SubscriptionVault,
    v2: SubscriptionVault,
    id: u32,
    authorizer: Address,
    key: Seq<u8>,
    value: Seq<u8>,
)
    requires
        subscription(v1, id) == subscription(v2, id),
        metadata_of(v1, id) == metadata_of(v2, id),
    ensures
        set_refusal(v1, id, authorizer, key, value) == set_refusal(v2, id, authorizer, key, value),
        delete_refusal(v1, id, authorizer, key) == delete_refusal(v2, id, authorizer, key),
{
}

/// Each refusal of a set has its reason: `NotFound` only for a missing
/// subscription, `Forbidden` only for an authorizer that is neither its
/// subscriber nor its merchant, `NotActive` only for a cancelled one,
/// `MetadataKeyTooLong` only for an empty key or one over
/// [`MAX_METADATA_KEY_LENGTH`] bytes, `MetadataValueTooLong` only for a value
/// over [`MAX_METADATA_VALUE_LENGTH`] bytes; no other error is given.
pub proof fn lemma_set_refusal_reasons(
    vault: SubscriptionVault,
    id: u32,
    authorizer: Address,
    key: Seq<u8>,
    value: Seq<u8>,
)
    ensures
        set_refusal(vault, id, authorizer, key, value) == Some(Error::NotFound) <==> subscription(vault, id)
            is None,
        set_refusal(vault, id, authorizer, key, value) == Some(Error::Forbidden) ==> subscription(vault, id)
            is Some && authorizer != subscription(vault, id)->0.subscriber && authorizer != subscription(
            vault,
            id,
        )->0.merchant,
        set_refusal(vault, id, authorizer, key, value) == Some(Error::NotActive) ==> subscription(vault, id)
            is Some && subscription(vault, id)->0.status == SubscriptionStatus::Cancelled,
        set_refusal(vault, id, authorizer, key, value) == Some(Error::MetadataKeyTooLong) ==> key.len() == 0
            || key.len() > MAX_METADATA_KEY_LENGTH,
        set_refusal(vault, id, authorizer, key, value) == Some(Error::MetadataValueTooLong) ==> value.len()
            > MAX_METADATA_VALUE_LENGTH,
        set_refusal(vault, id, authorizer, key, value) matches Some(e) ==> e == Error::NotFound || e
            == Error::Forbidden || e == Error::NotActive || e == Error::MetadataKeyTooLong || e
            == Error::MetadataValueTooLong || e == Error::MetadataKeyLimitReached,
{
}

/// Each refusal of a delete has its reason: `Forbidden` only for an
/// authorizer that is neither the subscriber nor the merchant, `NotFound` for
/// a missing subscription or a key that is not set; no other error is given.
pub proof fn lemma_delete_refusal_reasons(vault: SubscriptionVault, id: u32, authorizer: Address, key: Seq<u8>)
    ensures
        delete_refusal(vault, id, authorizer, key) == Some(Error::Forbidden) ==> subscription(vault, id)
            is Some && authorizer != subscription(vault, id)->0.subscriber && authorizer != subscription(
            vault,
            id,
        )->0.merchant,
        delete_refusal(vault, id, authorizer, key) == Some(Error::NotFound) ==> subscription(vault, id)
            is None || forall|j: int|
            0 <= j < metadata_of(vault, id).len() ==> (#[trigger] metadata_of(vault, id)[j]).0 != key,
        delete_refusal(vault, id, authorizer, key) matches Some(e) ==> e == Error::NotFound || e
            == Error::Forbidden,
{
    let m = metadata_of(vault, id);
    if delete_refusal(vault, id, authorizer, key) == Some(Error::NotFound) && subscription(vault, id) is Some {
        assert forall|j: int| 0 <= j < m.len() implies (#[trigger] m[j]).0 != key by {
            if m[j].0 == key {
                lemma_first_exists(m, key, j);
            }
        }
    }
}

/// Deleting a key that is set is accepted for the subscription's subscriber
/// or merchant whatever the subscription's status, cancelled included.
pub proof fn lemma_delete_accepted(vault: SubscriptionVault, id: u32, authorizer: Address, key: Seq<u8>)
    requires
        subscription(vault, id) is Some,
        authorizer == subscription(vault, id)->0.subscriber || authorizer == subscription(
            vault,
            id,
        )->0.merchant,
        exists|j: int| 0 <= j < metadata_of(vault, id).len() && (#[trigger] metadata_of(vault, id)[j]).0 == key,
    ensures
        delete_refusal(vault, id, authorizer, key) is None,
{
    let m = metadata_of(vault, id);
    let j = choose|j: int| 0 <= j < m.len() && (#[trigger] m[j]).0 == key;
    lemma_first_exists(m, key, j);
}

/// An accepted delete removes exactly one pair, the one with `key`, and keeps
/// the others in order; with unique keys, `key` is then gone.
pub proof fn lemma_delete_removes_the_key(m: Seq<(Seq<u8>, Seq<u8>)>, key: Seq<u8>)
    requires
        key_position(m, key) >= 0,
    ensures
        m.remove(key_position(m, key)).len() == m.len() - 1,
        m[key_position(m, key)].0 == key,
        forall|j: int|
            0 <= j < key_position(m, key) ==> (#[trigger] m.remove(key_position(m, key))[j]) == m[j]
                && m[j].0 != key,
        keys_unique(m) ==> forall|j: int|
            0 <= j < m.len() - 1 ==> (#[trigger] m.remove(key_position(m, key))[j]).0 != key,
{
    let p = key_position(m, key);
    assert(first_key_at(m, key, p));
    assert forall|j: int| 0 <= j < p implies (#[trigger] m.remove(p)[j]) == m[j] && m[j].0 != key by {
        assert(m.take(p)[j] == m[j]);
    }
    if keys_unique(m) {
        lemma_get_after_delete(m, key);
        assert forall|j: int| 0 <= j < m.len() - 1 implies (#[trigger] m.remove(p)[j]).0 != key by {
            if j < p {
                assert(m.take(p)[j] == m[j]);
            } else {
                assert(m.remove(p)[j] == m[j + 1]);
            }
        }
    }
}

// ---------------------------------------------------------------------------
// Executable functions
// ---------------------------------------------------------------------------

/// Byte-string equality.
fn bytes_equal(a: &Vec<u8>, b: &Vec<u8>) -> (r: bool)
    ensures
        r == (a@ == b@),
{
    if a.len() != b.len() {
        return false;
    }
    let mut i: usize = 0;
    while i < a.len()
        invariant
            a@.len() == b@.len(),
            i <= a@.len(),
            forall|j: int| 0 <= j < i ==> a@[j] == b@[j],
        decreases a@.len() - i,
    {
        if a[i] != b[i] {
            return false;
        }
        i += 1;
    }
    proof {
        assert(a@ =~= b@);
    }
    true
}

/// A copy of a byte string.
fn copy_bytes(a: &Vec<u8>) -> (r: Vec<u8>)
    ensures
        r@ == a@,
{
    let mut r: Vec<u8> = Vec::new();
    let mut i: usize = 0;
    while i < a.len()
        invariant
            i <= a@.len(),
            r@ =~= a@.take(i as int),
        decreases a@.len() - i,
    {
        r.push(a[i]);
        i += 1;
    }
    proof {
        assert(a@.take(a@.len() as int) =~= a@);
    }
    r
}

proof fn lemma_view_take_succ(entries: Seq<MetadataEntry>, id: u32, i: int)
    requires
        0 <= i < entries.len(),
    ensures
        metadata_view(entries.take(i + 1), id) == if entries[i].subscription_id == id {
            metadata_view(entries.take(i), id).push(entry_view(entries[i]))
        } else {
            metadata_view(entries.take(i), id)
        },
{
    lemma_filter_take_succ(entries, entry_of(id), i);
    assert(entries.take(i).filter(entry_of(id)).push(entries[i]).map_values(
        |e: MetadataEntry| entry_view(e),
    ) =~= metadata_view(entries.take(i), id).push(entry_view(entries[i])));
}

/// Finds the entry of subscription `id` with key `key`: its index among all
/// entries, and the number of `id`'s entries before it (or in all, when there
/// is none).
fn find_entry(entries: &Vec<MetadataEntry>, id: u32, key: &Vec<u8>) -> (r: (Option<usize>, usize))
    ensures
        match r.0 {
            Some(i) => {
                &&& i < entries@.len()
                &&& entries@[i as int].subscription_id == id
                &&& entries@[i as int].key@ == key@
                &&& r.1 == entries@.take(i as int).filter(entry_of(id)).len()
                &&& key_position(metadata_view(entries@, id), key@) == r.1
            },
            None => {
                &&& key_position(metadata_view(entries@, id), key@) == -1
                &&& r.1 == metadata_view(entries@, id).len()
            },
        },
{
    let ghost s = entries@;
    let mut count: usize = 0;
    let mut i: usize = 0;
    while i < entries.len()
        invariant
            s == entries@,
            i <= s.len(),
            count == metadata_view(s.take(i as int), id).len(),
            key_absent(metadata_view(s.take(i as int), id), key@),
        decreases s.len() - i,
    {
        proof {
            lemma_view_take_succ(s, id, i as int);
        }
        if entries[i].subscription_id == id {
            if bytes_equal(&entries[i].key, key) {
                proof {
                    lemma_filter_index(s, entry_of(id), i as int);
                    let mv = metadata_view(s, id);
                    assert(mv.take(count as int) =~= metadata_view(s.take(i as int), id));
                    assert(mv[count as int] == entry_view(s[i as int]));
                    lemma_key_position_is(mv, key@, count as int);
                }
                return (Some(i), count);
            }
            count += 1;
        }
        i += 1;
    }
    proof {
        assert(s.take(s.len() as int) =~= s);
        lemma_key_position_absent(metadata_view(s, id), key@);
    }
    (None, count)
}

/// Sets `key` to `value` on subscription `subscription_id`, for its subscriber
/// or merchant. An existing key keeps its place; a new key goes last, unless
/// the subscription carries [`MAX_METADATA_KEYS`] keys already. Cancelled
/// subscriptions take no new metadata. Returns the event to publish.
pub fn do_set_metadata(
    vault: &mut SubscriptionVault,
    subscription_id: u32,
    authorizer: &Address,
    key: Vec<u8>,
    value: Vec<u8>,
) -> (r: Result<MetadataSetEvent, Error>)
    ensures
        r is Ok <==> set_refusal(*old(vault), subscription_id, *authorizer, key@, value@) is None,
        r matches Err(e) ==> set_refusal(*old(vault), subscription_id, *authorizer, key@, value@)
            == Some(e) && final(vault).metadata.entries@ == old(vault).metadata.entries@,
        r matches Ok(event) ==> {
            &&& metadata_of(*final(vault), subscription_id) == metadata_after_set(
                metadata_of(*old(vault), subscription_id),
                key@,
                value@,
            )
            &&& event.subscription_id == subscription_id
            &&& event.key@ == key@
            &&& event.authorizer == *authorizer
        },
        forall|other: u32|
            other != subscription_id ==> #[trigger] metadata_of(*final(vault), other) == metadata_of(
                *old(vault),
                other,
            ),
        metadata_of(*old(vault), subscription_id).len() <= MAX_METADATA_KEYS ==> metadata_of(
            *final(vault),
            subscription_id,
        ).len() <= MAX_METADATA_KEYS,
        keys_unique(metadata_of(*old(vault), subscription_id)) ==> keys_unique(
            metadata_of(*final(vault), subscription_id),
        ),
        ({
            let sub = subscription(*old(vault), subscription_id);
            let m = metadata_of(*old(vault), subscription_id);
            &&& sub is Some
            &&& (*authorizer == sub->0.subscriber || *authorizer == sub->0.merchant)
            &&& sub->0.status != SubscriptionStatus::Cancelled
            &&& 1 <= key@.len() <= MAX_METADATA_KEY_LENGTH
            &&& value@.len() <= MAX_METADATA_VALUE_LENGTH
            &&& (m.len() < MAX_METADATA_KEYS || exists|j: int| 0 <= j < m.len() && (#[trigger] m[j]).0 == key@)
        }) ==> r is Ok,
        (r matches Err(e) && e == Error::MetadataKeyLimitReached) ==> {
            let m = metadata_of(*old(vault), subscription_id);
            &&& m.len() >= MAX_METADATA_KEYS
            &&& forall|j: int| 0 <= j < m.len() ==> (#[trigger] m[j]).0 != key@
        },
        r is Ok ==> lookup_value(metadata_of(*final(vault), subscription_id), key@) == Some(value@),
        r is Ok ==> forall|other: Seq<u8>|
            other != key@ ==> #[trigger] lookup_value(metadata_of(*final(vault), subscription_id), other)
                == lookup_value(metadata_of(*old(vault), subscription_id), other),
        old(vault).wf() ==> final(vault).wf(),
        final(vault).config == old(vault).config,
        final(vault).subscriptions == old(vault).subscriptions,
        final(vault).billing == old(vault).billing,
        final(vault).ledger == old(vault).ledger,
{
    proof {
        let sub = subscription(*vault, subscription_id);
        let m = metadata_of(*vault, subscription_id);
        lemma_get_after_set(m, key@, value@);
        assert forall|other: Seq<u8>| other != key@ implies #[trigger] lookup_value(
            metadata_after_set(m, key@, value@),
            other,
        ) == lookup_value(m, other) by {
            lemma_get_after_set_other(m, key@, value@, other);
        }
        if sub is Some && (*authorizer == sub->0.subscriber || *authorizer == sub->0.merchant)
            && sub->0.status != SubscriptionStatus::Cancelled && 1 <= key@.len() <= MAX_METADATA_KEY_LENGTH
            && value@.len() <= MAX_METADATA_VALUE_LENGTH && (m.len() < MAX_METADATA_KEYS || exists|j: int|
            0 <= j < m.len() && (#[trigger] m[j]).0 == key@) {
            lemma_set_accepted(*vault, subscription_id, *authorizer, key@, value@);
        }
        lemma_set_limit_counts_own_keys(*vault, subscription_id, *authorizer, key@, value@);
    }
    let sub = match vault.get_subscription(subscription_id) {
        Ok(s) => s,
        Err(e) => return Err(e),
    };
    if *authorizer != sub.subscriber && *authorizer != sub.merchant {
        return Err(Error::Forbidden);
    }
    if sub.status == SubscriptionStatus::Cancelled {
        return Err(Error::NotActive);
    }
    if key.len() == 0 || key.len() > MAX_METADATA_KEY_LENGTH as usize {
        return Err(Error::MetadataKeyTooLong);
    }
    if value.len() > MAX_METADATA_VALUE_LENGTH as usize {
        return Err(Error::MetadataValueTooLong);
    }
    let ghost s = vault.metadata.entries@;
    let ghost m = metadata_of(*old(vault), subscription_id);
    let (found, count) = find_entry(&vault.metadata.entries, subscription_id, &key);
    let entry = MetadataEntry { subscription_id, key: copy_bytes(&key), value };
    let ghost ev = entry_view(entry);
    match found {
        Some(i) => {
            vault.metadata.entries.set(i, entry);
            proof {
                lemma_filter_update(s, entry_of(subscription_id), i as int, entry);
                assert(metadata_of(*vault, subscription_id) =~= m.update(count as int, ev));
                assert forall|other: u32| other != subscription_id implies #[trigger] metadata_of(
                    *vault,
                    other,
                ) == metadata_of(*old(vault), other) by {
                    lemma_filter_update(s, entry_of(other), i as int, entry);
                }
            }
        },
        None => {
            if count >= MAX_METADATA_KEYS as usize {
                return Err(Error::MetadataKeyLimitReached);
            }
            vault.metadata.entries.push(entry);
            proof {
                s.lemma_filter_push(entry, entry_of(subscription_id));
                assert(metadata_of(*vault, subscription_id) =~= m.push(ev));
                assert forall|other: u32| other != subscription_id implies #[trigger] metadata_of(
                    *vault,
                    other,
                ) == metadata_of(*old(vault), other) by {
                    s.lemma_filter_push(entry, entry_of(other));
                }
            }
        },
    }
    proof {
        if keys_unique(m) {
            lemma_keys_stay_unique(m, key@, value@, 0);
        }
        if old(vault).wf() {
            assert(metadata_well_formed(m));
            lemma_set_keeps_well_formed(m, key@, value@);
            assert forall|id: u32| #[trigger] metadata_well_formed(metadata_of(*vault, id)) by {
                if id != subscription_id {
                    assert(metadata_well_formed(metadata_of(*old(vault), id)));
                }
            }
            lemma_wf_after_metadata_change(*old(vault), *vault);
        }
    }
    Ok(MetadataSetEvent { subscription_id, key, authorizer: *authorizer })
}

/// Deletes `key` from subscription `subscription_id`, for its subscriber or
/// merchant; `NotFound` when the key is not set. Returns the event to publish.
pub fn do_delete_metadata(
    vault: &mut SubscriptionVault,
    subscription_id: u32,
    authorizer: &Address,
    key: Vec<u8>,
) -> (r: Result<MetadataDeletedEvent, Error>)
    ensures
        r is Ok <==> delete_refusal(*old(vault), subscription_id, *authorizer, key@) is None,
        r matches Err(e) ==> delete_refusal(*old(vault), subscription_id, *authorizer, key@) == Some(
            e,
        ) && final(vault).metadata.entries@ == old(vault).metadata.entries@,
        r matches Ok(event) ==> {
            &&& metadata_of(*final(vault), subscription_id) == metadata_of(
                *old(vault),
                subscription_id,
            ).remove(key_position(metadata_of(*old(vault), subscription_id), key@))
            &&& event.subscription_id == subscription_id
            &&& event.key@ == key@
            &&& event.authorizer == *authorizer
        },
        forall|other: u32|
            other != subscription_id ==> #[trigger] metadata_of(*final(vault), other) == metadata_of(
                *old(vault),
                other,
            ),
        ({
            let sub = subscription(*old(vault), subscription_id);
            let m = metadata_of(*old(vault), subscription_id);
            &&& sub is Some
            &&& (*authorizer == sub->0.subscriber || *authorizer == sub->0.merchant)
            &&& exists|j: int| 0 <= j < m.len() && (#[trigger] m[j]).0 == key@
        }) ==> r is Ok,
        r is Ok && keys_unique(metadata_of(*old(vault), subscription_id)) ==> lookup_value(
            metadata_of(*final(vault), subscription_id),
            key@,
        ) is None,
        old(vault).wf() ==> final(vault).wf(),
        final(vault).config == old(vault).config,
        final(vault).subscriptions == old(vault).subscriptions,
        final(vault).billing == old(vault).billing,
        final(vault).ledger == old(vault).ledger,
{
    proof {
        let sub = subscription(*vault, subscription_id);
        let m = metadata_of(*vault, subscription_id);
        if keys_unique(m) && key_position(m, key@) >= 0 {
            lemma_get_after_delete(m, key@);
        }
        if sub is Some && (*authorizer == sub->0.subscriber || *authorizer == sub->0.merchant) && exists|j: int|
            0 <= j < m.len() && (#[trigger] m[j]).0 == key@ {
            lemma_delete_accepted(*vault, subscription_id, *authorizer, key@);
        }
    }
    let sub = match vault.get_subscription(subscription_id) {
        Ok(s) => s,
        Err(e) => return Err(e),
    };
    if *authorizer != sub.subscriber && *authorizer != sub.merchant {
        return Err(Error::Forbidden);
    }
    let ghost s = vault.metadata.entries@;
    let ghost m = metadata_of(*old(vault), subscription_id);
    let (found, count) = find_entry(&vault.metadata.entries, subscription_id, &key);
    match found {
        Some(i) => {
            vault.metadata.entries.remove(i);
            proof {
                if keys_unique(m) {
                    lemma_keys_stay_unique(m, key@, key@, count as int);
                }
                lemma_filter_remove(s, entry_of(subscription_id), i as int);
                assert(metadata_of(*vault, subscription_id) =~= m.remove(count as int));
                assert forall|other: u32| other != subscription_id implies #[trigger] metadata_of(
                    *vault,
                    other,
                ) == metadata_of(*old(vault), other) by {
                    lemma_filter_remove(s, entry_of(other), i as int);
                }
                if old(vault).wf() {
                    assert(metadata_well_formed(m));
                    lemma_remove_keeps_well_formed(m, count as int);
                    assert forall|id: u32| #[trigger] metadata_well_formed(metadata_of(*vault, id)) by {
                        if id != subscription_id {
                            assert(metadata_well_formed(metadata_of(*old(vault), id)));
                        }
                    }
                    lemma_wf_after_metadata_change(*old(vault), *vault);
                }
            }
            Ok(MetadataDeletedEvent { subscription_id, key, authorizer: *authorizer })
        },
        None => Err(Error::NotFound),
    }
}

/// The value of `key` on subscription `subscription_id`; `NotFound` when the
/// subscription does not exist or the key is not set.
pub fn do_get_metadata(vault: &SubscriptionVault, subscription_id: u32, key: Vec<u8>) -> (r: Result<
    Vec<u8>,
    Error,
>)
    ensures
        subscription(*vault, subscription_id) is None ==> r == Err::<Vec<u8>, Error>(Error::NotFound),
        subscription(*vault, subscription_id) is Some ==> match lookup_value(
            metadata_of(*vault, subscription_id),
            key@,
        ) {
            Some(v) => (r matches Ok(got) && got@ == v),
            None => r == Err::<Vec<u8>, Error>(Error::NotFound),
        },
{
    if let Err(e) = vault.get_subscription(subscription_id) {
        return Err(e);
    }
    let (found, count) = find_entry(&vault.metadata.entries, subscription_id, &key);
    match found {
        Some(i) => {
            proof {
                let s = vault.metadata.entries@;
                lemma_filter_index(s, entry_of(subscription_id), i as int);
            }
            Ok(copy_bytes(&vault.metadata.entries[i].value))
        },
        None => Err(Error::NotFound),
    }
}

/// The keys of subscription `subscription_id`, in the order in which they were
/// first set; `NotFound` when the subscription does not exist.
pub fn do_list_metadata_keys(vault: &SubscriptionVault, subscription_id: u32) -> (r: Result<
    Vec<Vec<u8>>,
    Error,
>)
    ensures
        subscription(*vault, subscription_id) is None ==> (r matches Err(e) && e == Error::NotFound),
        subscription(*vault, subscription_id) is Some ==> (r matches Ok(keys) && {
            let m = metadata_of(*vault, subscription_id);
            &&& keys@.len() == m.len()
            &&& forall|j: int| 0 <= j < m.len() ==> (#[trigger] keys@[j])@ == m[j].0
        }),
{
    if let Err(e) = vault.get_subscription(subscription_id) {
        return Err(e);
    }
    let ghost s = vault.metadata.entries@;
    let mut keys: Vec<Vec<u8>> = Vec::new();
    let mut i: usize = 0;
    while i < vault.metadata.entries.len()
        invariant
            s == vault.metadata.entries@,
            i <= s.len(),
            keys@.len() == metadata_view(s.take(i as int), subscription_id).len(),
            forall|j: int|
                0 <= j < keys@.len() ==> (#[trigger] keys@[j])@ == metadata_view(
                    s.take(i as int),
                    subscription_id,
                )[j].0,
        decreases s.len() - i,
    {
        proof {
            lemma_view_take_succ(s, subscription_id, i as int);
        }
        if vault.metadata.entries[i].subscription_id == subscription_id {
            let k = copy_bytes(&vault.metadata.entries[i].key);
            keys.push(k);
        }
        i += 1;
    }
    proof {
        assert(s.take(s.len() as int) =~= s);
    }
    Ok(keys)
}

} // verus!
