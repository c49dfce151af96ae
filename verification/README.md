# subscription_vault

The bookkeeping of a prepaid subscription-billing contract, with every entry
point's behaviour stated as a contract and proved.

`src/` holds the contract's state as plain values (`vault::SubscriptionVault`)
and the logic of its entry points:

- `vault` — configuration, admin checks, the emergency stop, merchant-wide
  pauses, subscription lookup, the migration exports, and `wf`, the invariant
  that every entry point keeps;
- `statements` — the append-only per-subscription charge history and its
  offset and cursor pagination;
- `billing_statements` — per-period billing statements with their
  subscription and merchant indexes;
- `metadata` — the bounded per-subscription key-value store;
- `address`, `types` — addresses and shared types; `seq_facts` — sequence
  lemmas the proofs share.

`app/` is the Soroban contract around it: it checks authorization with the
host, loads the state from instance storage, calls the library, stores the
result and publishes the events that the library returns.

## Why the state is plain values

On the ledger the contract keeps its data in host-backed containers: instance
storage, and Soroban `Vec`, `String` and `Address` values, every operation on
which is a call into the host through `Env`. A value can only go into that
storage, or into a host `Vec`, if its type carries the `#[contracttype]`
derive, and that derive cannot be applied to the library's own types. So the
library models the state with std `Vec`s of plain records, byte strings for
host strings and a kind-plus-key value for addresses; the contract in `app/`
converts to and from the host representation at the edges, and keeps the
whole state as one record in instance storage.
