//! Account and contract addresses as plain values.
use vstd::prelude::*;

verus! {

/// Which kind of ledger entity an address names.
#[derive(Clone, Copy, Debug, PartialEq, Eq, Structural)]
pub enum AddressKind {
    /// A user account, named by its ed25519 public key.
    Account,
    /// A deployed contract, named by its contract id.
    Contract,
}

/// A ledger address: its kind and its 32-byte key, held as two 128-bit halves
/// (big-endian: `key_hi` holds the first sixteen bytes).
#[derive(Clone, Copy, Debug, PartialEq, Eq, Structural)]
pub struct Address {
    pub kind: AddressKind,
    pub key_hi: u128,
    pub key_lo: u128,
}

impl Address {
    /// Builds an address from its kind and key halves.
    pub fn new(kind: AddressKind, key_hi: u128, key_lo: u128) -> (a: Address)
        ensures
            a.kind == kind,
            a.key_hi == key_hi,
            a.key_lo == key_lo,
    {
        Address { kind, key_hi, key_lo }
    }
}

} // verus!
