//! Account identifiers and VM-facing addresses.
//!
//! The ledger's native account representation and the virtual machine's
//! address representation are kept in a bijective correspondence: both refer
//! to the same entity throughout an invocation.

use vstd::prelude::*;

verus! {

/// The ledger's native account identifier.
#[derive(Clone, Copy, Debug, PartialEq, Eq, Structural)]
pub struct AccountId {
    pub value: u64,
}

/// The VM-facing account address.
#[derive(Clone, Copy, Debug, PartialEq, Eq, Structural)]
pub struct MoveAddress {
    pub value: u64,
}

/// Translates a ledger account into the VM address of the same entity.
pub fn account_to_address(a: AccountId) -> (r: MoveAddress)
    ensures
        r.value == a.value,
{
    MoveAddress { value: a.value }
}

/// Translates a VM address back into the ledger account of the same entity.
pub fn address_to_account(a: MoveAddress) -> (r: AccountId)
    ensures
        r.value == a.value,
{
    AccountId { value: a.value }
}

/// The account/address correspondence is a bijection: translating in one
/// direction and back yields the entity one started from, in both directions.
pub proof fn lemma_address_mapping_bijective(a: AccountId, m: MoveAddress)
    ensures
        (AccountId { value: (MoveAddress { value: a.value }).value }) == a,
        (MoveAddress { value: (AccountId { value: m.value }).value }) == m,
{
}

} // verus!
