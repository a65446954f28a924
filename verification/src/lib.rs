//! Coordination layer between a ledger and a deterministic bytecode virtual
//! machine: accounts publish executable modules, invoke entry functions
//! against on-chain resources, and atomically upgrade a privileged
//! standard-library module set.  The library adapts ledger storage into a
//! module/resource-addressable store, meters computation, enforces
//! all-or-nothing commit of execution effects, and checks backward
//! compatibility whenever a module is replaced.

use vstd::prelude::*;

pub mod abi;
pub mod addr;
pub mod assoc;
pub mod codec;
pub mod compat;
pub mod coordinator;
pub mod pallet;
pub mod state;

verus! {

/// Address of the reserved, privileged standard-library namespace.
pub const STDLIB_ADDRESS: u64 = 1;

/// Status code reported for a successful execution.
pub const STATUS_EXECUTED: u64 = 0;

/// Status code reported when an invocation exceeds its gas ceiling.
pub const STATUS_OUT_OF_GAS: u64 = 1;

/// Status code reported when the value transfer attached to an invocation
/// cannot be paid.
pub const STATUS_INSUFFICIENT_BALANCE: u64 = 2;

/// Status code reported when the engine hands back an effect set that an
/// invocation is not allowed to produce (a module write from a script).
pub const STATUS_REJECTED_EFFECTS: u64 = 3;

} // verus!
