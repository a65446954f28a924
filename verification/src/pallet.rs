//! The query and estimation service: read-only lookups against a chosen
//! historical state snapshot, and gas estimation that re-runs the
//! coordination path without committing or charging.

use vstd::prelude::*;

use crate::abi::{FunctionSig, ModuleAbi, StructLayout, TypeTag, abi_wf};
use crate::addr::{AccountId, account_to_address};
use crate::codec::{copy_bytes, parse_bundle, parse_module, parse_transaction};
use crate::compat::check_compatible;
use crate::coordinator::{
    ExecutionEngine, MoveError, deps_resolved, publish_compat, publish_cost, settle_spec,
    PUBLISH_GAS_BASE,
};
use crate::state::{ChangeView, LedgerState, StateView};
use crate::{STATUS_EXECUTED};

verus! {

/// The fixed base cost added when gas is converted into a ledger weight.
pub const BASE_WEIGHT: u64 = 1000;

/// The ledger weight that `gas` units cost: the fixed base plus the gas,
/// saturating at the top of the range.
pub open spec fn spec_weight_of(gas: u64) -> u64 {
    if gas + BASE_WEIGHT <= u64::MAX {
        (gas + BASE_WEIGHT) as u64
    } else {
        u64::MAX
    }
}

/// Converts gas used into the ledger weight figure used for fee and limit
/// accounting.  A pure function of the gas alone.
pub fn weight_of(gas: u64) -> (r: u64)
    ensures
        r == spec_weight_of(gas),
{
    if gas > u64::MAX - BASE_WEIGHT {
        u64::MAX
    } else {
        gas + BASE_WEIGHT
    }
}

/// Gas estimation information.
#[derive(Clone, Copy, Debug, PartialEq, Eq, Structural)]
pub struct Estimation {
    /// Gas used.
    pub gas_used: u64,
    /// Status code of the VM execution.
    pub vm_status_code: u64,
    /// Complete weight of the extrinsic, the fixed base cost combined with
    /// the variable used gas.
    pub total_weight_including_gas_used: u64,
}

/// The bytecode a query returns for a module key.
pub open spec fn query_module(v: StateView, a: int, n: Seq<u8>) -> Option<Seq<u8>> {
    if v.modules.contains_key((a, n)) {
        Some(v.modules[(a, n)].bytecode)
    } else {
        None
    }
}

/// The ABI a query returns for a module key.
pub open spec fn query_module_abi(v: StateView, a: int, n: Seq<u8>) -> Option<
    crate::abi::AbiView,
> {
    if v.modules.contains_key((a, n)) {
        Some(v.modules[(a, n)].abi)
    } else {
        None
    }
}

/// The bytes a query returns for a resource key.
pub open spec fn query_resource(v: StateView, a: int, t: Seq<u8>) -> Option<Seq<u8>> {
    if v.resources.contains_key((a, t)) {
        Some(v.resources[(a, t)])
    } else {
        None
    }
}

/// Copies a type-tag list.
fn copy_tags(v: &Vec<TypeTag>) -> (r: Vec<TypeTag>)
    ensures
        r@ == v@,
{
    let mut out: Vec<TypeTag> = Vec::new();
    let mut i: usize = 0;
    while i < v.len()
        invariant
            0 <= i <= v@.len(),
            out@ == v@.take(i as int),
        decreases v@.len() - i,
    {
        out.push(v[i]);
        proof {
            assert(out@ =~= v@.take(i as int + 1));
        }
        i = i + 1;
    }
    proof {
        assert(out@ =~= v@);
    }
    out
}

/// Copies an ABI value.
fn copy_abi(abi: &ModuleAbi) -> (r: ModuleAbi)
    ensures
        r@ == abi@,
{
    let mut functions: Vec<FunctionSig> = Vec::new();
    let mut i: usize = 0;
    while i < abi.functions.len()
        invariant
            0 <= i <= abi.functions@.len(),
            functions@.len() == i,
            forall|k: int| 0 <= k < i ==> (#[trigger] functions@[k])@ == abi.functions@[k]@,
        decreases abi.functions@.len() - i,
    {
        let f = &abi.functions[i];
        functions.push(
            FunctionSig {
                name: copy_bytes(&f.name),
                is_public: f.is_public,
                params: copy_tags(&f.params),
                ret: f.ret,
            },
        );
        i = i + 1;
    }
    let mut structs: Vec<StructLayout> = Vec::new();
    let mut i: usize = 0;
    while i < abi.structs.len()
        invariant
            0 <= i <= abi.structs@.len(),
            structs@.len() == i,
            forall|k: int| 0 <= k < i ==> (#[trigger] structs@[k])@ == abi.structs@[k]@,
        decreases abi.structs@.len() - i,
    {
        let l = &abi.structs[i];
        structs.push(StructLayout { name: copy_bytes(&l.name), fields: copy_tags(&l.fields) });
        i = i + 1;
    }
    let r = ModuleAbi { functions, structs };
    proof {
        assert(r@.functions =~= abi@.functions);
        assert(r@.structs =~= abi@.structs);
        assert(r@ =~= abi@);
    }
    r
}

/// The pallet facade: a chain of committed state snapshots, one per block,
/// and the execution engine scripts run under.  Queries and estimates read
/// a chosen snapshot and never mutate committed state.
pub struct MovePallet<E: ExecutionEngine> {
    /// Committed state per block; the last entry is the best known state.
    pub blocks: Vec<LedgerState>,
    /// The engine estimates run scripts under.
    pub engine: E,
}

impl<E: ExecutionEngine> MovePallet<E> {
    /// At least one block, each well formed.
    pub open spec fn wf(self) -> bool {
        self.blocks@.len() > 0 && forall|i: int|
            0 <= i < self.blocks@.len() ==> (#[trigger] self.blocks@[i]).wf()
    }

    /// The index a block reference resolves to: the given block, or the
    /// best known state.
    pub open spec fn resolve(self, at: Option<usize>) -> int {
        match at {
            Some(h) => h as int,
            None => self.blocks@.len() - 1,
        }
    }

    /// A block reference is in range.
    pub open spec fn at_ok(self, at: Option<usize>) -> bool {
        match at {
            Some(h) => (h as int) < self.blocks@.len(),
            None => true,
        }
    }

    /// The state view a block reference resolves to.
    pub open spec fn view_at(self, at: Option<usize>) -> StateView {
        self.blocks@[self.resolve(at)]@
    }

    /// Creates a new pallet facade over the given chain of snapshots.
    pub fn new(blocks: Vec<LedgerState>, engine: E) -> (r: MovePallet<E>)
        requires
            blocks@.len() > 0,
            forall|i: int| 0 <= i < blocks@.len() ==> (#[trigger] blocks@[i]).wf(),
        ensures
            r.wf(),
            r.blocks == blocks,
            r.engine == engine,
    {
        MovePallet { blocks, engine }
    }

    /// The snapshot a block reference resolves to.
    fn state_at(&self, at: Option<usize>) -> (r: &LedgerState)
        requires
            self.wf(),
            self.at_ok(at),
        ensures
            *r == self.blocks@[self.resolve(at)],
            r.wf(),
    {
        match at {
            Some(h) => &self.blocks[h],
            None => &self.blocks[self.blocks.len() - 1],
        }
    }

    /// Returns the bytecode of the module stored under (address, name) in
    /// the state the block reference resolves to.  Read-only: a pure
    /// function of that state.
    pub fn get_module(&self, address: AccountId, name: &Vec<u8>, at: Option<usize>) -> (r:
        Option<Vec<u8>>)
        requires
            self.wf(),
            self.at_ok(at),
        ensures
            (r matches Some(b) ==> query_module(self.view_at(at), address.value as int, name@)
                == Some(b@)),
            (r is None ==> query_module(self.view_at(at), address.value as int, name@)
                is None),
    {
        let state = self.state_at(at);
        match state.read_module(account_to_address(address), name) {
            Some(e) => Some(copy_bytes(&e.bytecode)),
            None => None,
        }
    }

    /// Returns the ABI of the module stored under (address, name) in the
    /// state the block reference resolves to.
    pub fn get_module_abi(&self, address: AccountId, name: &Vec<u8>, at: Option<usize>) -> (r:
        Option<ModuleAbi>)
        requires
            self.wf(),
            self.at_ok(at),
        ensures
            (r matches Some(a) ==> query_module_abi(
                self.view_at(at),
                address.value as int,
                name@,
            ) == Some(a@)),
            (r is None ==> query_module_abi(self.view_at(at), address.value as int, name@)
                is None),
    {
        let state = self.state_at(at);
        match state.read_module(account_to_address(address), name) {
            Some(e) => Some(copy_abi(&e.abi)),
            None => None,
        }
    }

    /// Returns the resource stored under (account, tag) in the state the
    /// block reference resolves to.
    pub fn get_resource(&self, account: AccountId, tag: &Vec<u8>, at: Option<usize>) -> (r:
        Option<Vec<u8>>)
        requires
            self.wf(),
            self.at_ok(at),
        ensures
            (r matches Some(b) ==> query_resource(self.view_at(at), account.value as int, tag@)
                == Some(b@)),
            (r is None ==> query_resource(self.view_at(at), account.value as int, tag@)
                is None),
    {
        let state = self.state_at(at);
        match state.read_resource(account_to_address(account), tag) {
            Some(d) => Some(copy_bytes(d)),
            None => None,
        }
    }
}

/// Query determinism: what a query returns at a block reference is a
/// function of that block's state alone, so repeated calls at the same
/// reference return identical results in any order, and later blocks
/// appended to the chain change nothing at an already-resolved reference.
pub proof fn lemma_query_determinism(
    views: Seq<StateView>,
    more: StateView,
    h: int,
    a: int,
    n: Seq<u8>,
)
    requires
        0 <= h < views.len(),
    ensures
        query_module(views.push(more)[h], a, n) == query_module(views[h], a, n),
        query_module_abi(views.push(more)[h], a, n) == query_module_abi(views[h], a, n),
        query_resource(views.push(more)[h], a, n) == query_resource(views[h], a, n),
{
}

/// Gas fidelity: for one engine outcome within the gas ceiling, the gas the
/// committing path reports — in its receipt on success, in its execution
/// fault otherwise — is exactly the outcome's gas, which is what the
/// estimating path reports for the same outcome.  The two paths share one
/// settlement function and differ only in whether the state is committed.
pub proof fn lemma_gas_fidelity(
    v: StateView,
    caller: int,
    owner: int,
    value: u64,
    max_gas: u64,
    status: u64,
    gas: u64,
    effects: Seq<ChangeView>,
)
    requires
        gas <= max_gas,
    ensures
        (settle_spec(v, caller, owner, value, max_gas, status, gas, effects).1 matches Ok(rc)
            ==> rc.gas_used == gas),
        (settle_spec(v, caller, owner, value, max_gas, status, gas, effects).1 matches Err(e)
            ==> (e matches MoveError::ExecutionFailed { vm_status_code, gas_used } && gas_used
            == gas)),
{
}

} // verus!

verus! {

/// The gas a publish-path estimate reports: the decode and verification
/// cost of the bytes, saturating at the top of the range (a byte string too
/// long to price cannot exist in memory).
pub open spec fn spec_publish_gas(len: nat) -> u64 {
    if publish_cost(len) <= u64::MAX {
        publish_cost(len) as u64
    } else {
        u64::MAX
    }
}

/// Computes the gas a publish-path estimate reports.
pub fn publish_gas(len: usize) -> (r: u64)
    ensures
        r == spec_publish_gas(len as nat),
{
    if (len as u64) > u64::MAX - PUBLISH_GAS_BASE {
        u64::MAX
    } else {
        PUBLISH_GAS_BASE + len as u64
    }
}

/// Builds the estimation one engine outcome reports: the outcome's own gas
/// and status, and the weight of that gas — exactly what a real execution
/// of the same outcome reports in its receipt or its execution fault.
pub fn estimation_of_outcome(outcome: &crate::coordinator::EngineOutcome) -> (r: Estimation)
    ensures
        r.gas_used == outcome.gas_used,
        r.vm_status_code == outcome.vm_status_code,
        r.total_weight_including_gas_used == spec_weight_of(outcome.gas_used),
{
    Estimation {
        gas_used: outcome.gas_used,
        vm_status_code: outcome.vm_status_code,
        total_weight_including_gas_used: weight_of(outcome.gas_used),
    }
}

impl<E: ExecutionEngine> MovePallet<E> {
    /// Whether the facade is well formed; for callers outside the verified
    /// world, who cannot evaluate `wf` directly.
    pub fn check_wf(&self) -> (r: bool)
        ensures
            r == self.wf(),
    {
        if self.blocks.len() == 0 {
            return false;
        }
        let mut i: usize = 0;
        while i < self.blocks.len()
            invariant
                0 <= i <= self.blocks@.len(),
                forall|k: int| 0 <= k < i ==> (#[trigger] self.blocks@[k]).wf(),
            decreases self.blocks@.len() - i,
        {
            if !self.blocks[i].check_wf() {
                return false;
            }
            i = i + 1;
        }
        true
    }

    /// Whether a block reference is in range; for callers outside the
    /// verified world.
    pub fn check_at(&self, at: Option<usize>) -> (r: bool)
        ensures
            r == self.at_ok(at),
    {
        match at {
            Some(h) => h < self.blocks.len(),
            None => true,
        }
    }

    /// Estimates the gas of publishing `bytecode` as `account`: the same
    /// validation path as a real `publish_module` with a sufficient gas
    /// ceiling, against the chosen snapshot, with commit replaced by a
    /// discard and nothing charged; the reported gas is the decode and
    /// verification cost that a real publish meters.
    pub fn estimate_gas_publish_module(
        &self,
        account: AccountId,
        bytecode: &Vec<u8>,
        at: Option<usize>,
    ) -> (r: Result<Estimation, MoveError>)
        requires
            self.wf(),
            self.at_ok(at),
        ensures
            (parse_module(bytecode@) is None ==> r == Err::<Estimation, MoveError>(
                MoveError::InvalidModuleBytecode,
            )),
            (parse_module(bytecode@) matches Some(m) ==> (!deps_resolved(
                self.view_at(at),
                m.deps,
            ) ==> r == Err::<Estimation, MoveError>(MoveError::DependencyNotFound))),
            (parse_module(bytecode@) matches Some(m) ==> (deps_resolved(
                self.view_at(at),
                m.deps,
            ) && !publish_compat(self.view_at(at), account.value as int, m) ==> r == Err::<
                Estimation,
                MoveError,
            >(MoveError::BackwardIncompatibleModuleUpdate))),
            (parse_module(bytecode@) matches Some(m) ==> (deps_resolved(
                self.view_at(at),
                m.deps,
            ) && publish_compat(self.view_at(at), account.value as int, m) ==> r == Ok::<
                Estimation,
                MoveError,
            >(
                Estimation {
                    gas_used: spec_publish_gas(bytecode@.len()),
                    vm_status_code: STATUS_EXECUTED,
                    total_weight_including_gas_used: spec_weight_of(
                        spec_publish_gas(bytecode@.len()),
                    ),
                },
            ))),
    {
        let state = self.state_at(at);
        let addr = account_to_address(account);
        let entry = match crate::codec::decode_module(bytecode, addr) {
            None => {
                return Err(MoveError::InvalidModuleBytecode);
            },
            Some(e) => e,
        };
        let ghost m = parse_module(bytecode@)->Some_0;
        let gas = publish_gas(bytecode.len());
        let mut i: usize = 0;
        while i < entry.deps.len()
            invariant
                state.wf(),
                *state == self.blocks@[self.resolve(at)],
                0 <= i <= entry.deps@.len(),
                parse_module(bytecode@) == Some(m),
                entry.deps@.map_values(|d: crate::state::ModuleId| d@) == m.deps,
                m.deps.len() == entry.deps@.len(),
                forall|k: int| 0 <= k < i ==> state@.modules.contains_key(#[trigger] m.deps[k]),
            decreases entry.deps@.len() - i,
        {
            let d = &entry.deps[i];
            proof {
                assert(m.deps[i as int] == entry.deps@[i as int]@);
            }
            if state.read_module(d.addr, &d.name).is_none() {
                proof {
                    assert(!deps_resolved(self.view_at(at), m.deps));
                }
                return Err(MoveError::DependencyNotFound);
            }
            i = i + 1;
        }
        proof {
            assert(deps_resolved(self.view_at(at), m.deps));
        }
        match state.read_module(addr, &entry.name) {
            Some(stored) => {
                let report = check_compatible(&stored.abi, &entry.abi);
                if !report.is_compatible() {
                    proof {
                        assert(!publish_compat(self.view_at(at), account.value as int, m));
                    }
                    return Err(MoveError::BackwardIncompatibleModuleUpdate);
                }
            },
            None => {},
        }
        proof {
            assert(publish_compat(self.view_at(at), account.value as int, m));
        }
        Ok(
            Estimation {
                gas_used: gas,
                vm_status_code: STATUS_EXECUTED,
                total_weight_including_gas_used: weight_of(gas),
            },
        )
    }

    /// Estimates the gas of a standard-library bundle upgrade: the same
    /// dependent-surface validation as a real `update_stdlib_bundle` by the
    /// root origin, against the chosen snapshot, with commit replaced by a
    /// discard and nothing charged.  The mirrored command is fixed to the
    /// reserved namespace, so the outcome does not depend on the account
    /// supplied; the reported gas is the bundle's decode cost.
    pub fn estimate_gas_publish_bundle(
        &self,
        account: AccountId,
        bytecode: &Vec<u8>,
        at: Option<usize>,
    ) -> (r: Result<Estimation, MoveError>)
        requires
            self.wf(),
            self.at_ok(at),
        ensures
            (parse_bundle(bytecode@) is None ==> r == Err::<Estimation, MoveError>(
                MoveError::InvalidBundle,
            )),
            (parse_bundle(bytecode@) matches Some(ms) ==> (!crate::coordinator::bundle_compatible(
                self.view_at(at),
                ms,
            ) ==> r == Err::<Estimation, MoveError>(
                MoveError::BackwardIncompatibleModuleUpdate,
            ))),
            (parse_bundle(bytecode@) matches Some(ms) ==> (crate::coordinator::bundle_compatible(
                self.view_at(at),
                ms,
            ) ==> r == Ok::<Estimation, MoveError>(
                Estimation {
                    gas_used: spec_publish_gas(bytecode@.len()),
                    vm_status_code: STATUS_EXECUTED,
                    total_weight_including_gas_used: spec_weight_of(
                        spec_publish_gas(bytecode@.len()),
                    ),
                },
            ))),
    {
        let state = self.state_at(at);
        let entries = match crate::codec::decode_bundle(bytecode) {
            None => {
                return Err(MoveError::InvalidBundle);
            },
            Some(es) => es,
        };
        let ghost ms = parse_bundle(bytecode@)->Some_0;
        proof {
            assert(entries@.map_values(|e: crate::state::ModuleEntry| crate::codec::entry_def(e))
                =~= ms);
            assert forall|i2: int, j2: int| 0 <= i2 < j2 < entries@.len() implies
                entries@[i2].name@ != entries@[j2].name@ by {
                assert(crate::codec::entry_def(entries@[i2]).name == ms[i2].name);
                assert(crate::codec::entry_def(entries@[j2]).name == ms[j2].name);
            };
        }
        if !crate::coordinator::check_bundle_surface(state, &entries) {
            proof {
                assert(!crate::coordinator::bundle_compatible(self.view_at(at), ms));
            }
            return Err(MoveError::BackwardIncompatibleModuleUpdate);
        }
        proof {
            assert(crate::coordinator::bundle_compatible(self.view_at(at), ms));
        }
        let gas = publish_gas(bytecode.len());
        Ok(
            Estimation {
                gas_used: gas,
                vm_status_code: STATUS_EXECUTED,
                total_weight_including_gas_used: weight_of(gas),
            },
        )
    }

    /// Estimates the gas of executing a script transaction: the same
    /// decode, resolve and engine run as a real `execute`, against the
    /// chosen snapshot.  The estimation is built one call down by
    /// [`estimation_of_outcome`], which fixes it exactly to the engine
    /// outcome — the gas and status a real execution of that outcome with a
    /// sufficient ceiling reports.  Committed state and balances are
    /// untouched.
    pub fn estimate_gas_execute_script(&self, transaction: &Vec<u8>, at: Option<usize>) -> (r:
        Result<Estimation, MoveError>)
        requires
            self.wf(),
            self.at_ok(at),
        ensures
            (parse_transaction(transaction@) is None ==> r == Err::<Estimation, MoveError>(
                MoveError::InvalidTransaction,
            )),
            (parse_transaction(transaction@) matches Some(t) ==> (!self.view_at(
                at,
            ).modules.contains_key((t.addr, t.module)) ==> r == Err::<Estimation, MoveError>(
                MoveError::UnknownModule,
            ))),
            (parse_transaction(transaction@) matches Some(t) ==> (self.view_at(
                at,
            ).modules.contains_key((t.addr, t.module)) ==> r is Ok)),
            (r matches Ok(est) ==> est.total_weight_including_gas_used == spec_weight_of(
                est.gas_used,
            )),
    {
        let state = self.state_at(at);
        let tx = match crate::codec::decode_transaction(transaction) {
            None => {
                return Err(MoveError::InvalidTransaction);
            },
            Some(t) => t,
        };
        let outcome = match state.read_module(tx.module_addr, &tx.module_name) {
            None => {
                return Err(MoveError::UnknownModule);
            },
            Some(module) => self.engine.run_entry(
                state,
                module,
                &tx.function,
                &tx.args,
                u64::MAX,
            ),
        };
        Ok(estimation_of_outcome(&outcome))
    }
}

} // verus!
