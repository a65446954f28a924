//! The execution coordinator: publish, execute and stdlib-bundle upgrade.
//!
//! Each operation reads committed state, validates its input, drives the
//! external execution engine where scripts run, meters gas against the
//! caller's ceiling, and either commits the complete staged effect set or
//! discards it entirely.  No operation ever leaves a half-applied effect
//! set.

use vstd::prelude::*;

use crate::abi::abi_wf;
use crate::addr::{AccountId, account_to_address};
use crate::codec::{
    ModuleDefView, decode_bundle, decode_module, decode_transaction, enc_module, parse_bundle,
    parse_module, parse_transaction,
};
use crate::compat::{abi_compatible, check_compatible};
use crate::state::{
    Change, ChangeView, EffectSet, LedgerState, ModuleEntry, ModuleRecView, StateView,
    apply_change, apply_effects, effects_module_free, effects_wf, lemma_module_free_effects,
    mkey, mrec,
};
use crate::{STATUS_EXECUTED, STATUS_INSUFFICIENT_BALANCE, STATUS_OUT_OF_GAS,
    STATUS_REJECTED_EFFECTS, STDLIB_ADDRESS};

verus! {

/// Gas charged for decoding and verifying a module, before its byte length
/// is added.
pub const PUBLISH_GAS_BASE: u64 = 10;

/// The error a command returns to its caller.
#[derive(Clone, Copy, Debug, PartialEq, Eq, Structural)]
pub enum MoveError {
    /// A privileged command was issued by a non-root origin.
    BadOrigin,
    /// The module bytecode is not one well-formed module encoding.
    InvalidModuleBytecode,
    /// The transaction bytecode is not a well-formed script transaction.
    InvalidTransaction,
    /// The bundle bytecode is not a well-formed bundle encoding.
    InvalidBundle,
    /// A declared dependency does not resolve in the module table.
    DependencyNotFound,
    /// The replacement is not call-compatible with the module it replaces.
    BackwardIncompatibleModuleUpdate,
    /// The invoked module is not in the module table.
    UnknownModule,
    /// The gas ceiling does not cover the cost of the operation.
    GasLimitExceeded,
    /// The engine run faulted; gas up to the failure point is reported.
    ExecutionFailed { vm_status_code: u64, gas_used: u64 },
}

/// What a successful execution reports.
#[derive(Clone, Copy, Debug, PartialEq, Eq, Structural)]
pub struct ExecReceipt {
    pub vm_status_code: u64,
    pub gas_used: u64,
}

/// The authenticated identity issuing a command.
#[derive(Clone, Copy, Debug, PartialEq, Eq, Structural)]
pub enum Origin {
    /// The privileged, root-level origin.
    Root,
    /// An ordinary signed origin.
    Signed { account: AccountId },
}

/// What the execution engine reports for one entry-function run: a status
/// code (zero for success), the gas consumed, and the complete effect set
/// the run produced.
#[derive(Debug)]
pub struct EngineOutcome {
    pub vm_status_code: u64,
    pub gas_used: u64,
    pub effects: EffectSet,
}

/// The external execution engine: runs one entry function of a stored
/// module against committed state, staging its writes into an effect set.
/// The engine is an interface so that it can be substituted or stubbed; the
/// coordinator is verified to handle every outcome an implementation can
/// report.
pub trait ExecutionEngine {
    /// Runs `function` of `module` with the raw argument bytes `args`,
    /// reading state through `state`, metering against `gas_limit`.
    fn run_entry(
        &self,
        state: &LedgerState,
        module: &ModuleEntry,
        function: &Vec<u8>,
        args: &Vec<u8>,
        gas_limit: u64,
    ) -> EngineOutcome;
}

/// Tracks computational units consumed during one invocation against a
/// caller-supplied ceiling; consumption never exceeds the ceiling.
#[derive(Clone, Copy, Debug, PartialEq, Eq, Structural)]
pub struct GasMeter {
    pub limit: u64,
    pub used: u64,
}

impl GasMeter {
    /// The meter never records more than its ceiling.
    pub open spec fn wf(self) -> bool {
        self.used <= self.limit
    }

    /// A fresh meter for one invocation.
    pub fn new(limit: u64) -> (r: GasMeter)
        ensures
            r.wf(),
            r.limit == limit,
            r.used == 0,
    {
        GasMeter { limit, used: 0 }
    }

    /// Charges `amount` units; refuses, changing nothing, when the ceiling
    /// would be crossed.
    pub fn charge(&mut self, amount: u64) -> (r: bool)
        requires
            old(self).wf(),
        ensures
            final(self).wf(),
            r == (old(self).used + amount <= old(self).limit),
            r ==> final(self).used == old(self).used + amount && final(self).limit == old(
                self,
            ).limit,
            !r ==> *final(self) == *old(self),
    {
        if amount <= self.limit - self.used {
            self.used = self.used + amount;
            true
        } else {
            false
        }
    }
}

/// Gas metered for decoding and verifying a module of the given length.
pub open spec fn publish_cost(len: nat) -> int {
    PUBLISH_GAS_BASE + len
}

/// Every recorded dependency resolves in the module table.
pub open spec fn deps_resolved(v: StateView, deps: Seq<(int, Seq<u8>)>) -> bool {
    forall|i: int| 0 <= i < deps.len() ==> v.modules.contains_key(#[trigger] deps[i])
}

/// Publishing at an occupied identity is accepted only when the new ABI is
/// call-compatible with the stored one.
pub open spec fn publish_compat(v: StateView, origin: int, m: ModuleDefView) -> bool {
    v.modules.contains_key((origin, m.name)) ==> abi_compatible(
        v.modules[(origin, m.name)].abi,
        m.abi,
    )
}

/// The stored record a publish of `m` with bytecode `b` leaves behind.
pub open spec fn published_rec(b: Seq<u8>, m: ModuleDefView) -> ModuleRecView {
    ModuleRecView { bytecode: b, abi: m.abi, deps: m.deps }
}

/// Publishes a module under the caller's address: decodes and verifies the
/// bytecode, meters gas for it, requires every declared dependency to
/// resolve, and, at an occupied identity, requires the replacement to be
/// call-compatible; then stages and commits the single module write.  Every
/// failure leaves the state untouched.
pub fn publish_module(
    state: &mut LedgerState,
    origin: AccountId,
    bytecode: &Vec<u8>,
    max_gas: u64,
) -> (r: Result<(), MoveError>)
    requires
        old(state).wf(),
    ensures
        final(state).wf(),
        (parse_module(bytecode@) is None ==> r == Err::<(), MoveError>(
            MoveError::InvalidModuleBytecode,
        ) && final(state)@ == old(state)@),
        (parse_module(bytecode@) matches Some(m) && publish_cost(bytecode@.len()) > max_gas
            ==> r == Err::<(), MoveError>(MoveError::GasLimitExceeded) && final(state)@ == old(state)@),
        (parse_module(bytecode@) matches Some(m) && publish_cost(bytecode@.len()) <= max_gas
            && !deps_resolved(old(state)@, m.deps) ==> r == Err::<(), MoveError>(
            MoveError::DependencyNotFound,
        ) && final(state)@ == old(state)@),
        (parse_module(bytecode@) matches Some(m) && publish_cost(bytecode@.len()) <= max_gas
            && deps_resolved(old(state)@, m.deps) && !publish_compat(
            old(state)@,
            origin.value as int,
            m,
        ) ==> r == Err::<(), MoveError>(MoveError::BackwardIncompatibleModuleUpdate) && final(state)@ == old(state)@),
        (parse_module(bytecode@) matches Some(m) ==> (publish_cost(bytecode@.len()) <= max_gas
            && deps_resolved(old(state)@, m.deps) && publish_compat(
            old(state)@,
            origin.value as int,
            m,
        ) ==> r == Ok::<(), MoveError>(()) && final(state)@.modules == old(state)@.modules.insert(
            (origin.value as int, m.name),
            published_rec(bytecode@, m),
        ) && final(state)@.resources == old(state)@.resources && final(state)@.balances == old(state)@.balances)),
{
    let addr = account_to_address(origin);
    let entry = match decode_module(bytecode, addr) {
        None => {
            return Err(MoveError::InvalidModuleBytecode);
        },
        Some(e) => e,
    };
    let ghost m = parse_module(bytecode@)->Some_0;
    let mut meter = GasMeter::new(max_gas);
    let cost_ok = if (bytecode.len() as u64) <= u64::MAX - PUBLISH_GAS_BASE {
        meter.charge(PUBLISH_GAS_BASE + bytecode.len() as u64)
    } else {
        false
    };
    if !cost_ok {
        return Err(MoveError::GasLimitExceeded);
    }
    // Dependencies must resolve in the registry.
    let mut i: usize = 0;
    while i < entry.deps.len()
        invariant
            state == old(state),
            state.wf(),
            0 <= i <= entry.deps@.len(),
            parse_module(bytecode@) == Some(m),
            publish_cost(bytecode@.len()) <= max_gas,
            entry.deps@.map_values(|d: crate::state::ModuleId| d@) == m.deps,
            m.deps.len() == entry.deps@.len(),
            forall|k: int| 0 <= k < i ==> state@.modules.contains_key(#[trigger] m.deps[k]),
        decreases entry.deps@.len() - i,
    {
        let d = &entry.deps[i];
        proof {
            assert(m.deps[i as int] == entry.deps@[i as int]@);
        }
        if state.read_module(d.addr, &d.name).is_none() {
            proof {
                assert(!deps_resolved(old(state)@, m.deps));
            }
            return Err(MoveError::DependencyNotFound);
        }
        i = i + 1;
    }
    proof {
        assert(deps_resolved(old(state)@, m.deps));
    }
    // An update of an occupied identity must be backward compatible.
    match state.read_module(addr, &entry.name) {
        Some(stored) => {
            let report = check_compatible(&stored.abi, &entry.abi);
            if !report.is_compatible() {
                proof {
                    assert(!publish_compat(old(state)@, origin.value as int, m));
                }
                return Err(MoveError::BackwardIncompatibleModuleUpdate);
            }
        },
        None => {},
    }
    proof {
        assert(publish_compat(old(state)@, origin.value as int, m));
    }
    let ghost k = mkey(entry);
    let ghost rec = mrec(entry);
    let mut effects = EffectSet::new();
    effects.stage(Change::WriteModule { entry });
    proof {
        assert(effects@ =~= seq![
            ChangeView::WriteModule { key: k, rec },
        ]);
        assert(effects_wf(effects@));
    }
    state.commit(effects);
    proof {
        let c = ChangeView::WriteModule { key: k, rec };
        assert(seq![c].drop_last() =~= Seq::<ChangeView>::empty());
        assert(apply_effects(old(state)@, Seq::<ChangeView>::empty()) == old(state)@);
        assert(seq![c].last() == c);
        assert(apply_effects(old(state)@, seq![c]) == apply_change(old(state)@, c));
        assert(rec =~= published_rec(bytecode@, m));
        assert(k == (origin.value as int, m.name));
    }
    Ok(())
}

/// The exact result of settling one engine outcome: the state an execution
/// leaves behind and what it reports.  Shared by the committing path and
/// the estimating path.
pub open spec fn settle_spec(
    v: StateView,
    caller: int,
    owner: int,
    value: u64,
    max_gas: u64,
    status: u64,
    gas: u64,
    effects: Seq<ChangeView>,
) -> (StateView, Result<ExecReceipt, MoveError>) {
    if gas > max_gas {
        (
            v,
            Err(
                MoveError::ExecutionFailed {
                    vm_status_code: STATUS_OUT_OF_GAS,
                    gas_used: max_gas,
                },
            ),
        )
    } else if status != STATUS_EXECUTED {
        (v, Err(MoveError::ExecutionFailed { vm_status_code: status, gas_used: gas }))
    } else if !effects_module_free(effects) {
        (
            v,
            Err(
                MoveError::ExecutionFailed {
                    vm_status_code: STATUS_REJECTED_EFFECTS,
                    gas_used: gas,
                },
            ),
        )
    } else if !LedgerState::spec_can_transfer(v, caller, owner, value) {
        (
            v,
            Err(
                MoveError::ExecutionFailed {
                    vm_status_code: STATUS_INSUFFICIENT_BALANCE,
                    gas_used: gas,
                },
            ),
        )
    } else {
        (
            apply_effects(LedgerState::spec_transfer(v, caller, owner, value), effects),
            Ok(ExecReceipt { vm_status_code: STATUS_EXECUTED, gas_used: gas }),
        )
    }
}

/// Settles one engine outcome against committed state: on a clean outcome
/// within the gas ceiling, commits the effect set and the value transfer as
/// one step; on any fault, discards everything.  A script outcome that
/// tries to write a module is refused.
pub fn settle_execution(
    state: &mut LedgerState,
    caller: AccountId,
    owner: AccountId,
    value: u64,
    max_gas: u64,
    outcome: EngineOutcome,
) -> (r: Result<ExecReceipt, MoveError>)
    requires
        old(state).wf(),
    ensures
        final(state).wf(),
        final(state)@ == settle_spec(
            old(state)@,
            caller.value as int,
            owner.value as int,
            value,
            max_gas,
            outcome.vm_status_code,
            outcome.gas_used,
            outcome.effects@,
        ).0,
        r == settle_spec(
            old(state)@,
            caller.value as int,
            owner.value as int,
            value,
            max_gas,
            outcome.vm_status_code,
            outcome.gas_used,
            outcome.effects@,
        ).1,
{
    if outcome.gas_used > max_gas {
        return Err(
            MoveError::ExecutionFailed { vm_status_code: STATUS_OUT_OF_GAS, gas_used: max_gas },
        );
    }
    if outcome.vm_status_code != STATUS_EXECUTED {
        return Err(
            MoveError::ExecutionFailed {
                vm_status_code: outcome.vm_status_code,
                gas_used: outcome.gas_used,
            },
        );
    }
    let mut module_free = true;
    let mut i: usize = 0;
    while i < outcome.effects.changes.len()
        invariant
            0 <= i <= outcome.effects.changes@.len(),
            module_free == (forall|k: int| 0 <= k < i ==> !(#[trigger] outcome.effects@[k]
                is WriteModule)),
        decreases outcome.effects.changes@.len() - i,
    {
        match &outcome.effects.changes[i] {
            Change::WriteModule { entry } => {
                proof {
                    assert(outcome.effects@[i as int] is WriteModule);
                }
                module_free = false;
            },
            _ => {
                proof {
                    assert(!(outcome.effects@[i as int] is WriteModule));
                }
            },
        }
        i = i + 1;
    }
    if !module_free {
        return Err(
            MoveError::ExecutionFailed {
                vm_status_code: STATUS_REJECTED_EFFECTS,
                gas_used: outcome.gas_used,
            },
        );
    }
    proof {
        assert(effects_module_free(outcome.effects@));
        assert(effects_wf(outcome.effects@));
    }
    if !state.try_transfer(caller, owner, value) {
        return Err(
            MoveError::ExecutionFailed {
                vm_status_code: STATUS_INSUFFICIENT_BALANCE,
                gas_used: outcome.gas_used,
            },
        );
    }
    state.commit(outcome.effects);
    Ok(ExecReceipt { vm_status_code: STATUS_EXECUTED, gas_used: outcome.gas_used })
}

/// Executes a script transaction: decodes it, resolves the target module,
/// runs the engine, and settles the outcome.  An optional `value` is
/// transferred from the caller to the module's owning address in the same
/// commit as the effect set.  On any fault the state is exactly as before
/// the call; on success the module table is untouched and only resources
/// and the two balances change.
pub fn execute<E: ExecutionEngine>(
    state: &mut LedgerState,
    engine: &E,
    origin: AccountId,
    transaction: &Vec<u8>,
    max_gas: u64,
    value: u64,
) -> (r: Result<ExecReceipt, MoveError>)
    requires
        old(state).wf(),
    ensures
        final(state).wf(),
        (parse_transaction(transaction@) is None ==> r == Err::<ExecReceipt, MoveError>(
            MoveError::InvalidTransaction,
        )),
        (parse_transaction(transaction@) matches Some(t) && !old(state)@.modules.contains_key(
            (t.addr, t.module),
        ) ==> r == Err::<ExecReceipt, MoveError>(MoveError::UnknownModule)),
        (r matches Err(e) ==> final(state)@ == old(state)@),
        (r matches Ok(rc) ==> rc.vm_status_code == STATUS_EXECUTED && rc.gas_used <= max_gas
            && (parse_transaction(transaction@) matches Some(t) && {
            let caller = origin.value as int;
            let owner = t.addr;
            &&& old(state)@.modules.contains_key((t.addr, t.module))
            &&& LedgerState::spec_can_transfer(old(state)@, caller, owner, value)
            &&& exists|effects: Seq<ChangeView>|
                effects_module_free(effects) && final(state)@ == apply_effects(
                    LedgerState::spec_transfer(old(state)@, caller, owner, value),
                    effects,
                )
            &&& final(state)@.modules == old(state)@.modules
            &&& final(state)@.balances == LedgerState::spec_transfer(
                old(state)@,
                caller,
                owner,
                value,
            ).balances
        })),
{
    let tx = match decode_transaction(transaction) {
        None => {
            return Err(MoveError::InvalidTransaction);
        },
        Some(t) => t,
    };
    let outcome = match state.read_module(tx.module_addr, &tx.module_name) {
        None => {
            return Err(MoveError::UnknownModule);
        },
        Some(module) => engine.run_entry(state, module, &tx.function, &tx.args, max_gas),
    };
    let owner = crate::addr::address_to_account(tx.module_addr);
    let ghost effects_view = outcome.effects@;
    let r = settle_execution(state, origin, owner, value, max_gas, outcome);
    proof {
        if r is Ok {
            lemma_module_free_effects(
                LedgerState::spec_transfer(
                    old(state)@,
                    origin.value as int,
                    owner.value as int,
                    value,
                ),
                effects_view,
            );
        }
    }
    r
}

} // verus!

verus! {

/// Some module's recorded dependency list names `k`.
pub open spec fn depended_on(v: StateView, k: (int, Seq<u8>)) -> bool {
    exists|k2: (int, Seq<u8>)|
        #[trigger] v.modules.contains_key(k2) && v.modules[k2].deps.contains(k)
}

/// One module of the reserved namespace survives a bundle upgrade: every
/// bundle module of its name must be call-compatible with it, and a module
/// the bundle silently drops must not be depended on by anything.
pub open spec fn stdlib_entry_ok(v: StateView, ms: Seq<crate::codec::ModuleDefView>, k: (
    int,
    Seq<u8>,
)) -> bool {
    &&& forall|i: int|
        0 <= i < ms.len() && (#[trigger] ms[i]).name == k.1 ==> abi_compatible(
            v.modules[k].abi,
            ms[i].abi,
        )
    &&& ((forall|i: int| 0 <= i < ms.len() ==> (#[trigger] ms[i]).name != k.1) ==> !depended_on(
        v,
        k,
    ))
}

/// The whole existing dependent surface accepts the bundle: every module
/// currently in the reserved namespace is compatible with its replacement,
/// and nothing the bundle drops is still depended on.
pub open spec fn bundle_compatible(v: StateView, ms: Seq<crate::codec::ModuleDefView>) -> bool {
    forall|k: (int, Seq<u8>)|
        #[trigger] v.modules.contains_key(k) && k.0 == STDLIB_ADDRESS ==> stdlib_entry_ok(
            v,
            ms,
            k,
        )
}

/// The module table after every bundle module is written, in order.
pub open spec fn apply_bundle_mods(
    mods: Map<(int, Seq<u8>), ModuleRecView>,
    ms: Seq<crate::codec::ModuleDefView>,
) -> Map<(int, Seq<u8>), ModuleRecView>
    decreases ms.len(),
{
    if ms.len() == 0 {
        mods
    } else {
        apply_bundle_mods(mods, ms.drop_last()).insert(
            (STDLIB_ADDRESS as int, ms.last().name),
            ModuleRecView {
                bytecode: enc_module(ms.last()),
                abi: ms.last().abi,
                deps: ms.last().deps,
            },
        )
    }
}

/// Finds the bundle entry of the given name.
fn find_bundle_entry(entries: &Vec<ModuleEntry>, name: &Vec<u8>) -> (r: Option<usize>)
    ensures
        (r matches Some(j) ==> j < entries@.len() && entries@[j as int].name@ == name@),
        (r is None ==> forall|j: int| 0 <= j < entries@.len() ==> entries@[j].name@ != name@),
{
    let mut i: usize = 0;
    while i < entries.len()
        invariant
            0 <= i <= entries@.len(),
            forall|j: int| 0 <= j < i ==> entries@[j].name@ != name@,
        decreases entries@.len() - i,
    {
        if crate::compat::bytes_equal(&entries[i].name, name) {
            return Some(i);
        }
        i = i + 1;
    }
    None
}

/// Whether any module of the table records a dependency on (addr, name).
fn is_depended_on(state: &LedgerState, addr: u64, name: &Vec<u8>) -> (r: bool)
    requires
        state.wf(),
    ensures
        r == depended_on(state@, (addr as int, name@)),
{
    let ghost k = (addr as int, name@);
    let mut i: usize = 0;
    while i < state.modules.len()
        invariant
            state.wf(),
            k == (addr as int, name@),
            0 <= i <= state.modules@.len(),
            forall|a: int, d: int|
                0 <= a < i && 0 <= d < state.modules@[a].deps@.len() ==> (#[trigger] state.modules@[a].deps@[d])@ != k,
        decreases state.modules@.len() - i,
    {
        let e = &state.modules[i];
        let mut d: usize = 0;
        while d < e.deps.len()
            invariant
                state.wf(),
                0 <= i < state.modules@.len(),
                *e == state.modules@[i as int],
                k == (addr as int, name@),
                0 <= d <= e.deps@.len(),
                forall|x: int| 0 <= x < d ==> e.deps@[x]@ != k,
            decreases e.deps@.len() - d,
        {
            let dep = &e.deps[d];
            if dep.addr.value == addr && crate::compat::bytes_equal(&dep.name, name) {
                proof {
                    crate::assoc::lemma_assoc_index(state.mpairs(), i as int);
                    assert(state@.modules.contains_key(mkey(state.modules@[i as int])));
                    assert(state@.modules[mkey(state.modules@[i as int])] == mrec(
                        state.modules@[i as int],
                    ));
                    assert(mrec(state.modules@[i as int]).deps[d as int] == k);
                    assert(mrec(state.modules@[i as int]).deps.contains(k));
                }
                return true;
            }
            d = d + 1;
        }
        i = i + 1;
    }
    proof {
        if depended_on(state@, k) {
            let k2 = choose|k2: (int, Seq<u8>)|
                #[trigger] state@.modules.contains_key(k2) && state@.modules[k2].deps.contains(
                    k,
                );
            crate::assoc::lemma_assoc_contains(state.mpairs(), k2);
            let a = choose|a: int|
                0 <= a < state.mpairs().len() && state.mpairs()[a].0 == k2 && state.mpairs()[a].1
                    == crate::assoc::assoc_map(state.mpairs())[k2];
            let deps = mrec(state.modules@[a]).deps;
            let d = choose|d: int| 0 <= d < deps.len() && deps[d] == k;
            assert(state.modules@[a].deps@[d]@ == k);
            assert(false);
        }
    }
    false
}

/// The staged changes a bundle upgrade commits.
pub open spec fn bundle_changes(ms: Seq<crate::codec::ModuleDefView>) -> Seq<ChangeView> {
    ms.map_values(
        |m: crate::codec::ModuleDefView| ChangeView::WriteModule {
            key: (STDLIB_ADDRESS as int, m.name),
            rec: ModuleRecView { bytecode: enc_module(m), abi: m.abi, deps: m.deps },
        },
    )
}

/// Applying a bundle's changes writes exactly the bundle modules and
/// touches nothing else.
pub proof fn lemma_apply_bundle(v: StateView, ms: Seq<crate::codec::ModuleDefView>)
    ensures
        apply_effects(v, bundle_changes(ms)).modules == apply_bundle_mods(v.modules, ms),
        apply_effects(v, bundle_changes(ms)).resources == v.resources,
        apply_effects(v, bundle_changes(ms)).balances == v.balances,
    decreases ms.len(),
{
    if ms.len() > 0 {
        assert(bundle_changes(ms).drop_last() =~= bundle_changes(ms.drop_last()));
        lemma_apply_bundle(v, ms.drop_last());
        assert(bundle_changes(ms).last() == ChangeView::WriteModule {
            key: (STDLIB_ADDRESS as int, ms.last().name),
            rec: ModuleRecView {
                bytecode: enc_module(ms.last()),
                abi: ms.last().abi,
                deps: ms.last().deps,
            },
        });
    } else {
        assert(bundle_changes(ms) =~= Seq::<ChangeView>::empty());
    }
}

/// Whether the whole existing dependent surface accepts a decoded bundle:
/// every module currently in the reserved namespace must be call-compatible
/// with its replacement in the bundle, and a module the bundle silently
/// drops must not be depended on by anything.  Pure: reads, never writes.
/// Shared by the committing upgrade and the estimating path, so the two
/// report the same verdict for the same bundle and state.
pub fn check_bundle_surface(state: &LedgerState, entries: &Vec<ModuleEntry>) -> (r: bool)
    requires
        state.wf(),
        forall|j: int| 0 <= j < entries@.len() ==> abi_wf((#[trigger] entries@[j]).abi@),
        forall|i: int, j: int|
            0 <= i < j < entries@.len() ==> entries@[i].name@ != entries@[j].name@,
    ensures
        r == bundle_compatible(
            state@,
            entries@.map_values(|e: ModuleEntry| crate::codec::entry_def(e)),
        ),
{
    let ghost ms = entries@.map_values(|e: ModuleEntry| crate::codec::entry_def(e));
    proof {
        assert(crate::codec::bundle_names_unique(ms)) by {
            assert forall|i2: int, j2: int| 0 <= i2 < j2 < ms.len() implies ms[i2].name
                != ms[j2].name by {
                assert(ms[i2].name == entries@[i2].name@);
                assert(ms[j2].name == entries@[j2].name@);
            };
        };
    }
    let mut i: usize = 0;
    while i < state.modules.len()
        invariant
            state.wf(),
            0 <= i <= state.modules@.len(),
            ms == entries@.map_values(|e: ModuleEntry| crate::codec::entry_def(e)),
            entries@.len() == ms.len(),
            crate::codec::bundle_names_unique(ms),
            forall|j: int|
                0 <= j < entries@.len() ==> (#[trigger] entries@[j]).name@ == ms[j].name
                    && entries@[j].abi@ == ms[j].abi && abi_wf(entries@[j].abi@),
            forall|a: int|
                0 <= a < i && mkey(#[trigger] state.modules@[a]).0 == STDLIB_ADDRESS
                    ==> stdlib_entry_ok(state@, ms, mkey(state.modules@[a])),
        decreases state.modules@.len() - i,
    {
        let e = &state.modules[i];
        let ghost k = mkey(state.modules@[i as int]);
        if e.addr.value == STDLIB_ADDRESS {
            proof {
                crate::assoc::lemma_assoc_index(state.mpairs(), i as int);
            }
            match find_bundle_entry(&entries, &e.name) {
                Some(j) => {
                    let report = check_compatible(&e.abi, &entries[j].abi);
                    if !report.is_compatible() {
                        proof {
                            assert(ms[j as int].name == k.1);
                            assert(!abi_compatible(state@.modules[k].abi, ms[j as int].abi));
                            assert(!stdlib_entry_ok(state@, ms, k));
                            assert(state@.modules.contains_key(k) && k.0 == STDLIB_ADDRESS);
                            assert(!bundle_compatible(state@, ms));
                        }
                        return false;
                    }
                    proof {
                        assert forall|x: int|
                            0 <= x < ms.len() && (#[trigger] ms[x]).name == k.1 implies
                            abi_compatible(state@.modules[k].abi, ms[x].abi) by {
                            assert(ms[j as int].name == k.1);
                            if x != j as int {
                                assert(ms[x].name != ms[j as int].name);
                            }
                        };
                        assert(stdlib_entry_ok(state@, ms, k));
                    }
                },
                None => {
                    if is_depended_on(state, STDLIB_ADDRESS, &e.name) {
                        proof {
                            assert forall|x: int| 0 <= x < ms.len() implies (#[trigger] ms[x]).name
                                != k.1 by {
                                assert(entries@[x].name@ == ms[x].name);
                            };
                            assert(!stdlib_entry_ok(state@, ms, k));
                            assert(state@.modules.contains_key(k) && k.0 == STDLIB_ADDRESS);
                            assert(!bundle_compatible(state@, ms));
                        }
                        return false;
                    }
                    proof {
                        assert forall|x: int| 0 <= x < ms.len() implies (#[trigger] ms[x]).name
                            != k.1 by {
                            assert(entries@[x].name@ == ms[x].name);
                        };
                        assert(stdlib_entry_ok(state@, ms, k));
                    }
                },
            }
        }
        i = i + 1;
    }
    proof {
        assert forall|k: (int, Seq<u8>)|
            #[trigger] state@.modules.contains_key(k) && k.0 == STDLIB_ADDRESS implies
            stdlib_entry_ok(state@, ms, k) by {
            crate::assoc::lemma_assoc_contains(state.mpairs(), k);
            let a = choose|a: int|
                0 <= a < state.mpairs().len() && state.mpairs()[a].0 == k && state.mpairs()[a].1
                    == crate::assoc::assoc_map(state.mpairs())[k];
            assert(mkey(state.modules@[a]) == k);
        };
    }
    true
}

/// Upgrades the reserved standard-library namespace as one unit.  Only the
/// root origin may call it; any other origin fails at once with an
/// authorization error, whatever the bundle holds.  Every module of the
/// existing namespace, and every recorded dependency on one the bundle
/// drops, is re-checked for compatibility; one incompatibility anywhere
/// aborts the whole bundle with zero modules updated.  On success all
/// bundle modules are staged and committed as a single effect set.
pub fn update_stdlib_bundle(state: &mut LedgerState, origin: Origin, bundle: &Vec<u8>) -> (r:
    Result<(), MoveError>)
    requires
        old(state).wf(),
    ensures
        final(state).wf(),
        (!(origin is Root) ==> r == Err::<(), MoveError>(MoveError::BadOrigin) && final(state)@
            == old(state)@),
        (origin is Root && parse_bundle(bundle@) is None ==> r == Err::<(), MoveError>(
            MoveError::InvalidBundle,
        ) && final(state)@ == old(state)@),
        (origin is Root ==> (parse_bundle(bundle@) matches Some(ms) ==> (!bundle_compatible(
            old(state)@,
            ms,
        ) ==> r == Err::<(), MoveError>(MoveError::BackwardIncompatibleModuleUpdate) && final(state)@ == old(state)@))),
        (origin is Root ==> (parse_bundle(bundle@) matches Some(ms) ==> (bundle_compatible(
            old(state)@,
            ms,
        ) ==> r == Ok::<(), MoveError>(()) && final(state)@.modules == apply_bundle_mods(
            old(state)@.modules,
            ms,
        ) && final(state)@.resources == old(state)@.resources && final(state)@.balances == old(state)@.balances))),
{
    match origin {
        Origin::Signed { account } => {
            return Err(MoveError::BadOrigin);
        },
        Origin::Root => {},
    }
    let entries = match decode_bundle(bundle) {
        None => {
            return Err(MoveError::InvalidBundle);
        },
        Some(es) => es,
    };
    let ghost ms = parse_bundle(bundle@)->Some_0;
    // Re-check compatibility across the whole existing dependent surface.
    proof {
        assert(entries@.map_values(|e: ModuleEntry| crate::codec::entry_def(e)) =~= ms);
        assert forall|i2: int, j2: int| 0 <= i2 < j2 < entries@.len() implies entries@[i2].name@
            != entries@[j2].name@ by {
            assert(crate::codec::entry_def(entries@[i2]).name == ms[i2].name);
            assert(crate::codec::entry_def(entries@[j2]).name == ms[j2].name);
        };
    }
    if !check_bundle_surface(state, &entries) {
        return Err(MoveError::BackwardIncompatibleModuleUpdate);
    }
    proof {
        assert(bundle_compatible(old(state)@, ms));
    }
    // Stage every bundle module and commit them as one effect set.
    let mut entries = entries;
    let total = entries.len();
    proof {
        assert forall|x: int| 0 <= x < ms.len() implies abi_wf((#[trigger] ms[x]).abi) by {
            assert(entries@[x].abi@ == ms[x].abi);
        };
    }
    let mut effects = EffectSet::new();
    let mut k: usize = 0;
    while entries.len() > 0
        invariant
            k + entries@.len() == ms.len(),
            ms.len() == total,
            forall|x: int| 0 <= x < ms.len() ==> abi_wf((#[trigger] ms[x]).abi),
            0 <= k,
            forall|j: int|
                0 <= j < entries@.len() ==> (#[trigger] entries@[j]).addr.value
                    == STDLIB_ADDRESS && crate::codec::entry_def(entries@[j]) == ms[k + j]
                    && entries@[j].bytecode@ == enc_module(ms[k + j]) && abi_wf(
                    entries@[j].abi@,
                ),
            effects@ == bundle_changes(ms.take(k as int)),
        decreases entries@.len(),
    {
        let ghost before = entries@;
        let e = entries.remove(0);
        proof {
            assert(crate::codec::entry_def(e) == ms[k as int]);
            assert forall|j: int| 0 <= j < entries@.len() implies (#[trigger] entries@[j])
                == before[j + 1] by {};
        }
        let ghost ck = mkey(e);
        let ghost cr = mrec(e);
        effects.stage(Change::WriteModule { entry: e });
        proof {
            assert(ck == (STDLIB_ADDRESS as int, ms[k as int].name));
            assert(cr =~= ModuleRecView {
                bytecode: enc_module(ms[k as int]),
                abi: ms[k as int].abi,
                deps: ms[k as int].deps,
            });
            assert(ms.take(k as int).push(ms[k as int]) =~= ms.take(k as int + 1));
            assert(effects@ =~= bundle_changes(ms.take(k as int + 1)));
        }
        k = k + 1;
    }
    proof {
        assert(ms.take(ms.len() as int) =~= ms);
        assert(effects_wf(effects@)) by {
            assert forall|x: int|
                0 <= x < effects@.len() implies (#[trigger] effects@[x] matches
                ChangeView::WriteModule { key, rec } ==> abi_wf(rec.abi)) by {
                assert(effects@[x] == bundle_changes(ms)[x]);
            };
        };
    }
    let ghost pre = state@;
    state.commit(effects);
    proof {
        lemma_apply_bundle(pre, ms);
    }
    Ok(())
}

} // verus!
